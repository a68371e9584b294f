use vstd::prelude::*;
use crate::identity::Identity;
use crate::registry::{ids_view, is_authorized};

verus! {

/// Why an operation was refused. A refused operation changes nothing.
#[derive(Clone, Copy, Debug, PartialEq, Eq, Structural)]
pub enum AuthorizationError {
    /// The invoker is not the patient whose set is being changed.
    NotPatient,
    /// The invoker is not the provider asking to read.
    NotProvider,
    /// The provider is not in the patient's authorization set.
    NotAuthorized,
}

/// The most recent authorized read of a patient's records.
pub struct AccessLog {
    pub accessor: Identity,
    pub timestamp: u64,
    pub access_count: u64,
}

/// The abstract value of an `AccessLog`.
pub struct AccessLogView {
    pub accessor: Seq<u8>,
    pub timestamp: u64,
    pub access_count: u64,
}

impl View for AccessLog {
    type V = AccessLogView;

    open spec fn view(&self) -> AccessLogView {
        AccessLogView {
            accessor: self.accessor@,
            timestamp: self.timestamp,
            access_count: self.access_count,
        }
    }
}

impl AccessLog {
    /// A fresh record with the same contents.
    pub fn duplicate(&self) -> (r: AccessLog)
        ensures
            r@ == self@,
    {
        AccessLog {
            accessor: self.accessor.duplicate(),
            timestamp: self.timestamp,
            access_count: self.access_count,
        }
    }
}

/// The record written by an authorized read at `timestamp`, when the
/// patient's counter stood at `count`.
pub open spec fn next_log(provider: Seq<u8>, timestamp: u64, count: u64) -> AccessLogView {
    AccessLogView { accessor: provider, timestamp, access_count: (count + 1) as u64 }
}

/// Gate a read by `provider` on the patient's authorization set and build
/// the new latest record; its `access_count` is the new counter value.
pub fn next_access_log(
    providers: &Vec<Identity>,
    count: u64,
    provider: Identity,
    timestamp: u64,
) -> (r: Result<AccessLog, AuthorizationError>)
    requires
        count < u64::MAX,
    ensures
        r is Ok <==> ids_view(providers@).contains(provider@),
        r is Err ==> r == Err::<AccessLog, AuthorizationError>(AuthorizationError::NotAuthorized),
        r is Ok ==> r->Ok_0@ == next_log(provider@, timestamp, count),
{
    if !is_authorized(providers, &provider) {
        return Err(AuthorizationError::NotAuthorized);
    }
    Ok(AccessLog { accessor: provider, timestamp, access_count: count + 1 })
}

} // verus!
