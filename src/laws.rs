use vstd::prelude::*;
use crate::audit::next_log;
use crate::contract::{after_grant, after_read, after_revoke, empty_patient, PatientView};
use crate::registry::{
    granted, lemma_granted_no_duplicates, lemma_revoked_contains, lemma_revoked_no_duplicates,
    no_duplicates, revoked,
};

verus! {

/// Granting a provider a second time leaves the authorization set as the
/// first grant left it, and the set holds the provider exactly once.
pub proof fn lemma_grant_twice(v: PatientView, q: Seq<u8>)
    requires
        no_duplicates(v.providers),
    ensures
        after_grant(after_grant(v, q), q) == after_grant(v, q),
        no_duplicates(after_grant(v, q).providers),
        after_grant(v, q).providers.contains(q),
{
    lemma_granted_no_duplicates(v.providers, q);
}

/// Revoking a provider that is not authorized leaves the records unchanged.
pub proof fn lemma_revoke_absent(v: PatientView, q: Seq<u8>)
    requires
        !v.providers.contains(q),
    ensures
        after_revoke(v, q) == v,
{
    lemma_revoked_unchanged(v.providers, q);
}

proof fn lemma_revoked_unchanged(s: Seq<Seq<u8>>, q: Seq<u8>)
    requires
        !s.contains(q),
    ensures
        revoked(s, q) == s,
    decreases s.len(),
{
    if s.len() > 0 {
        let d = s.drop_last();
        assert(!d.contains(q)) by {
            if d.contains(q) {
                let k = choose|k: int| 0 <= k < d.len() && d[k] == q;
                assert(s[k] == q);
            }
        }
        lemma_revoked_unchanged(d, q);
        assert(s.last() != q) by {
            assert(s[s.len() - 1] == s.last());
        }
        assert(s =~= d.push(s.last()));
    }
}

/// A change to some patient's authorization set.
pub enum AuthEvent {
    /// The patient grants the provider access.
    Grant { patient: Seq<u8>, provider: Seq<u8> },
    /// The patient revokes the provider's access.
    Revoke { patient: Seq<u8>, provider: Seq<u8> },
}

/// The records of patient `p` after the successful `events`, in order, from
/// a store that had never touched `p`.
pub open spec fn records_after(events: Seq<AuthEvent>, p: Seq<u8>) -> PatientView
    decreases events.len(),
{
    if events.len() == 0 {
        empty_patient()
    } else {
        let before = records_after(events.drop_last(), p);
        match events.last() {
            AuthEvent::Grant { patient, provider } => if patient == p {
                after_grant(before, provider)
            } else {
                before
            },
            AuthEvent::Revoke { patient, provider } => if patient == p {
                after_revoke(before, provider)
            } else {
                before
            },
        }
    }
}

/// Whether the latest of `events` that concerns patient `p` and provider `q`
/// is a grant (false when there is none).
pub open spec fn last_is_grant(events: Seq<AuthEvent>, p: Seq<u8>, q: Seq<u8>) -> bool
    decreases events.len(),
{
    if events.len() == 0 {
        false
    } else {
        match events.last() {
            AuthEvent::Grant { patient, provider } => if patient == p && provider == q {
                true
            } else {
                last_is_grant(events.drop_last(), p, q)
            },
            AuthEvent::Revoke { patient, provider } => if patient == p && provider == q {
                false
            } else {
                last_is_grant(events.drop_last(), p, q)
            },
        }
    }
}

/// A provider is authorized for a patient exactly when it was granted access
/// after the patient last revoked it (or was never revoked and was granted).
pub proof fn lemma_authorized_iff_granted_last(events: Seq<AuthEvent>, p: Seq<u8>, q: Seq<u8>)
    ensures
        records_after(events, p).providers.contains(q) == last_is_grant(events, p, q),
        no_duplicates(records_after(events, p).providers),
    decreases events.len(),
{
    if events.len() > 0 {
        let d = events.drop_last();
        lemma_authorized_iff_granted_last(d, p, q);
        let s = records_after(d, p).providers;
        match events.last() {
            AuthEvent::Grant { patient, provider } => {
                if patient == p {
                    lemma_granted_no_duplicates(s, provider);
                }
            },
            AuthEvent::Revoke { patient, provider } => {
                if patient == p {
                    lemma_revoked_contains(s, provider, q);
                    lemma_revoked_no_duplicates(s, provider);
                }
            },
        }
    }
}

/// Grants and revokes alone never create an access record: a patient whose
/// records have never been read has no latest record and a zero counter.
pub proof fn lemma_no_read_no_record(events: Seq<AuthEvent>, p: Seq<u8>)
    ensures
        records_after(events, p).log is None,
        records_after(events, p).count == 0,
    decreases events.len(),
{
    if events.len() > 0 {
        lemma_no_read_no_record(events.drop_last(), p);
    }
}

/// The records of a patient after successive authorized `reads` (each a
/// provider and the time of the read).
pub open spec fn after_reads(v: PatientView, reads: Seq<(Seq<u8>, u64)>) -> PatientView
    decreases reads.len(),
{
    if reads.len() == 0 {
        v
    } else {
        let r = reads.last();
        after_read(after_reads(v, reads.drop_last()), r.0, r.1)
    }
}

/// Successive authorized reads, by any providers, number the records one
/// past the counter, then two past it, and so on, with no gap or repeat;
/// from an untouched patient the numbers are 1, 2, 3, ...
pub proof fn lemma_counts_consecutive(v: PatientView, reads: Seq<(Seq<u8>, u64)>)
    requires
        v.count + reads.len() <= u64::MAX,
    ensures
        after_reads(v, reads).count == v.count + reads.len(),
        reads.len() > 0 ==> after_reads(v, reads).log == Some(
            next_log(reads.last().0, reads.last().1, (v.count + reads.len() - 1) as u64),
        ),
        reads.len() > 0 ==> after_reads(v, reads).log->Some_0.access_count == v.count
            + reads.len(),
    decreases reads.len(),
{
    if reads.len() > 0 {
        lemma_counts_consecutive(v, reads.drop_last());
    }
}

/// Only the latest read is kept: after reads by `q1` and then `q2`, the
/// record names `q2` and the second read's time and number.
pub proof fn lemma_latest_read_kept(v: PatientView, q1: Seq<u8>, t1: u64, q2: Seq<u8>, t2: u64)
    requires
        v.count + 2 <= u64::MAX,
    ensures
        after_read(after_read(v, q1, t1), q2, t2).log == Some(
            next_log(q2, t2, (v.count + 1) as u64),
        ),
        after_read(after_read(v, q1, t1), q2, t2).log->Some_0.accessor == q2,
{
}

} // verus!
