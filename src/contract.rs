use vstd::prelude::*;
use crate::audit::{next_access_log, next_log, AccessLog, AccessLogView, AuthorizationError};
use crate::identity::Identity;
use crate::registry::{
    grant_provider, granted, ids_view, is_authorized, lemma_granted_no_duplicates,
    lemma_revoked_contains, lemma_revoked_no_duplicates, no_duplicates, revoke_provider, revoked,
};

verus! {

/// What the store holds for one patient.
pub struct PatientView {
    /// The providers currently authorized, in order of grant.
    pub providers: Seq<Seq<u8>>,
    /// How many authorized reads there have been.
    pub count: u64,
    /// The most recent authorized read, if any.
    pub log: Option<AccessLogView>,
}

/// A patient that the store has never touched.
pub open spec fn empty_patient() -> PatientView {
    PatientView { providers: Seq::empty(), count: 0, log: None }
}

/// A patient's records after `q` is granted access.
pub open spec fn after_grant(v: PatientView, q: Seq<u8>) -> PatientView {
    PatientView { providers: granted(v.providers, q), ..v }
}

/// A patient's records after `q` loses access.
pub open spec fn after_revoke(v: PatientView, q: Seq<u8>) -> PatientView {
    PatientView { providers: revoked(v.providers, q), ..v }
}

/// A patient's records after an authorized read by `q` at `timestamp`.
pub open spec fn after_read(v: PatientView, q: Seq<u8>, timestamp: u64) -> PatientView {
    PatientView {
        count: (v.count + 1) as u64,
        log: Some(next_log(q, timestamp, v.count)),
        ..v
    }
}

/// Everything stored for one patient.
struct PatientSlot {
    patient: Identity,
    providers: Vec<Identity>,
    count: u64,
    log: Option<AccessLog>,
}

spec fn log_view(l: Option<AccessLog>) -> Option<AccessLogView> {
    match l {
        Some(x) => Some(x@),
        None => None,
    }
}

spec fn slot_view(e: PatientSlot) -> PatientView {
    PatientView { providers: ids_view(e.providers@), count: e.count, log: log_view(e.log) }
}

spec fn keys_unique(s: Seq<PatientSlot>) -> bool {
    forall|i: int, j: int|
        0 <= i < s.len() && 0 <= j < s.len() && i != j ==> s[i].patient@ != s[j].patient@
}

spec fn sets_well_formed(s: Seq<PatientSlot>) -> bool {
    forall|i: int| 0 <= i < s.len() ==> no_duplicates(#[trigger] ids_view(s[i].providers@))
}

spec fn holds(s: Seq<PatientSlot>, p: Seq<u8>) -> bool {
    exists|i: int| 0 <= i < s.len() && s[i].patient@ == p
}

spec fn slot_in(s: Seq<PatientSlot>, p: Seq<u8>) -> PatientView {
    if holds(s, p) {
        slot_view(s[choose|i: int| 0 <= i < s.len() && s[i].patient@ == p])
    } else {
        empty_patient()
    }
}

proof fn lemma_slot_at(s: Seq<PatientSlot>, i: int)
    requires
        keys_unique(s),
        0 <= i < s.len(),
    ensures
        slot_in(s, s[i].patient@) == slot_view(s[i]),
{
    let p = s[i].patient@;
    assert(holds(s, p));
    let k = choose|k: int| 0 <= k < s.len() && s[k].patient@ == p;
    assert(k == i);
}

/// The records of all patients, held in memory: what the host's durable
/// store holds for this module, keyed by patient.
pub struct MedicalRecordsContract {
    slots: Vec<PatientSlot>,
}

impl MedicalRecordsContract {
    /// Patients are stored once each, and no authorization set repeats a provider.
    pub closed spec fn wf(&self) -> bool {
        keys_unique(self.slots@) && sets_well_formed(self.slots@)
    }

    /// What is stored for `p`; a patient never touched reads as empty.
    pub closed spec fn slot(&self, p: Seq<u8>) -> PatientView {
        slot_in(self.slots@, p)
    }

    /// The records of every patient are the same in both stores.
    pub open spec fn same_records(&self, other: &MedicalRecordsContract) -> bool {
        forall|p: Seq<u8>| #[trigger] self.slot(p) == other.slot(p)
    }

    /// Only the records of `patient` differ between the two stores.
    pub open spec fn others_kept(&self, other: &MedicalRecordsContract, patient: Seq<u8>) -> bool {
        forall|p: Seq<u8>| p != patient ==> #[trigger] self.slot(p) == other.slot(p)
    }

    /// No authorization set in a well-formed store repeats a provider.
    pub proof fn lemma_wf_sets(&self, p: Seq<u8>)
        requires
            self.wf(),
        ensures
            no_duplicates(self.slot(p).providers),
    {
        if holds(self.slots@, p) {
            let i = choose|i: int| 0 <= i < self.slots@.len() && self.slots@[i].patient@ == p;
            assert(no_duplicates(ids_view(self.slots@[i].providers@)));
        }
    }

    /// An empty store.
    pub fn new() -> (r: MedicalRecordsContract)
        ensures
            r.wf(),
            forall|p: Seq<u8>| #[trigger] r.slot(p) == empty_patient(),
    {
        MedicalRecordsContract { slots: Vec::new() }
    }

    fn find(&self, patient: &Identity) -> (r: Option<usize>)
        ensures
            match r {
                Some(i) => i < self.slots@.len() && self.slots@[i as int].patient@ == patient@,
                None => !holds(self.slots@, patient@),
            },
    {
        let mut i: usize = 0;
        while i < self.slots.len()
            invariant
                0 <= i <= self.slots.len(),
                forall|k: int| 0 <= k < i ==> self.slots@[k].patient@ != patient@,
            decreases self.slots.len() - i,
        {
            if self.slots[i].patient.same_as(patient) {
                return Some(i);
            }
            i = i + 1;
        }
        None
    }

    /// Remove the slot of `patient` from the store and hand it out (a fresh
    /// empty one where there is none).
    fn take_slot(&mut self, patient: Identity) -> (r: PatientSlot)
        requires
            old(self).wf(),
        ensures
            r.patient@ == patient@,
            slot_view(r) == old(self).slot(patient@),
            no_duplicates(ids_view(r.providers@)),
            final(self).wf(),
            !holds(final(self).slots@, patient@),
            final(self).others_kept(old(self), patient@),
    {
        match self.find(&patient) {
            Some(i) => {
                let ghost s = self.slots@;
                proof {
                    lemma_slot_at(s, i as int);
                }
                let e = self.slots.remove(i);
                let ghost t = self.slots@;
                assert(t =~= s.remove(i as int));
                assert(keys_unique(t)) by {
                    assert forall|a: int, b: int|
                        0 <= a < t.len() && 0 <= b < t.len() && a != b implies t[a].patient@
                        != t[b].patient@ by {
                        let a2 = if a < i { a } else { a + 1 };
                        let b2 = if b < i { b } else { b + 1 };
                        assert(t[a] == s[a2] && t[b] == s[b2]);
                    }
                }
                assert(sets_well_formed(t)) by {
                    assert forall|a: int| 0 <= a < t.len() implies no_duplicates(
                        #[trigger] ids_view(t[a].providers@),
                    ) by {
                        let a2 = if a < i { a } else { a + 1 };
                        assert(t[a] == s[a2]);
                    }
                }
                assert(!holds(t, patient@)) by {
                    if holds(t, patient@) {
                        let a = choose|a: int| 0 <= a < t.len() && t[a].patient@ == patient@;
                        let a2 = if a < i { a } else { a + 1 };
                        assert(t[a] == s[a2]);
                    }
                }
                assert forall|p: Seq<u8>| p != patient@ implies #[trigger] slot_in(t, p)
                    == slot_in(s, p) by {
                    if holds(s, p) {
                        let j = choose|j: int| 0 <= j < s.len() && s[j].patient@ == p;
                        let j2 = if j < i { j } else { j - 1 };
                        assert(t[j2] == s[j]);
                        lemma_slot_at(s, j);
                        lemma_slot_at(t, j2);
                    } else {
                        if holds(t, p) {
                            let a = choose|a: int| 0 <= a < t.len() && t[a].patient@ == p;
                            let a2 = if a < i { a } else { a + 1 };
                            assert(t[a] == s[a2]);
                        }
                    }
                }
                assert(no_duplicates(ids_view(s[i as int].providers@)));
                e
            },
            None => {
                let r = PatientSlot { patient, providers: Vec::new(), count: 0, log: None };
                assert(ids_view(r.providers@) =~= Seq::<Seq<u8>>::empty());
                r
            },
        }
    }

    /// Put back a slot taken by `take_slot`.
    fn put_slot(&mut self, e: PatientSlot)
        requires
            old(self).wf(),
            !holds(old(self).slots@, e.patient@),
            no_duplicates(ids_view(e.providers@)),
        ensures
            final(self).wf(),
            final(self).slot(e.patient@) == slot_view(e),
            final(self).others_kept(old(self), e.patient@),
    {
        let ghost s = self.slots@;
        let ghost key = e.patient@;
        self.slots.push(e);
        let ghost t = self.slots@;
        assert(t =~= s.push(e));
        assert(keys_unique(t)) by {
            assert forall|a: int, b: int|
                0 <= a < t.len() && 0 <= b < t.len() && a != b implies t[a].patient@
                != t[b].patient@ by {
                if a < s.len() && b < s.len() {
                    assert(t[a] == s[a] && t[b] == s[b]);
                } else if a < s.len() {
                    assert(t[a] == s[a]);
                } else if b < s.len() {
                    assert(t[b] == s[b]);
                }
            }
        }
        assert(sets_well_formed(t)) by {
            assert forall|a: int| 0 <= a < t.len() implies no_duplicates(
                #[trigger] ids_view(t[a].providers@),
            ) by {
                if a < s.len() {
                    assert(t[a] == s[a]);
                }
            }
        }
        proof {
            lemma_slot_at(t, s.len() as int);
        }
        assert forall|p: Seq<u8>| p != key implies #[trigger] slot_in(t, p) == slot_in(s, p) by {
            if holds(s, p) {
                let j = choose|j: int| 0 <= j < s.len() && s[j].patient@ == p;
                assert(t[j] == s[j]);
                lemma_slot_at(s, j);
                lemma_slot_at(t, j);
            } else {
                if holds(t, p) {
                    let a = choose|a: int| 0 <= a < t.len() && t[a].patient@ == p;
                    if a < s.len() {
                        assert(t[a] == s[a]);
                    }
                }
            }
        }
    }

    /// Let `provider` read the records of `patient`; only `patient` may do so.
    /// Granting a provider that is already authorized changes nothing.
    pub fn grant_access(
        &mut self,
        invoker: &Identity,
        patient: Identity,
        provider: Identity,
    ) -> (r: Result<(), AuthorizationError>)
        requires
            old(self).wf(),
        ensures
            final(self).wf(),
            r is Ok <==> invoker@ == patient@,
            r is Err ==> r == Err::<(), AuthorizationError>(AuthorizationError::NotPatient)
                && final(self).same_records(old(self)),
            r is Ok ==> final(self).slot(patient@) == after_grant(
                old(self).slot(patient@),
                provider@,
            ),
            r is Ok ==> final(self).slot(patient@).providers.contains(provider@),
            final(self).others_kept(old(self), patient@),
    {
        if !invoker.same_as(&patient) {
            return Err(AuthorizationError::NotPatient);
        }
        let e = self.take_slot(patient);
        proof {
            lemma_granted_no_duplicates(ids_view(e.providers@), provider@);
        }
        let PatientSlot { patient, providers, count, log } = e;
        let (providers, _changed) = grant_provider(providers, provider);
        self.put_slot(PatientSlot { patient, providers, count, log });
        Ok(())
    }

    /// Stop `provider` from reading the records of `patient`; only `patient`
    /// may do so. Revoking a provider that is not authorized changes nothing.
    pub fn revoke_access(
        &mut self,
        invoker: &Identity,
        patient: Identity,
        provider: Identity,
    ) -> (r: Result<(), AuthorizationError>)
        requires
            old(self).wf(),
        ensures
            final(self).wf(),
            r is Ok <==> invoker@ == patient@,
            r is Err ==> r == Err::<(), AuthorizationError>(AuthorizationError::NotPatient)
                && final(self).same_records(old(self)),
            r is Ok ==> final(self).slot(patient@) == after_revoke(
                old(self).slot(patient@),
                provider@,
            ),
            r is Ok ==> !final(self).slot(patient@).providers.contains(provider@),
            final(self).others_kept(old(self), patient@),
    {
        if !invoker.same_as(&patient) {
            return Err(AuthorizationError::NotPatient);
        }
        let mut e = self.take_slot(patient);
        proof {
            lemma_revoked_no_duplicates(ids_view(e.providers@), provider@);
            lemma_revoked_contains(ids_view(e.providers@), provider@, provider@);
        }
        e.providers = revoke_provider(&e.providers, &provider);
        self.put_slot(e);
        Ok(())
    }

    /// Record a read of the records of `patient` by `provider` at `timestamp`;
    /// only `provider` may ask, and only while authorized. The counter goes up
    /// by one and the new record replaces the previous one.
    pub fn access_records(
        &mut self,
        invoker: &Identity,
        patient: Identity,
        provider: Identity,
        timestamp: u64,
    ) -> (r: Result<(), AuthorizationError>)
        requires
            old(self).wf(),
            old(self).slot(patient@).count < u64::MAX,
        ensures
            final(self).wf(),
            r == Err::<(), AuthorizationError>(AuthorizationError::NotProvider) <==> invoker@
                != provider@,
            r == Err::<(), AuthorizationError>(AuthorizationError::NotAuthorized) <==> (invoker@
                == provider@ && !old(self).slot(patient@).providers.contains(provider@)),
            r is Ok <==> (invoker@ == provider@ && old(self).slot(patient@).providers.contains(
                provider@,
            )),
            r is Err ==> final(self).same_records(old(self)),
            r is Ok ==> final(self).slot(patient@) == after_read(
                old(self).slot(patient@),
                provider@,
                timestamp,
            ),
            final(self).others_kept(old(self), patient@),
    {
        if !invoker.same_as(&provider) {
            return Err(AuthorizationError::NotProvider);
        }
        let e = self.take_slot(patient);
        let PatientSlot { patient, providers, count, log } = e;
        match next_access_log(&providers, count, provider, timestamp) {
            Ok(entry) => {
                let count = entry.access_count;
                self.put_slot(PatientSlot { patient, providers, count, log: Some(entry) });
                Ok(())
            },
            Err(err) => {
                self.put_slot(PatientSlot { patient, providers, count, log });
                Err(err)
            },
        }
    }

    /// The most recent read of the records of `patient`, or `None` when there
    /// has been none.
    pub fn view_audit_trail(&self, patient: &Identity) -> (r: Option<AccessLog>)
        requires
            self.wf(),
        ensures
            r is None <==> self.slot(patient@).log is None,
            r is Some ==> self.slot(patient@).log == Some(r->Some_0@),
    {
        match self.find(patient) {
            Some(i) => {
                proof {
                    lemma_slot_at(self.slots@, i as int);
                }
                match &self.slots[i].log {
                    Some(l) => Some(l.duplicate()),
                    None => None,
                }
            },
            None => None,
        }
    }

    /// Whether `provider` may currently read the records of `patient`.
    pub fn is_authorized(&self, patient: &Identity, provider: &Identity) -> (r: bool)
        requires
            self.wf(),
        ensures
            r == self.slot(patient@).providers.contains(provider@),
    {
        match self.find(patient) {
            Some(i) => {
                proof {
                    lemma_slot_at(self.slots@, i as int);
                }
                is_authorized(&self.slots[i].providers, provider)
            },
            None => {
                assert(self.slot(patient@).providers =~= Seq::<Seq<u8>>::empty());
                false
            },
        }
    }

    /// The number of authorized reads of the records of `patient` so far.
    pub fn access_count(&self, patient: &Identity) -> (r: u64)
        requires
            self.wf(),
        ensures
            r == self.slot(patient@).count,
    {
        match self.find(patient) {
            Some(i) => {
                proof {
                    lemma_slot_at(self.slots@, i as int);
                }
                self.slots[i].count
            },
            None => 0,
        }
    }

    /// The providers currently authorized for `patient`, in order of grant.
    pub fn authorized_providers(&self, patient: &Identity) -> (r: Vec<Identity>)
        requires
            self.wf(),
        ensures
            ids_view(r@) == self.slot(patient@).providers,
    {
        let mut out: Vec<Identity> = Vec::new();
        match self.find(patient) {
            Some(i) => {
                proof {
                    lemma_slot_at(self.slots@, i as int);
                }
                let src = &self.slots[i].providers;
                let mut k: usize = 0;
                while k < src.len()
                    invariant
                        0 <= k <= src.len(),
                        ids_view(out@) == ids_view(src@).take(k as int),
                    decreases src.len() - k,
                {
                    let ghost before = out@;
                    out.push(src[k].duplicate());
                    assert(ids_view(out@) =~= ids_view(before).push(src@[k as int]@));
                    assert(ids_view(src@).take(k as int + 1) =~= ids_view(src@).take(k as int).push(
                        src@[k as int]@,
                    ));
                    k = k + 1;
                }
                assert(ids_view(src@).take(k as int) =~= ids_view(src@));
                out
            },
            None => {
                assert(ids_view(out@) =~= Seq::<Seq<u8>>::empty());
                out
            },
        }
    }
}

} // verus!
