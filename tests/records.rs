use medical_records::registry::{grant_provider, is_authorized, revoke_provider};
use medical_records::audit::next_access_log;
use medical_records::{AccessLog, AuthorizationError, Identity, MedicalRecordsContract};

fn id(s: &str) -> Identity {
    Identity::new(s.as_bytes().to_vec())
}

fn names(v: &Vec<Identity>) -> Vec<Vec<u8>> {
    v.iter().map(|x| x.as_bytes().clone()).collect()
}

fn log_of(c: &MedicalRecordsContract, p: &str) -> Option<(Vec<u8>, u64, u64)> {
    c.view_audit_trail(&id(p))
        .map(|l: AccessLog| (l.accessor.as_bytes().clone(), l.timestamp, l.access_count))
}

#[test]
fn identity_equality_is_bytewise() {
    assert!(id("alice").same_as(&id("alice")));
    assert!(!id("alice").same_as(&id("alicf")));
    assert!(!id("alice").same_as(&id("alic")));
    assert!(id("") == id(""));
    assert!(id("bob") != id("bobby"));
    let d = id("carol").duplicate();
    assert_eq!(d.as_bytes(), &b"carol".to_vec());
}

#[test]
fn grant_twice_is_idempotent() {
    let mut c = MedicalRecordsContract::new();
    assert_eq!(c.grant_access(&id("pat"), id("pat"), id("doc")), Ok(()));
    let after_first = names(&c.authorized_providers(&id("pat")));
    assert_eq!(c.grant_access(&id("pat"), id("pat"), id("doc")), Ok(()));
    let after_second = names(&c.authorized_providers(&id("pat")));
    assert_eq!(after_first, after_second);
    assert_eq!(after_second, vec![b"doc".to_vec()]);
}

#[test]
fn grant_appends_in_order() {
    let mut c = MedicalRecordsContract::new();
    c.grant_access(&id("pat"), id("pat"), id("a")).unwrap();
    c.grant_access(&id("pat"), id("pat"), id("b")).unwrap();
    c.grant_access(&id("pat"), id("pat"), id("a")).unwrap();
    assert_eq!(
        names(&c.authorized_providers(&id("pat"))),
        vec![b"a".to_vec(), b"b".to_vec()]
    );
}

#[test]
fn grant_by_other_caller_is_refused() {
    let mut c = MedicalRecordsContract::new();
    assert_eq!(
        c.grant_access(&id("mallory"), id("pat"), id("doc")),
        Err(AuthorizationError::NotPatient)
    );
    assert!(!c.is_authorized(&id("pat"), &id("doc")));
    assert!(c.authorized_providers(&id("pat")).is_empty());
}

#[test]
fn revoke_absent_is_noop() {
    let mut c = MedicalRecordsContract::new();
    c.grant_access(&id("pat"), id("pat"), id("a")).unwrap();
    let before = names(&c.authorized_providers(&id("pat")));
    assert_eq!(c.revoke_access(&id("pat"), id("pat"), id("zed")), Ok(()));
    assert_eq!(names(&c.authorized_providers(&id("pat"))), before);
    // a patient never touched
    assert_eq!(c.revoke_access(&id("new"), id("new"), id("zed")), Ok(()));
    assert!(c.authorized_providers(&id("new")).is_empty());
}

#[test]
fn revoke_by_other_caller_is_refused() {
    let mut c = MedicalRecordsContract::new();
    c.grant_access(&id("pat"), id("pat"), id("doc")).unwrap();
    assert_eq!(
        c.revoke_access(&id("doc"), id("pat"), id("doc")),
        Err(AuthorizationError::NotPatient)
    );
    assert!(c.is_authorized(&id("pat"), &id("doc")));
}

#[test]
fn revoke_keeps_others_in_order() {
    let mut c = MedicalRecordsContract::new();
    for p in ["a", "b", "c"] {
        c.grant_access(&id("pat"), id("pat"), id(p)).unwrap();
    }
    c.revoke_access(&id("pat"), id("pat"), id("b")).unwrap();
    assert_eq!(
        names(&c.authorized_providers(&id("pat"))),
        vec![b"a".to_vec(), b"c".to_vec()]
    );
}

#[test]
fn authorized_iff_granted_after_last_revoke() {
    let mut c = MedicalRecordsContract::new();
    assert!(!c.is_authorized(&id("pat"), &id("doc")));
    c.grant_access(&id("pat"), id("pat"), id("doc")).unwrap();
    assert!(c.is_authorized(&id("pat"), &id("doc")));
    c.revoke_access(&id("pat"), id("pat"), id("doc")).unwrap();
    assert!(!c.is_authorized(&id("pat"), &id("doc")));
    c.grant_access(&id("pat"), id("pat"), id("doc")).unwrap();
    assert!(c.is_authorized(&id("pat"), &id("doc")));
    // other patients are separate
    assert!(!c.is_authorized(&id("other"), &id("doc")));
    c.revoke_access(&id("other"), id("other"), id("doc")).unwrap();
    assert!(c.is_authorized(&id("pat"), &id("doc")));
}

#[test]
fn access_counts_are_consecutive() {
    let mut c = MedicalRecordsContract::new();
    c.grant_access(&id("pat"), id("pat"), id("a")).unwrap();
    c.grant_access(&id("pat"), id("pat"), id("b")).unwrap();
    assert_eq!(c.access_count(&id("pat")), 0);
    let readers = ["a", "b", "a", "a", "b"];
    for (k, r) in readers.iter().enumerate() {
        c.access_records(&id(r), id("pat"), id(r), 100 + k as u64).unwrap();
        assert_eq!(c.access_count(&id("pat")), k as u64 + 1);
        assert_eq!(log_of(&c, "pat"), Some((r.as_bytes().to_vec(), 100 + k as u64, k as u64 + 1)));
    }
}

#[test]
fn unauthorized_read_changes_nothing() {
    let mut c = MedicalRecordsContract::new();
    c.grant_access(&id("pat"), id("pat"), id("a")).unwrap();
    c.access_records(&id("a"), id("pat"), id("a"), 7).unwrap();
    assert_eq!(
        c.access_records(&id("eve"), id("pat"), id("eve"), 8),
        Err(AuthorizationError::NotAuthorized)
    );
    assert_eq!(c.access_count(&id("pat")), 1);
    assert_eq!(log_of(&c, "pat"), Some((b"a".to_vec(), 7, 1)));
}

#[test]
fn read_by_other_caller_is_refused() {
    let mut c = MedicalRecordsContract::new();
    c.grant_access(&id("pat"), id("pat"), id("a")).unwrap();
    assert_eq!(
        c.access_records(&id("pat"), id("pat"), id("a"), 1),
        Err(AuthorizationError::NotProvider)
    );
    assert_eq!(c.access_count(&id("pat")), 0);
    assert_eq!(log_of(&c, "pat"), None);
}

#[test]
fn only_latest_read_is_kept() {
    let mut c = MedicalRecordsContract::new();
    c.grant_access(&id("pat"), id("pat"), id("q1")).unwrap();
    c.grant_access(&id("pat"), id("pat"), id("q2")).unwrap();
    c.access_records(&id("q1"), id("pat"), id("q1"), 10).unwrap();
    c.access_records(&id("q2"), id("pat"), id("q2"), 20).unwrap();
    assert_eq!(log_of(&c, "pat"), Some((b"q2".to_vec(), 20, 2)));
}

#[test]
fn no_record_without_a_read() {
    let mut c = MedicalRecordsContract::new();
    assert_eq!(log_of(&c, "pat"), None);
    c.grant_access(&id("pat"), id("pat"), id("doc")).unwrap();
    c.revoke_access(&id("pat"), id("pat"), id("doc")).unwrap();
    assert_eq!(log_of(&c, "pat"), None);
    assert_eq!(c.access_count(&id("pat")), 0);
    // a read of another patient's records does not create one here
    c.grant_access(&id("x"), id("x"), id("doc")).unwrap();
    c.access_records(&id("doc"), id("x"), id("doc"), 5).unwrap();
    assert_eq!(log_of(&c, "pat"), None);
}

#[test]
fn end_to_end_scenario() {
    let mut c = MedicalRecordsContract::new();
    c.grant_access(&id("P"), id("P"), id("Q")).unwrap();
    assert!(c.is_authorized(&id("P"), &id("Q")));
    c.access_records(&id("Q"), id("P"), id("Q"), 1234).unwrap();
    assert_eq!(log_of(&c, "P"), Some((b"Q".to_vec(), 1234, 1)));
    c.revoke_access(&id("P"), id("P"), id("Q")).unwrap();
    assert_eq!(
        c.access_records(&id("Q"), id("P"), id("Q"), 1300),
        Err(AuthorizationError::NotAuthorized)
    );
    assert_eq!(log_of(&c, "P"), Some((b"Q".to_vec(), 1234, 1)));
}

#[test]
fn step_functions_on_lists() {
    let list = vec![id("a"), id("b")];
    assert!(is_authorized(&list, &id("b")));
    assert!(!is_authorized(&list, &id("c")));
    let (same, changed) = grant_provider(list, id("a"));
    assert!(!changed);
    assert_eq!(names(&same), vec![b"a".to_vec(), b"b".to_vec()]);
    let (more, changed) = grant_provider(same, id("c"));
    assert!(changed);
    assert_eq!(names(&more), vec![b"a".to_vec(), b"b".to_vec(), b"c".to_vec()]);
    let fewer = revoke_provider(&more, &id("a"));
    assert_eq!(names(&fewer), vec![b"b".to_vec(), b"c".to_vec()]);
    assert_eq!(names(&revoke_provider(&Vec::new(), &id("a"))), Vec::<Vec<u8>>::new());
}

#[test]
fn next_access_log_gates_and_counts() {
    let list = vec![id("a")];
    let log = next_access_log(&list, 41, id("a"), 9).unwrap();
    assert_eq!(log.accessor.as_bytes(), &b"a".to_vec());
    assert_eq!(log.timestamp, 9);
    assert_eq!(log.access_count, 42);
    assert!(matches!(
        next_access_log(&list, 41, id("b"), 9),
        Err(AuthorizationError::NotAuthorized)
    ));
    let last = next_access_log(&list, u64::MAX - 1, id("a"), 0).unwrap();
    assert_eq!(last.access_count, u64::MAX);
}
