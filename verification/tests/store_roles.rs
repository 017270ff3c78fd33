use concourse::catalog::{Course, CourseCatalog, CourseSession};
use concourse::roles::{reconcile_roles, RoleEntry, RoleMapping};
use concourse::store::Store;

fn temp_store() -> Store {
    let users = sled::Config::new().temporary(true).open().expect("open user tree");
    let privacy = sled::Config::new().temporary(true).open().expect("open privacy tree");
    Store::new(users, privacy)
}

fn monday_lecture() -> CourseSession {
    CourseSession {
        day: Some("Monday".to_string()),
        start: 480,
        end: 530,
        location: Some("ABC 1.102".to_string()),
    }
}

fn cs314_catalog() -> CourseCatalog {
    CourseCatalog::new(vec![Course {
        code: 111,
        name: Some("CS314".to_string()),
        sessions: vec![monday_lecture()],
        instructor: None,
        status: None,
        instruction_mode: None,
        flags: Vec::new(),
    }])
}

#[test]
fn enrollment_store_round_trips() {
    let mut store = temp_store();
    assert_eq!(store.get_enrollment(7), Vec::<i64>::new());
    store.set_enrollment(7, &vec![111, 222]).expect("write succeeds");
    assert_eq!(store.get_enrollment(7), vec![111, 222]);
    store.set_enrollment(7, &vec![333]).expect("write succeeds");
    assert_eq!(store.get_enrollment(7), vec![333]);
    assert!(store.delete_enrollment(7));
    assert!(!store.delete_enrollment(7));
    assert_eq!(store.get_enrollment(7), Vec::<i64>::new());
}

#[test]
fn long_enrollments_truncate_to_ten_in_order() {
    let mut store = temp_store();
    let twelve: Vec<i64> = (1..=12).collect();
    store.set_enrollment(7, &twelve).expect("write succeeds");
    let kept: Vec<i64> = (1..=10).collect();
    assert_eq!(store.get_enrollment(7), kept);
    // A second identical write changes nothing: same ten, same order.
    store.set_enrollment(7, &twelve).expect("write succeeds");
    assert_eq!(store.get_enrollment(7), kept);
}

#[test]
fn absent_and_empty_records_are_distinguished() {
    let mut store = temp_store();
    assert_eq!(store.enrollment_record(7), None);
    store.set_enrollment(7, &vec![]).expect("write succeeds");
    assert_eq!(store.enrollment_record(7), Some(vec![]));
}

#[test]
fn privacy_defaults_to_public() {
    let mut store = temp_store();
    assert!(!store.is_private(7));
    store.set_privacy(7, true).expect("write succeeds");
    assert!(store.is_private(7));
    store.set_privacy(7, false).expect("write succeeds");
    assert!(!store.is_private(7));
}

#[test]
fn presence_query_honours_privacy() {
    let catalog = cs314_catalog();
    let mut store = temp_store();
    let user_a = 1001u64;
    let user_b = 1002u64;
    store.set_enrollment(user_a, &vec![111]).expect("write succeeds");
    store.set_enrollment(user_b, &vec![111]).expect("write succeeds");
    let mut found = store.find_users(&catalog, &monday_lecture());
    found.sort();
    assert_eq!(found, vec![user_a, user_b]);
    store.set_privacy(user_a, true).expect("write succeeds");
    assert_eq!(store.find_users(&catalog, &monday_lecture()), vec![user_b]);
}

#[test]
fn presence_query_wants_an_exact_session() {
    let catalog = cs314_catalog();
    let mut store = temp_store();
    store.set_enrollment(5, &vec![111]).expect("write succeeds");
    let shifted = CourseSession {
        day: Some("Monday".to_string()),
        start: 480,
        end: 531,
        location: Some("ABC 1.102".to_string()),
    };
    assert_eq!(store.find_users(&catalog, &shifted), Vec::<u64>::new());
}

#[test]
fn dropped_course_revokes_its_role() {
    let catalog = cs314_catalog();
    let mapping = RoleMapping::new(vec![RoleEntry {
        course_name: "CS314".to_string(),
        role_id: 9001,
    }]);
    // The user held role 9001 but no longer has CS314 enrolled.
    let changes = reconcile_roles(&catalog, &vec![], &mapping, &vec![9001]);
    assert_eq!(changes.to_revoke, vec![9001]);
    assert_eq!(changes.to_add, Vec::<u64>::new());
}

#[test]
fn enrolled_course_grants_its_role() {
    let catalog = cs314_catalog();
    let mapping = RoleMapping::new(vec![RoleEntry {
        course_name: "CS314".to_string(),
        role_id: 9001,
    }]);
    let changes = reconcile_roles(&catalog, &vec![111], &mapping, &vec![42]);
    assert_eq!(changes.to_add, vec![9001]);
    assert_eq!(changes.to_revoke, Vec::<u64>::new());
}

#[test]
fn unmapped_roles_are_never_touched() {
    let catalog = cs314_catalog();
    let mapping = RoleMapping::new(vec![RoleEntry {
        course_name: "CS314".to_string(),
        role_id: 9001,
    }]);
    // Role 42 is outside the mapping's vocabulary: neither revoked nor granted.
    let changes = reconcile_roles(&catalog, &vec![], &mapping, &vec![42]);
    assert_eq!(changes.to_add, Vec::<u64>::new());
    assert_eq!(changes.to_revoke, Vec::<u64>::new());
}

#[test]
fn reconciliation_is_idempotent_and_disjoint() {
    let catalog = cs314_catalog();
    let mapping = RoleMapping::new(vec![
        RoleEntry { course_name: "CS314".to_string(), role_id: 9001 },
        RoleEntry { course_name: "M408".to_string(), role_id: 9002 },
    ]);
    let held = vec![9002, 42];
    let changes = reconcile_roles(&catalog, &vec![111], &mapping, &held);
    for role in &changes.to_add {
        assert!(!changes.to_revoke.contains(role));
    }
    // Apply the changes to the held set, then reconcile again.
    let mut applied: Vec<u64> = held
        .iter()
        .copied()
        .filter(|r| !changes.to_revoke.contains(r))
        .collect();
    applied.extend(changes.to_add.iter().copied());
    let again = reconcile_roles(&catalog, &vec![111], &mapping, &applied);
    assert_eq!(again.to_add, Vec::<u64>::new());
    assert_eq!(again.to_revoke, Vec::<u64>::new());
}

#[test]
fn duplicate_mapping_names_keep_the_later_role() {
    let catalog = cs314_catalog();
    let mapping = RoleMapping::new(vec![
        RoleEntry { course_name: "CS314".to_string(), role_id: 9001 },
        RoleEntry { course_name: "CS314".to_string(), role_id: 9005 },
    ]);
    let changes = reconcile_roles(&catalog, &vec![111], &mapping, &vec![]);
    assert_eq!(changes.to_add, vec![9005]);
}
