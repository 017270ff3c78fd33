use concourse::catalog::{Course, CourseCatalog, CourseSession};
use concourse::codec::{
    decode_enrollment, decode_privacy, encode_enrollment, encode_privacy, parse_codes, uid_of_key,
    user_key,
};
use concourse::overlap::{compare_schedules, sessions_equal};
use concourse::presence::{users_in_session, UserRecord};
use concourse::viz::choose_color;

fn mk_session(day: Option<&str>, start: i64, end: i64, location: Option<&str>) -> CourseSession {
    CourseSession {
        day: day.map(|d| d.to_string()),
        start,
        end,
        location: location.map(|l| l.to_string()),
    }
}

fn mk_course(code: i64, name: Option<&str>, sessions: Vec<CourseSession>) -> Course {
    Course {
        code,
        name: name.map(|n| n.to_string()),
        sessions,
        instructor: None,
        status: None,
        instruction_mode: None,
        flags: Vec::new(),
    }
}

#[test]
fn session_equality_is_exact() {
    let a = mk_session(Some("Monday"), 480, 530, Some("ABC 1.102"));
    let b = mk_session(Some("Monday"), 480, 530, Some("ABC 1.102"));
    assert!(sessions_equal(&a, &a));
    assert!(sessions_equal(&a, &b));
    // One minute more on the end time: not the same session.
    let c = mk_session(Some("Monday"), 480, 531, Some("ABC 1.102"));
    assert!(!sessions_equal(&a, &c));
    // An absent day is a sentinel, not a wildcard.
    let d = mk_session(None, 480, 530, Some("ABC 1.102"));
    assert!(!sessions_equal(&a, &d));
    let e = mk_session(None, 480, 530, Some("ABC 1.102"));
    assert!(sessions_equal(&d, &e));
    // A differing room alone is enough.
    let f = mk_session(Some("Monday"), 480, 530, Some("ABC 2.000"));
    assert!(!sessions_equal(&a, &f));
}

#[test]
fn enrollment_encoding_is_json_array() {
    assert_eq!(encode_enrollment(&vec![1, 2, 3]), b"[1,2,3]".to_vec());
    assert_eq!(encode_enrollment(&vec![]), b"[]".to_vec());
    assert_eq!(encode_enrollment(&vec![-7]), b"[-7]".to_vec());
    assert_eq!(encode_enrollment(&vec![0, -10]), b"[0,-10]".to_vec());
}

#[test]
fn enrollment_decoding_round_trips() {
    for codes in [
        vec![],
        vec![0],
        vec![12349, 56789, 98765],
        vec![-1, i64::MIN, i64::MAX],
    ] {
        let bytes = encode_enrollment(&codes);
        assert_eq!(decode_enrollment(&bytes), Some(codes));
    }
}

#[test]
fn malformed_enrollment_decodes_to_none() {
    assert_eq!(decode_enrollment(&b"".to_vec()), None);
    assert_eq!(decode_enrollment(&b"[1,2".to_vec()), None);
    assert_eq!(decode_enrollment(&b"1,2]".to_vec()), None);
    assert_eq!(decode_enrollment(&b"[1,,2]".to_vec()), None);
    assert_eq!(decode_enrollment(&b"[01]".to_vec()), None);
    assert_eq!(decode_enrollment(&b"[-0]".to_vec()), None);
    assert_eq!(decode_enrollment(&b"[a]".to_vec()), None);
    assert_eq!(decode_enrollment(&b"[9223372036854775808]".to_vec()), None);
}

#[test]
fn privacy_encoding_round_trips() {
    assert_eq!(encode_privacy(true), b"true".to_vec());
    assert_eq!(encode_privacy(false), b"false".to_vec());
    assert_eq!(decode_privacy(&b"true".to_vec()), Some(true));
    assert_eq!(decode_privacy(&b"false".to_vec()), Some(false));
    assert_eq!(decode_privacy(&b"tru".to_vec()), None);
    assert_eq!(decode_privacy(&b"".to_vec()), None);
}

#[test]
fn user_keys_round_trip() {
    for uid in [0u64, 1, 0xDEAD_BEEF, u64::MAX] {
        let key = user_key(uid);
        assert_eq!(key.len(), 8);
        assert_eq!(uid_of_key(&key), uid);
    }
    assert_eq!(user_key(1), vec![0, 0, 0, 0, 0, 0, 0, 1]);
    // A short key reads with zero padding on the right.
    assert_eq!(uid_of_key(&vec![1]), 1u64 << 56);
    assert_eq!(uid_of_key(&vec![]), 0);
}

#[test]
fn command_codes_parse_leniently() {
    assert_eq!(parse_codes("12349,56789,98765"), vec![12349, 56789, 98765]);
    assert_eq!(parse_codes(" 12349 ,\t56789 "), vec![12349, 56789]);
    assert_eq!(parse_codes("1,,abc,2"), vec![1, 2]);
    assert_eq!(parse_codes("+7,007,-5,-0"), vec![7, 7, -5, 0]);
    assert_eq!(parse_codes(""), Vec::<i64>::new());
    assert_eq!(parse_codes("9223372036854775807"), vec![i64::MAX]);
    assert_eq!(parse_codes("9223372036854775808"), Vec::<i64>::new());
    assert_eq!(parse_codes("-9223372036854775808"), vec![i64::MIN]);
    assert_eq!(parse_codes("1 2,3"), vec![3]);
}

#[test]
fn catalog_lookup_is_last_write_wins() {
    let first = mk_course(111, Some("CS314"), vec![]);
    let second = mk_course(111, Some("CS314H"), vec![]);
    let other = mk_course(222, Some("M408"), vec![]);
    let catalog = CourseCatalog::new(vec![first, second, other]);
    let found = catalog.get(111).expect("code 111 is present");
    assert_eq!(found.name.as_deref(), Some("CS314H"));
    assert_eq!(catalog.get(222).expect("code 222 is present").code, 222);
    assert!(catalog.get(333).is_none());
}

#[test]
fn session_overlap_is_reported_across_codes() {
    // Course 222 meets at the very same time and place as course 111.
    let shared = mk_session(Some("Monday"), 480, 530, Some("ABC 1.102"));
    let shared_again = mk_session(Some("Monday"), 480, 530, Some("ABC 1.102"));
    let catalog = CourseCatalog::new(vec![
        mk_course(111, Some("CS314"), vec![shared]),
        mk_course(222, Some("M408"), vec![shared_again]),
    ]);
    let issuer = vec![111];
    let target = vec![222];
    let marks = compare_schedules(&catalog, &issuer, &target, false);
    assert_eq!(marks.len(), 1);
    assert_eq!(marks[0].code, 222);
    assert!(!marks[0].code_shared);
    assert_eq!(marks[0].session_shared, vec![true]);
}

#[test]
fn code_overlap_takes_precedence_over_sessions() {
    let a = mk_session(Some("Monday"), 480, 530, Some("ABC 1.102"));
    let catalog = CourseCatalog::new(vec![mk_course(111, Some("CS314"), vec![a])]);
    let both = vec![111];
    let marks = compare_schedules(&catalog, &both, &both, false);
    assert_eq!(marks.len(), 1);
    assert!(marks[0].code_shared);
    // The full-code match suppresses the per-session marks.
    assert_eq!(marks[0].session_shared, vec![false]);
}

#[test]
fn self_comparison_marks_nothing() {
    let a = mk_session(Some("Monday"), 480, 530, Some("ABC 1.102"));
    let catalog = CourseCatalog::new(vec![mk_course(111, Some("CS314"), vec![a])]);
    let codes = vec![111];
    let marks = compare_schedules(&catalog, &codes, &codes, true);
    assert_eq!(marks.len(), 1);
    assert!(!marks[0].code_shared);
    assert_eq!(marks[0].session_shared, vec![false]);
}

#[test]
fn presence_scan_skips_private_users() {
    let shared = mk_session(Some("Monday"), 480, 530, Some("ABC 1.102"));
    let probe = mk_session(Some("Monday"), 480, 530, Some("ABC 1.102"));
    let catalog = CourseCatalog::new(vec![mk_course(111, Some("CS314"), vec![shared])]);
    let records = vec![
        UserRecord { user_id: 1, codes: vec![111], hidden: false },
        UserRecord { user_id: 2, codes: vec![111], hidden: true },
        UserRecord { user_id: 3, codes: vec![999], hidden: false },
    ];
    assert_eq!(users_in_session(&catalog, &records, &probe), vec![1]);
}

#[test]
fn chosen_colors_are_deterministic_palette_entries() {
    let palette = [
        "darkmagenta",
        "darkred",
        "darkslategrey",
        "darkblue",
        "darkgreen",
        "darkcyan",
        "black",
        "darkorange",
        "darkviolet",
        "darkslateblue",
        "darkorchid",
        "darkkhaki",
        "darkgoldenrod",
        "mediumblue",
        "midnightblue",
        "maroon",
        "firebrick",
        "dimgrey",
    ];
    for name in ["CS314", "M408", "", "a long course name"] {
        let color = choose_color(name);
        assert_eq!(color, choose_color(name));
        assert!(palette.contains(&color));
    }
    // The digest really depends on the name: across many names more
    // than one palette entry must appear.
    let mut seen: Vec<&str> = Vec::new();
    for i in 0..20 {
        let color = choose_color(&format!("course {}", i));
        if !seen.contains(&color) {
            seen.push(color);
        }
    }
    assert!(seen.len() > 1);
}

#[test]
fn unknown_codes_are_skipped_in_comparisons() {
    let a = mk_session(Some("Monday"), 480, 530, Some("ABC 1.102"));
    let catalog = CourseCatalog::new(vec![
        mk_course(111, Some("CS314"), vec![a]),
        mk_course(333, Some("SEMINAR"), vec![]),
    ]);
    let issuer = vec![999];
    let target = vec![999, 111, 333];
    let marks = compare_schedules(&catalog, &issuer, &target, false);
    // Code 999 resolves to nothing; 333 has no sessions.
    assert_eq!(marks.len(), 2);
    assert_eq!(marks[0].code, 111);
    assert_eq!(marks[1].code, 333);
    assert!(marks[1].session_shared.is_empty());
}
