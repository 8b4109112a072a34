use knotter_api::ball::BallEntity;
use knotter_api::dto::InsertBallResponseDto;
use knotter_api::errors::{MyError, Rejection};
use knotter_api::event_log::next_event_id;
use knotter_api::geometry::{
    is_tangential, is_valid_distance_from_others, Globe, ImpulseEntity, PositionEntity,
};
use knotter_api::globe_id::{compose_globe_id, generate_globe_id, generate_word, process_globe_id};
use knotter_api::keys::{get_after_dashdash, log_key, page_from_scan, scan_end, scan_start};
use knotter_api::projection::fixed_positions;
use knotter_api::text::{format_event_id, same_text, text_lt};
use knotter_api::validation::{
    decide_delete, decide_insert, validate_impulse_direction, validate_impulse_magnitude,
    ValidationService,
};
use std::collections::HashMap;

fn on_top() -> Option<PositionEntity> {
    Some(PositionEntity { x: 0, y: 0, z: 1_000_000 })
}

fn candidate(is_fixed: bool) -> BallEntity {
    BallEntity {
        is_fixed,
        is_insert: true,
        uuid: 7,
        color: Some("#ABCDEF01".to_string()),
        position: on_top(),
        impulse: if is_fixed { None } else { Some(ImpulseEntity { x: 0, y: 200_000, z: 0 }) },
    }
}

fn rejection_text(r: Result<(), Rejection>) -> String {
    match r {
        Err(why) => why.message(),
        Ok(()) => panic!("expected a rejection"),
    }
}

#[test]
fn distance_squared_is_exact() {
    let p = PositionEntity { x: 3, y: -4, z: 12 };
    let q = PositionEntity { x: 0, y: 0, z: 0 };
    assert_eq!(p.distance_squared(&q), 169);
    let far = PositionEntity { x: i32::MIN, y: i32::MIN, z: i32::MIN };
    let other = PositionEntity { x: i32::MAX, y: i32::MAX, z: i32::MAX };
    assert_eq!(far.distance_squared(&other), 3 * (u32::MAX as i128) * (u32::MAX as i128));
}

#[test]
fn globe_contains_the_shell_only() {
    assert!(Globe::contains(&PositionEntity { x: 600_000, y: 800_000, z: 0 }));
    assert!(!Globe::contains(&PositionEntity { x: 0, y: 0, z: 0 }));
    assert!(!Globe::contains(&PositionEntity { x: 0, y: 1_051_001, z: 0 }));
}

#[test]
fn distance_from_others() {
    let p = PositionEntity { x: 0, y: 0, z: 1_000_000 };
    assert!(is_valid_distance_from_others(&p, &vec![]));
    assert!(is_valid_distance_from_others(&p, &vec![PositionEntity { x: 100_000, y: 0, z: 1_000_000 }]));
    assert!(!is_valid_distance_from_others(&p, &vec![
        PositionEntity { x: 500_000, y: 0, z: 1_000_000 },
        PositionEntity { x: 0, y: 1_000, z: 1_000_000 },
    ]));
}

#[test]
fn impulse_direction_and_magnitude() {
    let p = PositionEntity { x: 0, y: 0, z: 1_000_000 };
    assert!(is_tangential(&p, &ImpulseEntity { x: 1, y: 0, z: 0 }));
    assert!(is_tangential(&p, &ImpulseEntity { x: 0, y: 0, z: 0 }));
    // cosine just under one thousandth passes, just over does not
    assert!(is_tangential(&p, &ImpulseEntity { x: 1_000, y: 0, z: 1 }));
    assert!(!is_tangential(&p, &ImpulseEntity { x: 999, y: 0, z: 1 }));
    assert!(is_tangential(&p, &ImpulseEntity { x: 1_000_000_000, y: 0, z: 0 }));
    assert!(validate_impulse_direction(&p, &ImpulseEntity { x: 0, y: 0, z: -3 }).is_err());
    assert!(validate_impulse_magnitude(&ImpulseEntity { x: 0, y: 1_000_000, z: 0 }).is_ok());
    match validate_impulse_magnitude(&ImpulseEntity { x: 600_000, y: 800_001, z: 0 }) {
        Err(MyError::ValidationError(m)) => assert_eq!(m, "Impulse magnitude is out of acceptable bounds."),
        _ => panic!("expected a magnitude error"),
    }
}

#[test]
fn each_rejection_has_its_input() {
    let alive: HashMap<u128, BallEntity> = HashMap::new();
    let mut b = candidate(true);
    b.impulse = Some(ImpulseEntity { x: 1, y: 0, z: 0 });
    assert_eq!(rejection_text(decide_insert(&b, &alive, true)), "Velocity should be None for fixed objects.");
    let mut b = candidate(true);
    b.position = None;
    assert_eq!(rejection_text(decide_insert(&b, &alive, true)), "Position is missing.");
    let mut b = candidate(true);
    b.color = None;
    assert_eq!(rejection_text(decide_insert(&b, &alive, true)), "Color is required for insertion.");
    let b = candidate(true);
    assert_eq!(rejection_text(decide_insert(&b, &alive, false)), "Invalid color value provided: #ABCDEF01");
    let mut b = candidate(false);
    b.impulse = None;
    assert_eq!(rejection_text(decide_insert(&b, &alive, true)), "Impulse is required for dynamic objects.");
    let mut b = candidate(false);
    b.impulse = Some(ImpulseEntity { x: 2_000_000, y: 0, z: 0 });
    assert_eq!(rejection_text(decide_insert(&b, &alive, true)), "Impulse magnitude is out of acceptable bounds.");
    assert!(decide_insert(&candidate(false), &alive, true).is_ok());
    let mut taken: HashMap<u128, BallEntity> = HashMap::new();
    taken.insert(7, candidate(false));
    assert_eq!(rejection_text(decide_insert(&candidate(false), &taken, true)), "Object UUID is already in use.");
    assert!(decide_delete(7, &taken).is_ok());
    assert_eq!(rejection_text(decide_delete(8, &taken)), "Cannot delete: UUID not found.");
}

#[test]
fn rejection_becomes_validation_error() {
    match Rejection::TooClose.into_error() {
        MyError::ValidationError(m) => assert_eq!(m, "Ball is too close to other fixed objects."),
        _ => panic!("expected a validation error"),
    }
}

#[test]
fn colors_are_eight_hex_digits() {
    assert!(ValidationService::validate_color("#FF0000FF"));
    assert!(ValidationService::validate_color("#a1b2c3d4"));
    assert!(!ValidationService::validate_color("#ff0000"));
    assert!(!ValidationService::validate_color("red"));
    assert!(!ValidationService::validate_color("#GG0000FF"));
}

#[test]
fn check_insert_uses_the_color_format() {
    let service = ValidationService::new();
    let alive: HashMap<u128, BallEntity> = HashMap::new();
    let mut b = candidate(true);
    b.color = Some("red".to_string());
    match service.check_insert(&b, &alive) {
        Err(MyError::ValidationError(m)) => assert_eq!(m, "Invalid color value provided: red"),
        _ => panic!("expected a color error"),
    }
    assert!(service.check_insert(&candidate(true), &alive).is_ok());
}

#[test]
fn fixed_positions_lists_alive_fixed_balls() {
    let mut alive: HashMap<u128, BallEntity> = HashMap::new();
    alive.insert(1, candidate(true));
    alive.insert(2, candidate(false));
    let r = fixed_positions(&alive);
    assert_eq!(r, vec![PositionEntity { x: 0, y: 0, z: 1_000_000 }]);
}

#[test]
fn globe_ids_are_lowercased_and_checked() {
    assert_eq!(process_globe_id("BaBa12CeCe").ok().unwrap(), "baba12cece");
    match process_globe_id("abcdefghijklm") {
        Err(MyError::ValidationError(m)) => assert_eq!(m, "globe_id should not be longer than 12 characters"),
        _ => panic!("expected a length error"),
    }
    match process_globe_id("baba1xcece") {
        Err(MyError::ValidationError(m)) => assert_eq!(m, "globe_id is not valid."),
        _ => panic!("expected a format error"),
    }
    assert!(process_globe_id("baba12cece--x").is_err());
}

#[test]
fn minted_globe_ids_have_the_globe_id_shape() {
    for _ in 0..20 {
        let id = generate_globe_id();
        assert_eq!(id.len(), 10);
        assert!(process_globe_id(&id).is_ok(), "{} does not pass the check", id);
    }
    let w = generate_word(&['a'], &['z']);
    assert_eq!(w, "zaza");
}

#[test]
fn event_ids_have_fixed_width() {
    assert_eq!(format_event_id(0), "00000000000000000000");
    assert_eq!(format_event_id(42), "00000000000000000042");
    assert_eq!(format_event_id(u64::MAX), "18446744073709551615");
    assert_eq!(next_event_id(10, 5), Some(10));
    assert_eq!(next_event_id(5, 5), Some(6));
    assert_eq!(next_event_id(0, u64::MAX), None);
}

#[test]
fn keys_and_their_ids() {
    assert_eq!(log_key("baba12cece", "007"), "baba12cece--007");
    assert_eq!(scan_start("baba12cece", "0"), "baba12cece--");
    assert_eq!(scan_start("baba12cece", "12"), "baba12cece--12");
    assert_eq!(scan_end("g"), "g--\u{10ffff}");
    assert_eq!(get_after_dashdash("baba12cece--123"), Some("123"));
    assert_eq!(get_after_dashdash("a--b--c"), Some("b"));
    assert_eq!(get_after_dashdash("--"), Some(""));
    assert_eq!(get_after_dashdash("abc"), None);
    assert!(same_text("abc", "abc"));
    assert!(!same_text("abc", "abd"));
    assert!(text_lt("0", "00"));
    assert!(text_lt("09", "1"));
    assert!(!text_lt("1", "1"));
}

#[test]
fn pages_skip_only_the_cursor_entry() {
    let scanned = |ids: &[&str]| -> Vec<(String, String)> {
        ids.iter().map(|i| (format!("g--{}", i), format!("v{}", i))).collect()
    };
    let page = page_from_scan(scanned(&["5", "6"]), "g", "5");
    assert_eq!(page, vec![("g--6".to_string(), "v6".to_string())]);
    let page = page_from_scan(scanned(&["6", "7"]), "g", "5");
    assert_eq!(page.len(), 2);
    let many: Vec<String> = (0..15).map(|i| format!("{:02}", i)).collect();
    let refs: Vec<&str> = many.iter().map(|s| s.as_str()).collect();
    assert_eq!(page_from_scan(scanned(&refs), "g", "0").len(), 10);
    assert_eq!(page_from_scan(scanned(&refs), "g", "00").len(), 10);
    assert_eq!(page_from_scan(scanned(&refs), "g", "00")[0].0, "g--01");
}

#[test]
fn insert_response_carries_the_id() {
    let r = InsertBallResponseDto::inserted("g".to_string(), "42".to_string());
    assert_eq!(r.message, "Successfully inserted.");
    assert_eq!(r.transaction_id, "42");
}

#[test]
fn globe_ids_compose_and_digits_are_ascii() {
    assert_eq!(compose_globe_id("bobo".to_string(), 0, 9, "kiki"), "bobo09kiki");
    assert!(process_globe_id("bobo09kiki").is_ok());
    assert!(process_globe_id("bobo\u{0661}\u{0662}kiki").is_err());
    assert!(process_globe_id("bobo09kik").is_err());
    assert!(!ValidationService::validate_color("#FF0000FF0"));
    assert!(!ValidationService::validate_color("x#FF0000FF"));
}
