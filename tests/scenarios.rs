use knotter_api::ball::BallEntity;
use knotter_api::errors::MyError;
use knotter_api::event_log::{BallTransaction, MemoryLog};
use knotter_api::geometry::{ImpulseEntity, PositionEntity};
use knotter_api::projection::get_alive_objects_map;
use knotter_api::validation::{KeyValueStoreTrait, ValidationService};
use std::collections::HashMap;

const GLOBE: &str = "baba12cece";
const U1: u128 = 0x4d3c_bd35_41e8_40be_96d2_ac0c_4b9f_4f26;
const U2: u128 = 0x0a55_018a_3a5f_d408_b876_b7be_c638_cdda;

fn pos(x: i32, y: i32, z: i32) -> Option<PositionEntity> {
    Some(PositionEntity { x, y, z })
}

fn fixed_ball(uuid: u128, position: Option<PositionEntity>) -> BallEntity {
    BallEntity {
        is_fixed: true,
        is_insert: true,
        uuid,
        color: Some("#FF0000FF".to_string()),
        position,
        impulse: None,
    }
}

fn moving_ball(uuid: u128, position: Option<PositionEntity>, impulse: Option<ImpulseEntity>) -> BallEntity {
    BallEntity {
        is_fixed: false,
        is_insert: true,
        uuid,
        color: Some("#00ff00ff".to_string()),
        position,
        impulse,
    }
}

fn validation_message(r: Result<String, MyError>) -> String {
    match r {
        Err(MyError::ValidationError(m)) => m,
        Err(_) => panic!("expected a validation error, got another error"),
        Ok(id) => panic!("expected a validation error, got id {}", id),
    }
}

fn log_with_u1() -> MemoryLog {
    let mut log = MemoryLog::new();
    let r = log.insert(GLOBE, &fixed_ball(U1, pos(0, 0, 1_000_000)), 1_000);
    assert!(r.is_ok());
    log
}

#[test]
fn scenario_a_fixed_ball_on_surface_is_accepted() {
    let mut log = MemoryLog::new();
    let r = log.insert(GLOBE, &fixed_ball(U1, pos(0, 0, 1_000_000)), 1_700_000_000_000_000_000);
    assert_eq!(r.ok().unwrap(), "01700000000000000000");
}

#[test]
fn scenario_b_ball_far_from_surface_is_rejected() {
    let mut log = MemoryLog::new();
    let r = log.insert(GLOBE, &fixed_ball(U1, pos(0, 0, 5_000_000)), 1_000);
    assert_eq!(validation_message(r), "Ball is not on surface of sphere.");
    assert_eq!(log.events_of(GLOBE).len(), 0);
}

#[test]
fn scenario_c_fixed_ball_too_close_is_rejected() {
    let mut log = log_with_u1();
    let r = log.insert(GLOBE, &fixed_ball(U2, pos(10_000, 0, 1_000_000)), 2_000);
    assert_eq!(validation_message(r), "Ball is too close to other fixed objects.");
}

#[test]
fn scenario_d_radial_impulse_is_rejected() {
    let mut log = MemoryLog::new();
    let ball = moving_ball(U2, pos(0, 0, 1_000_000), Some(ImpulseEntity { x: 0, y: 0, z: 500_000 }));
    let r = log.insert(GLOBE, &ball, 1_000);
    assert_eq!(validation_message(r), "Impulse direction is not tangential to the globe's surface.");
}

#[test]
fn scenario_e_delete_leaves_insert_and_tombstone() {
    let mut log = log_with_u1();
    let r = log.delete(GLOBE, U1, 2_000);
    assert_eq!(r.ok().unwrap(), "00000000000000002000");
    let page: Vec<BallTransaction> = log.get_log_data(GLOBE, "0");
    assert_eq!(page.len(), 2);
    assert_eq!(page[0].ball.uuid, U1);
    assert!(page[0].ball.is_insert);
    assert_eq!(page[1].ball.uuid, U1);
    assert!(!page[1].ball.is_insert);
    assert_eq!(page[0].transaction_id, "00000000000000001000");
    assert!(!log.alive_objects(GLOBE).contains_key(&U1));
}

#[test]
fn accepted_inserts_lie_on_surface() {
    let mut log = MemoryLog::new();
    // exactly on the sphere, and exactly at the outer bound
    assert!(log.insert(GLOBE, &fixed_ball(1, pos(1_000_000, 0, 0)), 10).is_ok());
    assert!(log.insert(GLOBE, &fixed_ball(2, pos(0, 1_051_000, 0)), 20).is_ok());
    // just below and just above
    let below = log.insert(GLOBE, &fixed_ball(3, pos(0, 0, 999_999)), 30);
    assert_eq!(validation_message(below), "Ball is not on surface of sphere.");
    let above = log.insert(GLOBE, &fixed_ball(4, pos(0, 0, -1_051_001)), 40);
    assert_eq!(validation_message(above), "Ball is not on surface of sphere.");
}

#[test]
fn fixed_balls_keep_minimum_separation() {
    let mut log = log_with_u1();
    // 0.1 away on the x axis, |p| = sqrt(1.01) within the shell
    assert!(log.insert(GLOBE, &fixed_ball(2, pos(100_000, 0, 1_000_000)), 2_000).is_ok());
    let r = log.insert(GLOBE, &fixed_ball(3, pos(0, 99_999, 1_000_000)), 3_000);
    assert_eq!(validation_message(r), "Ball is too close to other fixed objects.");
    // a moving ball may come close to a fixed one
    let close = moving_ball(4, pos(0, 10_000, 1_000_000), Some(ImpulseEntity { x: 100_000, y: 0, z: 0 }));
    assert!(log.insert(GLOBE, &close, 4_000).is_ok());
    // once deleted, a fixed ball no longer blocks its place
    assert!(log.delete(GLOBE, U1, 5_000).is_ok());
    assert!(log.insert(GLOBE, &fixed_ball(5, pos(0, -20_000, 1_000_000)), 6_000).is_ok());
}

#[test]
fn separation_is_per_globe() {
    let mut log = log_with_u1();
    assert!(log.insert("fofo34gigi", &fixed_ball(U2, pos(0, 0, 1_000_000)), 2_000).is_ok());
    assert_eq!(log.events_of("fofo34gigi").len(), 1);
    assert_eq!(log.events_of(GLOBE).len(), 1);
}

#[test]
fn replaying_twice_gives_the_same_alive_set() {
    let log = {
        let mut log = log_with_u1();
        assert!(log.insert(GLOBE, &fixed_ball(U2, pos(1_000_000, 0, 0)), 2_000).is_ok());
        assert!(log.delete(GLOBE, U1, 3_000).is_ok());
        log
    };
    let events = log.events_of(GLOBE);
    let mut once = get_alive_objects_map(&events);
    let keys_once: Vec<u128> = once.keys().copied().collect();
    knotter_api::projection::replay_events(&mut once, &events);
    let mut keys_twice: Vec<u128> = once.keys().copied().collect();
    keys_twice.sort();
    assert_eq!(keys_once, vec![U2]);
    assert_eq!(keys_twice, vec![U2]);
}

#[test]
fn first_insert_heads_the_first_page() {
    let mut log = MemoryLog::new();
    let ball = moving_ball(U2, pos(0, 0, 1_000_000), Some(ImpulseEntity { x: 300_000, y: -400_000, z: 0 }));
    let id = log.insert(GLOBE, &ball, 77).ok().unwrap();
    let page = log.get_log_data(GLOBE, "0");
    assert_eq!(page.len(), 1);
    assert_eq!(page[0].transaction_id, id);
    let e = &page[0].ball;
    assert_eq!(e.uuid, U2);
    assert_eq!(e.color, Some("#00ff00ff".to_string()));
    assert_eq!(e.position, pos(0, 0, 1_000_000));
    assert!(!e.is_fixed);
    assert_eq!(e.impulse, Some(ImpulseEntity { x: 300_000, y: -400_000, z: 0 }));
}

#[test]
fn tailing_with_the_last_id_reaches_an_empty_page() {
    let mut log = MemoryLog::new();
    for k in 0..12u128 {
        let angle = (k as f64) * std::f64::consts::PI / 6.0;
        let x = (1_020_000.0 * angle.cos()).round() as i32;
        let y = (1_020_000.0 * angle.sin()).round() as i32;
        let r = log.insert(GLOBE, &fixed_ball(100 + k, pos(x, y, 0)), 5);
        assert!(r.is_ok(), "insert {} failed", k);
    }
    let first = log.get_log_data(GLOBE, "0");
    assert_eq!(first.len(), 10);
    let second = log.get_log_data(GLOBE, &first[9].transaction_id);
    assert_eq!(second.len(), 2);
    assert!(second.iter().all(|t| t.transaction_id != first[9].transaction_id));
    assert_eq!(second[0].ball.uuid, 110);
    let third = log.get_log_data(GLOBE, &second[1].transaction_id);
    assert_eq!(third.len(), 0);
}

#[test]
fn ids_never_repeat_when_the_clock_stalls() {
    let mut log = MemoryLog::new();
    let a = log.insert(GLOBE, &fixed_ball(1, pos(1_000_000, 0, 0)), 50).ok().unwrap();
    let b = log.insert(GLOBE, &fixed_ball(2, pos(-1_000_000, 0, 0)), 50).ok().unwrap();
    let c = log.delete(GLOBE, 1, 10).ok().unwrap();
    assert_eq!(a, "00000000000000000050");
    assert_eq!(b, "00000000000000000051");
    assert_eq!(c, "00000000000000000052");
}

#[test]
fn unknown_cursor_skips_nothing() {
    let mut log = MemoryLog::new();
    assert!(log.insert(GLOBE, &fixed_ball(1, pos(1_000_000, 0, 0)), 100).is_ok());
    assert!(log.insert(GLOBE, &fixed_ball(2, pos(-1_000_000, 0, 0)), 200).is_ok());
    let page = log.get_log_data(GLOBE, "00000000000000000150");
    assert_eq!(page.len(), 1);
    assert_eq!(page[0].ball.uuid, 2);
    assert_eq!(log.get_log_data("zzzz99zzzz", "0").len(), 0);
}

struct MockKeyValueStore;

impl KeyValueStoreTrait for MockKeyValueStore {
    fn get_alive_objects_map(&self, _globe_id: &str) -> Result<HashMap<u128, BallEntity>, MyError> {
        Ok(HashMap::new())
    }
}

#[test]
fn test_validate_insert_ball_not_on_surface() {
    let validation_service = ValidationService::new();
    let key_value_store = MockKeyValueStore;

    let ball_entity = BallEntity {
        is_insert: true,
        uuid: uuid::Uuid::new_v4().as_u128(),
        position: Some(PositionEntity { x: 10_000_000, y: 10_000_000, z: 10_000_000 }),
        color: Some("#ff0000".to_string()),
        is_fixed: true,
        impulse: None,
    };

    let result = validation_service.validate_insert(&ball_entity, "some_globe_id", &key_value_store);

    match result {
        Ok(_) => panic!("Expected an error, but got Ok"),
        Err(e) => match e {
            MyError::ValidationError(msg) => {
                assert_eq!(msg, "Ball is not on surface of sphere.");
            },
            _ => panic!("Expected ValidationError but got a different error"),
        },
    }
}

#[test]
fn the_gate_reads_the_alive_set_through_the_store() {
    let log = log_with_u1();
    let service = ValidationService::new();
    assert!(log.is_alive(GLOBE, U1));
    assert!(!log.is_alive(GLOBE, U2));
    let again = fixed_ball(U1, pos(1_000_000, 0, 0));
    match service.validate_insert(&again, GLOBE, &log) {
        Err(MyError::ValidationError(m)) => assert_eq!(m, "Object UUID is already in use."),
        _ => panic!("expected the uuid to be in use"),
    }
    assert!(service.validate_insert(&fixed_ball(U2, pos(1_000_000, 0, 0)), GLOBE, &log).is_ok());
    assert!(ValidationService::validate_delete(U1, GLOBE, &log).is_ok());
    match ValidationService::validate_delete(U2, GLOBE, &log) {
        Err(MyError::ValidationError(m)) => assert_eq!(m, "Cannot delete: UUID not found."),
        _ => panic!("expected an unknown uuid"),
    }
}

#[test]
fn rejected_events_leave_the_log_unchanged() {
    let mut log = log_with_u1();
    let r = log.delete(GLOBE, U2, 2_000);
    assert_eq!(validation_message(r), "Cannot delete: UUID not found.");
    let r = log.insert(GLOBE, &fixed_ball(U1, pos(1_000_000, 0, 0)), 3_000);
    assert_eq!(validation_message(r), "Object UUID is already in use.");
    assert_eq!(log.events_of(GLOBE).len(), 1);
    // the next accepted event still gets the clock's reading
    assert_eq!(log.insert(GLOBE, &fixed_ball(U2, pos(1_000_000, 0, 0)), 4_000).ok().unwrap(), "00000000000000004000");
}

#[test]
fn exhausted_ids_refuse_the_append() {
    let mut log = MemoryLog::new();
    let last = log.insert(GLOBE, &fixed_ball(1, pos(1_000_000, 0, 0)), u64::MAX).ok().unwrap();
    assert_eq!(last, "18446744073709551615");
    match log.insert(GLOBE, &fixed_ball(2, pos(-1_000_000, 0, 0)), 0) {
        Err(MyError::InternalServerError(_)) => {},
        _ => panic!("expected the ids to be exhausted"),
    }
    assert_eq!(log.events_of(GLOBE).len(), 1);
}

#[test]
fn snapshot_plus_increment_equals_full_replay() {
    let mut log = log_with_u1();
    assert!(log.insert(GLOBE, &fixed_ball(U2, pos(1_000_000, 0, 0)), 2_000).is_ok());
    assert!(log.delete(GLOBE, U1, 3_000).is_ok());
    let events = log.events_of(GLOBE);
    let first: Vec<BallEntity> = events[..1].iter().map(|e| e.duplicate()).collect();
    let second: Vec<BallEntity> = events[1..].iter().map(|e| e.duplicate()).collect();
    let mut snapshot = get_alive_objects_map(&first);
    assert!(snapshot.contains_key(&U1));
    knotter_api::projection::replay_events(&mut snapshot, &second);
    let full = get_alive_objects_map(&events);
    let mut a: Vec<u128> = snapshot.keys().copied().collect();
    let mut b: Vec<u128> = full.keys().copied().collect();
    a.sort();
    b.sort();
    assert_eq!(a, b);
    assert_eq!(a, vec![U2]);
}

struct FailingStore;

impl KeyValueStoreTrait for FailingStore {
    fn get_alive_objects_map(&self, _globe_id: &str) -> Result<HashMap<u128, BallEntity>, MyError> {
        Err(MyError::DatabaseError("disk unavailable".to_string()))
    }
}

#[test]
fn store_failures_come_back_unchanged() {
    let service = ValidationService::new();
    match service.validate_insert(&fixed_ball(U1, pos(0, 0, 1_000_000)), GLOBE, &FailingStore) {
        Err(MyError::DatabaseError(m)) => assert_eq!(m, "disk unavailable"),
        _ => panic!("expected the storage failure"),
    }
    match ValidationService::validate_delete(U1, GLOBE, &FailingStore) {
        Err(MyError::DatabaseError(m)) => assert_eq!(m, "disk unavailable"),
        _ => panic!("expected the storage failure"),
    }
    // a fixed ball with an impulse is refused before the store is read
    let mut b = fixed_ball(U1, pos(0, 0, 1_000_000));
    b.impulse = Some(ImpulseEntity { x: 1, y: 0, z: 0 });
    match service.validate_insert(&b, GLOBE, &FailingStore) {
        Err(MyError::ValidationError(m)) => assert_eq!(m, "Velocity should be None for fixed objects."),
        _ => panic!("expected the impulse to be refused"),
    }
}
