use maze_wars::config::{MAX_PLAYERS, PROTOCOL_VERSION};
use maze_wars::maze::GENERATOR_VERSION;
use maze_wars::roster::{JoinRejection, Roster};

fn join(roster: &mut Roster, name: &str) -> Result<u32, JoinRejection> {
    roster.join(name.to_string(), PROTOCOL_VERSION, GENERATOR_VERSION)
}

#[test]
fn single_client_connects_and_receives_welcome() {
    let mut roster = Roster::new(20);
    let id = join(&mut roster, "alice").unwrap();
    assert!(id > 0);
    assert_eq!(roster.len(), 1);
    assert!(roster.has_name(&"alice".to_string()));
}

#[test]
fn capacity_rejects_beyond_max_and_existing_clients_unaffected() {
    let mut roster = Roster::new(2);
    let a = join(&mut roster, "a").unwrap();
    let b = join(&mut roster, "b").unwrap();

    let rejected = join(&mut roster, "c").unwrap_err();
    assert_eq!(rejected.reason(), "server full");

    assert_eq!(roster.len(), 2);
    assert!(roster.has_name(&"a".to_string()));
    assert!(roster.has_name(&"b".to_string()));
    assert!(!roster.has_name(&"c".to_string()));
    assert_ne!(a, b);
}

#[test]
fn duplicate_name_is_rejected() {
    let mut roster = Roster::new(20);
    assert!(join(&mut roster, "dupe").is_ok());
    let rejected = join(&mut roster, "dupe").unwrap_err();
    assert_eq!(rejected, JoinRejection::NameInUse);
    assert_eq!(rejected.reason(), "name already in use");
    assert_eq!(roster.len(), 1);
}

#[test]
fn protocol_version_mismatch_is_rejected() {
    let mut roster = Roster::new(20);
    let rejected = roster
        .join("x".to_string(), PROTOCOL_VERSION + 1, GENERATOR_VERSION)
        .unwrap_err();
    assert_eq!(rejected.reason(), "protocol version mismatch");
}

#[test]
fn generator_version_mismatch_is_rejected() {
    let mut roster = Roster::new(20);
    let rejected = roster
        .join("x".to_string(), PROTOCOL_VERSION, GENERATOR_VERSION + 1)
        .unwrap_err();
    assert_eq!(rejected.reason(), "generator version mismatch");
}

#[test]
fn version_checks_come_before_capacity_and_name() {
    let mut roster = Roster::new(1);
    join(&mut roster, "a").unwrap();
    let rejected = roster
        .join("a".to_string(), PROTOCOL_VERSION + 1, GENERATOR_VERSION + 1)
        .unwrap_err();
    assert_eq!(rejected, JoinRejection::ProtocolVersionMismatch);
    let rejected = roster
        .join("a".to_string(), PROTOCOL_VERSION, GENERATOR_VERSION + 1)
        .unwrap_err();
    assert_eq!(rejected, JoinRejection::GeneratorVersionMismatch);
    assert_eq!(join(&mut roster, "a").unwrap_err(), JoinRejection::ServerFull);
}

#[test]
fn ids_are_handed_out_in_order_and_never_reused() {
    let mut roster = Roster::new(MAX_PLAYERS);
    assert_eq!(roster.next_player_id(), 1);
    let a = join(&mut roster, "a").unwrap();
    let b = join(&mut roster, "b").unwrap();
    assert_eq!((a, b), (1, 2));
    assert!(roster.remove(a));
    assert!(!roster.remove(a));
    let c = join(&mut roster, "a").unwrap();
    assert_eq!(c, 3);
    assert_eq!(roster.len(), 2);
}

#[test]
fn a_removed_player_frees_its_slot() {
    let mut roster = Roster::new(1);
    let a = join(&mut roster, "a").unwrap();
    assert_eq!(join(&mut roster, "b").unwrap_err(), JoinRejection::ServerFull);
    roster.remove(a);
    assert_eq!(join(&mut roster, "b").unwrap(), 2);
}


#[test]
fn check_join_answers_as_join_would_without_changing_anything() {
    let mut roster = Roster::new(2);
    let name = "eve".to_string();
    assert_eq!(roster.check_join(&name, PROTOCOL_VERSION, GENERATOR_VERSION), None);
    assert_eq!(
        roster.check_join(&name, PROTOCOL_VERSION.wrapping_add(1), GENERATOR_VERSION.wrapping_add(1)),
        Some(JoinRejection::ProtocolVersionMismatch)
    );
    assert_eq!(
        roster.check_join(&name, PROTOCOL_VERSION, GENERATOR_VERSION.wrapping_add(1)),
        Some(JoinRejection::GeneratorVersionMismatch)
    );
    assert_eq!(roster.len(), 0);
    assert_eq!(roster.next_player_id(), 1);
    join(&mut roster, "eve").unwrap();
    assert_eq!(roster.check_join(&name, PROTOCOL_VERSION, GENERATOR_VERSION), Some(JoinRejection::NameInUse));
    join(&mut roster, "mallory").unwrap();
    assert_eq!(
        roster.check_join(&"trent".to_string(), PROTOCOL_VERSION, GENERATOR_VERSION),
        Some(JoinRejection::ServerFull)
    );
}
