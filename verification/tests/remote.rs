use maze_wars::config::GHOST_TIMEOUT_MS;
use maze_wars::remote::RemotePlayers;

#[test]
fn unknown_snapshot_player_is_created_with_placeholder_name() {
    let mut players = RemotePlayers::default();
    players.apply_snapshot(1, &vec![(1, 100), (9, 100)], 100);

    let remote = players.get(9).unwrap();
    assert_eq!(remote.name, "Player 9");
    assert_eq!(remote.hp, 100);
    assert!(players.get(1).is_none(), "self is not a remote player");
}

#[test]
fn late_join_event_replaces_placeholder_name() {
    let mut players = RemotePlayers::new();
    players.apply_snapshot(1, &vec![(9, 100)], 100);

    players.player_joined(9, "bob".to_string());

    assert_eq!(players.get(9).unwrap().name, "bob");
}

#[test]
fn absent_player_is_removed_after_ghost_timeout_without_leave_event() {
    let mut players = RemotePlayers::new();
    players.apply_snapshot(1, &vec![(9, 100)], 100);

    players.apply_snapshot(1, &vec![], 100 + GHOST_TIMEOUT_MS);
    assert!(players.get(9).is_some());
    players.apply_snapshot(1, &vec![], 101 + GHOST_TIMEOUT_MS);
    assert!(players.get(9).is_none());
}

#[test]
fn an_announced_name_is_used_when_the_player_first_appears() {
    let mut players = RemotePlayers::new();
    players.player_joined(4, "carol".to_string());
    assert!(players.get(4).is_none());
    players.apply_snapshot(1, &vec![(4, 75)], 10);
    let remote = players.get(4).unwrap();
    assert_eq!(remote.name, "carol");
    assert_eq!(remote.hp, 75);
    assert_eq!(remote.last_seen_ms(), 10);
}

#[test]
fn leave_event_forgets_player_and_name() {
    let mut players = RemotePlayers::new();
    players.player_joined(4, "carol".to_string());
    players.apply_snapshot(1, &vec![(4, 75), (5, 50)], 10);
    players.player_left(4);
    assert!(players.get(4).is_none());
    assert_eq!(players.ids(), vec![5]);
    players.apply_snapshot(1, &vec![(4, 75)], 20);
    assert_eq!(players.get(4).unwrap().name, "Player 4");
}

#[test]
fn hp_and_last_seen_follow_the_latest_snapshot() {
    let mut players = RemotePlayers::new();
    players.apply_snapshot(1, &vec![(12, 100)], 10);
    players.apply_snapshot(1, &vec![(12, 40), (12, 25)], 30);
    let remote = players.get(12).unwrap();
    assert_eq!(remote.hp, 25);
    assert_eq!(remote.last_seen_ms(), 30);
    assert_eq!(remote.name, "Player 12");
}

#[test]
fn a_clock_reading_before_last_seen_keeps_the_player() {
    let mut players = RemotePlayers::new();
    players.apply_snapshot(1, &vec![(3, 100)], 5_000);
    players.apply_snapshot(1, &vec![], 10);
    assert!(players.get(3).is_some());
}

#[test]
fn placeholder_names_spell_the_whole_id_in_decimal() {
    let mut players = RemotePlayers::new();
    players.apply_snapshot(1, &vec![(10, 100), (4_000_000_007, 100), (0, 100)], 5);
    assert_eq!(players.get(10).unwrap().name, "Player 10");
    assert_eq!(players.get(4_000_000_007).unwrap().name, "Player 4000000007");
    assert_eq!(players.get(0).unwrap().name, "Player 0");
}
