use maze_wars::config::{
    CLIENT_TIMEOUT_MS, HIT_DAMAGE, MAX_HP, MAX_RETRY_ATTEMPTS, PROTOCOL_VERSION, RETRY_INTERVAL_MS,
};
use maze_wars::maze::GENERATOR_VERSION;
use maze_wars::roster::JoinRejection;
use maze_wars::server_state::ServerState;

fn server(max_players: usize) -> ServerState<String> {
    ServerState::new(max_players, RETRY_INTERVAL_MS, MAX_RETRY_ATTEMPTS)
}

fn join(state: &mut ServerState<String>, name: &str, now: u64) -> Result<u32, JoinRejection> {
    state.join(name.to_string(), PROTOCOL_VERSION, GENERATOR_VERSION, now)
}

#[test]
fn an_admitted_player_starts_at_full_health() {
    let mut state = server(4);
    let id = join(&mut state, "alice", 10).unwrap();
    assert_eq!(id, 1);
    assert_eq!(state.hp(id), Some(MAX_HP));
    assert_eq!(state.last_input_tick(id), Some(0));
    assert_eq!(state.ids(), vec![id]);
    assert_eq!(state.next_player_id(), 2);
}

#[test]
fn refused_joins_leave_no_record() {
    let mut state = server(1);
    join(&mut state, "a", 0).unwrap();
    assert_eq!(join(&mut state, "b", 0), Err(JoinRejection::ServerFull));
    assert_eq!(state.ids().len(), 1);
    assert_eq!(state.hp(2), None);
}

#[test]
fn idle_timeout_broadcasts_player_left_to_a_still_connected_client() {
    let mut state = server(4);
    let a = join(&mut state, "a", 1_000).unwrap();
    let b = join(&mut state, "b", 1_000).unwrap();
    let later = 1_000 + CLIENT_TIMEOUT_MS + 1;
    assert!(state.touch(b, later));
    assert_eq!(state.timed_out(later, CLIENT_TIMEOUT_MS), vec![a]);
    assert!(state.remove(a));
    let (_, recipients) = state.broadcast(&format!("left {a}"), None, later);
    assert_eq!(recipients, vec![b]);
    assert!(state.timed_out(later, CLIENT_TIMEOUT_MS).is_empty());
}

#[test]
fn hits_count_down_to_a_kill_and_respawn_restores_health() {
    let mut state = server(4);
    let target = join(&mut state, "target", 0).unwrap();
    let mut expected = MAX_HP;
    loop {
        let (hp, killed) = state.hit(target).unwrap();
        expected = expected.saturating_sub(HIT_DAMAGE);
        assert_eq!(hp, expected);
        assert_eq!(killed, hp == 0);
        if killed {
            break;
        }
    }
    assert_eq!(state.hp(target), Some(0));
    state.restore_health(target);
    assert_eq!(state.hp(target), Some(MAX_HP));
    assert_eq!(state.hit(99), None);
}

#[test]
fn a_join_announcement_skips_the_joiner_and_event_ids_advance() {
    let mut state = server(4);
    let a = join(&mut state, "a", 0).unwrap();
    let b = join(&mut state, "b", 0).unwrap();
    let (first, recipients) = state.broadcast(&"joined b".to_string(), Some(b), 0);
    assert_eq!(recipients, vec![a]);
    let (second, everyone) = state.broadcast(&"hit".to_string(), None, 0);
    assert_eq!(first, 1);
    assert_eq!(second, 2);
    assert_eq!(everyone.len(), 2);
}

#[test]
fn unacked_events_are_resent_and_acked_ones_are_not() {
    let mut state = server(4);
    let a = join(&mut state, "a", 0).unwrap();
    let b = join(&mut state, "b", 0).unwrap();
    let (event, _) = state.broadcast(&"kill".to_string(), None, 0);
    state.ack(a, event);
    let ticks = state.retry_due(RETRY_INTERVAL_MS);
    assert_eq!(ticks.len(), 2);
    for (id, tick) in ticks {
        if id == a {
            assert!(tick.to_resend.is_empty());
        } else {
            assert_eq!(id, b);
            assert_eq!(tick.to_resend, vec![(event, "kill".to_string())]);
        }
        assert!(tick.gave_up.is_empty());
    }
}

#[test]
fn the_echoed_input_tick_never_goes_back() {
    let mut state = server(4);
    let a = join(&mut state, "a", 0).unwrap();
    state.record_consumed(a, &vec![1, 2, 5]);
    assert_eq!(state.last_input_tick(a), Some(5));
    state.record_consumed(a, &vec![3]);
    assert_eq!(state.last_input_tick(a), Some(5));
}
