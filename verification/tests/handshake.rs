use maze_wars::config::{JOIN_MAX_ATTEMPTS, JOIN_RETRY_BASE_MS};
use maze_wars::handshake::{is_retryable, SocketErrorKind};
use maze_wars::handshake::{
    handshake_step, retry_delays_ms, HandshakeFailure, HandshakeOptions, HandshakeStep, JoinReply,
    WelcomeData,
};
use maze_wars::maze::{MazeSource, MazeSpec, GENERATOR_VERSION};
use std::time::Duration;

fn welcome() -> WelcomeData {
    WelcomeData {
        player_id: 7,
        level: 1,
        level_epoch: 2,
        maze: MazeSource::Generated(MazeSpec {
            seed: 99,
            width: 20,
            height: 20,
            braid_factor_bits: 0.6f32.to_bits(),
            generator_version: GENERATOR_VERSION,
        }),
        tick_rate_hz: 30,
        server_tick: 10,
        server_time_ms: 500,
    }
}

#[test]
fn production_retry_schedule_uses_shared_constants_and_doubles() {
    let delays = retry_delays_ms(JOIN_RETRY_BASE_MS, JOIN_MAX_ATTEMPTS);
    assert_eq!(delays.len(), JOIN_MAX_ATTEMPTS as usize);
    assert_eq!(delays.first(), Some(&JOIN_RETRY_BASE_MS));
    assert!(delays.windows(2).all(|pair| pair[1] == pair[0] * 2));
}

#[test]
fn retry_schedule_saturates_instead_of_overflowing() {
    let delays = retry_delays_ms(3, 70);
    assert_eq!(delays[0], 3);
    assert_eq!(delays[62], 3 << 62);
    assert_eq!(delays[63], u64::MAX);
    assert_eq!(delays[69], u64::MAX);
    assert_eq!(retry_delays_ms(0, 66)[65], 0);
    assert!(retry_delays_ms(250, 0).is_empty());
}

#[test]
fn default_options_use_the_shared_join_constants() {
    let options = HandshakeOptions::default();
    assert_eq!(options.attempts, JOIN_MAX_ATTEMPTS);
    assert_eq!(options.base_delay, Duration::from_millis(JOIN_RETRY_BASE_MS));
}

#[test]
fn welcome_connects() {
    assert_eq!(
        handshake_step(JoinReply::Welcome(welcome())),
        HandshakeStep::Connected(welcome())
    );
}

#[test]
fn rejection_is_final_and_does_not_retry() {
    assert_eq!(
        handshake_step(JoinReply::Rejected("name taken".to_string())),
        HandshakeStep::Failed(HandshakeFailure::Rejected("name taken".to_string()))
    );
}

#[test]
fn silence_and_unrelated_messages_retry() {
    assert_eq!(handshake_step(JoinReply::NoReply), HandshakeStep::TryAgain);
    assert_eq!(handshake_step(JoinReply::OtherMessage), HandshakeStep::TryAgain);
}

#[test]
fn garbage_and_hard_socket_errors_end_the_handshake() {
    assert_eq!(
        handshake_step(JoinReply::Undecodable("bad tag".to_string())),
        HandshakeStep::Failed(HandshakeFailure::Protocol("bad tag".to_string()))
    );
    assert_eq!(
        handshake_step(JoinReply::SocketError("unreachable".to_string())),
        HandshakeStep::Failed(HandshakeFailure::Io("unreachable".to_string()))
    );
}

#[test]
fn succeeds_after_two_dropped_join_attempts() {
    let options = HandshakeOptions {
        attempts: 4,
        base_delay: Duration::from_millis(10),
    };
    let replies = vec![JoinReply::NoReply, JoinReply::NoReply, JoinReply::Welcome(welcome())];
    let mut sent = 0;
    let mut outcome = None;
    for reply in replies {
        if sent == options.attempts {
            break;
        }
        sent += 1;
        match handshake_step(reply) {
            HandshakeStep::TryAgain => continue,
            step => {
                outcome = Some(step);
                break;
            }
        }
    }
    match outcome {
        Some(HandshakeStep::Connected(w)) => assert_eq!(w.player_id, 7),
        other => panic!("expected a connection, got {other:?}"),
    }
    assert_eq!(sent, 3);
}

#[test]
fn timeouts_and_refusals_are_retryable_other_errors_are_not() {
    assert!(is_retryable(SocketErrorKind::WouldBlock));
    assert!(is_retryable(SocketErrorKind::TimedOut));
    assert!(is_retryable(SocketErrorKind::ConnectionRefused));
    assert!(!is_retryable(SocketErrorKind::Other));
}
