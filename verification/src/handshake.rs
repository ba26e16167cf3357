//! The client's connect handshake: the resend schedule for `Join`, and what
//! each reply to it decides.

use std::time::Duration;
use vstd::prelude::*;
use crate::config::{JOIN_MAX_ATTEMPTS, JOIN_RETRY_BASE_MS};
use crate::maze::MazeSource;

verus! {

/// `base * 2^attempt`, saturating at `u64::MAX`.
pub open spec fn retry_delay(base: u64, attempt: nat) -> int {
    let d = base * vstd::arithmetic::power2::pow2(attempt);
    if d > u64::MAX {
        u64::MAX as int
    } else {
        d
    }
}

/// How long to wait for a reply after each `Join`: `base_delay_ms` first,
/// doubling each time, saturating at `u64::MAX`.
pub fn retry_delays_ms(base_delay_ms: u64, attempts: u32) -> (r: Vec<u64>)
    ensures
        r@.len() == attempts,
        forall|i: int| 0 <= i < attempts ==> r@[i] == retry_delay(base_delay_ms, i as nat),
        attempts > 0 ==> r@[0] == base_delay_ms,
        forall|i: int| 0 <= i < attempts - 1 ==> #[trigger] r@[i + 1] == 2 * r@[i] || r@[i + 1] == u64::MAX,
{
    let mut r: Vec<u64> = Vec::new();
    let mut power: u64 = 1;
    let mut attempt: u32 = 0;
    proof {
        vstd::arithmetic::power2::lemma2_to64();
    }
    while attempt < attempts
        invariant
            attempt <= attempts,
            r@.len() == attempt,
            power == (if vstd::arithmetic::power2::pow2(attempt as nat) > u64::MAX {
                u64::MAX as int
            } else {
                vstd::arithmetic::power2::pow2(attempt as nat) as int
            }),
            forall|i: int| 0 <= i < attempt ==> r@[i] == retry_delay(base_delay_ms, i as nat),
        decreases attempts - attempt,
    {
        proof {
            lemma_saturating_product(base_delay_ms, attempt as nat, power);
        }
        let delay = match base_delay_ms.checked_mul(power) {
            Some(d) => d,
            None => u64::MAX,
        };
        r.push(delay);
        proof {
            vstd::arithmetic::power2::lemma_pow2_unfold((attempt + 1) as nat);
            vstd::arithmetic::power2::lemma_pow2_pos(attempt as nat);
        }
        power = match power.checked_mul(2) {
            Some(p) => p,
            None => u64::MAX,
        };
        attempt = attempt + 1;
    }
    proof {
        assert forall|i: int| 0 <= i < attempts - 1 implies #[trigger] r@[i + 1] == 2 * r@[i] || r@[i + 1] == u64::MAX by {
            vstd::arithmetic::power2::lemma_pow2_unfold((i + 1) as nat);
            assert(base_delay_ms * vstd::arithmetic::power2::pow2((i + 1) as nat) == 2 * (base_delay_ms
                * vstd::arithmetic::power2::pow2(i as nat))) by (nonlinear_arith)
                requires
                    vstd::arithmetic::power2::pow2((i + 1) as nat) == 2 * vstd::arithmetic::power2::pow2(
                        i as nat,
                    ),
            ;
        }
        if attempts > 0 {
            vstd::arithmetic::power2::lemma2_to64();
        }
    }
    r
}

/// Multiplying by the saturated power of two saturates exactly when the
/// true product does.
proof fn lemma_saturating_product(base: u64, e: nat, power: u64)
    requires
        power == (if vstd::arithmetic::power2::pow2(e) > u64::MAX {
            u64::MAX as int
        } else {
            vstd::arithmetic::power2::pow2(e) as int
        }),
    ensures
        base * power > u64::MAX ==> retry_delay(base, e) == u64::MAX,
        base * power <= u64::MAX ==> retry_delay(base, e) == base * power,
{
    let p = vstd::arithmetic::power2::pow2(e);
    if p > u64::MAX {
        if base == 0 {
            assert(base * p == 0 && base * power == 0) by (nonlinear_arith)
                requires
                    base == 0,
            ;
        } else {
            assert(base * p > u64::MAX && base * power >= u64::MAX) by (nonlinear_arith)
                requires
                    p > u64::MAX,
                    power == u64::MAX,
                    base >= 1,
            ;
        }
    }
}

/// `Duration::from_millis(ms)`.
pub uninterp spec fn millis_duration(ms: u64) -> Duration;

/// `std::time::Duration::from_millis`; claimed: the result is the duration
/// of `ms` milliseconds, the same for the same `ms`.
#[verifier::external_body]
fn duration_from_millis(ms: u64) -> (d: Duration)
    ensures
        d == millis_duration(ms),
{
    Duration::from_millis(ms)
}

/// How the client retries its `Join`.
#[derive(Debug, Clone, Copy)]
pub struct HandshakeOptions {
    pub attempts: u32,
    pub base_delay: Duration,
}

impl Default for HandshakeOptions {
    fn default() -> (r: Self)
        ensures
            r.attempts == JOIN_MAX_ATTEMPTS,
            r.base_delay == millis_duration(JOIN_RETRY_BASE_MS),
    {
        Self { attempts: JOIN_MAX_ATTEMPTS, base_delay: duration_from_millis(JOIN_RETRY_BASE_MS) }
    }
}

/// What the server's `Welcome` told the client.
#[derive(Debug, Clone, PartialEq, Eq)]
pub struct WelcomeData {
    pub player_id: u32,
    pub level: u8,
    pub level_epoch: u32,
    pub maze: MazeSource,
    pub tick_rate_hz: u16,
    pub server_tick: u32,
    pub server_time_ms: u64,
}

/// What came back after one `Join` was sent.
#[derive(Debug, Clone, PartialEq, Eq)]
pub enum JoinReply {
    /// The server admitted us.
    Welcome(WelcomeData),
    /// The server refused us, with its reason.
    Rejected(String),
    /// A well-formed message that is neither of the above.
    OtherMessage,
    /// A datagram that does not decode, with the decoder's complaint.
    Undecodable(String),
    /// Nothing arrived in time, or a transient socket error.
    NoReply,
    /// A socket error that retrying cannot fix.
    SocketError(String),
}

/// Why a handshake ended without a connection, short of running out of
/// attempts.
#[derive(Debug, Clone, PartialEq, Eq)]
pub enum HandshakeFailure {
    Rejected(String),
    Io(String),
    Protocol(String),
}

/// What to do after one reply.
#[derive(Debug, Clone, PartialEq, Eq)]
pub enum HandshakeStep {
    Connected(WelcomeData),
    Failed(HandshakeFailure),
    /// Send `Join` again, if attempts remain.
    TryAgain,
}

/// Decides the handshake's next step from one reply: `Welcome` connects,
/// a rejection is final, an undecodable datagram or a hard socket error
/// ends the attempt, and silence or an unrelated message means trying
/// again.
pub fn handshake_step(reply: JoinReply) -> (step: HandshakeStep)
    ensures
        match reply {
            JoinReply::Welcome(w) => step == HandshakeStep::Connected(w),
            JoinReply::Rejected(reason) => step == HandshakeStep::Failed(HandshakeFailure::Rejected(reason)),
            JoinReply::OtherMessage => step == HandshakeStep::TryAgain,
            JoinReply::Undecodable(e) => step == HandshakeStep::Failed(HandshakeFailure::Protocol(e)),
            JoinReply::NoReply => step == HandshakeStep::TryAgain,
            JoinReply::SocketError(e) => step == HandshakeStep::Failed(HandshakeFailure::Io(e)),
        },
{
    match reply {
        JoinReply::Welcome(w) => HandshakeStep::Connected(w),
        JoinReply::Rejected(reason) => HandshakeStep::Failed(HandshakeFailure::Rejected(reason)),
        JoinReply::OtherMessage => HandshakeStep::TryAgain,
        JoinReply::Undecodable(e) => HandshakeStep::Failed(HandshakeFailure::Protocol(e)),
        JoinReply::NoReply => HandshakeStep::TryAgain,
        JoinReply::SocketError(e) => HandshakeStep::Failed(HandshakeFailure::Io(e)),
    }
}

/// The kinds of socket error the handshake tells apart.
#[derive(Debug, Clone, Copy, PartialEq, Eq, Structural)]
pub enum SocketErrorKind {
    WouldBlock,
    TimedOut,
    ConnectionRefused,
    Other,
}

/// A socket error worth sending `Join` again for: the read timed out
/// (reported as would-block or timed-out), or the server's port refused
/// the datagram, as when the server has not started yet.
pub fn is_retryable(kind: SocketErrorKind) -> (r: bool)
    ensures
        r == (kind != SocketErrorKind::Other),
{
    match kind {
        SocketErrorKind::WouldBlock => true,
        SocketErrorKind::TimedOut => true,
        SocketErrorKind::ConnectionRefused => true,
        SocketErrorKind::Other => false,
    }
}

} // verus!
