use maze_wars::config::{MAX_RETRY_ATTEMPTS, RETRY_INTERVAL_MS};
use maze_wars::reliability::{EventId, Receiver, Sender};
use rand::seq::SliceRandom;
use rand::{Rng, SeedableRng};
use rand_chacha::ChaCha8Rng;
use std::collections::{HashMap, HashSet};

/// Seeded fake channel: drops and duplicates individual messages, and can
/// reorder a whole batch.
struct LossyChannel {
    rng: ChaCha8Rng,
    drop_pct: f64,
    dup_pct: f64,
}

impl LossyChannel {
    fn new(seed: u64, drop_pct: f64, dup_pct: f64) -> Self {
        LossyChannel {
            rng: ChaCha8Rng::seed_from_u64(seed),
            drop_pct,
            dup_pct,
        }
    }

    fn transmit(&mut self, msg: EventId) -> Vec<EventId> {
        let mut out = Vec::new();
        if self.rng.gen::<f64>() < self.drop_pct {
            return out;
        }
        out.push(msg);
        if self.rng.gen::<f64>() < self.dup_pct {
            out.push(msg);
        }
        out
    }

    fn reordered_batch<T>(&mut self, mut batch: Vec<T>) -> Vec<T> {
        batch.shuffle(&mut self.rng);
        batch
    }
}

#[test]
fn delivery_under_loss_within_bound() {
    let deadline_ms = MAX_RETRY_ATTEMPTS as u64 * RETRY_INTERVAL_MS;

    for seed in 0u64..8 {
        let mut channel = LossyChannel::new(seed, 0.3, 0.0);
        let mut sender: Sender<()> = Sender::new(RETRY_INTERVAL_MS, MAX_RETRY_ATTEMPTS);
        let mut receiver = Receiver::new(64);
        let mut delivered: HashSet<EventId> = HashSet::new();

        let event_ids: Vec<EventId> = (0..20).collect();
        for &id in &event_ids {
            sender.send(id, (), 0);
            for arrived in channel.transmit(id) {
                if receiver.accept(arrived) {
                    delivered.insert(arrived);
                }
            }
        }

        let mut now = 0u64;
        while now <= deadline_ms {
            now += RETRY_INTERVAL_MS;
            let tick = sender.due_for_retry(now);
            for (id, ()) in tick.to_resend {
                for arrived in channel.transmit(id) {
                    if receiver.accept(arrived) {
                        delivered.insert(arrived);
                    }
                }
            }
        }

        for &id in &event_ids {
            assert!(
                delivered.contains(&id),
                "seed {seed}: event {id} never delivered within {deadline_ms}ms (30% loss)"
            );
        }
    }
}

#[test]
fn receiver_fires_exactly_once_under_duplication() {
    for seed in 0u64..8 {
        let mut channel = LossyChannel::new(seed, 0.0, 0.5);
        let mut receiver = Receiver::new(64);
        let mut accepted_count: HashMap<EventId, u32> = HashMap::new();

        for id in 0..50u32 {
            for arrived in channel.transmit(id) {
                if receiver.accept(arrived) {
                    *accepted_count.entry(arrived).or_insert(0) += 1;
                }
            }
        }

        for id in 0..50u32 {
            assert_eq!(
                accepted_count.get(&id).copied().unwrap_or(0),
                1,
                "seed {seed}: event {id} should fire the accept callback exactly once"
            );
        }
    }
}

/// How a state-message consumer applies snapshots: unordered, latest tick
/// wins.
struct LatestTickWins<T> {
    best_tick: Option<u32>,
    value: Option<T>,
}

impl<T: Clone> LatestTickWins<T> {
    fn new() -> Self {
        LatestTickWins {
            best_tick: None,
            value: None,
        }
    }

    fn apply(&mut self, tick: u32, value: T) {
        if self.best_tick.is_none_or(|best| tick > best) {
            self.best_tick = Some(tick);
            self.value = Some(value);
        }
    }
}

#[test]
fn reordering_never_lets_a_stale_tick_win() {
    for seed in 0u64..8 {
        let mut channel = LossyChannel::new(seed, 0.0, 0.0);
        let n = 30u32;
        let in_order: Vec<(u32, u32)> = (0..n).map(|tick| (tick, tick * 10)).collect();
        let shuffled = channel.reordered_batch(in_order);

        let mut reducer = LatestTickWins::new();
        for (tick, value) in shuffled {
            reducer.apply(tick, value);
        }

        assert_eq!(
            reducer.best_tick,
            Some(n - 1),
            "seed {seed}: a stale tick overwrote the newest one"
        );
        assert_eq!(reducer.value, Some((n - 1) * 10));
    }
}

#[test]
fn ack_stops_retries() {
    let mut sender: Sender<()> = Sender::new(RETRY_INTERVAL_MS, MAX_RETRY_ATTEMPTS);
    sender.send(1, (), 0);
    sender.ack(1);
    let tick = sender.due_for_retry(RETRY_INTERVAL_MS);
    assert!(tick.to_resend.is_empty());
    assert!(tick.gave_up.is_empty());
}

#[test]
fn gives_up_after_max_attempts_without_panicking() {
    let mut sender: Sender<()> = Sender::new(RETRY_INTERVAL_MS, 3);
    sender.send(1, (), 0);

    let tick = sender.due_for_retry(RETRY_INTERVAL_MS);
    assert_eq!(tick.to_resend.len(), 1);
    let tick = sender.due_for_retry(RETRY_INTERVAL_MS * 2);
    assert_eq!(tick.to_resend.len(), 1);
    let tick = sender.due_for_retry(RETRY_INTERVAL_MS * 3);
    assert!(tick.to_resend.is_empty());
    assert_eq!(tick.gave_up, vec![1]);
}

#[test]
fn events_not_yet_due_are_left_alone() {
    let mut sender: Sender<&str> = Sender::new(100, 5);
    sender.send(7, "hit", 1000);
    let tick = sender.due_for_retry(1099);
    assert!(tick.to_resend.is_empty());
    assert!(tick.gave_up.is_empty());
    let tick = sender.due_for_retry(1100);
    assert_eq!(tick.to_resend, vec![(7, "hit")]);
}

#[test]
fn a_clock_reading_before_the_send_is_never_due() {
    let mut sender: Sender<u8> = Sender::new(100, 5);
    sender.send(3, 9, 5000);
    let tick = sender.due_for_retry(10);
    assert!(tick.to_resend.is_empty());
    assert!(tick.gave_up.is_empty());
}

#[test]
fn resending_the_same_id_restarts_its_attempts() {
    let mut sender: Sender<u8> = Sender::new(10, 2);
    sender.send(4, 1, 0);
    assert_eq!(sender.due_for_retry(10).to_resend, vec![(4, 1)]);
    sender.send(4, 2, 15);
    assert_eq!(sender.due_for_retry(25).to_resend, vec![(4, 2)]);
    assert_eq!(sender.due_for_retry(35).gave_up, vec![4]);
}

#[test]
fn zero_max_attempts_gives_up_at_the_first_due_check() {
    let mut sender: Sender<()> = Sender::new(50, 0);
    sender.send(9, (), 0);
    let tick = sender.due_for_retry(50);
    assert!(tick.to_resend.is_empty());
    assert_eq!(tick.gave_up, vec![9]);
    assert!(sender.due_for_retry(100).gave_up.is_empty());
}

#[test]
fn acking_an_unknown_event_is_harmless() {
    let mut sender: Sender<()> = Sender::new(10, 3);
    sender.send(1, (), 0);
    sender.ack(2);
    assert_eq!(sender.due_for_retry(10).to_resend.len(), 1);
}

#[test]
fn receiver_forgets_the_oldest_id_beyond_capacity() {
    let mut receiver = Receiver::new(2);
    assert!(receiver.accept(1));
    assert!(receiver.accept(2));
    assert!(!receiver.accept(1));
    assert!(receiver.accept(3));
    // 1 aged out of the two-entry window
    assert!(receiver.accept(1));
    assert!(!receiver.accept(3));
}

#[test]
fn receiver_with_no_capacity_accepts_everything() {
    let mut receiver = Receiver::new(0);
    assert!(receiver.accept(5));
    assert!(receiver.accept(5));
}

#[test]
fn a_given_up_event_is_never_listed_again() {
    let mut sender: Sender<u8> = Sender::new(RETRY_INTERVAL_MS, 2);
    sender.send(4, 9, 0);
    let tick = sender.due_for_retry(RETRY_INTERVAL_MS);
    assert_eq!(tick.to_resend, vec![(4, 9)]);
    let tick = sender.due_for_retry(RETRY_INTERVAL_MS * 2);
    assert_eq!(tick.gave_up, vec![4]);
    for k in [3u64, 4, 10, 1000] {
        let tick = sender.due_for_retry(RETRY_INTERVAL_MS * k);
        assert!(tick.to_resend.is_empty());
        assert!(tick.gave_up.is_empty());
    }
    sender.ack(4);
    assert!(sender.due_for_retry(u64::MAX).gave_up.is_empty());
}

#[test]
fn receiver_drops_exactly_the_last_accepted_ids() {
    // capacity 3: the accepted ids are 1, 2, 3, 4, 5; the last three are 3, 4, 5
    let mut receiver = Receiver::new(3);
    for id in [1u64, 2, 2, 3, 1, 4, 5] {
        receiver.accept(id as EventId);
    }
    let mut answers = Vec::new();
    for id in [3u64, 4, 5] {
        answers.push(receiver.accept(id as EventId));
    }
    assert_eq!(answers, vec![false, false, false]);
    assert!(receiver.accept(2));
}
