//! Ack/retry layer for reliable event messages: the sender side keeps each
//! unacknowledged event and resends it on a fixed interval until it is
//! acknowledged or runs out of attempts; the receiver side drops duplicate
//! deliveries. No clocks here: every call takes "now" in milliseconds.

use std::collections::{HashSet, VecDeque};
use vstd::prelude::*;

verus! {

pub type EventId = u32;

/// One unacknowledged event.
struct PendingEvent<T> {
    event_id: EventId,
    payload: T,
    last_sent_at_ms: u64,
    attempts: u32,
}

/// What a retry check produced: events to send again now, and events that
/// just ran out of attempts and are dropped (the caller logs those).
pub struct RetryTick<T> {
    pub to_resend: Vec<(EventId, T)>,
    pub gave_up: Vec<EventId>,
}

/// Sender-side retry table, generic over the payload.
///
/// The table is a `Vec` with distinct ids, seen through the `Map` that
/// `table` gives, and not a `HashMap`: each retry check walks the table and
/// drops what it gives up on, in one pass, as `HashMap::retain` would, and
/// vstd specifies no `HashMap::retain`.
pub struct Sender<T> {
    retry_interval_ms: u64,
    max_attempts: u32,
    pending: Vec<PendingEvent<T>>,
}

/// A pending event as the contracts see it: payload, time of the last
/// transmission, transmissions so far.
pub type Pending<T> = (T, u64, u32);

/// `now - sent_at`, or 0 when the clock reads earlier than the send.
pub open spec fn elapsed(sent_at: u64, now: u64) -> int {
    if now >= sent_at {
        now - sent_at
    } else {
        0
    }
}

/// The event's last transmission is at least one interval old.
pub open spec fn is_due<T>(e: Pending<T>, now: u64, interval: u64) -> bool {
    elapsed(e.1, now) >= interval
}

/// A due event that has used all its attempts is dropped.
pub open spec fn gives_up<T>(e: Pending<T>, now: u64, interval: u64, max: u32) -> bool {
    is_due(e, now, interval) && e.2 >= max
}

/// A due event with attempts left is sent again.
pub open spec fn resends<T>(e: Pending<T>, now: u64, interval: u64, max: u32) -> bool {
    is_due(e, now, interval) && e.2 < max
}

/// The table after a retry check at `now`: given-up events leave, resent
/// ones record `now` and one more attempt, the rest stay as they were.
pub open spec fn retry_map<T>(m: Map<EventId, Pending<T>>, now: u64, interval: u64, max: u32) -> Map<
    EventId,
    Pending<T>,
> {
    Map::new(
        |id: EventId| m.contains_key(id) && !gives_up(m[id], now, interval, max),
        |id: EventId| after_check(m[id], now, interval),
    )
}

/// A kept event after a retry check: a due one records `now` and one more
/// attempt.
pub open spec fn after_check<T>(e: Pending<T>, now: u64, interval: u64) -> Pending<T> {
    if is_due(e, now, interval) {
        (e.0, now, (e.2 + 1) as u32)
    } else {
        e
    }
}

/// Ids of the events a retry check at `now` resends.
pub open spec fn resend_ids<T>(m: Map<EventId, Pending<T>>, now: u64, interval: u64, max: u32) -> Set<
    EventId,
> {
    Set::new(|id: EventId| m.contains_key(id) && resends(m[id], now, interval, max))
}

/// Ids of the events a retry check at `now` gives up on.
pub open spec fn gave_up_ids<T>(m: Map<EventId, Pending<T>>, now: u64, interval: u64, max: u32) -> Set<
    EventId,
> {
    Set::new(|id: EventId| m.contains_key(id) && gives_up(m[id], now, interval, max))
}

spec fn view_of<T>(e: PendingEvent<T>) -> Pending<T> {
    (e.payload, e.last_sent_at_ms, e.attempts)
}

spec fn has_id<T>(s: Seq<PendingEvent<T>>, id: EventId) -> bool {
    exists|i: int| 0 <= i < s.len() && #[trigger] s[i].event_id == id
}

spec fn ids_distinct<T>(s: Seq<PendingEvent<T>>) -> bool {
    forall|i: int, j: int| 0 <= i < j < s.len() ==> #[trigger] s[i].event_id != #[trigger] s[j].event_id
}

spec fn table_of<T>(s: Seq<PendingEvent<T>>) -> Map<EventId, Pending<T>> {
    Map::new(
        |id: EventId| has_id(s, id),
        |id: EventId| view_of(s[choose|i: int| 0 <= i < s.len() && #[trigger] s[i].event_id == id]),
    )
}

proof fn lemma_table_at<T>(s: Seq<PendingEvent<T>>, i: int)
    requires
        ids_distinct(s),
        0 <= i < s.len(),
    ensures
        table_of(s).contains_key(s[i].event_id),
        table_of(s)[s[i].event_id] == view_of(s[i]),
{
    let id = s[i].event_id;
    assert(has_id(s, id));
    let k = choose|k: int| 0 <= k < s.len() && #[trigger] s[k].event_id == id;
    if k != i {
        if k < i {
            assert(s[k].event_id != s[i].event_id);
        } else {
            assert(s[i].event_id != s[k].event_id);
        }
    }
}

impl<T> Sender<T> {
    #[verifier::type_invariant]
    spec fn inv(self) -> bool {
        &&& ids_distinct(self.pending@)
        &&& forall|i: int| 0 <= i < self.pending@.len() ==> #[trigger] self.pending@[i].attempts >= 1
    }

    /// The unacknowledged events by id.
    pub closed spec fn table(&self) -> Map<EventId, Pending<T>> {
        table_of(self.pending@)
    }

    pub closed spec fn interval(&self) -> u64 {
        self.retry_interval_ms
    }

    pub closed spec fn max(&self) -> u32 {
        self.max_attempts
    }
}

impl<T: Clone> Sender<T> {
    pub fn new(retry_interval_ms: u64, max_attempts: u32) -> (s: Self)
        ensures
            s.table() == Map::<EventId, Pending<T>>::empty(),
            s.interval() == retry_interval_ms,
            s.max() == max_attempts,
    {
        let s = Sender { retry_interval_ms, max_attempts, pending: Vec::new() };
        proof {
            assert(table_of(s.pending@) =~= Map::<EventId, Pending<T>>::empty());
        }
        s
    }

    /// Registers an event for reliable delivery; the caller transmits it
    /// now, so it counts as attempt 1. Registering an id again replaces
    /// the earlier entry.
    pub fn send(&mut self, event_id: EventId, payload: T, now_ms: u64)
        ensures
            final(self).table() == old(self).table().insert(event_id, (payload, now_ms, 1u32)),
            final(self).interval() == old(self).interval(),
            final(self).max() == old(self).max(),
    {
        proof {
            use_type_invariant(&*self);
        }
        let ghost old_p = self.pending@;
        let entry = PendingEvent { event_id, payload, last_sent_at_ms: now_ms, attempts: 1 };
        let mut i: usize = 0;
        while i < self.pending.len()
            invariant
                old_p == self.pending@,
                i <= self.pending@.len(),
                forall|k: int| 0 <= k < i ==> #[trigger] self.pending@[k].event_id != event_id,
            ensures
                old_p == self.pending@,
                i <= self.pending@.len(),
                forall|k: int| 0 <= k < i ==> #[trigger] self.pending@[k].event_id != event_id,
                i < self.pending@.len() ==> self.pending@[i as int].event_id == event_id,
            decreases self.pending@.len() - i,
        {
            if self.pending[i].event_id == event_id {
                break;
            }
            i = i + 1;
        }
        let mut pending = Vec::new();
        std::mem::swap(&mut pending, &mut self.pending);
        if i < pending.len() {
            pending.set(i, entry);
        } else {
            pending.push(entry);
        }
        proof {
            let p = pending@;
            assert(ids_distinct(p)) by {
                assert forall|a: int, b: int| 0 <= a < b < p.len() implies #[trigger] p[a].event_id
                    != #[trigger] p[b].event_id by {
                    if b < old_p.len() && a != i && b != i {
                        assert(old_p[a].event_id != old_p[b].event_id);
                    } else if a == i {
                        assert(p[b] == old_p[b]);
                        assert(old_p[a].event_id != old_p[b].event_id);
                    } else if b == i && b < old_p.len() {
                        assert(p[a] == old_p[a]);
                        assert(old_p[a].event_id != old_p[b].event_id);
                    } else {
                        assert(p[a] == old_p[a]);
                        assert(old_p[a].event_id != event_id);
                    }
                }
            }
            let target = table_of(old_p).insert(event_id, view_of(entry));
            assert forall|id: EventId| #[trigger] table_of(p).contains_key(id) <==> target.contains_key(id) by {
                if has_id(p, id) {
                    let k = choose|k: int| 0 <= k < p.len() && #[trigger] p[k].event_id == id;
                    if k != i {
                        assert(old_p[k].event_id == id);
                        assert(has_id(old_p, id));
                    }
                }
                if has_id(old_p, id) {
                    let k = choose|k: int| 0 <= k < old_p.len() && #[trigger] old_p[k].event_id == id;
                    if k != i {
                        assert(p[k].event_id == id);
                    }
                }
                if id == event_id {
                    assert(p[i as int].event_id == id);
                }
            }
            assert forall|id: EventId| #[trigger] table_of(p).contains_key(id) implies table_of(p)[id]
                == target[id] by {
                let k = choose|k: int| 0 <= k < p.len() && #[trigger] p[k].event_id == id;
                lemma_table_at(p, k);
                if k != i {
                    assert(old_p[k] == p[k]);
                    lemma_table_at(old_p, k);
                }
            }
            assert(table_of(p) =~= target);
        }
        self.pending = pending;
    }

    /// The peer acknowledged `event_id`: stop retrying it. Nothing happens
    /// if it is no longer pending.
    pub fn ack(&mut self, event_id: EventId)
        ensures
            final(self).table() == old(self).table().remove(event_id),
            final(self).interval() == old(self).interval(),
            final(self).max() == old(self).max(),
    {
        proof {
            use_type_invariant(&*self);
        }
        let ghost old_p = self.pending@;
        let mut i: usize = 0;
        while i < self.pending.len()
            invariant
                old_p == self.pending@,
                i <= self.pending@.len(),
                forall|k: int| 0 <= k < i ==> #[trigger] self.pending@[k].event_id != event_id,
            ensures
                old_p == self.pending@,
                i <= self.pending@.len(),
                forall|k: int| 0 <= k < i ==> #[trigger] self.pending@[k].event_id != event_id,
                i < self.pending@.len() ==> self.pending@[i as int].event_id == event_id,
            decreases self.pending@.len() - i,
        {
            if self.pending[i].event_id == event_id {
                break;
            }
            i = i + 1;
        }
        if i < self.pending.len() {
            let mut pending = Vec::new();
            std::mem::swap(&mut pending, &mut self.pending);
            pending.remove(i);
            proof {
                let p = pending@;
                assert forall|a: int, b: int| 0 <= a < b < p.len() implies #[trigger] p[a].event_id
                    != #[trigger] p[b].event_id by {
                    let a0 = if a < i { a } else { a + 1 };
                    let b0 = if b < i { b } else { b + 1 };
                    assert(p[a] == old_p[a0] && p[b] == old_p[b0]);
                    assert(old_p[a0].event_id != old_p[b0].event_id);
                }
                let target = table_of(old_p).remove(event_id);
                assert forall|id: EventId| #[trigger] table_of(p).contains_key(id) <==> target.contains_key(
                    id,
                ) by {
                    if has_id(p, id) {
                        let k = choose|k: int| 0 <= k < p.len() && #[trigger] p[k].event_id == id;
                        let k0 = if k < i { k } else { k + 1 };
                        assert(old_p[k0].event_id == id);
                        assert(old_p[i as int].event_id != old_p[k0].event_id || k0 == i);
                    }
                    if has_id(old_p, id) && id != event_id {
                        let k = choose|k: int| 0 <= k < old_p.len() && #[trigger] old_p[k].event_id == id;
                        assert(k != i);
                        let k1 = if k < i { k } else { k - 1 };
                        assert(p[k1].event_id == id);
                    }
                }
                assert forall|id: EventId| #[trigger] table_of(p).contains_key(id) implies table_of(p)[id]
                    == target[id] by {
                    let k = choose|k: int| 0 <= k < p.len() && #[trigger] p[k].event_id == id;
                    let k0 = if k < i { k } else { k + 1 };
                    lemma_table_at(p, k);
                    lemma_table_at(old_p, k0);
                }
                assert(table_of(p) =~= target);
            }
            self.pending = pending;
        } else {
            proof {
                assert(!has_id(old_p, event_id));
                assert(table_of(old_p).remove(event_id) =~= table_of(old_p));
            }
        }
    }
}

impl<T: Clone> Sender<T> {
    /// Call periodically with the current time. Every pending event whose
    /// last transmission is at least one retry interval old is either sent
    /// again (attempts left) or dropped as given up (attempts used up), so
    /// giving up is detected on the same cadence as retries.
    pub fn due_for_retry(&mut self, now_ms: u64) -> (tick: RetryTick<T>)
        ensures
            final(self).table() == retry_map(old(self).table(), now_ms, old(self).interval(), old(self).max()),
            final(self).interval() == old(self).interval(),
            final(self).max() == old(self).max(),
            tick.gave_up@.no_duplicates(),
            tick.gave_up@.to_set() == gave_up_ids(old(self).table(), now_ms, old(self).interval(), old(self).max()),
            tick.to_resend@.map_values(|e: (EventId, T)| e.0).no_duplicates(),
            tick.to_resend@.map_values(|e: (EventId, T)| e.0).to_set() == resend_ids(
                old(self).table(),
                now_ms,
                old(self).interval(),
                old(self).max(),
            ),
            forall|k: int|
                0 <= k < tick.to_resend@.len() ==> cloned(
                    old(self).table()[(#[trigger] tick.to_resend@[k]).0].0,
                    tick.to_resend@[k].1,
                ),
    {
        proof {
            use_type_invariant(&*self);
        }
        let interval = self.retry_interval_ms;
        let max = self.max_attempts;
        let mut rest: Vec<PendingEvent<T>> = Vec::new();
        std::mem::swap(&mut rest, &mut self.pending);
        let ghost orig = rest@;
        let ghost n = orig.len() as int;
        let mut kept: Vec<PendingEvent<T>> = Vec::new();
        let mut to_resend: Vec<(EventId, T)> = Vec::new();
        let mut gave_up: Vec<EventId> = Vec::new();
        let ghost mut kept_src: Seq<int> = Seq::empty();
        let ghost mut resend_src: Seq<int> = Seq::empty();
        let ghost mut gave_src: Seq<int> = Seq::empty();
        while rest.len() > 0
            invariant
                ids_distinct(orig),
                forall|i: int| 0 <= i < orig.len() ==> #[trigger] orig[i].attempts >= 1,
                n == orig.len(),
                rest@ == orig.take(rest@.len() as int),
                rest@.len() <= n,
                interval == old(self).retry_interval_ms,
                max == old(self).max_attempts,
                kept_src.len() == kept@.len(),
                forall|j: int|
                    0 <= j < kept_src.len() ==> rest@.len() <= #[trigger] kept_src[j] < n && orig[kept_src[j]].event_id
                        == kept@[j].event_id && view_of(kept@[j]) == after_check(
                        view_of(orig[kept_src[j]]),
                        now_ms,
                        interval,
                    ) && !gives_up(view_of(orig[kept_src[j]]), now_ms, interval, max),
                forall|a: int, b: int| 0 <= a < b < kept_src.len() ==> kept_src[a] > kept_src[b],
                forall|i: int|
                    rest@.len() <= i < n && !gives_up(view_of(#[trigger] orig[i]), now_ms, interval, max)
                        ==> kept_src.contains(i),
                resend_src.len() == to_resend@.len(),
                forall|j: int|
                    0 <= j < resend_src.len() ==> rest@.len() <= #[trigger] resend_src[j] < n
                        && orig[resend_src[j]].event_id == to_resend@[j].0 && cloned(
                        orig[resend_src[j]].payload,
                        to_resend@[j].1,
                    ) && resends(view_of(orig[resend_src[j]]), now_ms, interval, max),
                forall|a: int, b: int| 0 <= a < b < resend_src.len() ==> resend_src[a] > resend_src[b],
                forall|i: int|
                    rest@.len() <= i < n && resends(view_of(#[trigger] orig[i]), now_ms, interval, max)
                        ==> resend_src.contains(i),
                gave_src.len() == gave_up@.len(),
                forall|j: int|
                    0 <= j < gave_src.len() ==> rest@.len() <= #[trigger] gave_src[j] < n && orig[gave_src[j]].event_id
                        == gave_up@[j] && gives_up(view_of(orig[gave_src[j]]), now_ms, interval, max),
                forall|a: int, b: int| 0 <= a < b < gave_src.len() ==> gave_src[a] > gave_src[b],
                forall|i: int|
                    rest@.len() <= i < n && gives_up(view_of(#[trigger] orig[i]), now_ms, interval, max)
                        ==> gave_src.contains(i),
                forall|j: int| 0 <= j < kept@.len() ==> #[trigger] kept@[j].attempts >= 1,
            decreases rest@.len(),
        {
            let ghost k = rest@.len() as int - 1;
            let ghost kept_src0 = kept_src;
            let ghost resend_src0 = resend_src;
            let ghost gave_src0 = gave_src;
            proof {
                assert forall|i: int| k < i < n && gives_up(view_of(#[trigger] orig[i]), now_ms, interval, max)
                    implies gave_src0.contains(i) by {}
                assert forall|i: int| k < i < n && !gives_up(view_of(#[trigger] orig[i]), now_ms, interval, max)
                    implies kept_src0.contains(i) by {}
                assert forall|i: int| k < i < n && resends(view_of(#[trigger] orig[i]), now_ms, interval, max)
                    implies resend_src0.contains(i) by {}
            }
            let mut e = rest.pop().unwrap();
            proof {
                assert(e == orig[k]);
                assert(orig.take(k) =~= rest@);
            }
            if now_ms.saturating_sub(e.last_sent_at_ms) < interval {
                kept.push(e);
                proof {
                    kept_src = kept_src.push(k);
                    assert forall|i: int|
                        rest@.len() <= i < n && !gives_up(view_of(#[trigger] orig[i]), now_ms, interval, max)
                            implies kept_src.contains(i) by {
                        if i == k {
                            assert(kept_src[kept_src.len() - 1] == k);
                        } else {
                            let prev = kept_src.drop_last();
                            assert(prev =~= kept_src0);
                            assert(kept_src0.contains(i));
                            let j = choose|j: int| 0 <= j < prev.len() && prev[j] == i;
                            assert(kept_src[j] == i);
                        }
                    }
                }
            } else if e.attempts >= max {
                gave_up.push(e.event_id);
                proof {
                    gave_src = gave_src.push(k);
                    assert forall|i: int|
                        rest@.len() <= i < n && gives_up(view_of(#[trigger] orig[i]), now_ms, interval, max)
                            implies gave_src.contains(i) by {
                        if i == k {
                            assert(gave_src[gave_src.len() - 1] == k);
                        } else {
                            let prev = gave_src.drop_last();
                            assert(prev =~= gave_src0);
                            assert(gave_src0.contains(i));
                            let j = choose|j: int| 0 <= j < prev.len() && prev[j] == i;
                            assert(gave_src[j] == i);
                        }
                    }
                }
            } else {
                let copy = e.payload.clone();
                to_resend.push((e.event_id, copy));
                e.last_sent_at_ms = now_ms;
                e.attempts = e.attempts + 1;
                kept.push(e);
                proof {
                    kept_src = kept_src.push(k);
                    resend_src = resend_src.push(k);
                    assert forall|i: int|
                        rest@.len() <= i < n && !gives_up(view_of(#[trigger] orig[i]), now_ms, interval, max)
                            implies kept_src.contains(i) by {
                        if i == k {
                            assert(kept_src[kept_src.len() - 1] == k);
                        } else {
                            let prev = kept_src.drop_last();
                            assert(prev =~= kept_src0);
                            assert(kept_src0.contains(i));
                            let j = choose|j: int| 0 <= j < prev.len() && prev[j] == i;
                            assert(kept_src[j] == i);
                        }
                    }
                    assert forall|i: int|
                        rest@.len() <= i < n && resends(view_of(#[trigger] orig[i]), now_ms, interval, max)
                            implies resend_src.contains(i) by {
                        if i == k {
                            assert(resend_src[resend_src.len() - 1] == k);
                        } else {
                            let prev = resend_src.drop_last();
                            assert(prev =~= resend_src0);
                            assert(resend_src0.contains(i));
                            let j = choose|j: int| 0 <= j < prev.len() && prev[j] == i;
                            assert(resend_src[j] == i);
                        }
                    }
                }
            }
        }
        proof {
            let m = table_of(orig);
            let kp = kept@;
            assert(orig.take(0) =~= rest@);
            // the kept entries have distinct ids
            assert forall|a: int, b: int| 0 <= a < b < kp.len() implies #[trigger] kp[a].event_id
                != #[trigger] kp[b].event_id by {
                assert(kept_src[a] > kept_src[b]);
                assert(orig[kept_src[b]].event_id != orig[kept_src[a]].event_id);
            }
            assert forall|id: EventId| #[trigger] table_of(kp).contains_key(id) <==> retry_map(m, now_ms, interval, max).contains_key(id) by {
                if has_id(kp, id) {
                    let j = choose|j: int| 0 <= j < kp.len() && #[trigger] kp[j].event_id == id;
                    lemma_table_at(orig, kept_src[j]);
                }
                if m.contains_key(id) && !gives_up(m[id], now_ms, interval, max) {
                    let i = choose|i: int| 0 <= i < orig.len() && #[trigger] orig[i].event_id == id;
                    lemma_table_at(orig, i);
                    assert(kept_src.contains(i));
                    let j = choose|j: int| 0 <= j < kept_src.len() && kept_src[j] == i;
                    assert(kp[j].event_id == id);
                }
            }
            assert forall|id: EventId| #[trigger] table_of(kp).contains_key(id) implies table_of(kp)[id]
                == retry_map(m, now_ms, interval, max)[id] by {
                let j = choose|j: int| 0 <= j < kp.len() && #[trigger] kp[j].event_id == id;
                lemma_table_at(kp, j);
                lemma_table_at(orig, kept_src[j]);
            }
            assert(table_of(kp) =~= retry_map(m, now_ms, interval, max));
            // given up
            let g = gave_up@;
            assert forall|a: int, b: int| 0 <= a < b < g.len() implies g[a] != g[b] by {
                assert(gave_src[a] > gave_src[b]);
                assert(orig[gave_src[b]].event_id != orig[gave_src[a]].event_id);
            }
            assert forall|id: EventId| #[trigger] g.to_set().contains(id) <==> gave_up_ids(m, now_ms, interval, max).contains(id) by {
                if g.to_set().contains(id) {
                    let j = choose|j: int| 0 <= j < g.len() && g[j] == id;
                    lemma_table_at(orig, gave_src[j]);
                }
                if gave_up_ids(m, now_ms, interval, max).contains(id) {
                    let i = choose|i: int| 0 <= i < orig.len() && #[trigger] orig[i].event_id == id;
                    lemma_table_at(orig, i);
                    assert(gave_src.contains(i));
                    let j = choose|j: int| 0 <= j < gave_src.len() && gave_src[j] == i;
                    assert(g[j] == id);
                }
            }
            assert(g.to_set() =~= gave_up_ids(m, now_ms, interval, max));
            // resent
            let r = to_resend@;
            let rid = r.map_values(|e: (EventId, T)| e.0);
            assert forall|a: int, b: int| 0 <= a < b < rid.len() implies rid[a] != rid[b] by {
                assert(resend_src[a] > resend_src[b]);
                assert(orig[resend_src[b]].event_id != orig[resend_src[a]].event_id);
            }
            assert forall|id: EventId| #[trigger] rid.to_set().contains(id) <==> resend_ids(m, now_ms, interval, max).contains(id) by {
                if rid.to_set().contains(id) {
                    let j = choose|j: int| 0 <= j < rid.len() && rid[j] == id;
                    lemma_table_at(orig, resend_src[j]);
                }
                if resend_ids(m, now_ms, interval, max).contains(id) {
                    let i = choose|i: int| 0 <= i < orig.len() && #[trigger] orig[i].event_id == id;
                    lemma_table_at(orig, i);
                    assert(resend_src.contains(i));
                    let j = choose|j: int| 0 <= j < resend_src.len() && resend_src[j] == i;
                    assert(rid[j] == id);
                }
            }
            assert(rid.to_set() =~= resend_ids(m, now_ms, interval, max));
            assert forall|k: int| 0 <= k < r.len() implies cloned(m[(#[trigger] r[k]).0].0, r[k].1) by {
                lemma_table_at(orig, resend_src[k]);
            }
        }
        self.pending = kept;
        RetryTick { to_resend, gave_up }
    }
}

/// The table after retry checks at each of `times`, in order.
pub open spec fn retries<T>(m: Map<EventId, Pending<T>>, times: Seq<u64>, interval: u64, max: u32) -> Map<
    EventId,
    Pending<T>,
>
    decreases times.len(),
{
    if times.len() == 0 {
        m
    } else {
        retry_map(retries(m, times.drop_last(), interval, max), times.last(), interval, max)
    }
}

/// Once acknowledged, an event is never resent nor given up on again,
/// whatever retry checks follow.
pub proof fn lemma_acked_event_never_returns<T>(
    m: Map<EventId, Pending<T>>,
    id: EventId,
    times: Seq<u64>,
    interval: u64,
    max: u32,
)
    ensures
        !retries(m.remove(id), times, interval, max).contains_key(id),
        forall|k: int|
            0 <= k < times.len() ==> !resend_ids(
                retries(m.remove(id), times.take(k), interval, max),
                times[k],
                interval,
                max,
            ).contains(id) && !gave_up_ids(
                retries(m.remove(id), times.take(k), interval, max),
                times[k],
                interval,
                max,
            ).contains(id),
    decreases times.len(),
{
    if times.len() > 0 {
        lemma_acked_event_never_returns(m, id, times.drop_last(), interval, max);
        assert forall|k: int| 0 <= k < times.len() implies !resend_ids(
            retries(m.remove(id), times.take(k), interval, max),
            times[k],
            interval,
            max,
        ).contains(id) && !gave_up_ids(
            retries(m.remove(id), times.take(k), interval, max),
            times[k],
            interval,
            max,
        ).contains(id) by {
            lemma_acked_event_never_returns(m, id, times.take(k), interval, max);
        }
    }
}

/// Checks one interval apart, the first one interval after `t0`.
pub open spec fn check_times(t0: u64, interval: u64, count: nat) -> Seq<u64> {
    Seq::new(count, |k: int| (t0 + (k + 1) * interval) as u64)
}

/// Attempts after which an event is given up: at least one transmission
/// always happens.
pub open spec fn attempt_budget(max: u32) -> nat {
    if max == 0 {
        1
    } else {
        max as nat
    }
}

/// An event first sent at `t0` and checked once per interval is sent again
/// at each of its first `budget - 1` checks and given up on at check number
/// `budget`: it is transmitted `budget` times in all and dropped
/// `budget * interval` after the first send.
pub proof fn lemma_gives_up_after_max_attempts<T>(
    m: Map<EventId, Pending<T>>,
    id: EventId,
    payload: T,
    t0: u64,
    interval: u64,
    max: u32,
)
    requires
        m.contains_key(id),
        m[id] == (payload, t0, 1u32),
        t0 + attempt_budget(max) * interval <= u64::MAX,
    ensures
        forall|j: nat|
            j < attempt_budget(max) ==> (#[trigger] retries(m, check_times(t0, interval, j), interval, max)).contains_key(
                id,
            ) && retries(m, check_times(t0, interval, j), interval, max)[id] == (
                payload,
                (t0 + j * interval) as u64,
                (j + 1) as u32,
            ),
        forall|j: nat|
            j + 1 < attempt_budget(max) ==> #[trigger] resend_ids(
                retries(m, check_times(t0, interval, j), interval, max),
                (t0 + (j + 1) * interval) as u64,
                interval,
                max,
            ).contains(id),
        gave_up_ids(
            retries(m, check_times(t0, interval, (attempt_budget(max) - 1) as nat), interval, max),
            (t0 + attempt_budget(max) * interval) as u64,
            interval,
            max,
        ).contains(id),
        !retries(m, check_times(t0, interval, attempt_budget(max)), interval, max).contains_key(id),
{
    let b = attempt_budget(max);
    assert forall|j: nat| j < b implies (#[trigger] retries(m, check_times(t0, interval, j), interval, max)).contains_key(
        id,
    ) && retries(m, check_times(t0, interval, j), interval, max)[id] == (
        payload,
        (t0 + j * interval) as u64,
        (j + 1) as u32,
    ) by {
        lemma_attempts_progress(m, id, payload, t0, interval, max, j);
    }
    assert forall|j: nat| j + 1 < b implies #[trigger] resend_ids(
        retries(m, check_times(t0, interval, j), interval, max),
        (t0 + (j + 1) * interval) as u64,
        interval,
        max,
    ).contains(id) by {
        lemma_attempts_progress(m, id, payload, t0, interval, max, j);
        lemma_check_elapsed(t0, interval, j, b);
    }
    let last = (b - 1) as nat;
    lemma_attempts_progress(m, id, payload, t0, interval, max, last);
    lemma_check_elapsed(t0, interval, last, b);
    let times = check_times(t0, interval, b);
    assert(times.drop_last() =~= check_times(t0, interval, last));
    assert(times.last() == (t0 + b * interval) as u64);
}

/// Retry checks at the times `a` and then at the times `b` leave the same
/// table as the checks at `a + b`.
proof fn lemma_retries_append<T>(m: Map<EventId, Pending<T>>, a: Seq<u64>, b: Seq<u64>, interval: u64, max: u32)
    ensures
        retries(m, a + b, interval, max) == retries(retries(m, a, interval, max), b, interval, max),
    decreases b.len(),
{
    if b.len() == 0 {
        assert(a + b =~= a);
    } else {
        lemma_retries_append(m, a, b.drop_last(), interval, max);
        assert((a + b).drop_last() =~= a + b.drop_last());
        assert((a + b).last() == b.last());
    }
}

/// Once given up on, an event is gone for good: an event first sent at
/// `t0` and checked once per interval until it is given up on is, at every
/// retry check after that, whenever it comes, neither sent again nor given
/// up on again, and never back in the table.
pub proof fn lemma_given_up_event_never_returns<T>(
    m: Map<EventId, Pending<T>>,
    id: EventId,
    payload: T,
    t0: u64,
    interval: u64,
    max: u32,
    later: Seq<u64>,
)
    requires
        m.contains_key(id),
        m[id] == (payload, t0, 1u32),
        t0 + attempt_budget(max) * interval <= u64::MAX,
    ensures
        !retries(m, check_times(t0, interval, attempt_budget(max)) + later, interval, max).contains_key(id),
        forall|k: int|
            0 <= k < later.len() ==> !resend_ids(
                retries(m, check_times(t0, interval, attempt_budget(max)) + later.take(k), interval, max),
                later[k],
                interval,
                max,
            ).contains(id) && !gave_up_ids(
                retries(m, check_times(t0, interval, attempt_budget(max)) + later.take(k), interval, max),
                later[k],
                interval,
                max,
            ).contains(id),
{
    lemma_gives_up_after_max_attempts(m, id, payload, t0, interval, max);
    let first = check_times(t0, interval, attempt_budget(max));
    let m1 = retries(m, first, interval, max);
    assert(m1.remove(id) =~= m1);
    lemma_acked_event_never_returns(m1, id, later, interval, max);
    lemma_retries_append(m, first, later, interval, max);
    assert forall|k: int| 0 <= k < later.len() implies !resend_ids(
        retries(m, first + later.take(k), interval, max),
        later[k],
        interval,
        max,
    ).contains(id) && !gave_up_ids(retries(m, first + later.take(k), interval, max), later[k], interval, max).contains(
        id,
    ) by {
        lemma_retries_append(m, first, later.take(k), interval, max);
    }
}

proof fn lemma_check_elapsed(t0: u64, interval: u64, j: nat, b: nat)
    requires
        j + 1 <= b,
        t0 + b * interval <= u64::MAX,
    ensures
        t0 + (j + 1) * interval <= u64::MAX,
        elapsed((t0 + j * interval) as u64, (t0 + (j + 1) * interval) as u64) == interval,
{
    assert((j + 1) * interval <= b * interval) by (nonlinear_arith)
        requires
            j + 1 <= b,
    ;
    assert((j + 1) * interval == j * interval + interval) by (nonlinear_arith);
    assert(j * interval >= 0) by (nonlinear_arith);
}

proof fn lemma_attempts_progress<T>(
    m: Map<EventId, Pending<T>>,
    id: EventId,
    payload: T,
    t0: u64,
    interval: u64,
    max: u32,
    j: nat,
)
    requires
        m.contains_key(id),
        m[id] == (payload, t0, 1u32),
        t0 + attempt_budget(max) * interval <= u64::MAX,
        j < attempt_budget(max),
    ensures
        ({
            let r = retries(m, check_times(t0, interval, j), interval, max);
            &&& r.contains_key(id)
            &&& r[id] == (payload, (t0 + j * interval) as u64, (j + 1) as u32)
        }),
    decreases j,
{
    if j > 0 {
        let p = (j - 1) as nat;
        lemma_attempts_progress(m, id, payload, t0, interval, max, p);
        lemma_check_elapsed(t0, interval, p, attempt_budget(max));
        let times = check_times(t0, interval, j);
        assert(times.drop_last() =~= check_times(t0, interval, p));
        assert(times.last() == (t0 + j * interval) as u64);
    } else {
        assert(check_times(t0, interval, 0) =~= Seq::<u64>::empty());
        assert(t0 + 0 * interval == t0);
    }
}

/// Receiver-side dedupe: remembers the most recent `capacity` event ids it
/// accepted, oldest first, and drops a delivery whose id it remembers.
pub struct Receiver {
    seen_order: VecDeque<EventId>,
    seen_set: HashSet<EventId>,
    capacity: usize,
}

/// The receiver's memory after handling `id`: a new id is appended, and
/// the oldest one is forgotten once more than `capacity` are held.
pub open spec fn accept_window(seen: Seq<EventId>, capacity: nat, id: EventId) -> Seq<EventId> {
    if seen.contains(id) {
        seen
    } else if seen.len() + 1 > capacity {
        seen.push(id).drop_first()
    } else {
        seen.push(id)
    }
}

/// The receiver's memory after handling each of `ids` in order.
pub open spec fn accept_all(seen: Seq<EventId>, capacity: nat, ids: Seq<EventId>) -> Seq<EventId>
    decreases ids.len(),
{
    if ids.len() == 0 {
        seen
    } else {
        accept_window(accept_all(seen, capacity, ids.drop_last()), capacity, ids.last())
    }
}

/// How many of `ids` the receiver accepts as new.
pub open spec fn accepted_count(seen: Seq<EventId>, capacity: nat, ids: Seq<EventId>) -> nat
    decreases ids.len(),
{
    if ids.len() == 0 {
        0
    } else {
        accepted_count(seen, capacity, ids.drop_last()) + if accept_all(
            seen,
            capacity,
            ids.drop_last(),
        ).contains(ids.last()) {
            0nat
        } else {
            1nat
        }
    }
}

/// The ids among `ids` the receiver accepts as new, in the order they
/// came.
pub open spec fn accepted_ids(seen: Seq<EventId>, capacity: nat, ids: Seq<EventId>) -> Seq<EventId>
    decreases ids.len(),
{
    if ids.len() == 0 {
        Seq::empty()
    } else {
        let earlier = accepted_ids(seen, capacity, ids.drop_last());
        if accept_all(seen, capacity, ids.drop_last()).contains(ids.last()) {
            earlier
        } else {
            earlier.push(ids.last())
        }
    }
}

/// The last `n` entries of `s`, or all of them if it has fewer.
pub open spec fn last_n(s: Seq<EventId>, n: nat) -> Seq<EventId> {
    if s.len() <= n {
        s
    } else {
        s.subrange(s.len() - n, s.len() as int)
    }
}

/// A receiver that starts empty remembers exactly the last `capacity` ids
/// it accepted, oldest first. So it drops a delivery exactly when the id
/// is one of the last `capacity` it accepted, and accepts it otherwise.
pub proof fn lemma_window_is_last_accepted(capacity: nat, ids: Seq<EventId>)
    ensures
        accept_all(Seq::empty(), capacity, ids) == last_n(accepted_ids(Seq::empty(), capacity, ids), capacity),
    decreases ids.len(),
{
    if ids.len() > 0 {
        let prev = ids.drop_last();
        lemma_window_is_last_accepted(capacity, prev);
        let a = accepted_ids(Seq::empty(), capacity, prev);
        let w = accept_all(Seq::empty(), capacity, prev);
        let x = ids.last();
        if !w.contains(x) {
            let a2 = a.push(x);
            let w2 = accept_window(w, capacity, x);
            if a.len() <= capacity {
                if a.len() + 1 > capacity {
                    assert(w2 =~= a2.subrange(a2.len() - capacity, a2.len() as int));
                } else {
                    assert(w2 =~= a2);
                }
            } else {
                assert(w2 =~= a2.subrange(a2.len() - capacity, a2.len() as int));
            }
        }
    }
}

proof fn lemma_accept_window_wf(seen: Seq<EventId>, capacity: nat, id: EventId)
    requires
        seen.no_duplicates(),
        seen.len() <= capacity,
    ensures
        accept_window(seen, capacity, id).no_duplicates(),
        accept_window(seen, capacity, id).len() <= capacity,
{
    if !seen.contains(id) {
        let pushed = seen.push(id);
        assert(pushed.no_duplicates()) by {
            assert forall|a: int, b: int| 0 <= a < pushed.len() && 0 <= b < pushed.len() && a != b implies pushed[a]
                != pushed[b] by {
                if a < seen.len() && b < seen.len() {
                    assert(seen[a] != seen[b]);
                }
            }
        }
        if pushed.len() > capacity {
            let d = pushed.drop_first();
            assert forall|a: int, b: int| 0 <= a < d.len() && 0 <= b < d.len() && a != b implies d[a]
                != d[b] by {
                assert(pushed[a + 1] != pushed[b + 1]);
            }
        }
    }
}

/// While the distinct ids delivered fit the receiver's capacity, it accepts
/// each delivery exactly when its id has not been delivered before: every
/// event fires once, duplicates never do.
pub proof fn lemma_exactly_once_within_capacity(capacity: nat, ids: Seq<EventId>, k: int)
    requires
        ids.to_set().len() <= capacity,
        0 <= k < ids.len(),
    ensures
        !accept_all(Seq::empty(), capacity, ids.take(k)).contains(ids[k]) <==> !ids.take(k).contains(
            ids[k],
        ),
{
    lemma_window_is_distinct_prefix(capacity, ids, k);
    let w = accept_all(Seq::empty(), capacity, ids.take(k));
    if w.contains(ids[k]) {
        assert(w.to_set().contains(ids[k]));
    }
    if ids.take(k).contains(ids[k]) {
        assert(ids.take(k).to_set().contains(ids[k]));
    }
}

proof fn lemma_window_is_distinct_prefix(capacity: nat, ids: Seq<EventId>, j: int)
    requires
        ids.to_set().len() <= capacity,
        0 <= j <= ids.len(),
    ensures
        accept_all(Seq::empty(), capacity, ids.take(j)).no_duplicates(),
        accept_all(Seq::empty(), capacity, ids.take(j)).to_set() == ids.take(j).to_set(),
    decreases j,
{
    broadcast use vstd::seq_lib::group_seq_properties;
    broadcast use vstd::seq_lib::seq_to_set_is_finite;

    if j == 0 {
        assert(ids.take(0) =~= Seq::<EventId>::empty());
        assert(Seq::<EventId>::empty().to_set() =~= Set::empty());
    } else {
        lemma_window_is_distinct_prefix(capacity, ids, j - 1);
        let prefix = ids.take(j);
        assert(prefix.drop_last() =~= ids.take(j - 1));
        let w = accept_all(Seq::empty(), capacity, ids.take(j - 1));
        let x = ids[j - 1];
        assert(prefix =~= ids.take(j - 1) + seq![x]);
        Seq::lemma_to_set_insert_commutes(ids.take(j - 1), x);
        assert(prefix.to_set() =~= ids.take(j - 1).to_set().insert(x));
        if !w.contains(x) {
            w.unique_seq_to_set();
            assert(!w.to_set().contains(x));
            assert(prefix.to_set().subset_of(ids.to_set()));
            vstd::set_lib::lemma_len_subset(prefix.to_set(), ids.to_set());
            assert(w.len() + 1 == prefix.to_set().len());
            let pushed = w.push(x);
            assert(pushed.no_duplicates()) by {
                assert forall|a: int, b: int| 0 <= a < pushed.len() && 0 <= b < pushed.len() && a != b implies pushed[a]
                    != pushed[b] by {
                    if a < w.len() && b < w.len() {
                        assert(w[a] != w[b]);
                    }
                }
            }
            assert(pushed.to_set() =~= w.to_set().insert(x));
        } else {
            assert(w.to_set().contains(x));
            assert(prefix.to_set() =~= w.to_set());
        }
    }
}

/// An event id accepted as new stays remembered, so its next delivery is
/// rejected as a duplicate, until `capacity` newer ids have been accepted
/// after it.
pub proof fn lemma_recent_id_is_remembered(
    seen: Seq<EventId>,
    capacity: nat,
    id: EventId,
    later: Seq<EventId>,
)
    requires
        seen.no_duplicates(),
        seen.len() <= capacity,
        !seen.contains(id),
        accepted_count(accept_window(seen, capacity, id), capacity, later) < capacity,
    ensures
        accept_all(accept_window(seen, capacity, id), capacity, later).contains(id),
{
    lemma_remembered_position(seen, capacity, id, later);
}

proof fn lemma_remembered_position(seen: Seq<EventId>, capacity: nat, id: EventId, later: Seq<EventId>)
    requires
        seen.no_duplicates(),
        seen.len() <= capacity,
        !seen.contains(id),
        accepted_count(accept_window(seen, capacity, id), capacity, later) < capacity,
    ensures
        ({
            let w = accept_all(accept_window(seen, capacity, id), capacity, later);
            &&& w.no_duplicates()
            &&& w.len() <= capacity
            &&& exists|p: int|
                0 <= p < w.len() && w[p] == id && w.len() - 1 - p <= accepted_count(
                    accept_window(seen, capacity, id),
                    capacity,
                    later,
                )
        }),
    decreases later.len(),
{
    let w0 = accept_window(seen, capacity, id);
    lemma_accept_window_wf(seen, capacity, id);
    if later.len() == 0 {
        let pushed = seen.push(id);
        if pushed.len() > capacity {
            assert(w0[w0.len() - 1] == id);
        } else {
            assert(w0[w0.len() - 1] == id);
        }
    } else {
        let prev = later.drop_last();
        lemma_remembered_position(seen, capacity, id, prev);
        let w = accept_all(w0, capacity, prev);
        let c = accepted_count(w0, capacity, prev);
        let p = choose|p: int| 0 <= p < w.len() && w[p] == id && w.len() - 1 - p <= c;
        let x = later.last();
        lemma_accept_window_wf(w, capacity, x);
        let w2 = accept_window(w, capacity, x);
        if !w.contains(x) {
            let pushed = w.push(x);
            if pushed.len() > capacity {
                assert(p >= 1);
                assert(w2[p - 1] == id);
            } else {
                assert(w2[p] == id);
            }
        } else {
            assert(w2[p] == id);
        }
    }
}

impl Receiver {
    #[verifier::type_invariant]
    spec fn inv(self) -> bool {
        &&& self.seen_order@.no_duplicates()
        &&& self.seen_order@.len() <= self.capacity
        &&& self.seen_set@ == self.seen_order@.to_set()
    }

    /// The remembered ids, oldest first.
    pub closed spec fn window(&self) -> Seq<EventId> {
        self.seen_order@
    }

    pub closed spec fn spec_capacity(&self) -> nat {
        self.capacity as nat
    }

    pub fn new(capacity: usize) -> (r: Self)
        ensures
            r.window() == Seq::<EventId>::empty(),
            r.spec_capacity() == capacity,
    {
        let seen_order = VecDeque::with_capacity(capacity);
        let seen_set = HashSet::with_capacity(capacity);
        proof {
            assert(seen_order@.to_set() =~= seen_set@);
        }
        Receiver { seen_order, seen_set, capacity }
    }

    /// Returns `true` the first time `event_id` is seen (act on it) and
    /// `false` for a duplicate (drop it).
    pub fn accept(&mut self, event_id: EventId) -> (r: bool)
        ensures
            r == !old(self).window().contains(event_id),
            final(self).window() == accept_window(old(self).window(), old(self).spec_capacity(), event_id),
            final(self).spec_capacity() == old(self).spec_capacity(),
            old(self).window().no_duplicates(),
            old(self).window().len() <= old(self).spec_capacity(),
            final(self).window().no_duplicates(),
            final(self).window().len() <= final(self).spec_capacity(),
    {
        broadcast use vstd::std_specs::hash::group_hash_axioms;
        broadcast use vstd::seq_lib::group_seq_properties;

        proof {
            use_type_invariant(&*self);
        }
        let capacity = self.capacity;
        let ghost old_seen = self.seen_order@;
        let empty_order: VecDeque<EventId> = VecDeque::new();
        let empty_set: HashSet<EventId> = HashSet::new();
        proof {
            assert(empty_order@.to_set() =~= empty_set@);
        }
        let mut taken = Receiver { seen_order: empty_order, seen_set: empty_set, capacity };
        std::mem::swap(&mut taken, self);
        proof {
            use_type_invariant(&taken);
        }
        let Receiver { seen_order: mut order, seen_set: mut set, capacity: _ } = taken;
        if !set.insert(event_id) {
            proof {
                assert(old_seen.to_set().contains(event_id));
                assert(old_seen.contains(event_id));
                assert(set@ =~= old_seen.to_set());
            }
            *self = Receiver { seen_order: order, seen_set: set, capacity };
            return false;
        }
        proof {
            assert(!old_seen.contains(event_id)) by {
                if old_seen.contains(event_id) {
                    assert(old_seen.to_set().contains(event_id));
                }
            }
        }
        order.push_back(event_id);
        let ghost pushed = old_seen.push(event_id);
        proof {
            assert(pushed.no_duplicates()) by {
                assert forall|a: int, b: int| 0 <= a < pushed.len() && 0 <= b < pushed.len() && a != b implies pushed[a]
                    != pushed[b] by {
                    if a < old_seen.len() && b < old_seen.len() {
                        assert(old_seen[a] != old_seen[b]);
                    }
                }
            }
            assert(set@ =~= pushed.to_set());
        }
        if order.len() > capacity {
            let oldest = order.pop_front();
            if let Some(id) = oldest {
                set.remove(&id);
                proof {
                    let d = pushed.drop_first();
                    assert(order@ =~= d);
                    assert(d.no_duplicates()) by {
                        assert forall|a: int, b: int| 0 <= a < d.len() && 0 <= b < d.len() && a != b implies d[a]
                            != d[b] by {
                            assert(pushed[a + 1] != pushed[b + 1]);
                        }
                    }
                    assert forall|x: EventId| set@.contains(x) <==> d.to_set().contains(x) by {
                        if d.contains(x) {
                            let k = choose|k: int| 0 <= k < d.len() && d[k] == x;
                            assert(pushed[k + 1] == x);
                            assert(pushed[0] != pushed[k + 1]);
                        }
                        if pushed.contains(x) && x != id {
                            let k = choose|k: int| 0 <= k < pushed.len() && pushed[k] == x;
                            assert(k > 0);
                            assert(d[k - 1] == x);
                        }
                    }
                    assert(set@ =~= d.to_set());
                }
            }
        }
        *self = Receiver { seen_order: order, seen_set: set, capacity };
        true
    }
}

} // verus!
