//! Kill feed: a short-lived, bounded list of recent kill messages, shown
//! newest first. Times are milliseconds of the client's clock.

use std::collections::VecDeque;
use vstd::prelude::*;

verus! {

/// How long a line stays on screen.
pub const DISPLAY_DURATION_MS: u64 = 6000;

/// At most this many lines are kept, so a flurry of kills cannot grow the
/// feed without bound.
pub const CAPACITY: usize = 5;

/// The last `n` entries of `s` (all of them if there are fewer).
pub open spec fn keep_last<A>(s: Seq<A>, n: nat) -> Seq<A> {
    if s.len() > n {
        s.skip(s.len() - n)
    } else {
        s
    }
}

/// The entries still on screen at `now`.
pub open spec fn unexpired(s: Seq<(Seq<char>, u64)>, now: u64) -> Seq<(Seq<char>, u64)> {
    s.filter(|e: (Seq<char>, u64)| e.1 > now)
}

/// The lines, oldest first, each with the time it leaves the screen.
pub struct KillFeed {
    entries: VecDeque<(String, u64)>,
}

impl KillFeed {
    #[verifier::type_invariant]
    spec fn inv(self) -> bool {
        self.entries@.len() <= CAPACITY
    }

    /// The lines, oldest first, with their expiry times.
    pub closed spec fn lines(&self) -> Seq<(Seq<char>, u64)> {
        self.entries@.map_values(|e: (String, u64)| (e.0@, e.1))
    }

    pub fn new() -> (r: Self)
        ensures
            r.lines() == Seq::<(Seq<char>, u64)>::empty(),
    {
        let r = KillFeed { entries: VecDeque::new() };
        proof {
            assert(r.lines() =~= Seq::<(Seq<char>, u64)>::empty());
        }
        r
    }
}

impl Default for KillFeed {
    fn default() -> (r: Self)
        ensures
            r.lines() == Seq::<(Seq<char>, u64)>::empty(),
    {
        KillFeed::new()
    }
}

impl KillFeed {
    /// Adds a line at `now_ms`, shown for `DISPLAY_DURATION_MS`; beyond
    /// `CAPACITY` lines the oldest is dropped.
    pub fn push(&mut self, text: String, now_ms: u64)
        ensures
            final(self).lines() == keep_last(
                old(self).lines().push((text@, (if now_ms as int + DISPLAY_DURATION_MS > u64::MAX {
                    u64::MAX as int
                } else {
                    now_ms + DISPLAY_DURATION_MS
                }) as u64)),
                CAPACITY as nat,
            ),
    {
        proof {
            use_type_invariant(&*self);
        }
        let expires = now_ms.saturating_add(DISPLAY_DURATION_MS);
        let ghost before = self.lines();
        let ghost tv = text@;
        let mut entries: VecDeque<(String, u64)> = VecDeque::new();
        std::mem::swap(&mut entries, &mut self.entries);
        entries.push_back((text, expires));
        let ghost pushed = entries@;
        proof {
            assert(pushed.map_values(|e: (String, u64)| (e.0@, e.1)) =~= before.push((tv, expires)));
        }
        while entries.len() > CAPACITY
            invariant
                entries@.len() <= CAPACITY + 1,
                pushed.len() <= CAPACITY + 1,
                pushed.map_values(|e: (String, u64)| (e.0@, e.1)) == before.push((tv, expires)),
                entries@ == (if pushed.len() > entries@.len() {
                    pushed.skip(pushed.len() - entries@.len())
                } else {
                    pushed
                }),
                entries@.len() >= CAPACITY || entries@ == pushed,
            decreases entries@.len(),
        {
            entries.pop_front();
            proof {
                assert(entries@ =~= pushed.skip(pushed.len() - entries@.len()));
            }
        }
        proof {
            if pushed.len() > CAPACITY {
                assert(entries@ =~= pushed.skip(1));
                assert(entries@.map_values(|e: (String, u64)| (e.0@, e.1)) =~= before.push((tv, expires)).skip(1));
            } else {
                assert(entries@ == pushed);
            }
        }
        self.entries = entries;
    }

    /// The lines still on screen at `now_ms`, newest first; expired lines
    /// are dropped for good.
    pub fn visible(&mut self, now_ms: u64) -> (r: Vec<String>)
        ensures
            final(self).lines() == unexpired(old(self).lines(), now_ms),
            r@.len() == final(self).lines().len(),
            forall|i: int| 0 <= i < r@.len() ==> #[trigger] r@[i]@ == final(self).lines()[final(self).lines().len() - 1 - i].0,
    {
        proof {
            use_type_invariant(&*self);
        }
        let ghost before = self.lines();
        let mut kept: VecDeque<(String, u64)> = VecDeque::new();
        let mut i: usize = 0;
        while i < self.entries.len()
            invariant
                i <= self.entries@.len(),
                self.entries@.len() <= CAPACITY,
                before == self.entries@.map_values(|e: (String, u64)| (e.0@, e.1)),
                kept@.len() <= i,
                kept@.map_values(|e: (String, u64)| (e.0@, e.1)) == unexpired(before.take(i as int), now_ms),
            decreases self.entries@.len() - i,
        {
            proof {
                assert(before.take(i as int + 1) =~= before.take(i as int).push(before[i as int]));
                reveal_with_fuel(Seq::filter, 1);
                assert(before.take(i as int + 1).drop_last() =~= before.take(i as int));
            }
            if self.entries[i].1 > now_ms {
                let ghost kb = kept@;
                let copy = (self.entries[i].0.clone(), self.entries[i].1);
                kept.push_back(copy);
                proof {
                    assert(kept@.map_values(|e: (String, u64)| (e.0@, e.1)) =~= kb.map_values(
                        |e: (String, u64)| (e.0@, e.1),
                    ).push(before[i as int]));
                }
            }
            i = i + 1;
        }
        proof {
            assert(before.take(i as int) =~= before);
        }
        let mut r: Vec<String> = Vec::new();
        let mut j: usize = kept.len();
        while j > 0
            invariant
                j <= kept@.len(),
                r@.len() == kept@.len() - j,
                forall|a: int| 0 <= a < r@.len() ==> #[trigger] r@[a]@ == kept@[kept@.len() - 1 - a].0@,
            decreases j,
        {
            j = j - 1;
            r.push(kept[j].0.clone());
        }
        self.entries = kept;
        r
    }
}

} // verus!
