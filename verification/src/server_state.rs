//! What the server knows of each player apart from where it stands: the
//! roster entry, health, when it was last heard from, the highest input
//! tick consumed, and its outgoing reliable events. Generic over the event
//! payload, which carries positions.

use vstd::prelude::*;
use vstd::pervasive::cloned;
use crate::config::{MAX_HP, PROTOCOL_VERSION};
use crate::maze::GENERATOR_VERSION;
use crate::keyed::{
    distinct_keys, keyed, lemma_keyed_absent, lemma_keyed_at, lemma_keyed_empty, lemma_keyed_push,
    lemma_keyed_remove, lemma_keyed_update,
};
use crate::reliability::{
    elapsed, gave_up_ids, resend_ids, retry_map, EventId, Pending, RetryTick, Sender,
};
use crate::roster::{join_rejection, roster_sound, JoinRejection, PlayerId, Roster};
use crate::world_rules::{apply_hit, highest_consumed_tick, hp_after_hit, max_tick};

verus! {

/// One player as the contracts see it: health, last heard from, highest
/// input tick consumed, and the unacknowledged events addressed to it.
pub type PlayerView<T> = (u8, u64, u32, Map<EventId, Pending<T>>);

/// One player's server-side record.
pub struct PlayerRecord<T> {
    id: PlayerId,
    hp: u8,
    last_seen_ms: u64,
    last_input_tick: u32,
    events: Sender<T>,
}

impl<T> PlayerRecord<T> {
    pub closed spec fn entry(&self) -> (PlayerId, PlayerView<T>) {
        (self.id, (self.hp, self.last_seen_ms, self.last_input_tick, self.events.table()))
    }
}

pub closed spec fn record_entries<T>(records: Seq<PlayerRecord<T>>) -> Seq<(PlayerId, PlayerView<T>)> {
    records.map_values(|r: PlayerRecord<T>| r.entry())
}

/// The ids a roster lists.
pub open spec fn member_ids(members: Seq<(PlayerId, Seq<char>)>) -> Set<PlayerId> {
    Set::new(|id: PlayerId| exists|i: int| 0 <= i < members.len() && (#[trigger] members[i]).0 == id)
}

/// The roster and the records, which must list the same players.
struct Core<T> {
    roster: Roster,
    records: Vec<PlayerRecord<T>>,
}

impl<T> Core<T> {
    /// No players: a valid stand-in while the real core is being updated.
    fn empty() -> (c: Self)
        ensures
            c.records@.len() == 0,
            c.roster.members() == Seq::<(PlayerId, Seq<char>)>::empty(),
            c.roster.next_id() == 1,
            c.roster.capacity() == 0,
    {
        Core { roster: Roster::new(0), records: Vec::new() }
    }
}

/// The server's players.
///
/// The per-player records are a `Vec` with distinct ids, seen through a
/// `Map`, and not a `HashMap`: the server updates records in place, one by
/// id and all of them each tick, as `HashMap::get_mut` and
/// `HashMap::values_mut` would, and vstd specifies neither.
pub struct ServerState<T> {
    core: Core<T>,
    next_event_id: EventId,
    retry_interval_ms: u64,
    max_retry_attempts: u32,
}

impl<T> ServerState<T> {
    #[verifier::type_invariant]
    spec fn inv(self) -> bool {
        &&& distinct_keys(record_entries(self.core.records@))
        &&& keyed(record_entries(self.core.records@)).dom() == member_ids(self.core.roster.members())
        &&& roster_sound(self.core.roster.members(), self.core.roster.next_id())
        &&& self.core.roster.members().len() <= self.core.roster.capacity()
        &&& forall|i: int|
            0 <= i < self.core.records@.len() ==> {
                &&& (#[trigger] self.core.records@[i]).hp <= MAX_HP
                &&& self.core.records@[i].events.interval() == self.retry_interval_ms
                &&& self.core.records@[i].events.max() == self.max_retry_attempts
            }
    }

    /// Each player's record, by id.
    pub closed spec fn players(&self) -> Map<PlayerId, PlayerView<T>> {
        keyed(record_entries(self.core.records@))
    }

    /// The roster: ids and names, in joining order.
    pub closed spec fn members(&self) -> Seq<(PlayerId, Seq<char>)> {
        self.core.roster.members()
    }

    pub closed spec fn next_id(&self) -> PlayerId {
        self.core.roster.next_id()
    }

    pub closed spec fn capacity(&self) -> usize {
        self.core.roster.capacity()
    }

    pub closed spec fn next_event(&self) -> EventId {
        self.next_event_id
    }

    pub closed spec fn interval(&self) -> u64 {
        self.retry_interval_ms
    }

    pub closed spec fn max_attempts(&self) -> u32 {
        self.max_retry_attempts
    }
}

/// Index of the record with id `id`, if any.
fn find_record<T>(records: &Vec<PlayerRecord<T>>, id: PlayerId) -> (r: Option<usize>)
    ensures
        r matches Some(i) ==> i < records@.len() && record_entries(records@)[i as int].0 == id,
        r is None ==> forall|j: int| 0 <= j < records@.len() ==> (#[trigger] record_entries(records@)[j]).0 != id,
{
    let mut i: usize = 0;
    while i < records.len()
        invariant
            i <= records@.len(),
            forall|j: int| 0 <= j < i ==> (#[trigger] record_entries(records@)[j]).0 != id,
        decreases records@.len() - i,
    {
        if records[i].id == id {
            return Some(i);
        }
        i = i + 1;
    }
    None
}

impl<T: Clone> ServerState<T> {
    /// No players yet; at most `max_players`, each with its own event
    /// sender retrying every `retry_interval_ms` up to
    /// `max_retry_attempts` times; event ids start at 1.
    pub fn new(max_players: usize, retry_interval_ms: u64, max_retry_attempts: u32) -> (s: Self)
        ensures
            s.players() == Map::<PlayerId, PlayerView<T>>::empty(),
            s.members() == Seq::<(PlayerId, Seq<char>)>::empty(),
            s.next_id() == 1,
            s.capacity() == max_players,
            s.next_event() == 1,
            s.interval() == retry_interval_ms,
            s.max_attempts() == max_retry_attempts,
    {
        let core = Core { roster: Roster::new(max_players), records: Vec::new() };
        proof {
            assert(record_entries(core.records@) =~= Seq::empty());
            lemma_keyed_empty::<PlayerView<T>>();
            assert(member_ids(core.roster.members()) =~= Set::empty());
        }
        let s = ServerState { core, next_event_id: 1, retry_interval_ms, max_retry_attempts };
        s
    }

    /// The id the next admitted player gets.
    pub fn next_player_id(&self) -> (id: PlayerId)
        ensures
            id == self.next_id(),
    {
        self.core.roster.next_player_id()
    }

    /// Why a `Join` with these arguments would be refused, if it would, as
    /// the roster decides it.
    pub fn check_join(&self, name: &String, protocol_version: u16, generator_version: u16) -> (r: Option<
        JoinRejection,
    >)
        ensures
            r == join_rejection(self.members(), self.capacity(), name@, protocol_version, generator_version),
            protocol_version != PROTOCOL_VERSION ==> r == Some(JoinRejection::ProtocolVersionMismatch),
            protocol_version == PROTOCOL_VERSION && generator_version != GENERATOR_VERSION ==> r == Some(
                JoinRejection::GeneratorVersionMismatch,
            ),
    {
        self.core.roster.check_join(name, protocol_version, generator_version)
    }

    /// Decides a `Join` as the roster does; an admitted player starts at
    /// full health, heard from `now_ms`, with no input consumed and no
    /// events pending. Only an admitted player takes an id, which must then
    /// be one below the id space's end.
    pub fn join(&mut self, name: String, protocol_version: u16, generator_version: u16, now_ms: u64) -> (r: Result<
        PlayerId,
        JoinRejection,
    >)
        requires
            join_rejection(old(self).members(), old(self).capacity(), name@, protocol_version, generator_version)
                is None ==> old(self).next_id() < u32::MAX,
        ensures
            match join_rejection(
                old(self).members(),
                old(self).capacity(),
                name@,
                protocol_version,
                generator_version,
            ) {
                Some(rej) => {
                    &&& r == Err::<PlayerId, JoinRejection>(rej)
                    &&& final(self).members() == old(self).members()
                    &&& final(self).next_id() == old(self).next_id()
                    &&& final(self).players() == old(self).players()
                },
                None => {
                    &&& r == Ok::<PlayerId, JoinRejection>(old(self).next_id())
                    &&& final(self).members() == old(self).members().push((old(self).next_id(), name@))
                    &&& final(self).next_id() == old(self).next_id() + 1
                    &&& final(self).players() == old(self).players().insert(
                        old(self).next_id(),
                        (MAX_HP, now_ms, 0u32, Map::<EventId, Pending<T>>::empty()),
                    )
                },
            },
            protocol_version != PROTOCOL_VERSION ==> r == Err::<PlayerId, JoinRejection>(
                JoinRejection::ProtocolVersionMismatch,
            ),
            protocol_version == PROTOCOL_VERSION && generator_version != GENERATOR_VERSION ==> r == Err::<
                PlayerId,
                JoinRejection,
            >(JoinRejection::GeneratorVersionMismatch),
            protocol_version != PROTOCOL_VERSION || generator_version != GENERATOR_VERSION ==> final(self).members() == old(self).members() && final(self).next_id() == old(self).next_id() && final(self).players() == old(self).players(),
            final(self).capacity() == old(self).capacity(),
            final(self).next_event() == old(self).next_event(),
            final(self).interval() == old(self).interval(),
            final(self).max_attempts() == old(self).max_attempts(),
    {
        proof {
            use_type_invariant(&*self);
        }
        let ghost old_members = self.core.roster.members();
        let ghost old_records = self.core.records@;
        let mut core = Core::empty();
        proof {
            assert(record_entries(core.records@) =~= Seq::empty());
            lemma_keyed_empty::<PlayerView<T>>();
            assert(member_ids(core.roster.members()) =~= Set::empty());
        }
        std::mem::swap(&mut core, &mut self.core);
        let mut roster = core.roster;
        let mut records = core.records;
        let result = roster.join(name, protocol_version, generator_version);
        match result {
            Ok(id) => {
                proof {
                    assert(!member_ids(old_members).contains(id)) by {
                        if member_ids(old_members).contains(id) {
                            let i = choose|i: int| 0 <= i < old_members.len() && (#[trigger] old_members[i]).0 == id;
                            assert(old_members[i].0 < id);
                        }
                    }
                    lemma_keyed_push(
                        record_entries(old_records),
                        id,
                        (MAX_HP, now_ms, 0u32, Map::<EventId, Pending<T>>::empty()),
                    );
                }
                let events = Sender::new(self.retry_interval_ms, self.max_retry_attempts);
                records.push(PlayerRecord { id, hp: MAX_HP, last_seen_ms: now_ms, last_input_tick: 0, events });
                proof {
                    assert(record_entries(records@) =~= record_entries(old_records).push(
                        (id, (MAX_HP, now_ms, 0u32, Map::<EventId, Pending<T>>::empty())),
                    ));
                    assert(member_ids(roster.members()) =~= member_ids(old_members).insert(id)) by {
                        let m = roster.members();
                        assert forall|x: PlayerId| member_ids(m).contains(x) == member_ids(old_members).insert(id).contains(x) by {
                            if member_ids(old_members).contains(x) {
                                let i = choose|i: int| 0 <= i < old_members.len() && (#[trigger] old_members[i]).0 == x;
                                assert(m[i].0 == x);
                            }
                            if x == id {
                                assert(m[old_members.len() as int].0 == id);
                            }
                            if member_ids(m).contains(x) && x != id {
                                let i = choose|i: int| 0 <= i < m.len() && (#[trigger] m[i]).0 == x;
                                assert(old_members[i].0 == x);
                            }
                        }
                    }
                }
            },
            Err(_) => {},
        }
        self.core = Core { roster, records };
        result
    }

    /// Removes the player with id `id` from the roster and its record;
    /// returns whether there was one.
    pub fn remove(&mut self, id: PlayerId) -> (removed: bool)
        ensures
            removed == old(self).players().dom().contains(id),
            final(self).players() == old(self).players().remove(id),
            final(self).members() == old(self).members().filter(|p: (PlayerId, Seq<char>)| p.0 != id),
            final(self).next_id() == old(self).next_id(),
            final(self).capacity() == old(self).capacity(),
            final(self).next_event() == old(self).next_event(),
            final(self).interval() == old(self).interval(),
            final(self).max_attempts() == old(self).max_attempts(),
    {
        proof {
            use_type_invariant(&*self);
        }
        let ghost old_members = self.core.roster.members();
        let ghost old_records = self.core.records@;
        let mut core = Core::empty();
        proof {
            assert(record_entries(core.records@) =~= Seq::empty());
            lemma_keyed_empty::<PlayerView<T>>();
            assert(member_ids(core.roster.members()) =~= Set::empty());
        }
        std::mem::swap(&mut core, &mut self.core);
        let mut roster = core.roster;
        let mut records = core.records;
        roster.remove(id);
        let found = find_record(&records, id);
        let removed = match found {
            Some(i) => {
                records.remove(i);
                proof {
                    lemma_keyed_remove(record_entries(old_records), i as int);
                    assert(record_entries(records@) =~= record_entries(old_records).remove(i as int));
                    lemma_keyed_at(record_entries(old_records), i as int);
                }
                true
            },
            None => {
                proof {
                    lemma_keyed_absent(record_entries(old_records), id);
                    assert(keyed(record_entries(old_records)).remove(id) =~= keyed(record_entries(old_records)));
                }
                false
            },
        };
        proof {
            let m = roster.members();
            assert(member_ids(m) =~= member_ids(old_members).remove(id)) by {
                assert forall|x: PlayerId| member_ids(m).contains(x) == member_ids(old_members).remove(id).contains(x) by {
                    let f = |p: (PlayerId, Seq<char>)| p.0 != id;
                    if member_ids(m).contains(x) {
                        let i = choose|i: int| 0 <= i < m.len() && (#[trigger] m[i]).0 == x;
                        assert(m.contains(m[i]));
                        old_members.lemma_filter_contains_rev(f, m[i]);
                        let j = choose|j: int| 0 <= j < old_members.len() && old_members[j] == m[i];
                        assert(old_members[j].0 == x);
                    }
                    if member_ids(old_members).contains(x) && x != id {
                        let j = choose|j: int| 0 <= j < old_members.len() && (#[trigger] old_members[j]).0 == x;
                        old_members.lemma_filter_contains(f, j);
                        let i = choose|i: int| 0 <= i < m.len() && m[i] == old_members[j];
                        assert(m[i].0 == x);
                    }
                }
            }
            assert(m.len() <= old_members.len()) by {
                old_members.lemma_filter_len(|p: (PlayerId, Seq<char>)| p.0 != id);
            }
        }
        self.core = Core { roster, records };
        removed
    }

    /// Takes the core out, leaving an empty but valid one in its place.
    fn take_core(&mut self) -> (core: Core<T>)
        ensures
            core == old(self).core,
            final(self).next_event() == old(self).next_event(),
            final(self).interval() == old(self).interval(),
            final(self).max_attempts() == old(self).max_attempts(),
            final(self).core.records@.len() == 0,
    {
        proof {
            use_type_invariant(&*self);
        }
        let mut core = Core::empty();
        proof {
            assert(record_entries(core.records@) =~= Seq::empty());
            lemma_keyed_empty::<PlayerView<T>>();
            assert(member_ids(core.roster.members()) =~= Set::empty());
        }
        std::mem::swap(&mut core, &mut self.core);
        core
    }

    /// The player's health, if present.
    pub fn hp(&self, id: PlayerId) -> (r: Option<u8>)
        ensures
            r is Some <==> self.players().dom().contains(id),
            r matches Some(hp) ==> hp == self.players()[id].0 && hp <= MAX_HP,
    {
        proof {
            use_type_invariant(self);
        }
        match find_record(&self.core.records, id) {
            Some(i) => {
                proof {
                    lemma_keyed_at(record_entries(self.core.records@), i as int);
                }
                Some(self.core.records[i].hp)
            },
            None => {
                proof {
                    lemma_keyed_absent(record_entries(self.core.records@), id);
                }
                None
            },
        }
    }

    /// The highest input tick consumed for the player, if present.
    pub fn last_input_tick(&self, id: PlayerId) -> (r: Option<u32>)
        ensures
            r is Some <==> self.players().dom().contains(id),
            r matches Some(t) ==> t == self.players()[id].2,
    {
        proof {
            use_type_invariant(self);
        }
        match find_record(&self.core.records, id) {
            Some(i) => {
                proof {
                    lemma_keyed_at(record_entries(self.core.records@), i as int);
                }
                Some(self.core.records[i].last_input_tick)
            },
            None => {
                proof {
                    lemma_keyed_absent(record_entries(self.core.records@), id);
                }
                None
            },
        }
    }

    /// Puts the core back, with `rec` in place of the record taken from
    /// position `i` of `orig`; `rec` keeps that record's id.
    fn put_back(&mut self, core: Core<T>, i: usize, rec: PlayerRecord<T>, Ghost(orig): Ghost<Seq<PlayerRecord<T>>>)
        requires
            old(self).core.records@.len() == 0,
            i < orig.len(),
            core.records@ == orig.remove(i as int),
            rec.id == orig[i as int].id,
            rec.hp <= MAX_HP,
            rec.events.interval() == old(self).interval(),
            rec.events.max() == old(self).max_attempts(),
            distinct_keys(record_entries(orig)),
            keyed(record_entries(orig)).dom() == member_ids(core.roster.members()),
            roster_sound(core.roster.members(), core.roster.next_id()),
            core.roster.members().len() <= core.roster.capacity(),
            forall|j: int|
                0 <= j < orig.len() ==> {
                    &&& (#[trigger] orig[j]).hp <= MAX_HP
                    &&& orig[j].events.interval() == old(self).interval()
                    &&& orig[j].events.max() == old(self).max_attempts()
                },
        ensures
            final(self).players() == keyed(record_entries(orig)).insert(rec.id, rec.entry().1),
            final(self).members() == core.roster.members(),
            final(self).next_id() == core.roster.next_id(),
            final(self).capacity() == core.roster.capacity(),
            final(self).next_event() == old(self).next_event(),
            final(self).interval() == old(self).interval(),
            final(self).max_attempts() == old(self).max_attempts(),
    {
        let mut core = core;
        let ghost e = rec.entry();
        proof {
            lemma_keyed_update(record_entries(orig), i as int, e.1);
        }
        core.records.insert(i, rec);
        proof {
            assert(core.records@ =~= orig.update(i as int, rec));
            assert(record_entries(core.records@) =~= record_entries(orig).update(i as int, e));
            lemma_keyed_at(record_entries(orig), i as int);
            assert(keyed(record_entries(core.records@)).dom() =~= keyed(record_entries(orig)).dom());
            assert forall|j: int| 0 <= j < core.records@.len() implies {
                &&& (#[trigger] core.records@[j]).hp <= MAX_HP
                &&& core.records@[j].events.interval() == self.retry_interval_ms
                &&& core.records@[j].events.max() == self.max_retry_attempts
            } by {
                if j != i {
                    assert(core.records@[j] == orig[j]);
                }
            }
        }
        self.core = core;
    }

    /// A message arrived from the player: it was heard from at `now_ms`.
    pub fn touch(&mut self, id: PlayerId, now_ms: u64) -> (present: bool)
        ensures
            present == old(self).players().dom().contains(id),
            final(self).players() == (if present {
                old(self).players().insert(
                    id,
                    (old(self).players()[id].0, now_ms, old(self).players()[id].2, old(self).players()[id].3),
                )
            } else {
                old(self).players()
            }),
            final(self).members() == old(self).members(),
            final(self).next_id() == old(self).next_id(),
            final(self).capacity() == old(self).capacity(),
            final(self).next_event() == old(self).next_event(),
            final(self).interval() == old(self).interval(),
            final(self).max_attempts() == old(self).max_attempts(),
    {
        proof {
            use_type_invariant(&*self);
        }
        match find_record(&self.core.records, id) {
            None => {
                proof {
                    lemma_keyed_absent(record_entries(self.core.records@), id);
                }
                false
            },
            Some(i) => {
                proof {
                    lemma_keyed_at(record_entries(self.core.records@), i as int);
                }
                let mut core = self.take_core();
                let ghost orig = core.records@;
                let old_rec = core.records.remove(i);
                let rec = PlayerRecord {
                    id: old_rec.id,
                    hp: old_rec.hp,
                    last_seen_ms: now_ms,
                    last_input_tick: old_rec.last_input_tick,
                    events: old_rec.events,
                };
                self.put_back(core, i, rec, Ghost(orig));
                true
            },
        }
    }

    /// An `Ack` from the player: event `event_id` is no longer retried.
    pub fn ack(&mut self, id: PlayerId, event_id: EventId)
        ensures
            old(self).players().dom().contains(id) ==> final(self).players() == old(self).players().insert(
                id,
                (old(self).players()[id].0, old(self).players()[id].1, old(self).players()[id].2, old(self).players()[id].3.remove(event_id)),
            ),
            !old(self).players().dom().contains(id) ==> final(self).players() == old(self).players(),
            final(self).members() == old(self).members(),
            final(self).next_id() == old(self).next_id(),
            final(self).capacity() == old(self).capacity(),
            final(self).next_event() == old(self).next_event(),
            final(self).interval() == old(self).interval(),
            final(self).max_attempts() == old(self).max_attempts(),
    {
        proof {
            use_type_invariant(&*self);
        }
        match find_record(&self.core.records, id) {
            None => {
                proof {
                    lemma_keyed_absent(record_entries(self.core.records@), id);
                }
                
            },
            Some(i) => {
                proof {
                    lemma_keyed_at(record_entries(self.core.records@), i as int);
                }
                let mut core = self.take_core();
                let ghost orig = core.records@;
                let old_rec = core.records.remove(i);
                let mut events = old_rec.events;
                events.ack(event_id);
                let rec = PlayerRecord { id: old_rec.id, hp: old_rec.hp, last_seen_ms: old_rec.last_seen_ms, last_input_tick: old_rec.last_input_tick, events };
                self.put_back(core, i, rec, Ghost(orig));
                
            },
        }
    }

    /// The input ticks consumed for the player this tick: the echoed tick
    /// becomes the highest consumed so far.
    pub fn record_consumed(&mut self, id: PlayerId, consumed: &Vec<u32>)
        ensures
            old(self).players().dom().contains(id) ==> final(self).players() == old(self).players().insert(
                id,
                (old(self).players()[id].0, old(self).players()[id].1, max_tick(old(self).players()[id].2, consumed@), old(self).players()[id].3),
            ),
            !old(self).players().dom().contains(id) ==> final(self).players() == old(self).players(),
            final(self).members() == old(self).members(),
            final(self).next_id() == old(self).next_id(),
            final(self).capacity() == old(self).capacity(),
            final(self).next_event() == old(self).next_event(),
            final(self).interval() == old(self).interval(),
            final(self).max_attempts() == old(self).max_attempts(),
    {
        proof {
            use_type_invariant(&*self);
        }
        match find_record(&self.core.records, id) {
            None => {
                proof {
                    lemma_keyed_absent(record_entries(self.core.records@), id);
                }
                
            },
            Some(i) => {
                proof {
                    lemma_keyed_at(record_entries(self.core.records@), i as int);
                }
                let mut core = self.take_core();
                let ghost orig = core.records@;
                let old_rec = core.records.remove(i);
                let last_input_tick = highest_consumed_tick(old_rec.last_input_tick, consumed);
                let rec = PlayerRecord { id: old_rec.id, hp: old_rec.hp, last_seen_ms: old_rec.last_seen_ms, last_input_tick, events: old_rec.events };
                self.put_back(core, i, rec, Ghost(orig));
                
            },
        }
    }

    /// A hit on the player: its health after the hit, and whether it died.
    pub fn hit(&mut self, id: PlayerId) -> (r: Option<(u8, bool)>)
        ensures
            old(self).players().dom().contains(id) ==> final(self).players() == old(self).players().insert(
                id,
                (hp_after_hit(old(self).players()[id].0), old(self).players()[id].1, old(self).players()[id].2, old(self).players()[id].3),
            ),
            !old(self).players().dom().contains(id) ==> final(self).players() == old(self).players(),
            r is Some <==> old(self).players().dom().contains(id),
            r matches Some(o) ==> o.0 == hp_after_hit(old(self).players()[id].0) && o.1 == (o.0 == 0),
            final(self).members() == old(self).members(),
            final(self).next_id() == old(self).next_id(),
            final(self).capacity() == old(self).capacity(),
            final(self).next_event() == old(self).next_event(),
            final(self).interval() == old(self).interval(),
            final(self).max_attempts() == old(self).max_attempts(),
    {
        proof {
            use_type_invariant(&*self);
        }
        match find_record(&self.core.records, id) {
            None => {
                proof {
                    lemma_keyed_absent(record_entries(self.core.records@), id);
                }
                None
            },
            Some(i) => {
                proof {
                    lemma_keyed_at(record_entries(self.core.records@), i as int);
                }
                let mut core = self.take_core();
                let ghost orig = core.records@;
                let old_rec = core.records.remove(i);
                let (left, killed) = apply_hit(old_rec.hp);
                let rec = PlayerRecord { id: old_rec.id, hp: left, last_seen_ms: old_rec.last_seen_ms, last_input_tick: old_rec.last_input_tick, events: old_rec.events };
                self.put_back(core, i, rec, Ghost(orig));
                Some((left, killed))
            },
        }
    }

    /// The player respawned: back to full health.
    pub fn restore_health(&mut self, id: PlayerId)
        ensures
            old(self).players().dom().contains(id) ==> final(self).players() == old(self).players().insert(
                id,
                (MAX_HP, old(self).players()[id].1, old(self).players()[id].2, old(self).players()[id].3),
            ),
            !old(self).players().dom().contains(id) ==> final(self).players() == old(self).players(),
            final(self).members() == old(self).members(),
            final(self).next_id() == old(self).next_id(),
            final(self).capacity() == old(self).capacity(),
            final(self).next_event() == old(self).next_event(),
            final(self).interval() == old(self).interval(),
            final(self).max_attempts() == old(self).max_attempts(),
    {
        proof {
            use_type_invariant(&*self);
        }
        match find_record(&self.core.records, id) {
            None => {
                proof {
                    lemma_keyed_absent(record_entries(self.core.records@), id);
                }
                
            },
            Some(i) => {
                proof {
                    lemma_keyed_at(record_entries(self.core.records@), i as int);
                }
                let mut core = self.take_core();
                let ghost orig = core.records@;
                let old_rec = core.records.remove(i);
                let rec = PlayerRecord { id: old_rec.id, hp: MAX_HP, last_seen_ms: old_rec.last_seen_ms, last_input_tick: old_rec.last_input_tick, events: old_rec.events };
                self.put_back(core, i, rec, Ghost(orig));
                
            },
        }
    }

    /// The ids of the players, each once.
    pub fn ids(&self) -> (r: Vec<PlayerId>)
        ensures
            forall|x: PlayerId| r@.contains(x) <==> self.players().dom().contains(x),
            r@.no_duplicates(),
    {
        self.ids_where(0, 0, false)
    }

    /// The players not heard from for longer than `timeout_ms` at
    /// `now_ms`, each once.
    pub fn timed_out(&self, now_ms: u64, timeout_ms: u64) -> (r: Vec<PlayerId>)
        ensures
            forall|x: PlayerId|
                r@.contains(x) <==> (self.players().dom().contains(x) && elapsed(self.players()[x].1, now_ms)
                    > timeout_ms),
            r@.no_duplicates(),
    {
        self.ids_where(now_ms, timeout_ms, true)
    }

    /// The ids of the players, or only of those silent for longer than
    /// `timeout_ms` when `only_silent`.
    fn ids_where(&self, now_ms: u64, timeout_ms: u64, only_silent: bool) -> (r: Vec<PlayerId>)
        ensures
            forall|x: PlayerId|
                r@.contains(x) <==> (self.players().dom().contains(x) && (only_silent ==> elapsed(
                    self.players()[x].1,
                    now_ms,
                ) > timeout_ms)),
            r@.no_duplicates(),
    {
        proof {
            use_type_invariant(self);
        }
        let ghost es = record_entries(self.core.records@);
        let mut r: Vec<PlayerId> = Vec::new();
        let mut i: usize = 0;
        while i < self.core.records.len()
            invariant
                i <= self.core.records@.len(),
                es == record_entries(self.core.records@),
                distinct_keys(es),
                forall|x: PlayerId|
                    r@.contains(x) <==> exists|j: int|
                        0 <= j < i && (#[trigger] es[j]).0 == x && (only_silent ==> elapsed(es[j].1.1, now_ms)
                            > timeout_ms),
                r@.no_duplicates(),
            decreases self.core.records@.len() - i,
        {
            let rec = &self.core.records[i];
            let keep = !only_silent || now_ms.saturating_sub(rec.last_seen_ms) > timeout_ms;
            if keep {
                let ghost before = r@;
                proof {
                    assert(es[i as int].0 == rec.id);
                    assert(!before.contains(rec.id)) by {
                        if before.contains(rec.id) {
                            let j = choose|j: int|
                                0 <= j < i && (#[trigger] es[j]).0 == rec.id && (only_silent ==> elapsed(
                                    es[j].1.1,
                                    now_ms,
                                ) > timeout_ms);
                            assert(es[j].0 != es[i as int].0);
                        }
                    }
                }
                r.push(rec.id);
                proof {
                    assert forall|x: PlayerId|
                        r@.contains(x) <==> exists|j: int|
                            0 <= j < i + 1 && (#[trigger] es[j]).0 == x && (only_silent ==> elapsed(
                                es[j].1.1,
                                now_ms,
                            ) > timeout_ms) by {
                        if r@.contains(x) {
                            let k = choose|k: int| 0 <= k < r@.len() && r@[k] == x;
                            if k < before.len() {
                                assert(before[k] == x);
                                assert(before.contains(x));
                                let j = choose|j: int|
                                    0 <= j < i && (#[trigger] es[j]).0 == x && (only_silent ==> elapsed(
                                        es[j].1.1,
                                        now_ms,
                                    ) > timeout_ms);
                                assert(es[j].0 == x);
                            } else {
                                assert(x == rec.id);
                                assert(es[i as int].1.1 == rec.last_seen_ms);
                                assert(es[i as int].0 == x && (only_silent ==> elapsed(es[i as int].1.1, now_ms)
                                    > timeout_ms));
                            }
                        }
                        if exists|j: int|
                            0 <= j < i + 1 && (#[trigger] es[j]).0 == x && (only_silent ==> elapsed(
                                es[j].1.1,
                                now_ms,
                            ) > timeout_ms) {
                            let j = choose|j: int|
                                0 <= j < i + 1 && (#[trigger] es[j]).0 == x && (only_silent ==> elapsed(
                                    es[j].1.1,
                                    now_ms,
                                ) > timeout_ms);
                            if j < i {
                                assert(before.contains(x));
                                let k = choose|k: int| 0 <= k < before.len() && before[k] == x;
                                assert(r@[k] == x);
                            } else {
                                assert(r@[r@.len() - 1] == x);
                            }
                        }
                    }
                }
            } else {
                proof {
                    assert forall|x: PlayerId|
                        r@.contains(x) <==> exists|j: int|
                            0 <= j < i + 1 && (#[trigger] es[j]).0 == x && (only_silent ==> elapsed(
                                es[j].1.1,
                                now_ms,
                            ) > timeout_ms) by {
                        if exists|j: int|
                            0 <= j < i + 1 && (#[trigger] es[j]).0 == x && (only_silent ==> elapsed(
                                es[j].1.1,
                                now_ms,
                            ) > timeout_ms) {
                            let j = choose|j: int|
                                0 <= j < i + 1 && (#[trigger] es[j]).0 == x && (only_silent ==> elapsed(
                                    es[j].1.1,
                                    now_ms,
                                ) > timeout_ms);
                            assert(j != i);
                        }
                    }
                }
            }
            i = i + 1;
        }
        proof {
            assert forall|x: PlayerId|
                r@.contains(x) <==> (self.players().dom().contains(x) && (only_silent ==> elapsed(
                    self.players()[x].1,
                    now_ms,
                ) > timeout_ms)) by {
                if r@.contains(x) {
                    let j = choose|j: int|
                        0 <= j < i && (#[trigger] es[j]).0 == x && (only_silent ==> elapsed(es[j].1.1, now_ms)
                            > timeout_ms);
                    lemma_keyed_at(es, j);
                }
                if self.players().dom().contains(x) {
                    let j = choose|j: int| 0 <= j < es.len() && (#[trigger] es[j]).0 == x;
                    lemma_keyed_at(es, j);
                }
            }
        }
        r
    }

    /// Sends a reliable event to every player but `exclude`: it gets the
    /// next event id (which then advances, wrapping at `u32::MAX`), and
    /// each recipient's sender registers a copy of `payload` as sent at
    /// `now_ms`. Returns the id and the recipients, each once.
    pub fn broadcast(&mut self, payload: &T, exclude: Option<PlayerId>, now_ms: u64) -> (r: (EventId, Vec<PlayerId>))
        ensures
            r.0 == old(self).next_event(),
            final(self).next_event() == (old(self).next_event() as int + 1) % 0x1_0000_0000,
            final(self).players().dom() == old(self).players().dom(),
            forall|id: PlayerId|
                #[trigger] old(self).players().dom().contains(id) ==> {
                    let before = old(self).players()[id];
                    let after = final(self).players()[id];
                    &&& after.0 == before.0
                    &&& after.1 == before.1
                    &&& after.2 == before.2
                    &&& exclude == Some(id) ==> after.3 == before.3
                    &&& exclude != Some(id) ==> exists|c: T|
                        cloned(*payload, c) && after.3 == before.3.insert(r.0, (c, now_ms, 1u32))
                },
            forall|x: PlayerId| r.1@.contains(x) <==> (old(self).players().dom().contains(x) && exclude != Some(x)),
            r.1@.no_duplicates(),
            final(self).members() == old(self).members(),
            final(self).next_id() == old(self).next_id(),
            final(self).capacity() == old(self).capacity(),
            final(self).interval() == old(self).interval(),
            final(self).max_attempts() == old(self).max_attempts(),
    {
        proof {
            use_type_invariant(&*self);
        }
        let event_id = self.next_event_id;
        let mut core = self.take_core();
        let ghost orig = core.records@;
        let ghost roster0 = core.roster;
        let ghost es0 = record_entries(orig);
        let mut recipients: Vec<PlayerId> = Vec::new();
        let mut i: usize = 0;
        while i < core.records.len()
            invariant
                i <= core.records@.len(),
                core.records@.len() == orig.len(),
                core.roster == roster0,
                es0 == record_entries(orig),
                distinct_keys(es0),
                forall|j: int|
                    0 <= j < orig.len() ==> {
                        &&& (#[trigger] core.records@[j]).id == orig[j].id
                        &&& core.records@[j].hp == orig[j].hp
                        &&& core.records@[j].last_seen_ms == orig[j].last_seen_ms
                        &&& core.records@[j].last_input_tick == orig[j].last_input_tick
                        &&& core.records@[j].events.interval() == orig[j].events.interval()
                        &&& core.records@[j].events.max() == orig[j].events.max()
                        &&& j >= i ==> core.records@[j].events.table() == orig[j].events.table()
                        &&& (j < i && exclude == Some(orig[j].id)) ==> core.records@[j].events.table()
                            == orig[j].events.table()
                        &&& (j < i && exclude != Some(orig[j].id)) ==> exists|c: T|
                            cloned(*payload, c) && core.records@[j].events.table() == orig[j].events.table().insert(
                                event_id,
                                (c, now_ms, 1u32),
                            )
                    },
                forall|x: PlayerId|
                    recipients@.contains(x) <==> exists|j: int|
                        0 <= j < i && (#[trigger] orig[j]).id == x && exclude != Some(x),
                recipients@.no_duplicates(),
            decreases core.records@.len() - i,
        {
            let ghost prev = core.records@;
            let rec = core.records.remove(i);
            let id = rec.id;
            let excluded = match exclude {
                Some(e) => e == id,
                None => false,
            };
            let mut events = rec.events;
            let ghost table0 = events.table();
            if !excluded {
                let copy = payload.clone();
                proof {
                    assert(cloned(*payload, copy));
                }
                events.send(event_id, copy, now_ms);
                proof {
                    assert(cloned(*payload, copy) && events.table() == table0.insert(event_id, (copy, now_ms, 1u32)));
                }
                let ghost rb = recipients@;
                proof {
                    assert(!rb.contains(id)) by {
                        if rb.contains(id) {
                            let j = choose|j: int| 0 <= j < i && (#[trigger] orig[j]).id == id && exclude != Some(id);
                            assert(es0[j].0 != es0[i as int].0);
                        }
                    }
                }
                recipients.push(id);
                proof {
                    assert forall|x: PlayerId|
                        recipients@.contains(x) <==> exists|j: int|
                            0 <= j < i + 1 && (#[trigger] orig[j]).id == x && exclude != Some(x) by {
                        if recipients@.contains(x) {
                            let k = choose|k: int| 0 <= k < recipients@.len() && recipients@[k] == x;
                            if k < rb.len() {
                                assert(rb[k] == x);
                                assert(rb.contains(x));
                                let j = choose|j: int| 0 <= j < i && (#[trigger] orig[j]).id == x && exclude != Some(x);
                                assert(orig[j].id == x);
                            } else {
                                assert(orig[i as int].id == x);
                            }
                        }
                        if exists|j: int| 0 <= j < i + 1 && (#[trigger] orig[j]).id == x && exclude != Some(x) {
                            let j = choose|j: int| 0 <= j < i + 1 && (#[trigger] orig[j]).id == x && exclude != Some(x);
                            if j < i {
                                assert(rb.contains(x));
                                let k = choose|k: int| 0 <= k < rb.len() && rb[k] == x;
                                assert(recipients@[k] == x);
                            } else {
                                assert(recipients@[recipients@.len() - 1] == x);
                            }
                        }
                    }
                }
            } else {
                proof {
                    assert forall|x: PlayerId|
                        recipients@.contains(x) <==> exists|j: int|
                            0 <= j < i + 1 && (#[trigger] orig[j]).id == x && exclude != Some(x) by {
                        if exists|j: int| 0 <= j < i + 1 && (#[trigger] orig[j]).id == x && exclude != Some(x) {
                            let j = choose|j: int| 0 <= j < i + 1 && (#[trigger] orig[j]).id == x && exclude != Some(x);
                            assert(j != i);
                        }
                    }
                }
            }
            let updated = PlayerRecord {
                id,
                hp: rec.hp,
                last_seen_ms: rec.last_seen_ms,
                last_input_tick: rec.last_input_tick,
                events,
            };
            core.records.insert(i, updated);
            proof {
                assert(core.records@ =~= prev.update(i as int, updated));
                assert(prev[i as int] == rec);
                assert forall|j: int| 0 <= j < orig.len() implies {
                    &&& (#[trigger] core.records@[j]).id == orig[j].id
                    &&& core.records@[j].hp == orig[j].hp
                    &&& core.records@[j].last_seen_ms == orig[j].last_seen_ms
                    &&& core.records@[j].last_input_tick == orig[j].last_input_tick
                    &&& core.records@[j].events.interval() == orig[j].events.interval()
                    &&& core.records@[j].events.max() == orig[j].events.max()
                    &&& j >= i + 1 ==> core.records@[j].events.table() == orig[j].events.table()
                    &&& (j < i + 1 && exclude == Some(orig[j].id)) ==> core.records@[j].events.table()
                        == orig[j].events.table()
                    &&& (j < i + 1 && exclude != Some(orig[j].id)) ==> exists|c: T|
                        cloned(*payload, c) && core.records@[j].events.table() == orig[j].events.table().insert(
                            event_id,
                            (c, now_ms, 1u32),
                        )
                } by {
                    if j != i {
                        assert(core.records@[j] == prev[j]);
                    } else {
                        assert(excluded == (exclude == Some(orig[j].id)));
                    }
                }
            }
            i = i + 1;
        }
        proof {
            let es1 = record_entries(core.records@);
            assert forall|a: int, b: int| 0 <= a < b < es1.len() implies (#[trigger] es1[a]).0 != (#[trigger] es1[b]).0 by {
                assert(es0[a].0 != es0[b].0);
            }
            assert forall|x: PlayerId| keyed(es1).dom().contains(x) == keyed(es0).dom().contains(x) by {
                if keyed(es1).dom().contains(x) {
                    let j = choose|j: int| 0 <= j < es1.len() && (#[trigger] es1[j]).0 == x;
                    assert(es0[j].0 == x);
                }
                if keyed(es0).dom().contains(x) {
                    let j = choose|j: int| 0 <= j < es0.len() && (#[trigger] es0[j]).0 == x;
                    assert(es1[j].0 == x);
                }
            }
            assert(keyed(es1).dom() =~= keyed(es0).dom());
            assert forall|id: PlayerId| #[trigger] keyed(es0).dom().contains(id) implies {
                let before = keyed(es0)[id];
                let after = keyed(es1)[id];
                &&& after.0 == before.0
                &&& after.1 == before.1
                &&& after.2 == before.2
                &&& exclude == Some(id) ==> after.3 == before.3
                &&& exclude != Some(id) ==> exists|c: T|
                    cloned(*payload, c) && after.3 == before.3.insert(event_id, (c, now_ms, 1u32))
            } by {
                let j = choose|j: int| 0 <= j < es0.len() && (#[trigger] es0[j]).0 == id;
                lemma_keyed_at(es0, j);
                lemma_keyed_at(es1, j);
            }
            assert forall|x: PlayerId|
                recipients@.contains(x) <==> (keyed(es0).dom().contains(x) && exclude != Some(x)) by {
                if recipients@.contains(x) {
                    let j = choose|j: int| 0 <= j < i && (#[trigger] orig[j]).id == x && exclude != Some(x);
                    assert(es0[j].0 == x);
                }
                if keyed(es0).dom().contains(x) && exclude != Some(x) {
                    let j = choose|j: int| 0 <= j < es0.len() && (#[trigger] es0[j]).0 == x;
                    assert(orig[j].id == x);
                }
            }
            assert forall|j: int| 0 <= j < core.records@.len() implies {
                &&& (#[trigger] core.records@[j]).hp <= MAX_HP
                &&& core.records@[j].events.interval() == self.retry_interval_ms
                &&& core.records@[j].events.max() == self.max_retry_attempts
            } by {
                assert(orig[j].hp <= MAX_HP);
            }
        }
        self.core = core;
        self.next_event_id = event_id.wrapping_add(1);
        (event_id, recipients)
    }

    /// Runs every player's retry check at `now_ms`: each sender's table
    /// becomes what its check leaves, and the result holds, for each player
    /// once, the events to send again and the ones given up.
    pub fn retry_due(&mut self, now_ms: u64) -> (r: Vec<(PlayerId, RetryTick<T>)>)
        ensures
            final(self).players().dom() == old(self).players().dom(),
            forall|id: PlayerId|
                #[trigger] old(self).players().dom().contains(id) ==> final(self).players()[id] == (
                    old(self).players()[id].0,
                    old(self).players()[id].1,
                    old(self).players()[id].2,
                    retry_map(old(self).players()[id].3, now_ms, old(self).interval(), old(self).max_attempts()),
                ),
            forall|k: int|
                0 <= k < r@.len() ==> old(self).players().dom().contains((#[trigger] r@[k]).0) && retry_outcome(
                    old(self).players()[r@[k].0].3,
                    now_ms,
                    old(self).interval(),
                    old(self).max_attempts(),
                    r@[k].1,
                ),
            forall|x: PlayerId|
                old(self).players().dom().contains(x) <==> exists|k: int| 0 <= k < r@.len() && (#[trigger] r@[k]).0 == x,
            forall|a: int, b: int| 0 <= a < b < r@.len() ==> (#[trigger] r@[a]).0 != (#[trigger] r@[b]).0,
            final(self).members() == old(self).members(),
            final(self).next_id() == old(self).next_id(),
            final(self).capacity() == old(self).capacity(),
            final(self).next_event() == old(self).next_event(),
            final(self).interval() == old(self).interval(),
            final(self).max_attempts() == old(self).max_attempts(),
    {
        proof {
            use_type_invariant(&*self);
        }
        let mut core = self.take_core();
        let ghost orig = core.records@;
        let ghost roster0 = core.roster;
        let ghost es0 = record_entries(orig);
        let ghost interval = self.retry_interval_ms;
        let ghost max = self.max_retry_attempts;
        let mut out: Vec<(PlayerId, RetryTick<T>)> = Vec::new();
        let mut i: usize = 0;
        while i < core.records.len()
            invariant
                i <= core.records@.len(),
                core.records@.len() == orig.len(),
                core.roster == roster0,
                es0 == record_entries(orig),
                distinct_keys(es0),
                out@.len() == i,
                forall|j: int|
                    0 <= j < orig.len() ==> {
                        &&& (#[trigger] core.records@[j]).id == orig[j].id
                        &&& core.records@[j].hp == orig[j].hp
                        &&& core.records@[j].last_seen_ms == orig[j].last_seen_ms
                        &&& core.records@[j].last_input_tick == orig[j].last_input_tick
                        &&& core.records@[j].events.interval() == orig[j].events.interval()
                        &&& core.records@[j].events.max() == orig[j].events.max()
                        &&& orig[j].events.interval() == interval
                        &&& orig[j].events.max() == max
                        &&& orig[j].hp <= MAX_HP
                        &&& j >= i ==> core.records@[j].events.table() == orig[j].events.table()
                        &&& j < i ==> core.records@[j].events.table() == retry_map(
                            orig[j].events.table(),
                            now_ms,
                            interval,
                            max,
                        )
                    },
                forall|k: int|
                    0 <= k < i ==> (#[trigger] out@[k]).0 == orig[k].id && retry_outcome(
                        orig[k].events.table(),
                        now_ms,
                        interval,
                        max,
                        out@[k].1,
                    ),
            decreases core.records@.len() - i,
        {
            let ghost prev = core.records@;
            let rec = core.records.remove(i);
            proof {
                assert(prev[i as int] == rec);
            }
            let mut events = rec.events;
            let tick = events.due_for_retry(now_ms);
            let id = rec.id;
            let updated = PlayerRecord {
                id,
                hp: rec.hp,
                last_seen_ms: rec.last_seen_ms,
                last_input_tick: rec.last_input_tick,
                events,
            };
            core.records.insert(i, updated);
            let ghost ob = out@;
            out.push((id, tick));
            proof {
                assert(core.records@ =~= prev.update(i as int, updated));
                assert forall|j: int| 0 <= j < orig.len() implies {
                    &&& (#[trigger] core.records@[j]).id == orig[j].id
                    &&& core.records@[j].hp == orig[j].hp
                    &&& core.records@[j].last_seen_ms == orig[j].last_seen_ms
                    &&& core.records@[j].last_input_tick == orig[j].last_input_tick
                    &&& core.records@[j].events.interval() == orig[j].events.interval()
                    &&& core.records@[j].events.max() == orig[j].events.max()
                    &&& orig[j].events.interval() == interval
                    &&& orig[j].events.max() == max
                    &&& orig[j].hp <= MAX_HP
                    &&& j >= i + 1 ==> core.records@[j].events.table() == orig[j].events.table()
                    &&& j < i + 1 ==> core.records@[j].events.table() == retry_map(
                        orig[j].events.table(),
                        now_ms,
                        interval,
                        max,
                    )
                } by {
                    if j != i {
                        assert(core.records@[j] == prev[j]);
                    }
                }
                assert forall|k: int| 0 <= k < i + 1 implies (#[trigger] out@[k]).0 == orig[k].id && retry_outcome(
                    orig[k].events.table(),
                    now_ms,
                    interval,
                    max,
                    out@[k].1,
                ) by {
                    if k < i {
                        assert(out@[k] == ob[k]);
                    }
                }
            }
            i = i + 1;
        }
        proof {
            let es1 = record_entries(core.records@);
            assert forall|a: int, b: int| 0 <= a < b < es1.len() implies (#[trigger] es1[a]).0 != (#[trigger] es1[b]).0 by {
                assert(es0[a].0 != es0[b].0);
            }
            assert forall|x: PlayerId| keyed(es1).dom().contains(x) == keyed(es0).dom().contains(x) by {
                if keyed(es1).dom().contains(x) {
                    let j = choose|j: int| 0 <= j < es1.len() && (#[trigger] es1[j]).0 == x;
                    assert(es0[j].0 == x);
                }
                if keyed(es0).dom().contains(x) {
                    let j = choose|j: int| 0 <= j < es0.len() && (#[trigger] es0[j]).0 == x;
                    assert(es1[j].0 == x);
                }
            }
            assert(keyed(es1).dom() =~= keyed(es0).dom());
            assert forall|id: PlayerId| #[trigger] keyed(es0).dom().contains(id) implies keyed(es1)[id] == (
                keyed(es0)[id].0,
                keyed(es0)[id].1,
                keyed(es0)[id].2,
                retry_map(keyed(es0)[id].3, now_ms, interval, max),
            ) by {
                let j = choose|j: int| 0 <= j < es0.len() && (#[trigger] es0[j]).0 == id;
                lemma_keyed_at(es0, j);
                lemma_keyed_at(es1, j);
            }
            assert forall|k: int| 0 <= k < out@.len() implies keyed(es0).dom().contains((#[trigger] out@[k]).0)
                && retry_outcome(keyed(es0)[out@[k].0].3, now_ms, interval, max, out@[k].1) by {
                lemma_keyed_at(es0, k);
            }
            assert forall|x: PlayerId|
                keyed(es0).dom().contains(x) <==> exists|k: int| 0 <= k < out@.len() && (#[trigger] out@[k]).0 == x by {
                if keyed(es0).dom().contains(x) {
                    let j = choose|j: int| 0 <= j < es0.len() && (#[trigger] es0[j]).0 == x;
                    assert(out@[j].0 == x);
                }
                if exists|k: int| 0 <= k < out@.len() && (#[trigger] out@[k]).0 == x {
                    let k = choose|k: int| 0 <= k < out@.len() && (#[trigger] out@[k]).0 == x;
                    lemma_keyed_at(es0, k);
                }
            }
            assert forall|a: int, b: int| 0 <= a < b < out@.len() implies (#[trigger] out@[a]).0 != (#[trigger] out@[b]).0 by {
                assert(es0[a].0 != es0[b].0);
            }
            assert forall|j: int| 0 <= j < core.records@.len() implies {
                &&& (#[trigger] core.records@[j]).hp <= MAX_HP
                &&& core.records@[j].events.interval() == self.retry_interval_ms
                &&& core.records@[j].events.max() == self.max_retry_attempts
            } by {}
        }
        self.core = core;
        out
    }
}

/// What one retry check at `now` over the table `t` hands back: each
/// event to send again (with a copy of its payload) and each given up,
/// once each.
pub open spec fn retry_outcome<T: Clone>(t: Map<EventId, Pending<T>>, now: u64, interval: u64, max: u32, tick: RetryTick<T>) -> bool {
    &&& tick.gave_up@.no_duplicates()
    &&& tick.gave_up@.to_set() == gave_up_ids(t, now, interval, max)
    &&& tick.to_resend@.map_values(|e: (EventId, T)| e.0).no_duplicates()
    &&& tick.to_resend@.map_values(|e: (EventId, T)| e.0).to_set() == resend_ids(t, now, interval, max)
    &&& forall|k: int| 0 <= k < tick.to_resend@.len() ==> cloned(t[(#[trigger] tick.to_resend@[k]).0].0, tick.to_resend@[k].1)
}

} // verus!
