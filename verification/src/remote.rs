//! The client's registry of the other players, reconciled from every
//! `WorldState`: membership never depends on events alone, since the
//! reliability layer may give up on one. A player seen in a snapshot but
//! unknown locally is created under a placeholder name, which a late
//! `PlayerJoined` replaces; a player absent from snapshots for longer than
//! `GHOST_TIMEOUT_MS` is dropped even if no `PlayerLeft` ever arrives.
//! Positions and the interpolation buffers live beside it, keyed by id.

use vstd::prelude::*;
use crate::config::GHOST_TIMEOUT_MS;
use crate::reliability::elapsed;
use crate::keyed::{
    distinct_keys, keyed, lemma_keyed_absent, lemma_keyed_at, lemma_keyed_empty, lemma_keyed_push,
    lemma_keyed_remove, lemma_keyed_update,
};
use crate::roster::PlayerId;

verus! {

/// What the registry knows of one remote player.
#[derive(Debug)]
pub struct RemotePlayer {
    pub id: PlayerId,
    pub name: String,
    pub hp: u8,
    last_seen_ms: u64,
}

impl RemotePlayer {
    pub closed spec fn spec_last_seen(&self) -> u64 {
        self.last_seen_ms
    }

    /// The player's id, name, hp and last-seen time.
    pub closed spec fn entry(&self) -> (PlayerId, RemoteView) {
        (self.id, (self.name@, self.hp, self.last_seen_ms))
    }

    /// When a snapshot last listed this player.
    pub fn last_seen_ms(&self) -> (r: u64)
        ensures
            r == self.spec_last_seen(),
    {
        self.last_seen_ms
    }
}

/// The decimal digits of `n`, most significant first, without leading
/// zeros.
pub open spec fn decimal(n: nat) -> Seq<char>
    decreases n,
{
    let d = seq!['0', '1', '2', '3', '4', '5', '6', '7', '8', '9'][(n % 10) as int];
    if n < 10 {
        seq![d]
    } else {
        decimal(n / 10).push(d)
    }
}

/// The name shown for a player whose `PlayerJoined` has not arrived:
/// `Player <id>`.
pub open spec fn placeholder(id: PlayerId) -> Seq<char> {
    seq!['P', 'l', 'a', 'y', 'e', 'r', ' '] + decimal(id as nat)
}

/// `ToString::to_string` on a `u32`, through std's `Display`. Claimed: the
/// number in decimal, without sign or leading zeros.
#[verifier::external_body]
fn decimal_string(n: u32) -> (r: String)
    ensures
        r@ == decimal(n as nat),
{
    n.to_string()
}

/// The placeholder name for `id`: `Player `, then the id in decimal.
fn placeholder_name(id: PlayerId) -> (r: String)
    ensures
        r@ == placeholder(id),
{
    let digits = decimal_string(id);
    let prefix = "Player ";
    proof {
        reveal_strlit("Player ");
        assert(prefix@ =~= seq!['P', 'l', 'a', 'y', 'e', 'r', ' ']);
    }
    prefix.to_owned().concat(digits.as_str())
}

/// What the registry holds of one player: name, hp, and when a snapshot
/// last listed it.
pub type RemoteView = (Seq<char>, u8, u64);

/// The name a player gets when a snapshot first lists it: the name it
/// already has, else the name its `PlayerJoined` gave, else a placeholder.
pub open spec fn name_for(m: Map<PlayerId, RemoteView>, names: Map<PlayerId, Seq<char>>, id: PlayerId) -> Seq<char> {
    if m.dom().contains(id) {
        m[id].0
    } else if names.dom().contains(id) {
        names[id]
    } else {
        placeholder(id)
    }
}

/// One snapshot entry `(id, hp)` seen at `now`: any player but ourselves
/// is (re)recorded with the hp it reports and `now` as last seen.
pub open spec fn seen_one(
    m: Map<PlayerId, RemoteView>,
    names: Map<PlayerId, Seq<char>>,
    self_id: PlayerId,
    entry: (PlayerId, u8),
    now: u64,
) -> Map<PlayerId, RemoteView> {
    if entry.0 == self_id {
        m
    } else {
        m.insert(entry.0, (name_for(m, names, entry.0), entry.1, now))
    }
}

/// The registry after recording every entry of a snapshot, in order.
pub open spec fn seen_all(
    m: Map<PlayerId, RemoteView>,
    names: Map<PlayerId, Seq<char>>,
    self_id: PlayerId,
    entries: Seq<(PlayerId, u8)>,
    now: u64,
) -> Map<PlayerId, RemoteView>
    decreases entries.len(),
{
    if entries.len() == 0 {
        m
    } else {
        seen_one(seen_all(m, names, self_id, entries.drop_last(), now), names, self_id, entries.last(), now)
    }
}

/// Recording a snapshot gives every player it lists, ourselves aside, the
/// hp of its last entry in the snapshot and `now` as last seen, whatever
/// the registry held before: a respawn or a heal shows at once.
proof fn lemma_seen_all_takes_last_entry(
    m: Map<PlayerId, RemoteView>,
    names: Map<PlayerId, Seq<char>>,
    self_id: PlayerId,
    entries: Seq<(PlayerId, u8)>,
    now: u64,
    k: int,
)
    requires
        0 <= k < entries.len(),
        entries[k].0 != self_id,
        forall|j: int| k < j < entries.len() ==> entries[j].0 != entries[k].0,
    ensures
        seen_all(m, names, self_id, entries, now).contains_key(entries[k].0),
        seen_all(m, names, self_id, entries, now)[entries[k].0].1 == entries[k].1,
        seen_all(m, names, self_id, entries, now)[entries[k].0].2 == now,
    decreases entries.len(),
{
    let prev = entries.drop_last();
    if k < entries.len() - 1 {
        assert(prev[k] == entries[k]);
        assert forall|j: int| k < j < prev.len() implies prev[j].0 != prev[k].0 by {
            assert(prev[j] == entries[j]);
        }
        lemma_seen_all_takes_last_entry(m, names, self_id, prev, now, k);
    }
}

/// After a snapshot, every player it lists, ourselves aside, is in the
/// registry with exactly the hp of its last entry in the snapshot, seen at
/// `now`; the hp the registry held before plays no part.
pub proof fn lemma_snapshot_sets_listed_hp(
    m: Map<PlayerId, RemoteView>,
    names: Map<PlayerId, Seq<char>>,
    self_id: PlayerId,
    entries: Seq<(PlayerId, u8)>,
    now: u64,
    k: int,
)
    requires
        0 <= k < entries.len(),
        entries[k].0 != self_id,
        forall|j: int| k < j < entries.len() ==> entries[j].0 != entries[k].0,
    ensures
        drop_ghosts(seen_all(m, names, self_id, entries, now), now).contains_key(entries[k].0),
        drop_ghosts(seen_all(m, names, self_id, entries, now), now)[entries[k].0].1 == entries[k].1,
        drop_ghosts(seen_all(m, names, self_id, entries, now), now)[entries[k].0].2 == now,
{
    lemma_seen_all_takes_last_entry(m, names, self_id, entries, now, k);
    assert(elapsed(now, now) == 0);
}

/// Whether a player last seen at `last_seen` still counts at `now`.
pub open spec fn still_present(last_seen: u64, now: u64) -> bool {
    elapsed(last_seen, now) <= GHOST_TIMEOUT_MS
}

/// The players of `m` seen recently enough at `now`.
pub open spec fn drop_ghosts(m: Map<PlayerId, RemoteView>, now: u64) -> Map<PlayerId, RemoteView> {
    Map::new(|id: PlayerId| m.dom().contains(id) && still_present(m[id].2, now), |id: PlayerId| m[id])
}

/// The remote players, and the names `PlayerJoined` events announced.
///
/// Both tables are `Vec`s with distinct ids, seen through `Map`s, and not
/// `HashMap`s: a snapshot updates players in place and then drops the
/// ghosts, as `HashMap::get_mut` and `HashMap::retain` would, and vstd
/// specifies neither.
#[derive(Debug)]
pub struct RemotePlayers {
    players: Vec<RemotePlayer>,
    known_names: Vec<(PlayerId, String)>,
}

pub closed spec fn player_entries(players: Seq<RemotePlayer>) -> Seq<(PlayerId, RemoteView)> {
    players.map_values(|p: RemotePlayer| (p.id, (p.name@, p.hp, p.spec_last_seen())))
}

pub open spec fn name_entries(names: Seq<(PlayerId, String)>) -> Seq<(PlayerId, Seq<char>)> {
    names.map_values(|p: (PlayerId, String)| (p.0, p.1@))
}

impl View for RemotePlayers {
    type V = Map<PlayerId, RemoteView>;

    open spec fn view(&self) -> Map<PlayerId, RemoteView> {
        self.players_map()
    }
}

/// Index of the player with id `id`, if any.
fn find_player(players: &Vec<RemotePlayer>, id: PlayerId) -> (r: Option<usize>)
    ensures
        r matches Some(i) ==> i < players@.len() && players@[i as int].id == id,
        r is None ==> forall|j: int| 0 <= j < players@.len() ==> (#[trigger] players@[j]).id != id,
{
    let mut i: usize = 0;
    while i < players.len()
        invariant
            i <= players@.len(),
            forall|j: int| 0 <= j < i ==> (#[trigger] players@[j]).id != id,
        decreases players@.len() - i,
    {
        if players[i].id == id {
            return Some(i);
        }
        i = i + 1;
    }
    None
}

/// Index of the announced name for `id`, if any.
fn find_name(names: &Vec<(PlayerId, String)>, id: PlayerId) -> (r: Option<usize>)
    ensures
        r matches Some(i) ==> i < names@.len() && names@[i as int].0 == id,
        r is None ==> forall|j: int| 0 <= j < names@.len() ==> (#[trigger] names@[j]).0 != id,
{
    let mut i: usize = 0;
    while i < names.len()
        invariant
            i <= names@.len(),
            forall|j: int| 0 <= j < i ==> (#[trigger] names@[j]).0 != id,
        decreases names@.len() - i,
    {
        if names[i].0 == id {
            return Some(i);
        }
        i = i + 1;
    }
    None
}

impl Default for RemotePlayers {
    fn default() -> (r: Self)
        ensures
            r@ == Map::<PlayerId, RemoteView>::empty(),
            r.names() == Map::<PlayerId, Seq<char>>::empty(),
    {
        RemotePlayers::new()
    }
}

impl RemotePlayers {
    #[verifier::type_invariant]
    spec fn inv(self) -> bool {
        &&& distinct_keys(player_entries(self.players@))
        &&& distinct_keys(name_entries(self.known_names@))
    }

    /// The remote players by id.
    pub closed spec fn players_map(&self) -> Map<PlayerId, RemoteView> {
        keyed(player_entries(self.players@))
    }

    /// The names announced by `PlayerJoined`, by id.
    pub closed spec fn names(&self) -> Map<PlayerId, Seq<char>> {
        keyed(name_entries(self.known_names@))
    }

    /// No remote players, no names.
    pub fn new() -> (r: Self)
        ensures
            r@ == Map::<PlayerId, RemoteView>::empty(),
            r.names() == Map::<PlayerId, Seq<char>>::empty(),
    {
        let r = RemotePlayers { players: Vec::new(), known_names: Vec::new() };
        proof {
            assert(player_entries(r.players@) =~= Seq::empty());
            assert(name_entries(r.known_names@) =~= Seq::empty());
            lemma_keyed_empty::<RemoteView>();
            lemma_keyed_empty::<Seq<char>>();
        }
        r
    }

    /// Reconciles membership with one `WorldState`: each listed player
    /// other than `self_id` is recorded with its hp and `now_ms` as last
    /// seen, created first if unknown (under its announced name, else a
    /// placeholder); then every player not seen within
    /// `GHOST_TIMEOUT_MS` of `now_ms` is dropped.
    pub fn apply_snapshot(&mut self, self_id: PlayerId, snapshot: &Vec<(PlayerId, u8)>, now_ms: u64)
        ensures
            final(self)@ == drop_ghosts(seen_all(old(self)@, old(self).names(), self_id, snapshot@, now_ms), now_ms),
            final(self).names() == old(self).names(),
            forall|k: int|
                0 <= k < snapshot@.len() && (#[trigger] snapshot@[k]).0 != self_id && (forall|j: int|
                    k < j < snapshot@.len() ==> snapshot@[j].0 != snapshot@[k].0) ==> final(self)@.contains_key(
                    snapshot@[k].0,
                ) && final(self)@[snapshot@[k].0].1 == snapshot@[k].1 && final(self)@[snapshot@[k].0].2 == now_ms,
    {
        proof {
            assert forall|k: int|
                0 <= k < snapshot@.len() && (#[trigger] snapshot@[k]).0 != self_id && (forall|j: int|
                    k < j < snapshot@.len() ==> snapshot@[j].0 != snapshot@[k].0) implies drop_ghosts(
                    seen_all(self@, self.names(), self_id, snapshot@, now_ms),
                    now_ms,
                ).contains_key(snapshot@[k].0) && drop_ghosts(
                    seen_all(self@, self.names(), self_id, snapshot@, now_ms),
                    now_ms,
                )[snapshot@[k].0].1 == snapshot@[k].1 && drop_ghosts(
                    seen_all(self@, self.names(), self_id, snapshot@, now_ms),
                    now_ms,
                )[snapshot@[k].0].2 == now_ms by {
                lemma_snapshot_sets_listed_hp(self@, self.names(), self_id, snapshot@, now_ms, k);
            }
        }
        proof {
            use_type_invariant(&*self);
        }
        let ghost m0 = self@;
        let ghost names = self.names();
        let mut players: Vec<RemotePlayer> = Vec::new();
        std::mem::swap(&mut players, &mut self.players);
        proof {
            assert(snapshot@.take(0) =~= Seq::<(PlayerId, u8)>::empty());
        }
        let mut k: usize = 0;
        while k < snapshot.len()
            invariant
                k <= snapshot@.len(),
                distinct_keys(player_entries(players@)),
                distinct_keys(name_entries(self.known_names@)),
                names == keyed(name_entries(self.known_names@)),
                keyed(player_entries(players@)) == seen_all(m0, names, self_id, snapshot@.take(k as int), now_ms),
            decreases snapshot@.len() - k,
        {
            let entry = snapshot[k];
            let ghost before = players@;
            proof {
                assert(snapshot@.take(k as int + 1).drop_last() =~= snapshot@.take(k as int));
                assert(snapshot@.take(k as int + 1).last() == entry);
            }
            if entry.0 != self_id {
                match find_player(&players, entry.0) {
                    Some(i) => {
                        let name = players[i].name.clone();
                        proof {
                            lemma_keyed_at(player_entries(before), i as int);
                        }
                        players.set(i, RemotePlayer { id: entry.0, name, hp: entry.1, last_seen_ms: now_ms });
                        proof {
                            lemma_keyed_update(player_entries(before), i as int, (name@, entry.1, now_ms));
                            assert(player_entries(players@) =~= player_entries(before).update(
                                i as int,
                                (entry.0, (name@, entry.1, now_ms)),
                            ));
                        }
                    },
                    None => {
                        proof {
                            assert forall|j: int| 0 <= j < player_entries(before).len() implies (#[trigger] player_entries(
                                before,
                            )[j]).0 != entry.0 by {
                                assert(before[j].id != entry.0);
                            }
                            lemma_keyed_absent(player_entries(before), entry.0);
                        }
                        let name = match find_name(&self.known_names, entry.0) {
                            Some(j) => {
                                proof {
                                    lemma_keyed_at(name_entries(self.known_names@), j as int);
                                }
                                self.known_names[j].1.clone()
                            },
                            None => {
                                proof {
                                    assert forall|j: int| 0 <= j < name_entries(self.known_names@).len() implies (#[trigger] name_entries(
                                        self.known_names@,
                                    )[j]).0 != entry.0 by {
                                        assert(self.known_names@[j].0 != entry.0);
                                    }
                                    lemma_keyed_absent(name_entries(self.known_names@), entry.0);
                                }
                                placeholder_name(entry.0)
                            },
                        };
                        let ghost nv = name@;
                        players.push(RemotePlayer { id: entry.0, name, hp: entry.1, last_seen_ms: now_ms });
                        proof {
                            lemma_keyed_push(player_entries(before), entry.0, (nv, entry.1, now_ms));
                            assert(player_entries(players@) =~= player_entries(before).push(
                                (entry.0, (nv, entry.1, now_ms)),
                            ));
                        }
                    },
                }
            }
            k = k + 1;
        }
        proof {
            assert(snapshot@.take(k as int) =~= snapshot@);
        }
        let ghost seen = keyed(player_entries(players@));
        let mut kept: Vec<RemotePlayer> = Vec::new();
        let mut i: usize = 0;
        proof {
            assert(player_entries(kept@) =~= Seq::empty());
            lemma_keyed_empty::<RemoteView>();
            assert(player_entries(players@).take(0) =~= Seq::<(PlayerId, RemoteView)>::empty());
            assert(drop_ghosts(keyed(player_entries(players@).take(0)), now_ms) =~= Map::<
                PlayerId,
                RemoteView,
            >::empty());
        }
        while i < players.len()
            invariant
                i <= players@.len(),
                distinct_keys(player_entries(players@)),
                distinct_keys(player_entries(kept@)),
                seen == keyed(player_entries(players@)),
                keyed(player_entries(kept@)) == drop_ghosts(keyed(player_entries(players@).take(i as int)), now_ms),
                forall|a: int| 0 <= a < kept@.len() ==> exists|b: int| 0 <= b < i && (#[trigger] kept@[a]).id == (
                #[trigger] players@[b]).id,
            decreases players@.len() - i,
        {
            let ghost pre = player_entries(players@).take(i as int);
            let ghost e = player_entries(players@)[i as int];
            proof {
                assert(player_entries(players@).take(i as int + 1) =~= pre.push(e));
                assert(distinct_keys(pre));
                assert forall|j: int| 0 <= j < pre.len() implies (#[trigger] pre[j]).0 != e.0 by {
                    assert(player_entries(players@)[j].0 != player_entries(players@)[i as int].0);
                }
                lemma_keyed_absent(pre, e.0);
                lemma_keyed_push(pre, e.0, e.1);
            }
            let fresh = now_ms.saturating_sub(players[i].last_seen_ms) <= GHOST_TIMEOUT_MS;
            if fresh {
                let p = &players[i];
                let copy = RemotePlayer { id: p.id, name: p.name.clone(), hp: p.hp, last_seen_ms: p.last_seen_ms };
                let ghost kb = kept@;
                proof {
                    assert forall|j: int| 0 <= j < player_entries(kb).len() implies (#[trigger] player_entries(
                        kb,
                    )[j]).0 != e.0 by {
                        let b = choose|b: int| 0 <= b < i && (#[trigger] kb[j]).id == (#[trigger] players@[b]).id;
                        assert(player_entries(players@)[b].0 != player_entries(players@)[i as int].0);
                    }
                    lemma_keyed_absent(player_entries(kb), e.0);
                    lemma_keyed_push(player_entries(kb), e.0, e.1);
                }
                kept.push(copy);
                proof {
                    assert(player_entries(kept@) =~= player_entries(kb).push(e));
                    assert(drop_ghosts(keyed(pre.push(e)), now_ms) =~= drop_ghosts(keyed(pre), now_ms).insert(
                        e.0,
                        e.1,
                    ));
                    assert forall|a: int| 0 <= a < kept@.len() implies exists|b: int| 0 <= b < i + 1 && (#[trigger] kept@[a]).id == (
                    #[trigger] players@[b]).id by {
                        if a == kept@.len() - 1 {
                            assert(kept@[a].id == players@[i as int].id);
                        } else {
                            let b = choose|b: int| 0 <= b < i && (#[trigger] kb[a]).id == (#[trigger] players@[b]).id;
                            assert(kept@[a] == kb[a]);
                        }
                    }
                }
            } else {
                proof {
                    assert(drop_ghosts(keyed(pre.push(e)), now_ms) =~= drop_ghosts(keyed(pre), now_ms));
                }
            }
            i = i + 1;
        }
        proof {
            assert(player_entries(players@).take(i as int) =~= player_entries(players@));
        }
        self.players = kept;
    }

    /// A `PlayerJoined` event: the announced name is remembered, and
    /// replaces the current name of that player if it is already known.
    pub fn player_joined(&mut self, id: PlayerId, name: String)
        ensures
            final(self)@ == (if old(self)@.dom().contains(id) {
                old(self)@.insert(id, (name@, old(self)@[id].1, old(self)@[id].2))
            } else {
                old(self)@
            }),
            final(self).names() == old(self).names().insert(id, name@),
    {
        proof {
            use_type_invariant(&*self);
        }
        let mut names: Vec<(PlayerId, String)> = Vec::new();
        std::mem::swap(&mut names, &mut self.known_names);
        let ghost nb = names@;
        let copy = name.clone();
        match find_name(&names, id) {
            Some(j) => {
                names.set(j, (id, copy));
                proof {
                    lemma_keyed_update(name_entries(nb), j as int, name@);
                    assert(name_entries(names@) =~= name_entries(nb).update(j as int, (id, name@)));
                }
            },
            None => {
                proof {
                    assert forall|j: int| 0 <= j < name_entries(nb).len() implies (#[trigger] name_entries(nb)[j]).0
                        != id by {
                        assert(nb[j].0 != id);
                    }
                    lemma_keyed_absent(name_entries(nb), id);
                    lemma_keyed_push(name_entries(nb), id, name@);
                }
                names.push((id, copy));
                proof {
                    assert(name_entries(names@) =~= name_entries(nb).push((id, name@)));
                }
            },
        }
        self.known_names = names;
        let mut players: Vec<RemotePlayer> = Vec::new();
        std::mem::swap(&mut players, &mut self.players);
        let ghost pb = players@;
        match find_player(&players, id) {
            Some(i) => {
                let hp = players[i].hp;
                let last_seen_ms = players[i].last_seen_ms;
                proof {
                    lemma_keyed_at(player_entries(pb), i as int);
                }
                let ghost nv = name@;
                players.set(i, RemotePlayer { id, name, hp, last_seen_ms });
                proof {
                    lemma_keyed_update(player_entries(pb), i as int, (nv, hp, last_seen_ms));
                    assert(player_entries(players@) =~= player_entries(pb).update(i as int, (id, (nv, hp, last_seen_ms))));
                }
            },
            None => {
                proof {
                    assert forall|j: int| 0 <= j < player_entries(pb).len() implies (#[trigger] player_entries(pb)[j]).0
                        != id by {
                        assert(pb[j].id != id);
                    }
                    lemma_keyed_absent(player_entries(pb), id);
                }
            },
        }
        self.players = players;
    }

    /// A `PlayerLeft` event: the player and its announced name are
    /// forgotten at once.
    pub fn player_left(&mut self, id: PlayerId)
        ensures
            final(self)@ == old(self)@.remove(id),
            final(self).names() == old(self).names().remove(id),
    {
        proof {
            use_type_invariant(&*self);
        }
        let mut players: Vec<RemotePlayer> = Vec::new();
        std::mem::swap(&mut players, &mut self.players);
        let ghost pb = players@;
        match find_player(&players, id) {
            Some(i) => {
                players.remove(i);
                proof {
                    lemma_keyed_remove(player_entries(pb), i as int);
                    assert(player_entries(players@) =~= player_entries(pb).remove(i as int));
                }
            },
            None => {
                proof {
                    assert forall|j: int| 0 <= j < player_entries(pb).len() implies (#[trigger] player_entries(pb)[j]).0
                        != id by {
                        assert(pb[j].id != id);
                    }
                    lemma_keyed_absent(player_entries(pb), id);
                    assert(keyed(player_entries(pb)).remove(id) =~= keyed(player_entries(pb)));
                }
            },
        }
        self.players = players;
        let mut names: Vec<(PlayerId, String)> = Vec::new();
        std::mem::swap(&mut names, &mut self.known_names);
        let ghost nb = names@;
        match find_name(&names, id) {
            Some(j) => {
                names.remove(j);
                proof {
                    lemma_keyed_remove(name_entries(nb), j as int);
                    assert(name_entries(names@) =~= name_entries(nb).remove(j as int));
                }
            },
            None => {
                proof {
                    assert forall|j: int| 0 <= j < name_entries(nb).len() implies (#[trigger] name_entries(nb)[j]).0
                        != id by {
                        assert(nb[j].0 != id);
                    }
                    lemma_keyed_absent(name_entries(nb), id);
                    assert(keyed(name_entries(nb)).remove(id) =~= keyed(name_entries(nb)));
                }
            },
        }
        self.known_names = names;
    }

    /// The player with id `id`, if known.
    pub fn get(&self, id: PlayerId) -> (r: Option<&RemotePlayer>)
        ensures
            r is Some <==> self@.dom().contains(id),
            r matches Some(p) ==> p.entry() == (id, self@[id]),
    {
        proof {
            use_type_invariant(self);
        }
        match find_player(&self.players, id) {
            Some(i) => {
                proof {
                    lemma_keyed_at(player_entries(self.players@), i as int);
                }
                Some(&self.players[i])
            },
            None => {
                proof {
                    assert forall|j: int| 0 <= j < player_entries(self.players@).len() implies (#[trigger] player_entries(
                        self.players@,
                    )[j]).0 != id by {
                        assert(self.players@[j].id != id);
                    }
                    lemma_keyed_absent(player_entries(self.players@), id);
                }
                None
            },
        }
    }

    /// The ids of the known remote players, each once.
    pub fn ids(&self) -> (r: Vec<PlayerId>)
        ensures
            forall|id: PlayerId| r@.contains(id) <==> self@.dom().contains(id),
            r@.no_duplicates(),
    {
        proof {
            use_type_invariant(self);
        }
        let mut r: Vec<PlayerId> = Vec::new();
        let mut i: usize = 0;
        while i < self.players.len()
            invariant
                i <= self.players@.len(),
                distinct_keys(player_entries(self.players@)),
                r@.len() == i,
                forall|a: int| 0 <= a < i ==> r@[a] == (#[trigger] self.players@[a]).id,
            decreases self.players@.len() - i,
        {
            r.push(self.players[i].id);
            i = i + 1;
        }
        proof {
            let es = player_entries(self.players@);
            assert forall|id: PlayerId| r@.contains(id) <==> self@.dom().contains(id) by {
                if r@.contains(id) {
                    let a = choose|a: int| 0 <= a < r@.len() && r@[a] == id;
                    assert(es[a].0 == id);
                    lemma_keyed_at(es, a);
                }
                if self@.dom().contains(id) {
                    let a = choose|a: int| 0 <= a < es.len() && (#[trigger] es[a]).0 == id;
                    assert(r@[a] == id);
                }
            }
            assert forall|a: int, b: int| 0 <= a < r@.len() && 0 <= b < r@.len() && a != b implies r@[a] != r@[b] by {
                if a < b {
                    assert(es[a].0 != es[b].0);
                } else {
                    assert(es[b].0 != es[a].0);
                }
            }
        }
        r
    }
}

/// A snapshot lists `id`, and `id` is not ourselves.
pub open spec fn listed(entries: Seq<(PlayerId, u8)>, self_id: PlayerId, id: PlayerId) -> bool {
    id != self_id && exists|i: int| 0 <= i < entries.len() && (#[trigger] entries[i]).0 == id
}

/// Recording a snapshot touches exactly the players it lists: each of
/// them is present afterwards, last seen `now`, under the name it had
/// (or would get) before; every other entry is left as it was.
pub proof fn lemma_snapshot_touches_listed_players(
    m: Map<PlayerId, RemoteView>,
    names: Map<PlayerId, Seq<char>>,
    self_id: PlayerId,
    entries: Seq<(PlayerId, u8)>,
    now: u64,
    id: PlayerId,
)
    ensures
        listed(entries, self_id, id) ==> {
            let r = seen_all(m, names, self_id, entries, now);
            &&& r.dom().contains(id)
            &&& r[id].0 == name_for(m, names, id)
            &&& r[id].2 == now
        },
        !listed(entries, self_id, id) ==> {
            let r = seen_all(m, names, self_id, entries, now);
            &&& r.dom().contains(id) == m.dom().contains(id)
            &&& m.dom().contains(id) ==> r[id] == m[id]
        },
    decreases entries.len(),
{
    if entries.len() > 0 {
        let pre = entries.drop_last();
        lemma_snapshot_touches_listed_players(m, names, self_id, pre, now, id);
        if listed(entries, self_id, id) && !listed(pre, self_id, id) {
            let i = choose|i: int| 0 <= i < entries.len() && (#[trigger] entries[i]).0 == id;
            if i < pre.len() {
                assert(pre[i].0 == id);
            }
        }
        if listed(pre, self_id, id) {
            let i = choose|i: int| 0 <= i < pre.len() && (#[trigger] pre[i]).0 == id;
            assert(entries[i].0 == id);
        }
        if !listed(entries, self_id, id) && entries.last().0 == id && id != self_id {
            assert(entries[entries.len() - 1].0 == id);
        }
    }
}

/// A player missing from a snapshot and not seen within
/// `GHOST_TIMEOUT_MS` is dropped, whether or not a `PlayerLeft` arrived.
pub proof fn lemma_absent_player_is_dropped(
    m: Map<PlayerId, RemoteView>,
    names: Map<PlayerId, Seq<char>>,
    self_id: PlayerId,
    entries: Seq<(PlayerId, u8)>,
    now: u64,
    id: PlayerId,
)
    requires
        !listed(entries, self_id, id),
        m.dom().contains(id) ==> !still_present(m[id].2, now),
    ensures
        !drop_ghosts(seen_all(m, names, self_id, entries, now), now).dom().contains(id),
{
    lemma_snapshot_touches_listed_players(m, names, self_id, entries, now, id);
}

/// A player a snapshot lists is in the registry afterwards: under the
/// name it already had, else its announced name, else `Player <id>`.
pub proof fn lemma_listed_player_is_present(
    m: Map<PlayerId, RemoteView>,
    names: Map<PlayerId, Seq<char>>,
    self_id: PlayerId,
    entries: Seq<(PlayerId, u8)>,
    now: u64,
    id: PlayerId,
)
    requires
        listed(entries, self_id, id),
    ensures
        drop_ghosts(seen_all(m, names, self_id, entries, now), now).dom().contains(id),
        drop_ghosts(seen_all(m, names, self_id, entries, now), now)[id].0 == name_for(m, names, id),
{
    lemma_snapshot_touches_listed_players(m, names, self_id, entries, now, id);
}

/// Our own id never enters the registry of remote players.
pub proof fn lemma_self_is_never_recorded(
    m: Map<PlayerId, RemoteView>,
    names: Map<PlayerId, Seq<char>>,
    self_id: PlayerId,
    entries: Seq<(PlayerId, u8)>,
    now: u64,
)
    requires
        !m.dom().contains(self_id),
    ensures
        !drop_ghosts(seen_all(m, names, self_id, entries, now), now).dom().contains(self_id),
{
    lemma_snapshot_touches_listed_players(m, names, self_id, entries, now, self_id);
}

} // verus!
