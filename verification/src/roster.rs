//! Server-side membership: who is in the game, under which id and name,
//! and whether a new player may join.

use vstd::prelude::*;
use crate::config::PROTOCOL_VERSION;
use crate::maze::GENERATOR_VERSION;

verus! {

pub type PlayerId = u32;

/// Why the server refused a `Join`.
#[derive(Debug, Clone, Copy, PartialEq, Eq, Structural)]
pub enum JoinRejection {
    ProtocolVersionMismatch,
    GeneratorVersionMismatch,
    ServerFull,
    NameInUse,
}

/// The reason text sent back in `Rejected`.
pub open spec fn reason_text(r: JoinRejection) -> Seq<char> {
    match r {
        JoinRejection::ProtocolVersionMismatch => "protocol version mismatch"@,
        JoinRejection::GeneratorVersionMismatch => "generator version mismatch"@,
        JoinRejection::ServerFull => "server full"@,
        JoinRejection::NameInUse => "name already in use"@,
    }
}

impl JoinRejection {
    /// The reason text sent back in `Rejected`.
    pub fn reason(&self) -> (r: &'static str)
        ensures
            r@ == reason_text(*self),
    {
        match self {
            JoinRejection::ProtocolVersionMismatch => "protocol version mismatch",
            JoinRejection::GeneratorVersionMismatch => "generator version mismatch",
            JoinRejection::ServerFull => "server full",
            JoinRejection::NameInUse => "name already in use",
        }
    }
}

/// The players in the game, in joining order, and the next id to hand out.
pub struct Roster {
    players: Vec<(PlayerId, String)>,
    next_player_id: PlayerId,
    max_players: usize,
}

/// Ids are distinct, names are distinct, and every id is below the next
/// one to hand out.
pub open spec fn roster_sound(players: Seq<(PlayerId, Seq<char>)>, next_id: PlayerId) -> bool {
    &&& forall|i: int, j: int| 0 <= i < j < players.len() ==> #[trigger] players[i].0 != #[trigger] players[j].0
    &&& forall|i: int, j: int| 0 <= i < j < players.len() ==> #[trigger] players[i].1 != #[trigger] players[j].1
    &&& forall|i: int| 0 <= i < players.len() ==> 1 <= #[trigger] players[i].0 < next_id
}

/// Some player is called `name`.
pub open spec fn name_taken(players: Seq<(PlayerId, Seq<char>)>, name: Seq<char>) -> bool {
    exists|i: int| 0 <= i < players.len() && #[trigger] players[i].1 == name
}

/// The first rule a join breaks, in the order the server checks them:
/// protocol version, generator version, capacity, name.
pub open spec fn join_rejection(
    players: Seq<(PlayerId, Seq<char>)>,
    max_players: usize,
    name: Seq<char>,
    protocol_version: u16,
    generator_version: u16,
) -> Option<JoinRejection> {
    if protocol_version != PROTOCOL_VERSION {
        Some(JoinRejection::ProtocolVersionMismatch)
    } else if generator_version != GENERATOR_VERSION {
        Some(JoinRejection::GeneratorVersionMismatch)
    } else if players.len() >= max_players {
        Some(JoinRejection::ServerFull)
    } else if name_taken(players, name) {
        Some(JoinRejection::NameInUse)
    } else {
        None
    }
}

/// A join from a client whose protocol version or maze generator version
/// is not this build's is refused, whatever the roster holds: the protocol
/// mismatch first, then the generator mismatch. A join is admitted only
/// with both versions matching, a free seat and an unused name.
pub proof fn lemma_version_mismatch_is_refused(
    players: Seq<(PlayerId, Seq<char>)>,
    max_players: usize,
    name: Seq<char>,
    protocol_version: u16,
    generator_version: u16,
)
    ensures
        protocol_version != PROTOCOL_VERSION ==> join_rejection(
            players,
            max_players,
            name,
            protocol_version,
            generator_version,
        ) == Some(JoinRejection::ProtocolVersionMismatch),
        protocol_version == PROTOCOL_VERSION && generator_version != GENERATOR_VERSION ==> join_rejection(
            players,
            max_players,
            name,
            protocol_version,
            generator_version,
        ) == Some(JoinRejection::GeneratorVersionMismatch),
        join_rejection(players, max_players, name, protocol_version, generator_version) is None
            ==> protocol_version == PROTOCOL_VERSION && generator_version == GENERATOR_VERSION && players.len()
            < max_players && !name_taken(players, name),
{
}

impl Roster {
    #[verifier::type_invariant]
    spec fn inv(self) -> bool {
        &&& roster_sound(self.members(), self.next_player_id)
        &&& self.next_player_id >= 1
        &&& self.players@.len() <= self.max_players
    }

    /// The players as (id, name), in joining order.
    pub closed spec fn members(&self) -> Seq<(PlayerId, Seq<char>)> {
        self.players@.map_values(|p: (PlayerId, String)| (p.0, p.1@))
    }

    pub closed spec fn next_id(&self) -> PlayerId {
        self.next_player_id
    }

    pub closed spec fn capacity(&self) -> usize {
        self.max_players
    }

    /// An empty game for at most `max_players` players; ids start at 1.
    pub fn new(max_players: usize) -> (r: Self)
        ensures
            r.members() == Seq::<(PlayerId, Seq<char>)>::empty(),
            r.next_id() == 1,
            r.capacity() == max_players,
    {
        let r = Roster { players: Vec::new(), next_player_id: 1, max_players };
        proof {
            assert(r.members() =~= Seq::<(PlayerId, Seq<char>)>::empty());
        }
        r
    }

    pub fn len(&self) -> (n: usize)
        ensures
            n == self.members().len(),
    {
        self.players.len()
    }

    /// The id the next admitted player gets.
    pub fn next_player_id(&self) -> (id: PlayerId)
        ensures
            id == self.next_id(),
    {
        self.next_player_id
    }

    /// Whether some player is called `name`.
    pub fn has_name(&self, name: &String) -> (r: bool)
        ensures
            r == name_taken(self.members(), name@),
    {
        let mut i: usize = 0;
        while i < self.players.len()
            invariant
                i <= self.players@.len(),
                forall|k: int| 0 <= k < i ==> self.members()[k].1 != name@,
            decreases self.players@.len() - i,
        {
            if self.players[i].1 == *name {
                proof {
                    assert(self.members()[i as int].1 == name@);
                }
                return true;
            }
            i = i + 1;
        }
        proof {
            if name_taken(self.members(), name@) {
                let k = choose|k: int| 0 <= k < self.members().len() && #[trigger] self.members()[k].1 == name@;
                assert(self.members()[k].1 != name@);
            }
        }
        false
    }

    /// Why a `Join` with these arguments would be refused, if it would: a
    /// wrong protocol or generator version, a full server or a name already
    /// in use, checked in that order.
    pub fn check_join(&self, name: &String, protocol_version: u16, generator_version: u16) -> (r: Option<
        JoinRejection,
    >)
        ensures
            r == join_rejection(self.members(), self.capacity(), name@, protocol_version, generator_version),
            protocol_version != PROTOCOL_VERSION ==> r == Some(JoinRejection::ProtocolVersionMismatch),
            protocol_version == PROTOCOL_VERSION && generator_version != GENERATOR_VERSION ==> r == Some(
                JoinRejection::GeneratorVersionMismatch,
            ),
    {
        proof {
            lemma_version_mismatch_is_refused(
                self.members(),
                self.capacity(),
                name@,
                protocol_version,
                generator_version,
            );
        }
        if protocol_version != PROTOCOL_VERSION {
            return Some(JoinRejection::ProtocolVersionMismatch);
        }
        if generator_version != GENERATOR_VERSION {
            return Some(JoinRejection::GeneratorVersionMismatch);
        }
        if self.players.len() >= self.max_players {
            return Some(JoinRejection::ServerFull);
        }
        if self.has_name(name) {
            return Some(JoinRejection::NameInUse);
        }
        None
    }

    /// Decides a `Join`: a wrong protocol or generator version, a full
    /// server or a name already in use refuses it, checked in that order;
    /// otherwise the player is admitted under the next id, which must then
    /// be one below the id space's end.
    pub fn join(&mut self, name: String, protocol_version: u16, generator_version: u16) -> (r: Result<
        PlayerId,
        JoinRejection,
    >)
        requires
            join_rejection(old(self).members(), old(self).capacity(), name@, protocol_version, generator_version)
                is None ==> old(self).next_id() < u32::MAX,
        ensures
            match join_rejection(
                old(self).members(),
                old(self).capacity(),
                name@,
                protocol_version,
                generator_version,
            ) {
                Some(rej) => r == Err::<PlayerId, JoinRejection>(rej) && final(self).members() == old(
                    self,
                ).members() && final(self).next_id() == old(self).next_id(),
                None => {
                    &&& r == Ok::<PlayerId, JoinRejection>(old(self).next_id())
                    &&& final(self).members() == old(self).members().push((old(self).next_id(), name@))
                    &&& final(self).next_id() == old(self).next_id() + 1
                },
            },
            protocol_version != PROTOCOL_VERSION ==> r == Err::<PlayerId, JoinRejection>(
                JoinRejection::ProtocolVersionMismatch,
            ),
            protocol_version == PROTOCOL_VERSION && generator_version != GENERATOR_VERSION ==> r == Err::<
                PlayerId,
                JoinRejection,
            >(JoinRejection::GeneratorVersionMismatch),
            protocol_version != PROTOCOL_VERSION || generator_version != GENERATOR_VERSION ==> final(self).members() == old(self).members() && final(self).next_id() == old(self).next_id(),
            final(self).capacity() == old(self).capacity(),
            roster_sound(final(self).members(), final(self).next_id()),
            final(self).members().len() <= final(self).capacity(),
    {
        proof {
            use_type_invariant(&*self);
        }
        if let Some(rejection) = self.check_join(&name, protocol_version, generator_version) {
            return Err(rejection);
        }
        let id = self.next_player_id;
        let ghost old_members = self.members();
        let ghost name_view = name@;
        let mut players = Vec::new();
        std::mem::swap(&mut players, &mut self.players);
        players.push((id, name));
        proof {
            let m = players@.map_values(|p: (PlayerId, String)| (p.0, p.1@));
            assert(m =~= old_members.push((id, name_view)));
            assert forall|i: int, j: int| 0 <= i < j < m.len() implies #[trigger] m[i].1 != #[trigger] m[j].1 by {
                if j == m.len() - 1 {
                    assert(old_members[i].1 != name_view);
                } else {
                    assert(old_members[i].1 != old_members[j].1);
                }
            }
            assert forall|i: int, j: int| 0 <= i < j < m.len() implies #[trigger] m[i].0 != #[trigger] m[j].0 by {
                if j == m.len() - 1 {
                    assert(old_members[i].0 < id);
                } else {
                    assert(old_members[i].0 != old_members[j].0);
                }
            }
        }
        self.next_player_id = id + 1;
        self.players = players;
        Ok(id)
    }

    /// Removes the player with id `id`, if present; returns whether one was.
    pub fn remove(&mut self, id: PlayerId) -> (removed: bool)
        ensures
            removed == exists|i: int| 0 <= i < old(self).members().len() && #[trigger] old(self).members()[i].0 == id,
            final(self).members() == old(self).members().filter(|p: (PlayerId, Seq<char>)| p.0 != id),
            final(self).next_id() == old(self).next_id(),
            final(self).capacity() == old(self).capacity(),
            roster_sound(final(self).members(), final(self).next_id()),
    {
        proof {
            use_type_invariant(&*self);
        }
        let ghost old_members = self.members();
        let mut i: usize = 0;
        while i < self.players.len()
            invariant
                i <= self.players@.len(),
                old_members == self.members(),
                forall|k: int| 0 <= k < i ==> self.members()[k].0 != id,
            ensures
                i <= self.players@.len(),
                old_members == self.members(),
                forall|k: int| 0 <= k < i ==> self.members()[k].0 != id,
                i < self.players@.len() ==> self.members()[i as int].0 == id,
            decreases self.players@.len() - i,
        {
            if self.players[i].0 == id {
                break;
            }
            i = i + 1;
        }
        if i == self.players.len() {
            proof {
                assert(old_members.filter(|p: (PlayerId, Seq<char>)| p.0 != id) =~= old_members) by {
                    lemma_filter_keeps_all(old_members, id);
                }
            }
            return false;
        }
        let mut players = Vec::new();
        std::mem::swap(&mut players, &mut self.players);
        let ghost before = players@;
        players.remove(i);
        proof {
            let m = players@.map_values(|p: (PlayerId, String)| (p.0, p.1@));
            assert(m =~= old_members.remove(i as int));
            lemma_filter_removes_one(old_members, id, i as int);
            assert forall|a: int, b: int| 0 <= a < b < m.len() implies #[trigger] m[a].1 != #[trigger] m[b].1 by {
                let a0 = if a < i { a } else { a + 1 };
                let b0 = if b < i { b } else { b + 1 };
                assert(old_members[a0].1 != old_members[b0].1);
            }
            assert forall|a: int, b: int| 0 <= a < b < m.len() implies #[trigger] m[a].0 != #[trigger] m[b].0 by {
                let a0 = if a < i { a } else { a + 1 };
                let b0 = if b < i { b } else { b + 1 };
                assert(old_members[a0].0 != old_members[b0].0);
            }
            assert forall|a: int| 0 <= a < m.len() implies 1 <= #[trigger] m[a].0 < self.next_player_id by {
                let a0 = if a < i { a } else { a + 1 };
                assert(old_members[a0] == m[a]);
            }
        }
        self.players = players;
        true
    }
}

proof fn lemma_filter_keeps_all(s: Seq<(PlayerId, Seq<char>)>, id: PlayerId)
    requires
        forall|k: int| 0 <= k < s.len() ==> s[k].0 != id,
    ensures
        s.filter(|p: (PlayerId, Seq<char>)| p.0 != id) == s,
    decreases s.len(),
{
    reveal_with_fuel(Seq::filter, 1);
    if s.len() > 0 {
        lemma_filter_keeps_all(s.drop_last(), id);
        assert(s.drop_last().push(s.last()) =~= s);
    } else {
        assert(s.filter(|p: (PlayerId, Seq<char>)| p.0 != id) =~= s);
    }
}

proof fn lemma_filter_removes_one(s: Seq<(PlayerId, Seq<char>)>, id: PlayerId, i: int)
    requires
        0 <= i < s.len(),
        s[i].0 == id,
        forall|a: int, b: int| 0 <= a < b < s.len() ==> #[trigger] s[a].0 != #[trigger] s[b].0,
    ensures
        s.filter(|p: (PlayerId, Seq<char>)| p.0 != id) == s.remove(i),
    decreases s.len(),
{
    reveal_with_fuel(Seq::filter, 1);
    let f = |p: (PlayerId, Seq<char>)| p.0 != id;
    if i == s.len() - 1 {
        lemma_filter_keeps_all(s.drop_last(), id);
        assert(s.remove(i) =~= s.drop_last());
    } else {
        lemma_filter_removes_one(s.drop_last(), id, i);
        assert(s.last().0 != id);
        assert(s.remove(i) =~= s.drop_last().remove(i).push(s.last()));
    }
}

} // verus!
