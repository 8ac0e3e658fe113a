//! The room registry: one shared table from room identifier to room state.
//! Rooms are created on first use with the default state; looking a room up
//! never creates one. The registry exclusively owns every room reachable
//! from it, so commands borrow a room out, apply, and put it back.

use crate::room::{default_menu, EntryV, GameInner};
use vstd::prelude::*;

verus! {

/// The table of live rooms.
pub struct ServerState {
    pub games: Vec<(u64, GameInner)>,
}

/// No two table slots name the same room.
pub open spec fn keys_distinct(s: Seq<(u64, GameInner)>) -> bool {
    forall|i: int, j: int| 0 <= i < j < s.len() ==> s[i].0 != s[j].0
}

/// The mapping a slot list denotes; later slots would win, but the
/// invariant keeps the keys distinct.
pub open spec fn map_of(s: Seq<(u64, GameInner)>) -> Map<u64, GameInner>
    decreases s.len(),
{
    if s.len() == 0 {
        Map::empty()
    } else {
        map_of(s.drop_last()).insert(s.last().0, s.last().1)
    }
}

/// A key of the denoted mapping is a key of some slot.
proof fn lemma_map_of_dom(s: Seq<(u64, GameInner)>, k: u64)
    ensures
        map_of(s).contains_key(k) <==> exists|i: int| 0 <= i < s.len() && s[i].0 == k,
    decreases s.len(),
{
    if s.len() > 0 {
        lemma_map_of_dom(s.drop_last(), k);
        if map_of(s).contains_key(k) {
            if s.last().0 != k {
                let i = choose|i: int| 0 <= i < s.drop_last().len() && s.drop_last()[i].0 == k;
                assert(s[i].0 == k);
            } else {
                assert(s[s.len() - 1].0 == k);
            }
        }
        if exists|i: int| 0 <= i < s.len() && s[i].0 == k {
            let i = choose|i: int| 0 <= i < s.len() && s[i].0 == k;
            if i < s.len() - 1 {
                assert(s.drop_last()[i].0 == k);
            }
        }
    }
}

/// With distinct keys, each slot is found in the denoted mapping.
proof fn lemma_map_of_index(s: Seq<(u64, GameInner)>, i: int)
    requires
        keys_distinct(s),
        0 <= i < s.len(),
    ensures
        map_of(s).contains_key(s[i].0),
        map_of(s)[s[i].0] == s[i].1,
    decreases s.len(),
{
    if i == s.len() - 1 {
    } else {
        assert(s.drop_last()[i] == s[i]);
        lemma_map_of_index(s.drop_last(), i);
        assert(s[i].0 != s.last().0);
    }
}

/// With distinct keys, dropping a slot drops exactly its room from the
/// denoted mapping.
proof fn lemma_map_of_remove(s: Seq<(u64, GameInner)>, i: int)
    requires
        keys_distinct(s),
        0 <= i < s.len(),
    ensures
        map_of(s.remove(i)) == map_of(s).remove(s[i].0),
    decreases s.len(),
{
    let k = s[i].0;
    if i == s.len() - 1 {
        assert(s.remove(i) =~= s.drop_last());
        lemma_map_of_dom(s.drop_last(), k);
        assert(!map_of(s.drop_last()).contains_key(k)) by {
            if map_of(s.drop_last()).contains_key(k) {
                let j = choose|j: int| 0 <= j < s.drop_last().len() && s.drop_last()[j].0 == k;
                assert(s[j].0 == k);
            }
        }
        assert(map_of(s.drop_last()) =~= map_of(s).remove(k));
    } else {
        assert(keys_distinct(s.drop_last())) by {
            assert forall|a: int, b: int|
                0 <= a < b < s.drop_last().len() implies s.drop_last()[a].0
                != s.drop_last()[b].0 by {
                assert(s.drop_last()[a] == s[a]);
                assert(s.drop_last()[b] == s[b]);
            }
        }
        assert(s.drop_last()[i] == s[i]);
        lemma_map_of_remove(s.drop_last(), i);
        assert(s.remove(i).drop_last() =~= s.drop_last().remove(i));
        assert(s.remove(i).last() == s.last()) by {
            assert(s.remove(i)[s.len() - 2] == s[s.len() - 1]);
        }
        assert(map_of(s.remove(i)) == map_of(s.drop_last().remove(i)).insert(
            s.last().0,
            s.last().1,
        ));
        assert(s.last().0 != k);
        assert(map_of(s.drop_last()).remove(k).insert(s.last().0, s.last().1) =~= map_of(
            s.drop_last(),
        ).insert(s.last().0, s.last().1).remove(k));
    }
}

impl View for ServerState {
    type V = Map<u64, GameInner>;

    open spec fn view(&self) -> Map<u64, GameInner> {
        map_of(self.games@)
    }
}

impl ServerState {
    /// Registry invariant: room identifiers are distinct and every room is
    /// well-formed.
    pub open spec fn wf(&self) -> bool {
        keys_distinct(self.games@) && forall|i: int|
            0 <= i < self.games@.len() ==> (#[trigger] self.games@[i]).1.wf()
    }

    /// An empty registry.
    pub fn new() -> (r: Self)
        ensures
            r.wf(),
            r@ == Map::<u64, GameInner>::empty(),
    {
        ServerState { games: Vec::new() }
    }

    /// The slot index of a room, if present.
    fn find_room(&self, room_id: u64) -> (r: Option<usize>)
        ensures
            match r {
                Some(i) => i < self.games@.len() && self.games@[i as int].0 == room_id,
                None => !(exists|i: int| 0 <= i < self.games@.len() && self.games@[i].0 == room_id),
            },
    {
        let n = self.games.len();
        let mut i: usize = 0;
        while i < n
            invariant
                i <= n,
                n == self.games@.len(),
                forall|j: int| 0 <= j < i ==> self.games@[j].0 != room_id,
            decreases n - i,
        {
            if self.games[i].0 == room_id {
                return Some(i);
            }
            i += 1;
        }
        None
    }

    /// A non-creating lookup: whether the room exists right now.
    pub fn has_game(&self, room_id: u64) -> (r: bool)
        ensures
            r == self@.contains_key(room_id),
    {
        proof {
            lemma_map_of_dom(self.games@, room_id);
        }
        match self.find_room(room_id) {
            Some(_) => true,
            None => false,
        }
    }

    /// Borrows the room out of the registry: the caller owns it until
    /// `put_game` returns it.
    pub fn take_game(&mut self, room_id: u64) -> (r: Option<GameInner>)
        requires
            old(self).wf(),
        ensures
            final(self).wf(),
            match r {
                Some(g) => old(self)@.contains_key(room_id) && g == old(self)@[room_id] && g.wf()
                    && final(self)@ == old(self)@.remove(room_id),
                None => !old(self)@.contains_key(room_id) && *final(self) == *old(self),
            },
    {
        proof {
            lemma_map_of_dom(self.games@, room_id);
        }
        match self.find_room(room_id) {
            None => None,
            Some(i) => {
                let ghost before = self.games@;
                let pr = self.games.remove(i);
                proof {
                    lemma_map_of_index(before, i as int);
                    lemma_map_of_remove(before, i as int);
                    assert(keys_distinct(self.games@)) by {
                        assert forall|a: int, b: int|
                            0 <= a < b < self.games@.len() implies self.games@[a].0
                            != self.games@[b].0 by {
                            if a < i {
                                assert(self.games@[a] == before[a]);
                            } else {
                                assert(self.games@[a] == before[a + 1]);
                            }
                            if b < i {
                                assert(self.games@[b] == before[b]);
                            } else {
                                assert(self.games@[b] == before[b + 1]);
                            }
                        }
                    }
                    assert forall|t: int| 0 <= t < self.games@.len() implies (#[trigger] self.games@[t]).1.wf() by {
                        if t < i {
                            assert(self.games@[t] == before[t]);
                        } else {
                            assert(self.games@[t] == before[t + 1]);
                        }
                    }
                }
                Some(pr.1)
            },
        }
    }

    /// Returns a borrowed (or fresh) room to the registry under its
    /// identifier.
    pub fn put_game(&mut self, room_id: u64, g: GameInner)
        requires
            old(self).wf(),
            !old(self)@.contains_key(room_id),
            g.wf(),
        ensures
            final(self).wf(),
            final(self)@ == old(self)@.insert(room_id, g),
    {
        proof {
            lemma_map_of_dom(self.games@, room_id);
        }
        let ghost before = self.games@;
        self.games.push((room_id, g));
        proof {
            assert(self.games@.drop_last() =~= before);
            assert forall|t: int| 0 <= t < self.games@.len() implies (#[trigger] self.games@[t]).1.wf() by {
                if t < before.len() {
                    assert(self.games@[t] == before[t]);
                }
            }
            assert forall|a: int, b: int|
                0 <= a < b < self.games@.len() implies self.games@[a].0 != self.games@[b].0 by {
                if b < before.len() {
                    assert(self.games@[a] == before[a]);
                    assert(self.games@[b] == before[b]);
                } else {
                    assert(self.games@[a] == before[a]);
                    assert(exists|t: int|
                        0 <= t < before.len() && before[t].0 == self.games@[a].0) by {
                        assert(before[a].0 == self.games@[a].0);
                    }
                    lemma_map_of_dom(before, self.games@[b].0);
                    lemma_map_of_dom(before, self.games@[a].0);
                }
            }
        }
    }

    /// Deletes the room's entry, if any: the next lookup misses and the
    /// next join starts a fresh room. Dropping the room closes every
    /// subscriber queue it still holds.
    pub fn remove_game(&mut self, room_id: u64)
        requires
            old(self).wf(),
        ensures
            final(self).wf(),
            final(self)@ == old(self)@.remove(room_id),
    {
        match self.take_game(room_id) {
            Some(_) => {},
            None => {
                proof {
                    assert(self@ =~= old(self)@.remove(room_id));
                }
            },
        }
    }

    /// Creates the room with the default state if it does not exist yet; an
    /// existing room, and every other room, is left exactly as it is.
    pub fn get_or_create_game(&mut self, room_id: u64)
        requires
            old(self).wf(),
        ensures
            final(self).wf(),
            old(self)@.contains_key(room_id) ==> *final(self) == *old(self),
            !old(self)@.contains_key(room_id) ==> {
                &&& final(self)@ =~= old(self)@.insert(room_id, final(self)@[room_id])
                &&& final(self)@[room_id].wf()
                &&& final(self)@[room_id].entries() == Seq::<EntryV>::empty()
                &&& final(self)@[room_id].cards@ == default_menu()
                &&& final(self)@[room_id].hidden
            },
    {
        if !self.has_game(room_id) {
            let g = GameInner::default();
            self.put_game(room_id, g);
            proof {
                assert(self@[room_id] == g);
            }
        }
    }
}

} // verus!
