//! One room's authoritative state and its command machine. Every mutating
//! operation is followed by a broadcast: a fresh, per-recipient, redacted
//! snapshot is pushed to every connected player, a rejected send counts as
//! a disconnect, and the broadcast is retried on the surviving players
//! until one pass completes cleanly.

use crate::channel::Subscriber;
use crate::nickname::{gen_nickname, nickname_spec};
use crate::state::{redact, view_for, GameStateV, PlayerGameState, PlayerState, PlayerStateV};
use vstd::prelude::*;

verus! {

/// One connected player: the current bet, the display name and the
/// outbound snapshot queue.
pub struct Player {
    pub card: Option<u64>,
    pub name: String,
    pub sub: Subscriber,
}

impl Player {
    /// The record of this player as it appears in snapshots.
    pub fn to_state(&self) -> (r: PlayerState)
        ensures
            r@ == (PlayerStateV { card: self.card, name: self.name@ }),
    {
        PlayerState { card: self.card, name: self.name.clone() }
    }
}

/// Mathematical view of one seat of a room: the player's identifier and
/// record, and the log of snapshots delivered to it so far.
#[verifier::ext_equal]
pub ghost struct EntryV {
    pub uid: u128,
    pub card: Option<u64>,
    pub name: Seq<char>,
    pub sent: Seq<GameStateV>,
}

/// The record part of a seat.
pub open spec fn state_of(e: EntryV) -> PlayerStateV {
    PlayerStateV { card: e.card, name: e.name }
}

/// The seat views of a player list.
pub open spec fn entries_of(s: Seq<(u128, Player)>) -> Seq<EntryV> {
    s.map_values(
        |e: (u128, Player)| EntryV { uid: e.0, card: e.1.card, name: e.1.name@, sent: e.1.sub@ },
    )
}

/// The records of a seat list, in the same order.
pub open spec fn records_of(s: Seq<EntryV>) -> Seq<PlayerStateV> {
    s.map_values(|e: EntryV| state_of(e))
}

/// No two seats belong to the same user.
pub open spec fn uids_distinct(s: Seq<EntryV>) -> bool {
    forall|i: int, j: int| 0 <= i < j < s.len() ==> s[i].uid != s[j].uid
}

/// A card menu is kept strictly ascending, hence free of duplicates.
pub open spec fn sorted_strict(s: Seq<u64>) -> bool {
    forall|i: int, j: int| 0 <= i < j < s.len() ==> s[i] < s[j]
}

/// Whether some seat belongs to `uid`.
pub open spec fn has_uid(s: Seq<EntryV>, uid: u128) -> bool {
    exists|i: int| 0 <= i < s.len() && s[i].uid == uid
}

/// Seat `b` is seat `a` after zero or more deliveries: same user, same
/// record, and the delivery log only extended.
pub open spec fn entry_survives(a: EntryV, b: EntryV) -> bool {
    b.uid == a.uid && b.card == a.card && b.name == a.name && a.sent.is_prefix_of(b.sent)
}

/// `pos` certifies that `post` is an order-preserving selection of seats of
/// `pre`, each surviving seat unchanged but for extra deliveries.
pub open spec fn pos_valid(pre: Seq<EntryV>, post: Seq<EntryV>, pos: Seq<int>) -> bool {
    &&& pos.len() == post.len()
    &&& forall|i: int|
        0 <= i < pos.len() ==> 0 <= #[trigger] pos[i] < pre.len() && entry_survives(
            pre[pos[i]],
            post[i],
        )
    &&& forall|i: int, j: int| 0 <= i < j < pos.len() ==> pos[i] < pos[j]
}

/// `post` keeps some of `pre`'s seats, in order, with records unchanged and
/// delivery logs only extended; the rest are dropped.
pub open spec fn entries_survive(pre: Seq<EntryV>, post: Seq<EntryV>) -> bool {
    exists|pos: Seq<int>| pos_valid(pre, post, pos)
}

/// Seat `e` with its bet replaced.
pub open spec fn with_bet(e: EntryV, card: Option<u64>) -> EntryV {
    EntryV { uid: e.uid, card: card, name: e.name, sent: e.sent }
}

/// Seat `e` with its display name replaced.
pub open spec fn with_name(e: EntryV, name: Seq<char>) -> EntryV {
    EntryV { uid: e.uid, card: e.card, name: name, sent: e.sent }
}

/// The seats with `uid`'s bet replaced; other seats untouched.
pub open spec fn update_bet(s: Seq<EntryV>, uid: u128, card: Option<u64>) -> Seq<EntryV> {
    s.map_values(
        |e: EntryV|
            if e.uid == uid {
                with_bet(e, card)
            } else {
                e
            },
    )
}

/// The seats with `uid`'s display name replaced; other seats untouched.
pub open spec fn update_name(s: Seq<EntryV>, uid: u128, name: Seq<char>) -> Seq<EntryV> {
    s.map_values(
        |e: EntryV|
            if e.uid == uid {
                with_name(e, name)
            } else {
                e
            },
    )
}

/// Every seat's bet withdrawn: the start of a fresh round.
pub open spec fn clear_bets(s: Seq<EntryV>) -> Seq<EntryV> {
    s.map_values(|e: EntryV| with_bet(e, None))
}

/// The seat a user occupies right after joining: no bet, the generated
/// nickname, nothing delivered yet.
pub open spec fn fresh_entry(uid: u128) -> EntryV {
    EntryV { uid: uid, card: None, name: nickname_spec(uid), sent: Seq::empty() }
}

/// The index of `uid`'s seat; meaningful only under `has_uid`.
pub open spec fn uid_index(s: Seq<EntryV>, uid: u128) -> int {
    choose|i: int| 0 <= i < s.len() && s[i].uid == uid
}

/// The seats after `uid` joins: any prior seat of the same user is dropped
/// (its queue closes with it) and a fresh seat is appended at the end.
pub open spec fn joined(s: Seq<EntryV>, uid: u128) -> Seq<EntryV> {
    (if has_uid(s, uid) {
        s.remove(uid_index(s, uid))
    } else {
        s
    }).push(fresh_entry(uid))
}

/// The menu after offering card `v`: inserted at its place if new, the menu
/// unchanged if already offered.
pub open spec fn insert_sorted(s: Seq<u64>, v: u64) -> Seq<u64>
    decreases s.len(),
{
    if s.len() == 0 {
        seq![v]
    } else if v < s[0] {
        seq![v] + s
    } else if v == s[0] {
        s
    } else {
        seq![s[0]] + insert_sorted(s.drop_first(), v)
    }
}

/// The menu after withdrawing card `v`: its first occurrence removed, the
/// menu unchanged if absent.
pub open spec fn remove_val(s: Seq<u64>, v: u64) -> Seq<u64>
    decreases s.len(),
{
    if s.len() == 0 {
        s
    } else if s[0] == v {
        s.drop_first()
    } else {
        seq![s[0]] + remove_val(s.drop_first(), v)
    }
}

/// The state a broadcast starts from: the menu, the visibility flag and the
/// seats right after the triggering mutation.
#[verifier::ext_equal]
pub ghost struct PreV {
    pub cards: Seq<u64>,
    pub hidden: bool,
    pub entries: Seq<EntryV>,
}

/// The authoritative state of one room.
pub struct GameInner {
    pub cards: Vec<u64>,
    pub players: Vec<(u128, Player)>,
    pub hidden: bool,
}

impl GameInner {
    /// The seat views of this room, in seating order.
    pub open spec fn entries(&self) -> Seq<EntryV> {
        entries_of(self.players@)
    }

    /// The player records of this room, in seating order.
    pub open spec fn records(&self) -> Seq<PlayerStateV> {
        records_of(self.entries())
    }

    /// Room invariant: seats belong to distinct users and the menu is
    /// strictly ascending.
    pub open spec fn wf(&self) -> bool {
        uids_distinct(self.entries()) && sorted_strict(self.cards@)
    }

    /// The broadcast input this room currently is.
    pub open spec fn pre_of(&self) -> PreV {
        PreV { cards: self.cards@, hidden: self.hidden, entries: self.entries() }
    }

    /// Every seat's last delivery is the snapshot owed to it computed from
    /// the room's current state.
    pub open spec fn delivered_current(&self) -> bool {
        forall|i: int|
            0 <= i < self.entries().len() ==> {
                let e = #[trigger] self.entries()[i];
                e.sent.len() > 0 && e.sent.last() == view_for(
                    self.cards@,
                    self.hidden,
                    self.records(),
                    i,
                )
            }
    }

    /// Where the broadcast settles, starting from `p`: menu and flag as in
    /// `p`, the seats an order-preserving selection of `p`'s with records
    /// unchanged, and every surviving seat freshly served a snapshot of the
    /// settled state.
    pub open spec fn broadcast_from(p: PreV, post: GameInner) -> bool {
        &&& post.cards@ == p.cards
        &&& post.hidden == p.hidden
        &&& entries_survive(p.entries, post.entries())
        &&& post.delivered_current()
    }

    /// The index of `uid`'s seat, if connected.
    fn find_player(&self, uid: u128) -> (r: Option<usize>)
        ensures
            match r {
                Some(i) => i < self.players@.len() && self.entries()[i as int].uid == uid,
                None => !has_uid(self.entries(), uid),
            },
    {
        let n = self.players.len();
        let mut i: usize = 0;
        while i < n
            invariant
                i <= n,
                n == self.players@.len(),
                forall|j: int| 0 <= j < i ==> entries_of(self.players@)[j].uid != uid,
            decreases n - i,
        {
            if self.players[i].0 == uid {
                return Some(i);
            }
            i += 1;
        }
        None
    }
}

/// A seat keeps its own record and delivery log.
proof fn lemma_survives_refl(e: EntryV)
    ensures
        entry_survives(e, e),
{
    assert(e.sent =~= e.sent.subrange(0, e.sent.len() as int));
}

/// Surviving is transitive: a seat that outlives two broadcasts in a row
/// outlives their composition.
proof fn lemma_entry_survives_trans(a: EntryV, b: EntryV, c: EntryV)
    requires
        entry_survives(a, b),
        entry_survives(b, c),
    ensures
        entry_survives(a, c),
{
    assert(a.sent =~= c.sent.subrange(0, a.sent.len() as int));
}

/// Seat `idx` of `es` right after being served the snapshot owed to it.
pub open spec fn served(cards: Seq<u64>, hidden: bool, es: Seq<EntryV>, idx: int) -> EntryV {
    EntryV {
        uid: es[idx].uid,
        card: es[idx].card,
        name: es[idx].name,
        sent: es[idx].sent.push(view_for(cards, hidden, records_of(es), idx)),
    }
}

/// The snapshot owed to the player in seat `i`, computed from the given
/// menu, flag and seats.
fn build_state_for(
    cards: &Vec<u64>,
    hidden: bool,
    players: &Vec<(u128, Player)>,
    i: usize,
) -> (r: PlayerGameState)
    requires
        i < players@.len(),
    ensures
        r@ == view_for(cards@, hidden, records_of(entries_of(players@)), i as int),
{
    let ghost target = records_of(entries_of(players@)).remove(i as int).map_values(
        |p: PlayerStateV| redact(hidden, p),
    );
    let n = players.len();
    let mut others: Vec<PlayerState> = Vec::new();
    let mut j: usize = 0;
    while j < n
        invariant
            j <= n,
            i < n,
            n == players@.len(),
            target == records_of(entries_of(players@)).remove(i as int).map_values(
                |p: PlayerStateV| redact(hidden, p),
            ),
            j <= i ==> others@.map_values(|p: PlayerState| p@) == target.take(j as int),
            j > i ==> others@.map_values(|p: PlayerState| p@) == target.take(j - 1),
        decreases n - j,
    {
        if j != i {
            let mut ps = players[j].1.to_state();
            if hidden && ps.card.is_some() {
                ps.card = Some(0);
            }
            proof {
                assert(ps@ == redact(hidden, records_of(entries_of(players@))[j as int]));
                if j < i {
                    assert(records_of(entries_of(players@)).remove(i as int)[j as int]
                        == records_of(entries_of(players@))[j as int]);
                    assert(target[j as int] == ps@);
                } else {
                    assert(records_of(entries_of(players@)).remove(i as int)[j - 1] == records_of(
                        entries_of(players@),
                    )[j as int]);
                    assert(target[j - 1] == ps@);
                }
            }
            others.push(ps);
            proof {
                if j < i {
                    assert(others@.map_values(|p: PlayerState| p@) =~= target.take(j + 1));
                } else {
                    assert(others@.map_values(|p: PlayerState| p@) =~= target.take(j as int));
                }
            }
        }
        j += 1;
    }
    let self_state = players[i].1.to_state();
    let r = PlayerGameState { players: others, cards: cards.clone(), self_state, hidden };
    proof {
        assert(target.take(n - 1) =~= target);
        assert(r@.players == target);
        assert(r@.cards =~= cards@);
        assert(r@ =~= view_for(cards@, hidden, records_of(entries_of(players@)), i as int));
    }
    r
}

impl GameInner {
    /// Pushes a fresh snapshot of the current state to every connected
    /// player. A rejected send counts as that player having disconnected:
    /// the seat is dropped and the whole broadcast is retried on the
    /// survivors, until one pass completes with no new disconnects. Each
    /// failing pass loses at least one seat, so the retries terminate.
    pub fn send_update(&mut self)
        requires
            old(self).wf(),
        ensures
            final(self).wf(),
            GameInner::broadcast_from(old(self).pre_of(), *final(self)),
    {
        let ghost pre = self.pre_of();
        let ghost mut opos: Seq<int> = Seq::new(pre.entries.len(), |t: int| t);
        proof {
            assert forall|t: int| 0 <= t < pre.entries.len() implies entry_survives(
                pre.entries[t],
                pre.entries[t],
            ) by {
                lemma_survives_refl(pre.entries[t]);
            }
        }
        let mut done: bool = false;
        while !done
            invariant
                self.wf(),
                self.cards@ == pre.cards,
                self.hidden == pre.hidden,
                pos_valid(pre.entries, self.entries(), opos),
                done ==> self.delivered_current(),
            decreases self.players@.len(), (if done { 0int } else { 1int }),
        {
            let ghost cur = self.entries();
            let ghost snap_cards = self.cards@;
            let ghost snap_hidden = self.hidden;
            let n = self.players.len();

            // First phase: compute every recipient's snapshot from the
            // current seats, before any of them can change.
            let mut views: Vec<PlayerGameState> = Vec::new();
            let mut i: usize = 0;
            while i < n
                invariant
                    i <= n,
                    n == self.players@.len(),
                    cur == self.entries(),
                    snap_cards == self.cards@,
                    snap_hidden == self.hidden,
                    views@.len() == i,
                    forall|k: int|
                        0 <= k < i ==> (#[trigger] views@[k])@ == view_for(
                            snap_cards,
                            snap_hidden,
                            records_of(cur),
                            k,
                        ),
                decreases n - i,
            {
                let v = build_state_for(&self.cards, self.hidden, &self.players, i);
                views.push(v);
                i += 1;
            }

            // Second phase: deliver. Seats whose queue rejects the send are
            // dropped; the others keep their order.
            let mut taken: Vec<(u128, Player)> = Vec::new();
            core::mem::swap(&mut taken, &mut self.players);
            proof {
                assert(entries_of(taken@) =~= cur.skip(0));
            }
            let mut survivors: Vec<(u128, Player)> = Vec::new();
            let mut any_failed: bool = false;
            let ghost mut pos: Seq<int> = Seq::empty();
            let mut k: usize = 0;
            while k < n
                invariant
                    k <= n,
                    n == cur.len(),
                    taken@.len() == n - k,
                    entries_of(taken@) == cur.skip(k as int),
                    views@.len() == n - k,
                    forall|l: int|
                        0 <= l < n - k ==> (#[trigger] views@[l])@ == view_for(
                            snap_cards,
                            snap_hidden,
                            records_of(cur),
                            l + k,
                        ),
                    pos.len() == survivors@.len(),
                    pos.len() == entries_of(survivors@).len(),
                    forall|t: int| 0 <= t < pos.len() ==> 0 <= #[trigger] pos[t] < k,
                    forall|t1: int, t2: int| 0 <= t1 < t2 < pos.len() ==> pos[t1] < pos[t2],
                    forall|t: int|
                        0 <= t < pos.len() ==> #[trigger] entries_of(survivors@)[t] == served(
                            snap_cards,
                            snap_hidden,
                            cur,
                            pos[t],
                        ),
                    !any_failed ==> pos.len() == k,
                    !any_failed ==> forall|t: int| 0 <= t < pos.len() ==> #[trigger] pos[t] == t,
                    any_failed ==> pos.len() < k,
                decreases n - k,
            {
                let ghost taken_before = taken@;
                let ghost views_before = views@;
                let ghost surv_before = survivors@;
                let (uid, mut p) = taken.remove(0);
                let v = views.remove(0);
                proof {
                    assert(entries_of(taken_before)[0] == cur.skip(k as int)[0]);
                    assert(cur.skip(k as int)[0] == cur[k as int]);
                    assert forall|l: int| 0 <= l < taken@.len() implies entries_of(taken@)[l]
                        == cur.skip(k + 1)[l] by {
                        assert(taken@[l] == taken_before[l + 1]);
                        assert(entries_of(taken_before)[l + 1] == cur.skip(k as int)[l + 1]);
                        assert(cur.skip(k as int)[l + 1] == cur.skip(k + 1)[l]);
                    }
                    assert(entries_of(taken@) =~= cur.skip(k + 1));
                    assert(views_before[0]@ == view_for(
                        snap_cards,
                        snap_hidden,
                        records_of(cur),
                        k as int,
                    ));
                    assert forall|l: int| 0 <= l < views@.len() implies (#[trigger] views@[l])@
                        == view_for(snap_cards, snap_hidden, records_of(cur), l + k + 1) by {
                        assert(views@[l] == views_before[l + 1]);
                    }
                }
                let ok = p.sub.send(v);
                let ghost new_entry = EntryV { uid: uid, card: p.card, name: p.name@, sent: p.sub@ };
                if ok {
                    proof {
                        assert(new_entry == served(snap_cards, snap_hidden, cur, k as int));
                    }
                    survivors.push((uid, p));
                    proof {
                        assert(entries_of(survivors@)[surv_before.len() as int] == new_entry);
                        assert forall|t: int| 0 <= t < surv_before.len() implies #[trigger] entries_of(
                            survivors@,
                        )[t] == entries_of(surv_before)[t] by {
                            assert(survivors@[t] == surv_before[t]);
                        }
                        pos = pos.push(k as int);
                    }
                } else {
                    any_failed = true;
                }
                k += 1;
            }
            self.players = survivors;
            proof {
                // The pass is itself an order-preserving selection of the
                // seats it started from; compose it with the selection
                // accumulated over the earlier passes.
                assert forall|t: int| 0 <= t < pos.len() implies entry_survives(
                    cur[pos[t]],
                    self.entries()[t],
                ) by {
                    assert(self.entries()[t] == served(snap_cards, snap_hidden, cur, pos[t]));
                    assert(cur[pos[t]].sent =~= self.entries()[t].sent.subrange(
                        0,
                        cur[pos[t]].sent.len() as int,
                    ));
                }
                let comp = Seq::new(pos.len(), |t: int| opos[pos[t]]);
                assert forall|t: int| 0 <= t < comp.len() implies 0 <= #[trigger] comp[t]
                    < pre.entries.len() && entry_survives(
                    pre.entries[comp[t]],
                    self.entries()[t],
                ) by {
                    lemma_entry_survives_trans(
                        pre.entries[opos[pos[t]]],
                        cur[pos[t]],
                        self.entries()[t],
                    );
                }
                opos = comp;
                // Distinct users and a sorted menu are kept: the surviving
                // seats are a selection of seats that were distinct.
                assert forall|t1: int, t2: int|
                    0 <= t1 < t2 < self.entries().len() implies self.entries()[t1].uid
                    != self.entries()[t2].uid by {
                    assert(self.entries()[t1].uid == cur[pos[t1]].uid);
                    assert(self.entries()[t2].uid == cur[pos[t2]].uid);
                }
            }
            if !any_failed {
                done = true;
                proof {
                    assert(records_of(self.entries()) =~= records_of(cur));
                    assert forall|t: int| 0 <= t < self.entries().len() implies {
                        let e = #[trigger] self.entries()[t];
                        e.sent.len() > 0 && e.sent.last() == view_for(
                            self.cards@,
                            self.hidden,
                            self.records(),
                            t,
                        )
                    } by {
                        assert(self.entries()[t] == served(snap_cards, snap_hidden, cur, t));
                    }
                }
            }
        }
    }

    /// Sets `uid`'s bet and broadcasts. A bet must name a card currently on
    /// the menu; commands for a user who is no longer connected are
    /// swallowed without a broadcast.
    pub fn place_bet(&mut self, uid: u128, card: Option<u64>)
        requires
            old(self).wf(),
            card matches Some(c) ==> old(self).cards@.contains(c),
        ensures
            final(self).wf(),
            has_uid(old(self).entries(), uid) ==> GameInner::broadcast_from(
                PreV {
                    cards: old(self).cards@,
                    hidden: old(self).hidden,
                    entries: update_bet(old(self).entries(), uid, card),
                },
                *final(self),
            ),
            !has_uid(old(self).entries(), uid) ==> *final(self) == *old(self),
    {
        match self.find_player(uid) {
            None => {},
            Some(i) => {
                let ghost before = self.entries();
                let e = &mut self.players[i];
                e.1.card = card;
                proof {
                    assert forall|t: int| 0 <= t < before.len() implies #[trigger] entries_of(
                        self.players@,
                    )[t] == update_bet(before, uid, card)[t] by {
                        if t == i {
                            assert(entries_of(self.players@)[t] == with_bet(before[t], card));
                        } else {
                            assert(self.players@[t] == old(self).players@[t]);
                            assert(before[t].uid != uid);
                        }
                    }
                    assert(self.entries() =~= update_bet(before, uid, card));
                    assert(has_uid(before, uid));
                }
                self.send_update();
            },
        }
    }

    /// Sets `uid`'s display name and broadcasts. Validation is the caller's
    /// duty; commands for a user who is no longer connected are swallowed
    /// without a broadcast.
    pub fn set_name(&mut self, uid: u128, name: String)
        requires
            old(self).wf(),
        ensures
            final(self).wf(),
            has_uid(old(self).entries(), uid) ==> GameInner::broadcast_from(
                PreV {
                    cards: old(self).cards@,
                    hidden: old(self).hidden,
                    entries: update_name(old(self).entries(), uid, name@),
                },
                *final(self),
            ),
            !has_uid(old(self).entries(), uid) ==> *final(self) == *old(self),
    {
        match self.find_player(uid) {
            None => {},
            Some(i) => {
                let ghost before = self.entries();
                let e = &mut self.players[i];
                e.1.name = name;
                proof {
                    assert forall|t: int| 0 <= t < before.len() implies #[trigger] entries_of(
                        self.players@,
                    )[t] == update_name(before, uid, name@)[t] by {
                        if t == i {
                            assert(entries_of(self.players@)[t] == with_name(before[t], name@));
                        } else {
                            assert(self.players@[t] == old(self).players@[t]);
                            assert(before[t].uid != uid);
                        }
                    }
                    assert(self.entries() =~= update_name(before, uid, name@));
                    assert(has_uid(before, uid));
                }
                self.send_update();
            },
        }
    }

    /// Ends the hidden phase: every bet becomes visible as it is, and every
    /// player is served the revealed state.
    pub fn reveal_cards(&mut self)
        requires
            old(self).wf(),
        ensures
            final(self).wf(),
            GameInner::broadcast_from(
                PreV { cards: old(self).cards@, hidden: false, entries: old(self).entries() },
                *final(self),
            ),
    {
        self.hidden = false;
        self.send_update();
    }

    /// Starts a fresh hidden round: every bet is withdrawn — hiding always
    /// resets the votes — and every player is served the cleared state.
    pub fn hide_cards(&mut self)
        requires
            old(self).wf(),
        ensures
            final(self).wf(),
            GameInner::broadcast_from(
                PreV {
                    cards: old(self).cards@,
                    hidden: true,
                    entries: clear_bets(old(self).entries()),
                },
                *final(self),
            ),
    {
        self.hidden = true;
        let ghost before = self.entries();
        let n = self.players.len();
        let mut i: usize = 0;
        while i < n
            invariant
                i <= n,
                n == self.players@.len(),
                before.len() == n,
                self.cards@ == old(self).cards@,
                self.hidden,
                uids_distinct(before),
                sorted_strict(self.cards@),
                forall|t: int|
                    0 <= t < i ==> #[trigger] entries_of(self.players@)[t] == with_bet(
                        before[t],
                        None,
                    ),
                forall|t: int|
                    i <= t < n ==> #[trigger] entries_of(self.players@)[t] == before[t],
            decreases n - i,
        {
            let ghost plist = self.players@;
            let e = &mut self.players[i];
            e.1.card = None;
            proof {
                assert(entries_of(plist)[i as int] == before[i as int]);
                assert(entries_of(self.players@)[i as int] == with_bet(before[i as int], None));
                assert forall|t: int| 0 <= t < n && t != i implies #[trigger] entries_of(
                    self.players@,
                )[t] == entries_of(plist)[t] by {
                    assert(self.players@[t] == plist[t]);
                }
            }
            i += 1;
        }
        proof {
            assert(self.entries() =~= clear_bets(before));
        }
        self.send_update();
    }

    /// Seats `uid` in this room and returns the receiving end of its
    /// snapshot queue. A prior connection of the same user is superseded:
    /// its seat is dropped, which closes its queue. The join itself
    /// triggers a broadcast, so the new player is served a first snapshot
    /// at once (unless its fresh queue is already rejected).
    pub fn new_player(&mut self, uid: u128) -> (r: tokio::sync::mpsc::Receiver<PlayerGameState>)
        requires
            old(self).wf(),
        ensures
            final(self).wf(),
            GameInner::broadcast_from(
                PreV {
                    cards: old(self).cards@,
                    hidden: old(self).hidden,
                    entries: joined(old(self).entries(), uid),
                },
                *final(self),
            ),
    {
        let ghost before = self.entries();
        match self.find_player(uid) {
            None => {},
            Some(i) => {
                self.players.remove(i);
                proof {
                    assert forall|t: int| 0 <= t < before.len() - 1 implies #[trigger] entries_of(
                        self.players@,
                    )[t] == before.remove(i as int)[t] by {
                        assert(self.players@[t] == old(self).players@.remove(i as int)[t]);
                        if t < i {
                            assert(self.players@[t] == old(self).players@[t]);
                        } else {
                            assert(self.players@[t] == old(self).players@[t + 1]);
                        }
                    }
                    assert(self.entries() =~= before.remove(i as int));
                    let j = uid_index(before, uid);
                    assert(0 <= j < before.len() && before[j].uid == uid);
                    assert(j == i);
                }
            },
        }
        let ghost mid = self.entries();
        proof {
            assert(mid == (if has_uid(before, uid) {
                before.remove(uid_index(before, uid))
            } else {
                before
            }));
            assert(!has_uid(mid, uid)) by {
                if has_uid(before, uid) {
                    let j = uid_index(before, uid);
                    assert forall|t: int| 0 <= t < mid.len() implies #[trigger] mid[t].uid
                        != uid by {
                        if t < j {
                            assert(mid[t] == before[t]);
                        } else {
                            assert(mid[t] == before[t + 1]);
                        }
                    }
                }
            }
            assert(uids_distinct(mid)) by {
                if has_uid(before, uid) {
                    let j = uid_index(before, uid);
                    assert forall|t1: int, t2: int|
                        0 <= t1 < t2 < mid.len() implies mid[t1].uid != mid[t2].uid by {
                        if t1 < j {
                            assert(mid[t1] == before[t1]);
                        } else {
                            assert(mid[t1] == before[t1 + 1]);
                        }
                        if t2 < j {
                            assert(mid[t2] == before[t2]);
                        } else {
                            assert(mid[t2] == before[t2 + 1]);
                        }
                    }
                }
            }
        }
        let (sub, rx) = Subscriber::subscriber_channel();
        let name = gen_nickname(uid);
        self.players.push((uid, Player { card: None, name, sub }));
        proof {
            assert forall|t: int| 0 <= t < mid.len() implies #[trigger] entries_of(
                self.players@,
            )[t] == mid[t] by {
                assert(self.players@[t] == self.players@.drop_last()[t]);
            }
            assert(entries_of(self.players@)[mid.len() as int] == fresh_entry(uid));
            assert(self.entries() =~= joined(before, uid));
        }
        self.send_update();
        rx
    }

    /// Offers a new card on the menu, keeping it strictly ascending; a card
    /// already offered leaves the menu unchanged. Either way the menu is
    /// broadcast, as a maintenance operation always is.
    pub fn add_new_card(&mut self, card: u64)
        requires
            old(self).wf(),
        ensures
            final(self).wf(),
            GameInner::broadcast_from(
                PreV {
                    cards: insert_sorted(old(self).cards@, card),
                    hidden: old(self).hidden,
                    entries: old(self).entries(),
                },
                *final(self),
            ),
    {
        let ghost before = self.cards@;
        let n = self.cards.len();
        let mut pos: usize = 0;
        while pos < n && self.cards[pos] < card
            invariant
                pos <= n,
                n == self.cards@.len(),
                before == old(self).cards@,
                *self == *old(self),
                old(self).wf(),
                forall|j: int| 0 <= j < pos ==> self.cards@[j] < card,
            decreases n - pos,
        {
            pos += 1;
        }
        if pos == n || self.cards[pos] > card {
            self.cards.insert(pos, card);
        }
        proof {
            lemma_insert_sorted_at(before, card, pos as int);
            lemma_card_menu_add(before, card);
        }
        self.send_update();
    }

    /// Withdraws a card from the menu and broadcasts; a card not on the
    /// menu leaves the room untouched, without a broadcast.
    pub fn remove_card(&mut self, card: u64)
        requires
            old(self).wf(),
        ensures
            final(self).wf(),
            old(self).cards@.contains(card) ==> GameInner::broadcast_from(
                PreV {
                    cards: remove_val(old(self).cards@, card),
                    hidden: old(self).hidden,
                    entries: old(self).entries(),
                },
                *final(self),
            ),
            !old(self).cards@.contains(card) ==> *final(self) == *old(self),
    {
        let ghost before = self.cards@;
        let n = self.cards.len();
        let mut pos: usize = 0;
        while pos < n
            invariant
                pos <= n,
                n == self.cards@.len(),
                before == old(self).cards@,
                *self == *old(self),
                old(self).wf(),
                forall|j: int| 0 <= j < pos ==> self.cards@[j] != card,
            decreases n - pos,
        {
            if self.cards[pos] == card {
                self.cards.remove(pos);
                proof {
                    lemma_remove_val_at(before, card, pos as int);
                    lemma_card_menu_remove(before, card);
                    assert(before.contains(card)) by {
                        assert(before[pos as int] == card);
                    }
                }
                self.send_update();
                return ;
            }
            pos += 1;
        }
        proof {
            assert(!before.contains(card));
        }
    }
}

/// Relates the insertion spec to an insertion position found by scanning: a
/// strictly ascending menu takes the new card right before its first
/// not-smaller entry, or stays as it is when that entry equals the card.
proof fn lemma_insert_sorted_at(s: Seq<u64>, v: u64, pos: int)
    requires
        sorted_strict(s),
        0 <= pos <= s.len(),
        forall|j: int| 0 <= j < pos ==> s[j] < v,
        pos < s.len() ==> s[pos] >= v,
    ensures
        insert_sorted(s, v) == (if pos < s.len() && s[pos] == v {
            s
        } else {
            s.insert(pos, v)
        }),
    decreases s.len(),
{
    if s.len() == 0 {
        assert(insert_sorted(s, v) =~= s.insert(0, v));
    } else if v < s[0] {
        assert(pos == 0);
        assert(insert_sorted(s, v) =~= s.insert(0, v));
    } else if v == s[0] {
        assert(pos == 0);
    } else {
        assert(pos >= 1);
        assert(sorted_strict(s.drop_first())) by {
            assert forall|i: int, j: int|
                0 <= i < j < s.drop_first().len() implies s.drop_first()[i]
                < s.drop_first()[j] by {
                assert(s.drop_first()[i] == s[i + 1]);
                assert(s.drop_first()[j] == s[j + 1]);
            }
        }
        lemma_insert_sorted_at(s.drop_first(), v, pos - 1);
        if pos < s.len() && s[pos] == v {
            assert(s.drop_first()[pos - 1] == v);
            assert(insert_sorted(s, v) =~= s);
        } else {
            assert(insert_sorted(s, v) =~= s.insert(pos, v));
        }
    }
}

/// Offering a card keeps the menu strictly ascending and adds exactly that
/// card to what is offered.
pub proof fn lemma_card_menu_add(s: Seq<u64>, v: u64)
    requires
        sorted_strict(s),
    ensures
        sorted_strict(insert_sorted(s, v)),
        forall|x: u64| insert_sorted(s, v).contains(x) <==> (x == v || s.contains(x)),
{
    let pos = find_insert_pos(s, v);
    lemma_insert_sorted_at(s, v, pos);
    if pos < s.len() && s[pos] == v {
        assert forall|x: u64| insert_sorted(s, v).contains(x) <==> (x == v || s.contains(
            x,
        )) by {
            assert(s[pos] == v);
            assert(s.contains(v));
        }
    } else {
        let r = s.insert(pos, v);
        s.insert_ensures(pos, v);
        assert(sorted_strict(r)) by {
            assert forall|i: int, j: int| 0 <= i < j < r.len() implies r[i] < r[j] by {
                if j < pos {
                    assert(r[i] == s[i] && r[j] == s[j]);
                } else if i > pos {
                    assert(r[i] == s[i - 1] && r[j] == s[j - 1]);
                } else if i < pos && j == pos {
                    assert(r[i] == s[i] && r[j] == v);
                } else if i == pos && j > pos {
                    assert(r[i] == v && r[j] == s[j - 1]);
                    assert(s[j - 1] >= v && s[j - 1] != v);
                } else {
                    assert(i < pos && j > pos);
                    assert(r[i] == s[i] && r[j] == s[j - 1]);
                    assert(s[j - 1] >= v && r[i] < v);
                }
            }
        }
        assert forall|x: u64| r.contains(x) implies (x == v || s.contains(x)) by {
            let t = choose|t: int| 0 <= t < r.len() && r[t] == x;
            if t < pos {
                assert(s[t] == x);
            } else if t == pos {
            } else {
                assert(s[t - 1] == x);
            }
        }
        assert forall|x: u64| (x == v || s.contains(x)) implies r.contains(x) by {
            if x == v {
                assert(r[pos] == x);
            } else {
                let t = choose|t: int| 0 <= t < s.len() && s[t] == x;
                if t < pos {
                    assert(r[t] == x);
                } else {
                    assert(r[t + 1] == x);
                }
            }
        }
    }
}

/// A position that splits a strictly ascending menu into the entries below
/// `v` and the rest.
proof fn find_insert_pos(s: Seq<u64>, v: u64) -> (p: int)
    requires
        sorted_strict(s),
    ensures
        0 <= p <= s.len(),
        forall|j: int| 0 <= j < p ==> s[j] < v,
        p < s.len() ==> s[p] >= v,
    decreases s.len(),
{
    if s.len() == 0 {
        0
    } else if s[0] >= v {
        0
    } else {
        assert(sorted_strict(s.drop_first())) by {
            assert forall|i: int, j: int|
                0 <= i < j < s.drop_first().len() implies s.drop_first()[i]
                < s.drop_first()[j] by {
                assert(s.drop_first()[i] == s[i + 1]);
                assert(s.drop_first()[j] == s[j + 1]);
            }
        }
        let q = find_insert_pos(s.drop_first(), v);
        assert forall|j: int| 0 <= j < q + 1 implies s[j] < v by {
            if j > 0 {
                assert(s.drop_first()[j - 1] < v);
            }
        }
        assert(q + 1 < s.len() ==> s[q + 1] == s.drop_first()[q]);
        q + 1
    }
}

/// Relates the removal spec to the position of the card found by scanning.
proof fn lemma_remove_val_at(s: Seq<u64>, v: u64, pos: int)
    requires
        0 <= pos < s.len(),
        forall|j: int| 0 <= j < pos ==> s[j] != v,
        s[pos] == v,
    ensures
        remove_val(s, v) == s.remove(pos),
    decreases s.len(),
{
    if s[0] == v {
        assert(pos == 0);
        assert(remove_val(s, v) =~= s.remove(0));
    } else {
        assert(pos >= 1);
        lemma_remove_val_at(s.drop_first(), v, pos - 1);
        assert(seq![s[0]] + s.drop_first().remove(pos - 1) =~= s.remove(pos));
    }
}

/// Withdrawing a card keeps the menu strictly ascending and, the menu
/// holding no duplicates, removes exactly that card from what is offered.
pub proof fn lemma_card_menu_remove(s: Seq<u64>, v: u64)
    requires
        sorted_strict(s),
    ensures
        sorted_strict(remove_val(s, v)),
        forall|x: u64| remove_val(s, v).contains(x) <==> (x != v && s.contains(x)),
{
    if s.contains(v) {
        let pos = choose|i: int| 0 <= i < s.len() && s[i] == v;
        assert forall|j: int| 0 <= j < pos implies s[j] != v by {
            assert(s[j] < s[pos]);
        }
        lemma_remove_val_at(s, v, pos);
        let r = s.remove(pos);
        s.remove_ensures(pos);
        assert(sorted_strict(r)) by {
            assert forall|i: int, j: int| 0 <= i < j < r.len() implies r[i] < r[j] by {
                if j < pos {
                    assert(r[i] == s[i] && r[j] == s[j]);
                } else if i >= pos {
                    assert(r[i] == s[i + 1] && r[j] == s[j + 1]);
                } else {
                    assert(r[i] == s[i] && r[j] == s[j + 1]);
                }
            }
        }
        assert forall|x: u64| r.contains(x) implies (x != v && s.contains(x)) by {
            let t = choose|t: int| 0 <= t < r.len() && r[t] == x;
            if t < pos {
                assert(s[t] == x);
                assert(s[t] < s[pos]);
            } else {
                assert(s[t + 1] == x);
                assert(s[pos] < s[t + 1]);
            }
        }
        assert forall|x: u64| (x != v && s.contains(x)) implies r.contains(x) by {
            let t = choose|t: int| 0 <= t < s.len() && s[t] == x;
            if t < pos {
                assert(r[t] == x);
            } else {
                assert(t != pos);
                assert(r[t - 1] == x);
            }
        }
    } else {
        lemma_remove_val_absent(s, v);
    }
}

/// Withdrawing a card that is not offered leaves the menu as it is.
proof fn lemma_remove_val_absent(s: Seq<u64>, v: u64)
    requires
        !s.contains(v),
    ensures
        remove_val(s, v) == s,
    decreases s.len(),
{
    if s.len() == 0 {
        assert(remove_val(s, v) =~= s);
    } else {
        assert(s[0] != v);
        assert(!s.drop_first().contains(v)) by {
            if s.drop_first().contains(v) {
                let t = choose|t: int| 0 <= t < s.drop_first().len() && s.drop_first()[t] == v;
                assert(s[t + 1] == v);
            }
        }
        lemma_remove_val_absent(s.drop_first(), v);
        assert(seq![s[0]] + s.drop_first() =~= s);
    }
}

/// Hiding is idempotent: one hide already withdraws every bet, so the
/// state a second hide would clear and broadcast is exactly the state the
/// first one settled in — all bets withdrawn, the round hidden.
pub proof fn lemma_hide_idempotent(p: PreV, g: GameInner)
    requires
        GameInner::broadcast_from(
            PreV { cards: p.cards, hidden: true, entries: clear_bets(p.entries) },
            g,
        ),
    ensures
        g.hidden,
        forall|i: int| 0 <= i < g.entries().len() ==> (#[trigger] g.entries()[i]).card is None,
        clear_bets(g.entries()) == g.entries(),
{
    let cleared = clear_bets(p.entries);
    let pos = choose|pos: Seq<int>| pos_valid(cleared, g.entries(), pos);
    assert forall|i: int| 0 <= i < g.entries().len() implies (#[trigger] g.entries()[i]).card
        is None by {
        assert(entry_survives(cleared[pos[i]], g.entries()[i]));
        assert(cleared[pos[i]] == with_bet(p.entries[pos[i]], None));
    }
    assert(clear_bets(g.entries()) =~= g.entries());
}

/// Placing a bet and then withdrawing it restores the seats exactly as a
/// plain withdrawal would; in particular the user's bet is absent again,
/// so every later snapshot shows it as absent.
pub proof fn lemma_bet_round_trip(s: Seq<EntryV>, uid: u128, v: u64)
    ensures
        update_bet(update_bet(s, uid, Some(v)), uid, None) == update_bet(s, uid, None),
        forall|i: int|
            0 <= i < s.len() && s[i].uid == uid ==> (#[trigger] update_bet(s, uid, None)[i]).card
                is None,
{
    assert(update_bet(update_bet(s, uid, Some(v)), uid, None) =~= update_bet(s, uid, None));
}

/// The menu a fresh room starts with.
pub open spec fn default_menu() -> Seq<u64> {
    seq![50u64, 100u64, 200u64, 300u64, 500u64, 800u64, 1300u64, 2100u64]
}

impl Default for GameInner {
    /// A fresh room: the default menu, nobody seated, the round hidden.
    fn default() -> (r: Self)
        ensures
            r.wf(),
            r.entries() == Seq::<EntryV>::empty(),
            r.cards@ == default_menu(),
            r.hidden,
    {
        let mut cards: Vec<u64> = Vec::new();
        cards.push(50);
        cards.push(100);
        cards.push(200);
        cards.push(300);
        cards.push(500);
        cards.push(800);
        cards.push(1300);
        cards.push(2100);
        let r = GameInner { cards, players: Vec::new(), hidden: true };
        proof {
            assert(r.cards@ =~= default_menu());
            assert(r.entries() =~= Seq::<EntryV>::empty());
        }
        r
    }
}

} // verus!
