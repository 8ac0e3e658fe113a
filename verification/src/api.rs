//! The command surface of the service: each function resolves the room,
//! applies one command under the registry's exclusive ownership and lets
//! the room broadcast. User-visible failures are limited to a missing room,
//! a bet on a card the menu does not offer, and an invalid display name;
//! everything else is swallowed by the room as the benign race it is.

use crate::registry::ServerState;
use crate::room::{
    clear_bets, has_uid, joined, update_bet, update_name, EntryV, GameInner, PreV,
};
use crate::state::PlayerGameState;
use crate::username::{check_username, valid_name};
use vstd::prelude::*;

verus! {

/// What a command can fail with; the message is shown to the issuer.
#[derive(Clone, Debug)]
pub enum ServerError {
    Custom(String),
}

impl ServerError {
    /// An error carrying the given message.
    pub fn new_custom(s: String) -> (r: Self)
        ensures
            r matches ServerError::Custom(m) && m@ == s@,
    {
        ServerError::Custom(s)
    }

    /// The message carried by this error.
    pub fn message(&self) -> (r: &str)
        ensures
            self matches ServerError::Custom(m) && r@ == m@,
    {
        match self {
            ServerError::Custom(m) => m.as_str(),
        }
    }
}

/// What a subscribed client may send upstream: so far only the choice of
/// the room its snapshots should come from.
#[derive(Clone, Copy, Debug)]
pub enum UserStreamRequest {
    SetRoom(u64),
}

/// The registry after one room was borrowed, changed and returned: that
/// room's new state is `g`, every other room is untouched.
pub open spec fn room_updated(
    pre: Map<u64, GameInner>,
    post: Map<u64, GameInner>,
    room_id: u64,
    g: GameInner,
) -> bool {
    post =~= pre.insert(room_id, g)
}

/// How a room answers `place_bet` for `uid`: the bet recorded and the
/// room broadcast if the user is seated, nothing at all otherwise.
pub open spec fn place_bet_rel(
    pre: GameInner,
    post: GameInner,
    uid: u128,
    card: Option<u64>,
) -> bool {
    if has_uid(pre.entries(), uid) {
        GameInner::broadcast_from(
            PreV {
                cards: pre.cards@,
                hidden: pre.hidden,
                entries: update_bet(pre.entries(), uid, card),
            },
            post,
        )
    } else {
        post == pre
    }
}

/// How a room answers `set_name` for `uid`.
pub open spec fn set_name_rel(pre: GameInner, post: GameInner, uid: u128, name: Seq<char>) -> bool {
    if has_uid(pre.entries(), uid) {
        GameInner::broadcast_from(
            PreV {
                cards: pre.cards@,
                hidden: pre.hidden,
                entries: update_name(pre.entries(), uid, name),
            },
            post,
        )
    } else {
        post == pre
    }
}

/// How a room answers `reveal`: visible, then broadcast.
pub open spec fn reveal_rel(pre: GameInner, post: GameInner) -> bool {
    GameInner::broadcast_from(
        PreV { cards: pre.cards@, hidden: false, entries: pre.entries() },
        post,
    )
}

/// How a room answers `hide`: hidden, every bet withdrawn, then broadcast.
pub open spec fn hide_rel(pre: GameInner, post: GameInner) -> bool {
    GameInner::broadcast_from(
        PreV { cards: pre.cards@, hidden: true, entries: clear_bets(pre.entries()) },
        post,
    )
}

/// How a room answers a join by `uid`.
pub open spec fn join_rel(pre: GameInner, post: GameInner, uid: u128) -> bool {
    GameInner::broadcast_from(
        PreV { cards: pre.cards@, hidden: pre.hidden, entries: joined(pre.entries(), uid) },
        post,
    )
}

impl GameInner {
    /// Whether the menu offers the given card.
    pub fn menu_contains(&self, card: u64) -> (r: bool)
        ensures
            r == self.cards@.contains(card),
    {
        let n = self.cards.len();
        let mut i: usize = 0;
        while i < n
            invariant
                i <= n,
                n == self.cards@.len(),
                forall|j: int| 0 <= j < i ==> self.cards@[j] != card,
            decreases n - i,
        {
            if self.cards[i] == card {
                return true;
            }
            i += 1;
        }
        proof {
            if self.cards@.contains(card) {
                let t = choose|t: int| 0 <= t < self.cards@.len() && self.cards@[t] == card;
            }
        }
        false
    }
}

/// Records `uid`'s bet in the room and broadcasts the new state. Rejected
/// when the room does not exist or the bet names a card the menu does not
/// offer; rejection leaves every room untouched. A bet by a user no longer
/// seated is swallowed as a no-op.
pub fn place_bet(state: &mut ServerState, room_id: u64, uid: u128, card: Option<u64>) -> (r:
    Result<(), ServerError>)
    requires
        old(state).wf(),
    ensures
        final(state).wf(),
        !old(state)@.contains_key(room_id) ==> (r matches Err(ServerError::Custom(m)) && m@
            == "No such room"@ && *final(state) == *old(state)),
        old(state)@.contains_key(room_id) && (card matches Some(c)
            && !old(state)@[room_id].cards@.contains(c)) ==> (r matches Err(
            ServerError::Custom(m),
        ) && m@ == "No such card"@ && final(state)@ == old(state)@),
        old(state)@.contains_key(room_id) && (card matches Some(c) ==> old(
            state,
        )@[room_id].cards@.contains(c)) ==> (r is Ok && exists|g: GameInner|
            place_bet_rel(old(state)@[room_id], g, uid, card) && room_updated(
                old(state)@,
                final(state)@,
                room_id,
                g,
            )),
{
    match state.take_game(room_id) {
        None => Err(ServerError::new_custom("No such room".to_owned())),
        Some(mut g) => {
            let valid = match card {
                Some(c) => g.menu_contains(c),
                None => true,
            };
            if !valid {
                state.put_game(room_id, g);
                proof {
                    assert(state@ =~= old(state)@);
                }
                return Err(ServerError::new_custom("No such card".to_owned()));
            }
            let ghost pre_game = g;
            g.place_bet(uid, card);
            proof {
                assert(place_bet_rel(pre_game, g, uid, card));
            }
            state.put_game(room_id, g);
            Ok(())
        },
    }
}

/// Sets `uid`'s display name in the room and broadcasts. The name is
/// validated first: an invalid name is rejected with the rule's
/// description and nothing changes. A rename by a user no longer seated is
/// swallowed as a no-op.
pub fn set_name(state: &mut ServerState, room_id: u64, uid: u128, name: String) -> (r: Result<
    (),
    ServerError,
>)
    requires
        old(state).wf(),
    ensures
        final(state).wf(),
        !valid_name(name@) ==> (r matches Err(ServerError::Custom(m)) && m@ == (if name@.len()
            == 0 {
            "Has to be non-empty"@
        } else {
            "Allowed characters: a-z A-Z 0-9 _-"@
        }) && *final(state) == *old(state)),
        valid_name(name@) && !old(state)@.contains_key(room_id) ==> (r matches Err(
            ServerError::Custom(m),
        ) && m@ == "No such room"@ && *final(state) == *old(state)),
        valid_name(name@) && old(state)@.contains_key(room_id) ==> (r is Ok && exists|g: GameInner|
            set_name_rel(old(state)@[room_id], g, uid, name@) && room_updated(
                old(state)@,
                final(state)@,
                room_id,
                g,
            )),
{
    match check_username(name.as_str()) {
        Err(e) => Err(ServerError::new_custom(e)),
        Ok(()) => {
            match state.take_game(room_id) {
                None => Err(ServerError::new_custom("No such room".to_owned())),
                Some(mut g) => {
                    let ghost pre_game = g;
                    let ghost name_v = name@;
                    g.set_name(uid, name);
                    proof {
                        assert(set_name_rel(pre_game, g, uid, name_v));
                    }
                    let ghost post_game = g;
                    state.put_game(room_id, g);
                    proof {
                        assert(set_name_rel(old(state)@[room_id], post_game, uid, name_v)
                            && room_updated(old(state)@, state@, room_id, post_game));
                    }
                    Ok(())
                },
            }
        },
    }
}

/// Ends the room's hidden phase and broadcasts the revealed bets. Rejected
/// when the room does not exist.
pub fn reveal_cards(state: &mut ServerState, room_id: u64) -> (r: Result<(), ServerError>)
    requires
        old(state).wf(),
    ensures
        final(state).wf(),
        !old(state)@.contains_key(room_id) ==> (r matches Err(ServerError::Custom(m)) && m@
            == "No such room"@ && *final(state) == *old(state)),
        old(state)@.contains_key(room_id) ==> (r is Ok && exists|g: GameInner|
            reveal_rel(old(state)@[room_id], g) && room_updated(
                old(state)@,
                final(state)@,
                room_id,
                g,
            )),
{
    match state.take_game(room_id) {
        None => Err(ServerError::new_custom("No such room".to_owned())),
        Some(mut g) => {
            let ghost pre_game = g;
            g.reveal_cards();
            proof {
                assert(reveal_rel(pre_game, g));
            }
            state.put_game(room_id, g);
            Ok(())
        },
    }
}

/// Starts a fresh hidden round in the room: every bet is withdrawn and the
/// cleared state is broadcast. Rejected when the room does not exist.
pub fn hide_cards(state: &mut ServerState, room_id: u64) -> (r: Result<(), ServerError>)
    requires
        old(state).wf(),
    ensures
        final(state).wf(),
        !old(state)@.contains_key(room_id) ==> (r matches Err(ServerError::Custom(m)) && m@
            == "No such room"@ && *final(state) == *old(state)),
        old(state)@.contains_key(room_id) ==> (r is Ok && exists|g: GameInner|
            hide_rel(old(state)@[room_id], g) && room_updated(
                old(state)@,
                final(state)@,
                room_id,
                g,
            )),
{
    match state.take_game(room_id) {
        None => Err(ServerError::new_custom("No such room".to_owned())),
        Some(mut g) => {
            let ghost pre_game = g;
            g.hide_cards();
            proof {
                assert(hide_rel(pre_game, g));
            }
            state.put_game(room_id, g);
            Ok(())
        },
    }
}

/// Connects `uid` to the room, creating the room with the default state on
/// first use, and returns the receiving end of the new subscriber queue;
/// the join is broadcast, so the first snapshot is served at once. A prior
/// connection of the same user in this room is superseded and its queue
/// closed.
pub fn subscribe_to_room(state: &mut ServerState, room_id: u64, uid: u128) -> (r:
    tokio::sync::mpsc::Receiver<PlayerGameState>)
    requires
        old(state).wf(),
    ensures
        final(state).wf(),
        old(state)@.contains_key(room_id) ==> (exists|g: GameInner|
            join_rel(old(state)@[room_id], g, uid) && room_updated(
                old(state)@,
                final(state)@,
                room_id,
                g,
            )),
        !old(state)@.contains_key(room_id) ==> (exists|g0: GameInner, g: GameInner|
            g0.wf() && g0.entries() == Seq::<EntryV>::empty() && g0.cards@
                == crate::room::default_menu() && g0.hidden && join_rel(g0, g, uid)
                && room_updated(old(state)@, final(state)@, room_id, g)),
{
    state.get_or_create_game(room_id);
    let g_opt = state.take_game(room_id);
    match g_opt {
        Some(mut g) => {
            let ghost pre_game = g;
            let rx = g.new_player(uid);
            proof {
                assert(join_rel(pre_game, g, uid));
            }
            state.put_game(room_id, g);
            proof {
                assert(state@ =~= old(state)@.insert(room_id, g));
            }
            rx
        },
        None => vstd::pervasive::unreached(),
    }
}

} // verus!
