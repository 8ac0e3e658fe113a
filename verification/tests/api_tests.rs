use scrum_poker::api::{hide_cards, place_bet, reveal_cards, set_name, subscribe_to_room, ServerError};
use scrum_poker::nickname::gen_nickname;
use scrum_poker::registry::ServerState;
use scrum_poker::state::PlayerGameState;
use tokio::sync::mpsc::Receiver;

fn drain(rx: &mut Receiver<PlayerGameState>) -> Vec<PlayerGameState> {
    let mut out = Vec::new();
    while let Ok(s) = rx.try_recv() {
        out.push(s);
    }
    out
}

fn latest(rx: &mut Receiver<PlayerGameState>) -> PlayerGameState {
    let all = drain(rx);
    all.into_iter().last().expect("expected at least one snapshot")
}

fn msg(e: ServerError) -> String {
    e.message().to_string()
}

#[test]
fn commands_on_missing_room_are_rejected() {
    let mut st = ServerState::new();
    assert_eq!(msg(place_bet(&mut st, 9, 1, Some(100)).unwrap_err()), "No such room");
    assert_eq!(msg(reveal_cards(&mut st, 9).unwrap_err()), "No such room");
    assert_eq!(msg(hide_cards(&mut st, 9).unwrap_err()), "No such room");
    assert_eq!(msg(set_name(&mut st, 9, 1, "bob".to_string()).unwrap_err()), "No such room");
    assert!(!st.has_game(9));
}

#[test]
fn subscribe_creates_room_on_demand() {
    let mut st = ServerState::new();
    assert!(!st.has_game(42));
    let mut rx = subscribe_to_room(&mut st, 42, 7);
    assert!(st.has_game(42));
    let snap = latest(&mut rx);
    assert_eq!(snap.players.len(), 0);
    assert_eq!(snap.cards, vec![50, 100, 200, 300, 500, 800, 1300, 2100]);
    assert_eq!(snap.self_state.card, None);
    assert!(snap.hidden);
}

#[test]
fn full_round_scenario_in_room_42() {
    let mut st = ServerState::new();
    let uid_a: u128 = 0xa;
    let uid_b: u128 = 0xb;

    // Room 42 starts empty; A joins.
    let mut rx_a = subscribe_to_room(&mut st, 42, uid_a);
    let first = latest(&mut rx_a);
    assert_eq!(first.players, vec![]);
    assert_eq!(first.self_state.card, None);
    assert!(first.hidden);
    assert_eq!(first.cards, vec![50, 100, 200, 300, 500, 800, 1300, 2100]);

    // B joins: both see one other player with no bet.
    let mut rx_b = subscribe_to_room(&mut st, 42, uid_b);
    let snap_a = latest(&mut rx_a);
    let snap_b = latest(&mut rx_b);
    assert_eq!(snap_a.players.len(), 1);
    assert_eq!(snap_a.players[0].card, None);
    assert_eq!(snap_b.players.len(), 1);
    assert_eq!(snap_b.players[0].card, None);

    // A bets 300: B sees the marker, A sees the value.
    place_bet(&mut st, 42, uid_a, Some(300)).unwrap();
    let snap_a = latest(&mut rx_a);
    let snap_b = latest(&mut rx_b);
    assert_eq!(snap_a.self_state.card, Some(300));
    assert_eq!(snap_b.players[0].card, Some(0));

    // Reveal: B now sees the real value.
    reveal_cards(&mut st, 42).unwrap();
    let snap_b = latest(&mut rx_b);
    assert!(!snap_b.hidden);
    assert_eq!(snap_b.players[0].card, Some(300));

    // Hide: all bets are gone again, for both.
    hide_cards(&mut st, 42).unwrap();
    let snap_a = latest(&mut rx_a);
    let snap_b = latest(&mut rx_b);
    assert!(snap_a.hidden && snap_b.hidden);
    assert_eq!(snap_a.self_state.card, None);
    assert_eq!(snap_a.players[0].card, None);
    assert_eq!(snap_b.self_state.card, None);
    assert_eq!(snap_b.players[0].card, None);
}

#[test]
fn set_name_validates_before_touching_the_room() {
    let mut st = ServerState::new();
    let mut rx = subscribe_to_room(&mut st, 1, 5);
    let _ = latest(&mut rx);

    // Invalid name: rejected, no broadcast, state unchanged.
    let e = set_name(&mut st, 1, 5, "bob!".to_string()).unwrap_err();
    assert_eq!(msg(e), "Allowed characters: a-z A-Z 0-9 _-");
    assert!(drain(&mut rx).is_empty());

    // Valid name: accepted and reflected in the next snapshot.
    set_name(&mut st, 1, 5, "bob_2".to_string()).unwrap();
    let snap = latest(&mut rx);
    assert_eq!(snap.self_state.name, "bob_2");
}

#[test]
fn empty_name_is_rejected_with_its_own_message() {
    let mut st = ServerState::new();
    let _rx = subscribe_to_room(&mut st, 1, 5);
    let e = set_name(&mut st, 1, 5, String::new()).unwrap_err();
    assert_eq!(msg(e), "Has to be non-empty");
}

#[test]
fn bet_outside_menu_is_rejected() {
    let mut st = ServerState::new();
    let mut rx = subscribe_to_room(&mut st, 3, 5);
    let _ = latest(&mut rx);
    let e = place_bet(&mut st, 3, 5, Some(123)).unwrap_err();
    assert_eq!(msg(e), "No such card");
    assert!(drain(&mut rx).is_empty());
    // A menu value is accepted.
    place_bet(&mut st, 3, 5, Some(100)).unwrap();
    assert_eq!(latest(&mut rx).self_state.card, Some(100));
    // Withdrawing is always allowed.
    place_bet(&mut st, 3, 5, None).unwrap();
    assert_eq!(latest(&mut rx).self_state.card, None);
}

#[test]
fn rooms_are_independent() {
    let mut st = ServerState::new();
    let mut rx1 = subscribe_to_room(&mut st, 1, 10);
    let mut rx2 = subscribe_to_room(&mut st, 2, 20);
    let _ = latest(&mut rx1);
    let _ = latest(&mut rx2);
    place_bet(&mut st, 1, 10, Some(50)).unwrap();
    // Room 2 saw nothing.
    assert!(drain(&mut rx2).is_empty());
    assert_eq!(latest(&mut rx1).self_state.card, Some(50));
}

#[test]
fn registry_take_and_put_round_trip() {
    let mut st = ServerState::new();
    assert!(st.take_game(8).is_none());
    st.get_or_create_game(8);
    assert!(st.has_game(8));
    let g = st.take_game(8).unwrap();
    assert!(!st.has_game(8));
    st.put_game(8, g);
    assert!(st.has_game(8));
}

#[test]
fn remove_game_deletes_the_entry() {
    let mut st = ServerState::new();
    st.get_or_create_game(5);
    assert!(st.has_game(5));
    st.remove_game(5);
    assert!(!st.has_game(5));
    // Removing an absent room is safe.
    st.remove_game(5);
    assert!(!st.has_game(5));
    // A later join starts a fresh room.
    let mut rx = subscribe_to_room(&mut st, 5, 1);
    assert_eq!(latest(&mut rx).players.len(), 0);
}

#[test]
fn join_uses_generated_nickname() {
    let mut st = ServerState::new();
    let mut rx = subscribe_to_room(&mut st, 4, 31337);
    let snap = latest(&mut rx);
    assert_eq!(snap.self_state.name, gen_nickname(31337));
}
