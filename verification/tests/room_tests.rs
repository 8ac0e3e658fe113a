use scrum_poker::nickname::gen_nickname;
use scrum_poker::room::GameInner;
use scrum_poker::state::PlayerGameState;
use tokio::sync::mpsc::Receiver;

fn drain(rx: &mut Receiver<PlayerGameState>) -> Vec<PlayerGameState> {
    let mut out = Vec::new();
    while let Ok(s) = rx.try_recv() {
        out.push(s);
    }
    out
}

fn latest(rx: &mut Receiver<PlayerGameState>) -> PlayerGameState {
    let all = drain(rx);
    all.into_iter().last().expect("expected at least one snapshot")
}

const DEFAULT_MENU: [u64; 8] = [50, 100, 200, 300, 500, 800, 1300, 2100];

#[test]
fn fresh_room_has_default_state() {
    let g = GameInner::default();
    assert_eq!(g.cards, DEFAULT_MENU.to_vec());
    assert!(g.hidden);
    assert!(g.players.is_empty());
}

#[test]
fn join_serves_initial_snapshot() {
    let mut g = GameInner::default();
    let mut rx = g.new_player(7);
    let snap = latest(&mut rx);
    assert_eq!(snap.players.len(), 0);
    assert_eq!(snap.self_state.card, None);
    assert_eq!(snap.self_state.name, gen_nickname(7));
    assert_eq!(snap.cards, DEFAULT_MENU.to_vec());
    assert!(snap.hidden);
}

#[test]
fn second_join_shows_one_other_player() {
    let mut g = GameInner::default();
    let mut rx_a = g.new_player(1);
    let mut rx_b = g.new_player(2);
    let snap_a = latest(&mut rx_a);
    let snap_b = latest(&mut rx_b);
    assert_eq!(snap_a.players.len(), 1);
    assert_eq!(snap_b.players.len(), 1);
    assert_eq!(snap_a.players[0].card, None);
    assert_eq!(snap_a.players[0].name, gen_nickname(2));
    assert_eq!(snap_b.players[0].name, gen_nickname(1));
}

#[test]
fn hidden_bet_is_redacted_for_others_and_real_for_self() {
    let mut g = GameInner::default();
    let mut rx_a = g.new_player(1);
    let mut rx_b = g.new_player(2);
    g.place_bet(1, Some(300));
    let snap_a = latest(&mut rx_a);
    let snap_b = latest(&mut rx_b);
    // A sees its own bet as placed.
    assert_eq!(snap_a.self_state.card, Some(300));
    // B sees only the fixed marker, never the value.
    assert_eq!(snap_b.players[0].card, Some(0));
    assert!(snap_b.hidden);
}

#[test]
fn reveal_shows_real_values() {
    let mut g = GameInner::default();
    let _rx_a = g.new_player(1);
    let mut rx_b = g.new_player(2);
    g.place_bet(1, Some(300));
    g.reveal_cards();
    let snap_b = latest(&mut rx_b);
    assert!(!snap_b.hidden);
    assert_eq!(snap_b.players[0].card, Some(300));
}

#[test]
fn hide_clears_every_bet() {
    let mut g = GameInner::default();
    let mut rx_a = g.new_player(1);
    let mut rx_b = g.new_player(2);
    g.place_bet(1, Some(300));
    g.place_bet(2, Some(500));
    g.hide_cards();
    let snap_a = latest(&mut rx_a);
    let snap_b = latest(&mut rx_b);
    assert!(snap_a.hidden);
    assert_eq!(snap_a.self_state.card, None);
    assert_eq!(snap_a.players[0].card, None);
    assert!(snap_b.hidden);
    assert_eq!(snap_b.self_state.card, None);
    assert_eq!(snap_b.players[0].card, None);
}

#[test]
fn hide_twice_is_idempotent() {
    let mut g = GameInner::default();
    let mut rx = g.new_player(1);
    g.place_bet(1, Some(800));
    g.hide_cards();
    let after_once = latest(&mut rx);
    g.hide_cards();
    let after_twice = latest(&mut rx);
    assert_eq!(after_once, after_twice);
    assert!(after_twice.hidden);
    assert_eq!(after_twice.self_state.card, None);
}

#[test]
fn bet_round_trip_restores_none_everywhere() {
    let mut g = GameInner::default();
    let mut rx_a = g.new_player(1);
    let mut rx_b = g.new_player(2);
    g.place_bet(1, Some(500));
    g.place_bet(1, None);
    let snap_a = latest(&mut rx_a);
    let snap_b = latest(&mut rx_b);
    assert_eq!(snap_a.self_state.card, None);
    assert_eq!(snap_b.players[0].card, None);
}

#[test]
fn bet_by_absent_user_is_a_silent_no_op() {
    let mut g = GameInner::default();
    let mut rx = g.new_player(1);
    let _ = latest(&mut rx);
    g.place_bet(99, Some(100));
    // No broadcast happened: nothing new on the queue.
    assert!(drain(&mut rx).is_empty());
}

#[test]
fn set_name_changes_the_record() {
    let mut g = GameInner::default();
    let mut rx_a = g.new_player(1);
    let mut rx_b = g.new_player(2);
    g.set_name(1, "bob_2".to_string());
    let snap_a = latest(&mut rx_a);
    let snap_b = latest(&mut rx_b);
    assert_eq!(snap_a.self_state.name, "bob_2");
    assert_eq!(snap_b.players[0].name, "bob_2");
}

#[test]
fn add_card_sorts_and_dedups() {
    let mut g = GameInner::default();
    g.add_new_card(150);
    assert_eq!(g.cards, vec![50, 100, 150, 200, 300, 500, 800, 1300, 2100]);
    g.add_new_card(150);
    assert_eq!(g.cards, vec![50, 100, 150, 200, 300, 500, 800, 1300, 2100]);
    g.add_new_card(1);
    g.add_new_card(5000);
    assert_eq!(g.cards, vec![1, 50, 100, 150, 200, 300, 500, 800, 1300, 2100, 5000]);
}

#[test]
fn remove_card_deletes_by_value() {
    let mut g = GameInner::default();
    g.remove_card(300);
    assert_eq!(g.cards, vec![50, 100, 200, 500, 800, 1300, 2100]);
    // Removing an absent value is a no-op.
    g.remove_card(300);
    assert_eq!(g.cards, vec![50, 100, 200, 500, 800, 1300, 2100]);
}

#[test]
fn card_menu_stays_sorted_after_many_operations() {
    let mut g = GameInner::default();
    for v in [7u64, 3, 7, 9999, 1, 100, 2100, 42] {
        g.add_new_card(v);
    }
    for v in [100u64, 1, 12345] {
        g.remove_card(v);
    }
    for w in g.cards.windows(2) {
        assert!(w[0] < w[1]);
    }
}

#[test]
fn dead_subscriber_is_dropped_on_next_broadcast() {
    let mut g = GameInner::default();
    let rx_a = g.new_player(1);
    let mut rx_b = g.new_player(2);
    // A's transport goes silent.
    drop(rx_a);
    // The next broadcast drops A and still serves B an A-free view.
    g.reveal_cards();
    let snap_b = latest(&mut rx_b);
    assert_eq!(snap_b.players.len(), 0);
    assert_eq!(g.players.len(), 1);
    assert_eq!(g.players[0].0, 2);
}

#[test]
fn rejoin_supersedes_previous_connection() {
    let mut g = GameInner::default();
    let mut rx_old = g.new_player(1);
    let _ = latest(&mut rx_old);
    let mut rx_new = g.new_player(1);
    // Only one seat for the user.
    assert_eq!(g.players.len(), 1);
    // The old queue is closed once drained; the new one is served.
    drain(&mut rx_old);
    assert!(matches!(
        rx_old.try_recv(),
        Err(tokio::sync::mpsc::error::TryRecvError::Disconnected)
    ));
    let snap = latest(&mut rx_new);
    assert_eq!(snap.players.len(), 0);
}
