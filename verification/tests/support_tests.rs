use scrum_poker::nickname::gen_nickname;
use scrum_poker::state::{average_bet, PlayerState};
use scrum_poker::uid::{uid_from_bytes, uid_to_bytes};
use scrum_poker::username::check_username;

fn ps(card: Option<u64>) -> PlayerState {
    PlayerState { card, name: "p".to_string() }
}

#[test]
fn nickname_is_deterministic_and_valid() {
    assert_eq!(gen_nickname(7), gen_nickname(7));
    assert!(check_username(&gen_nickname(0)).is_ok());
    assert!(check_username(&gen_nickname(u128::MAX)).is_ok());
    assert!(check_username(&gen_nickname(123456789)).is_ok());
}

#[test]
fn nickname_uses_last_four_digits() {
    assert_eq!(gen_nickname(123), "Player123");
    assert_eq!(gen_nickname(0), "Player0");
    assert_eq!(gen_nickname(987654), "Player7654");
}

#[test]
fn uid_codec_round_trips() {
    for uid in [0u128, 1, 255, 256, u128::MAX, 0xdead_beef_cafe_f00d] {
        let bytes = uid_to_bytes(uid);
        assert_eq!(bytes.len(), 16);
        assert_eq!(uid_from_bytes(&bytes), Some(uid));
    }
}

#[test]
fn uid_encoding_is_little_endian() {
    let bytes = uid_to_bytes(0x0102);
    assert_eq!(bytes[0], 2);
    assert_eq!(bytes[1], 1);
    assert!(bytes[2..].iter().all(|&b| b == 0));
    assert_eq!(uid_from_bytes(&u128::to_le_bytes(77).to_vec()), Some(77));
}

#[test]
fn uid_decode_rejects_wrong_length() {
    assert_eq!(uid_from_bytes(&vec![]), None);
    assert_eq!(uid_from_bytes(&vec![0; 15]), None);
    assert_eq!(uid_from_bytes(&vec![0; 17]), None);
}

#[test]
fn average_ignores_missing_bets() {
    let others = vec![ps(Some(100)), ps(None), ps(Some(200))];
    // (100 + 200 + 300) / 3
    assert_eq!(average_bet(&others, &ps(Some(300))), 200);
}

#[test]
fn average_of_no_bets_is_zero() {
    let others = vec![ps(None), ps(None)];
    assert_eq!(average_bet(&others, &ps(None)), 0);
}

#[test]
fn average_rounds_down() {
    let others = vec![ps(Some(100))];
    // (100 + 201) / 2 = 150 rounded down
    assert_eq!(average_bet(&others, &ps(Some(201))), 150);
}
