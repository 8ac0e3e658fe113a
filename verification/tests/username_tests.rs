use scrum_poker::username::check_username;

#[test]
fn accepts_simple_names() {
    assert!(check_username("bob").is_ok());
    assert!(check_username("bob_2").is_ok());
    assert!(check_username("Alice-42").is_ok());
    assert!(check_username("_").is_ok());
    assert!(check_username("-").is_ok());
    assert!(check_username("0123456789").is_ok());
    assert!(check_username("ABCXYZabcxyz").is_ok());
}

#[test]
fn rejects_empty_name() {
    assert_eq!(check_username(""), Err("Has to be non-empty".to_string()));
}

#[test]
fn rejects_bad_characters() {
    let msg = "Allowed characters: a-z A-Z 0-9 _-".to_string();
    assert_eq!(check_username("bob!"), Err(msg.clone()));
    assert_eq!(check_username("a b"), Err(msg.clone()));
    assert_eq!(check_username("héllo"), Err(msg.clone()));
    assert_eq!(check_username("name."), Err(msg));
}
