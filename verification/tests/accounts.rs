use qw_core::accounts::{
    blind_index, check_nick, nick_blind_index, normalize_nick, open_nick, AccountError,
    AccountRecord, SERVER_KEY_LEN,
};

const SK: [u8; SERVER_KEY_LEN] = [7u8; SERVER_KEY_LEN];

fn new_id() -> [u8; 16] {
    *uuid::Uuid::new_v4().as_bytes()
}

fn record(nick: &str) -> AccountRecord {
    AccountRecord::new(&SK, new_id(), nick, Vec::new(), b"sealed-blob".to_vec()).unwrap()
}

#[test]
fn normalize_trims_lowercases_and_nfc() {
    assert_eq!(normalize_nick("  Alice.Doe  ").unwrap(), "alice.doe");
    assert_eq!(normalize_nick("Cafe\u{0301}longname").unwrap(), "caf\u{e9}longname");
}

#[test]
fn normalize_rejects_empty_and_short() {
    assert!(matches!(normalize_nick("   "), Err(AccountError::NickEmpty)));
    assert!(matches!(normalize_nick("short7 "), Err(AccountError::NickTooShort)));
    assert!(normalize_nick("exactly8").is_ok());
}

#[test]
fn blind_index_is_stable_and_key_dependent() {
    let a = blind_index(&SK, "alice.doe");
    assert_eq!(a.len(), 32);
    assert_eq!(a, blind_index(&SK, "alice.doe"), "deterministic");
    assert_ne!(a, blind_index(&SK, "bob.somebody"), "nick matters");
    assert_ne!(a, blind_index(&[9u8; 32], "alice.doe"), "key matters");
}

#[test]
fn nick_cipher_round_trips_under_its_own_account_id() {
    let rec = record("alice.doe");
    assert_eq!(rec.nick(&SK).unwrap(), "alice.doe");
    assert!(open_nick(&SK, &new_id(), &rec.nick_cipher).is_err());
}

#[test]
fn the_login_lookup_normalises_before_indexing() {
    assert_eq!(nick_blind_index(&SK, "  ALICE.doe ").unwrap(), blind_index(&SK, "alice.doe"));
    assert!(matches!(nick_blind_index(&SK, "ab"), Err(AccountError::NickTooShort)));
}

#[test]
fn a_record_indexes_and_seals_the_normal_form() {
    let rec = record("  Alice.Doe ");
    assert_eq!(rec.nick_index, blind_index(&SK, "alice.doe"));
    assert_eq!(rec.nick(&SK).unwrap(), "alice.doe");
    assert_eq!(rec.created_at, rec.updated_at);
    assert_eq!(rec.blob, b"sealed-blob");
    assert!(matches!(
        AccountRecord::new(&SK, new_id(), "tiny", Vec::new(), Vec::new()),
        Err(AccountError::NickTooShort)
    ));
}

#[test]
fn a_short_or_tampered_nick_cipher_is_malformed() {
    let rec = record("alice.doe");
    assert!(matches!(open_nick(&SK, &rec.account_id, &[0u8; 39]), Err(AccountError::Malformed)));
    let mut c = rec.nick_cipher.clone();
    let last = c.len() - 1;
    c[last] ^= 1;
    assert!(matches!(open_nick(&SK, &rec.account_id, &c), Err(AccountError::Malformed)));
    assert!(matches!(rec.nick(&[9u8; 32]), Err(AccountError::Malformed)));
}

#[test]
fn the_length_check_counts_characters_not_bytes() {
    assert!(check_nick("\u{e9}\u{e9}\u{e9}\u{e9}\u{e9}\u{e9}\u{e9}".to_string()).is_err());
    assert_eq!(check_nick("\u{e9}\u{e9}\u{e9}\u{e9}\u{e9}\u{e9}\u{e9}\u{e9}".to_string()).unwrap().chars().count(), 8);
    assert!(matches!(check_nick(String::new()), Err(AccountError::NickEmpty)));
}

#[test]
fn trimming_covers_unicode_white_space() {
    assert_eq!(normalize_nick("\u{3000}\u{a0}alice.doe\u{2029}\t").unwrap(), "alice.doe");
}
