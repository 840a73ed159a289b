use qw_core::accounts::{AccountError, AccountRecord};
use qw_core::envelope::{MasterKey, Wrapping};
use qw_core::multiuser::{
    admin_refusal, new_account_record, pick_login_at, registration_wrappings, check_kek_add, check_kek_drop, check_kek_rotate, clear_cookie, client_ip_of,
    generate_recovery_code, new_token, recovery_code_of, remint_recovery, session_expired,
    set_cookie, token_from, unlock_err, ApiError,
};
use qw_core::unlock::{present_secret, UnlockError};

#[test]
fn cookies_carry_the_session_token() {
    assert_eq!(
        set_cookie("abc"),
        "qw_session=abc; HttpOnly; SameSite=Strict; Path=/; Max-Age=43200; Secure"
    );
    assert_eq!(clear_cookie(), "qw_session=; HttpOnly; SameSite=Strict; Path=/; Max-Age=0");
    assert_eq!(token_from("theme=dark; qw_session=t0k3n ; other=1"), Some("t0k3n".to_string()));
    assert_eq!(token_from("qw_session=a=b"), Some("a=b".to_string()));
    assert_eq!(token_from("theme=dark"), None);
    assert_eq!(token_from(""), None);
}

#[test]
fn the_rate_limit_address_prefers_the_edge_header() {
    assert_eq!(client_ip_of(Some(" 1.2.3.4 "), Some("5.6.7.8"), Some("9.9.9.9".into())), "1.2.3.4");
    assert_eq!(client_ip_of(Some("  "), Some(" 5.6.7.8 , 10.0.0.1"), None), "5.6.7.8");
    assert_eq!(client_ip_of(None, Some(" , x"), Some("9.9.9.9".into())), "9.9.9.9");
    assert_eq!(client_ip_of(None, None, None), "unknown");
}

#[test]
fn key_set_refusals_map_to_statuses() {
    assert_eq!(unlock_err(UnlockError::DuplicateTag("seed".into())).answer(), (409, "a key tagged \"seed\" already exists".to_string()));
    assert_eq!(unlock_err(UnlockError::UnknownTag("x".into())).answer(), (422, "no key tagged \"x\"".to_string()));
    assert_eq!(
        unlock_err(UnlockError::WouldOrphan).answer(),
        (422, "that is the only remaining key \u{2014} add another before removing it".to_string())
    );
    assert_eq!(unlock_err(UnlockError::NoMatch).answer(), (500, "no key matched that secret".to_string()));
    assert_eq!(ApiError::Unauthorized.answer(), (401, "not signed in".to_string()));
    assert_eq!(ApiError::bad("no".into()).answer(), (400, "no".to_string()));
    assert_eq!(ApiError::internal("boom".into()).answer(), (500, "boom".to_string()));
}

#[test]
fn key_requests_are_checked_before_any_work() {
    assert_eq!(
        check_kek_add("passphrase", "long enough").unwrap_err().answer().1,
        "\"passphrase\" is the primary passphrase \u{2014} use rotate to change it"
    );
    assert_eq!(check_kek_add("  ", "long enough").unwrap_err().answer().1, "a key needs a label");
    assert_eq!(check_kek_add("seed", "short").unwrap_err().answer().1, "the secret must be at least 8 characters");
    assert!(check_kek_add("seed", "\u{e9}\u{e9}\u{e9}\u{e9}").is_ok(), "length is counted in bytes");
    assert_eq!(check_kek_drop("passphrase").unwrap_err().answer().1, "\"passphrase\" cannot be removed");
    assert!(check_kek_drop("seed").is_ok());
    assert_eq!(check_kek_rotate("1234567").unwrap_err().answer().1, "the new secret must be at least 8 characters");
    assert!(check_kek_rotate("12345678").is_ok());
}

#[test]
fn a_recovery_code_is_four_groups_of_eight_hex_digits() {
    assert_eq!(
        recovery_code_of(&[0x01, 0x23, 0x45, 0x67, 0x89, 0xab, 0xcd, 0xef, 0, 1, 2, 3, 0xfe, 0xdc, 0xba, 0x98]),
        "01234567-89abcdef-00010203-fedcba98"
    );
    let c = generate_recovery_code();
    assert_eq!(c.len(), 35);
    assert_eq!(c.split('-').count(), 4);
    assert!(c.split('-').all(|g| g.len() == 8 && g.chars().all(|ch| ch.is_ascii_hexdigit() && !ch.is_ascii_uppercase())));
    assert_ne!(generate_recovery_code(), c);
    let t = new_token();
    assert_eq!(t.len(), 64);
}

#[test]
fn kek_recovery_mints_a_code_that_logs_in_and_is_re_mintable() {
    let m = MasterKey::random();
    let mut w = vec![Wrapping::seal_secret("passphrase", b"primary-secret", &m).unwrap()];
    let first = generate_recovery_code();
    remint_recovery(&mut w, &m, &first).unwrap();
    assert_eq!(w.len(), 2);
    assert_eq!(present_secret(&w, first.as_bytes()).unwrap().via, "recovery");
    let second = generate_recovery_code();
    remint_recovery(&mut w, &m, &second).unwrap();
    assert_eq!(w.len(), 2, "re-minting replaces the recovery row");
    assert!(present_secret(&w, first.as_bytes()).is_err());
    assert_eq!(present_secret(&w, second.as_bytes()).unwrap().via, "recovery");
}

#[test]
fn sessions_end_on_age_or_idleness() {
    assert!(!session_expired(43200, 1800));
    assert!(session_expired(43201, 0));
    assert!(session_expired(0, 1801));
}

const SERVER_KEY: [u8; 32] = [7u8; 32];

fn record_with(nick: &str, id_byte: u8, wrappings: Vec<Wrapping>) -> AccountRecord {
    AccountRecord::new(&SERVER_KEY, [id_byte; 16], nick, wrappings, b"blob".to_vec()).unwrap()
}

#[test]
fn login_takes_the_first_record_the_secret_opens() {
    let m1 = MasterKey::random();
    let m2 = MasterKey::random();
    let a = record_with("shared.nickname", 1, vec![Wrapping::seal_secret_at("passphrase", b"alice-secret", &m1, 10).unwrap()]);
    let b = record_with("shared.nickname", 2, vec![Wrapping::seal_secret_at("passphrase", b"bob-secret!!", &m2, 10).unwrap()]);
    let pick = pick_login_at(vec![a, b], b"bob-secret!!", 20).expect("bob opens the second row");
    assert_eq!(pick.index, 1);
    assert_eq!(pick.record.account_id, [2u8; 16]);
    assert_eq!(pick.unlocked.master.key_bytes(), m2.key_bytes());
    assert_eq!(pick.unlocked.via, "passphrase");
    assert!(!pick.unlocked.stale);
    assert!(!pick.swept);
}

#[test]
fn login_with_no_matching_record_is_refused() {
    let m = MasterKey::random();
    let a = record_with("alice.doe.x", 1, vec![Wrapping::seal_secret_at("passphrase", b"right-secret", &m, 10).unwrap()]);
    assert!(pick_login_at(vec![a], b"wrong-secret", 20).is_none());
    assert!(pick_login_at(Vec::new(), b"anything", 20).is_none());
}

#[test]
fn login_sweeps_stale_wrappings_when_a_fresh_one_survives() {
    let m = MasterKey::random();
    let mut old = Wrapping::seal_secret_at("old", b"old-secret!!", &m, 10).unwrap();
    old.rotate = true;
    let fresh = Wrapping::seal_secret_at("passphrase", b"new-secret!!", &m, 10).unwrap();
    let rec = record_with("alice.doe.x", 3, vec![old, fresh]);
    let pick = pick_login_at(vec![rec], b"old-secret!!", 20).expect("the stale row still opens");
    assert!(pick.unlocked.stale);
    assert_eq!(pick.unlocked.via, "old");
    assert!(pick.swept);
    assert_eq!(pick.record.wrappings.len(), 1);
    assert_eq!(pick.record.wrappings[0].tag, "passphrase");
    assert_eq!(pick.record.blob, b"blob".to_vec());
}

#[test]
fn a_new_account_carries_a_passphrase_and_a_recovery_wrapping() {
    let m = MasterKey::random();
    let rec = new_account_record(&SERVER_KEY, [9u8; 16], "  Alice.Doe ", &m, b"hunter2hunter2", "aaaa-bbbb", b"sealed".to_vec())
        .unwrap();
    assert_eq!(rec.account_id, [9u8; 16]);
    assert_eq!(rec.wrappings.len(), 2);
    assert_eq!(rec.wrappings[0].tag, "passphrase");
    assert_eq!(rec.wrappings[1].tag, "recovery");
    assert_eq!(rec.nick(&SERVER_KEY).unwrap(), "alice.doe");
    assert_eq!(present_secret(&rec.wrappings, b"aaaa-bbbb").unwrap().via, "recovery");
    assert_eq!(present_secret(&rec.wrappings, b"hunter2hunter2").unwrap().via, "passphrase");
    let ws = registration_wrappings(&m, b"pw", "code").unwrap();
    assert_eq!(ws.len(), 2);
}

#[test]
fn a_new_account_with_a_short_nick_is_a_bad_request() {
    let m = MasterKey::random();
    match new_account_record(&SERVER_KEY, [9u8; 16], "short7 ", &m, b"pw", "code", Vec::new()) {
        Err(ApiError::BadRequest(msg)) => {
            assert_eq!(msg, "nickname must be at least 8 characters");
            assert_eq!(msg, AccountError::NickTooShort.message());
        }
        _ => panic!("a short nickname must be refused"),
    }
}

#[test]
fn account_errors_read_as_the_directory_reports_them() {
    assert_eq!(AccountError::NickEmpty.message(), "nickname is empty after trimming");
    assert_eq!(AccountError::Conflict.message(), "that nickname is taken on this instance");
    assert_eq!(AccountError::NotFound.message(), "no such account");
    assert_eq!(AccountError::Malformed.message(), "stored nickname is malformed");
    assert_eq!(AccountError::Migrate("x".into()).message(), "schema migration: x");
    assert_eq!(AccountError::Db("down".into()).message(), "account store: down");
}

#[test]
fn editing_the_host_default_needs_the_admin_token() {
    assert_eq!(
        admin_refusal(None, Some("Bearer anything")).as_deref(),
        Some("host-default editing is disabled (QW_ADMIN_TOKEN unset)")
    );
    assert_eq!(admin_refusal(Some("s3cret"), Some("Bearer s3cret")), None);
    assert_eq!(admin_refusal(Some("s3cret"), Some("Bearer s3cret2")).as_deref(), Some("bad admin token"));
    assert_eq!(admin_refusal(Some("s3cret"), Some("bearer s3cret")).as_deref(), Some("bad admin token"));
    assert_eq!(admin_refusal(Some("s3cret"), Some("s3cret")).as_deref(), Some("bad admin token"));
    assert_eq!(admin_refusal(Some("s3cret"), None).as_deref(), Some("bad admin token"));
}
