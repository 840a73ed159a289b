use qw_core::envelope::{EnvelopeError, MasterKey, Wrapping};

#[test]
fn master_seal_open_round_trips() {
    let m = MasterKey::random();
    let blob = m.seal(b"ledger bytes", b"acct-1");
    assert_eq!(m.open(&blob, b"acct-1").unwrap(), b"ledger bytes");
}

#[test]
fn open_rejects_a_flipped_bit() {
    let m = MasterKey::random();
    let mut blob = m.seal(b"ledger bytes", b"acct-1");
    let last = blob.len() - 1;
    blob[last] ^= 1;
    assert!(matches!(m.open(&blob, b"acct-1"), Err(EnvelopeError::Decrypt)));
}

#[test]
fn open_rejects_a_different_aad() {
    let m = MasterKey::random();
    let blob = m.seal(b"ledger bytes", b"acct-1");
    assert!(m.open(&blob, b"acct-2").is_err());
}

#[test]
fn a_wrapping_round_trips_the_master() {
    let m = MasterKey::random();
    let w = Wrapping::seal_secret("passphrase", b"hunter2hunter2", &m).unwrap();
    assert_eq!(w.unwrap_secret(b"hunter2hunter2").unwrap().key_bytes(), m.key_bytes());
}

#[test]
fn the_wrong_secret_does_not_unwrap() {
    let m = MasterKey::random();
    let w = Wrapping::seal_secret("passphrase", b"hunter2hunter2", &m).unwrap();
    assert!(matches!(w.unwrap_secret(b"nope"), Err(EnvelopeError::Decrypt)));
}

#[test]
fn two_wrappings_of_one_master_both_open_it() {
    let m = MasterKey::random();
    let a = Wrapping::seal_secret("passphrase", b"first-secret-xxx", &m).unwrap();
    let b = Wrapping::seal_secret("seed", b"second-secret-yyy", &m).unwrap();
    assert_eq!(a.unwrap_secret(b"first-secret-xxx").unwrap().key_bytes(), m.key_bytes());
    assert_eq!(b.unwrap_secret(b"second-secret-yyy").unwrap().key_bytes(), m.key_bytes());
    assert_ne!(a.kdf.salt, b.kdf.salt, "each wrapping gets a fresh salt");
    assert_ne!(a.nonce, b.nonce, "and a fresh nonce");
}

#[test]
fn stale_covers_the_rotate_flag_and_expiry() {
    let m = MasterKey::random();
    let mut w = Wrapping::seal_secret("passphrase", b"hunter2hunter2", &m).unwrap();
    let t = w.created_at;
    assert!(!w.stale(t));

    w.rotate = true;
    assert!(w.stale(t));

    w.rotate = false;
    w.not_after = Some(t);
    assert!(w.expired(t));
    assert!(w.stale(t));
}

#[test]
fn a_blob_too_short_for_nonce_and_tag_is_malformed() {
    let m = MasterKey::random();
    assert!(matches!(m.open(&[0u8; 39], b"acct"), Err(EnvelopeError::Malformed)));
}

#[test]
fn a_sealed_blob_is_nonce_ciphertext_and_tag() {
    let m = MasterKey::random();
    assert_eq!(m.seal(b"abc", b"x").len(), 24 + 3 + 16);
}

#[test]
fn from_slice_takes_exactly_thirty_two_bytes() {
    assert!(matches!(MasterKey::from_slice(&[7u8; 31]), Err(EnvelopeError::Malformed)));
    let k = MasterKey::from_slice(&[7u8; 32]).unwrap();
    assert_eq!(k.key_bytes(), &[7u8; 32][..]);
}

#[test]
fn an_unknown_kdf_is_a_kdf_error() {
    let m = MasterKey::random();
    let mut w = Wrapping::seal_secret("passphrase", b"hunter2hunter2", &m).unwrap();
    w.kdf.alg = "scrypt".to_string();
    assert!(matches!(w.unwrap_secret(b"hunter2hunter2"), Err(EnvelopeError::Kdf(_))));
}

#[test]
fn a_short_nonce_is_malformed() {
    let m = MasterKey::random();
    let mut w = Wrapping::seal_secret("passphrase", b"hunter2hunter2", &m).unwrap();
    w.nonce.pop();
    assert!(matches!(w.unwrap_secret(b"hunter2hunter2"), Err(EnvelopeError::Malformed)));
}

#[test]
fn seal_secret_uses_the_recommended_argon2id_cost() {
    let m = MasterKey::random();
    let w = Wrapping::seal_secret("passphrase", b"hunter2hunter2", &m).unwrap();
    assert_eq!(w.kdf.alg, "argon2id");
    assert_eq!((w.kdf.m_cost, w.kdf.t_cost, w.kdf.p_cost), (19456, 2, 1));
    assert_eq!(w.kdf.salt.len(), 16);
    assert_eq!(w.nonce.len(), 24);
    assert_eq!(w.tag, "passphrase");
    assert_eq!(w.not_after, None);
    assert!(!w.rotate);
}
