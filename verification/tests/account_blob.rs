use qw_core::account_blob::{blob_aad, identity_secret, open_payload, seal_payload, StoreError};
use qw_core::envelope::{EnvelopeError, MasterKey};

const ALICE: [u8; 16] = [1u8; 16];
const BOB: [u8; 16] = [2u8; 16];

#[test]
fn a_sealed_payload_opens_under_its_key_and_account() {
    let m = MasterKey::random();
    let blob = seal_payload(&m, &ALICE, b"{\"id\":\"..\"}");
    assert_eq!(open_payload(&m, &ALICE, &blob).unwrap(), b"{\"id\":\"..\"}".to_vec());
}

#[test]
fn open_rejects_wrong_master_wrong_account_and_a_flipped_bit() {
    let m = MasterKey::random();
    let blob = seal_payload(&m, &ALICE, b"payload");
    assert!(matches!(open_payload(&MasterKey::random(), &ALICE, &blob), Err(StoreError::Envelope(EnvelopeError::Decrypt))));
    assert!(matches!(open_payload(&m, &BOB, &blob), Err(StoreError::Envelope(EnvelopeError::Decrypt))));
    let mut flipped = blob.clone();
    let last = flipped.len() - 1;
    flipped[last] ^= 1;
    assert!(matches!(open_payload(&m, &ALICE, &flipped), Err(StoreError::Envelope(EnvelopeError::Decrypt))));
    assert!(matches!(open_payload(&m, &ALICE, &blob[..10]), Err(StoreError::Envelope(EnvelopeError::Malformed))));
}

#[test]
fn the_blob_is_bound_to_a_label_and_the_account_id() {
    let aad = blob_aad(&ALICE);
    assert_eq!(&aad[..23], b"qw-web/accounts/blob-v1");
    assert_eq!(&aad[23..], &ALICE[..]);
}

#[test]
fn the_identity_key_is_64_hex_digits() {
    let hex = "ab".repeat(32);
    assert_eq!(identity_secret(&hex).unwrap(), [0xabu8; 32]);
    assert_eq!(identity_secret(&hex.to_uppercase()).unwrap(), [0xabu8; 32]);
    assert!(matches!(identity_secret("abcd"), Err(StoreError::Identity)));
    assert!(matches!(identity_secret(&"zz".repeat(32)), Err(StoreError::Identity)));
}

#[test]
fn store_errors_read_as_reported() {
    assert_eq!(StoreError::Identity.message(), "account payload carries a malformed identity key");
    assert_eq!(StoreError::Payload("eof".into()).message(), "account payload: eof");
    assert!(StoreError::Envelope(EnvelopeError::Decrypt).message().starts_with("account blob: "));
}
