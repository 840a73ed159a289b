//! The sealed account payload: one blob per account, opened with the
//! account's master key and bound to the account's own id, so a blob
//! copied onto another row does not open there.

use vstd::prelude::*;
use vstd::utf8::encode_utf8;

use crate::accounts::ACCOUNT_ID_LEN;
use crate::envelope::{
    aead_max_msg, envelope_message, failure_of, open_spec, seals, EnvelopeError, EnvelopeFailure, MasterKey,
};
use crate::text::{cat, string_from_str};
use crate::vault::{hex_to_32, is_hex_char, unhex_spec};

verus! {

/// The associated data of an account blob: a label distinct from every
/// other sealed thing, then the account id.
pub open spec fn blob_aad_spec(account_id: Seq<u8>) -> Seq<u8> {
    encode_utf8("qw-web/accounts/blob-v1"@) + account_id
}

/// The associated data of `account_id`'s blob.
pub fn blob_aad(account_id: &[u8; ACCOUNT_ID_LEN]) -> (r: Vec<u8>)
    ensures
        r@ == blob_aad_spec(account_id@),
{
    let label = "qw-web/accounts/blob-v1".as_bytes();
    let mut out: Vec<u8> = Vec::new();
    let mut i: usize = 0;
    while i < label.len()
        invariant
            i <= label@.len(),
            out@ =~= label@.take(i as int),
        decreases label.len() - i,
    {
        out.push(label[i]);
        i = i + 1;
    }
    let mut j: usize = 0;
    while j < ACCOUNT_ID_LEN
        invariant
            j <= ACCOUNT_ID_LEN,
            account_id@.len() == ACCOUNT_ID_LEN,
            out@ =~= label@ + account_id@.take(j as int),
        decreases ACCOUNT_ID_LEN - j,
    {
        out.push(account_id[j]);
        j = j + 1;
    }
    assert(account_id@.take(ACCOUNT_ID_LEN as int) =~= account_id@);
    out
}

/// Why an account payload could not be opened.
#[derive(Debug)]
pub enum StoreError {
    /// The blob did not open: wrong master key, wrong account, or tampered.
    Envelope(EnvelopeError),
    /// Opened, but not the payload shape expected.
    Payload(String),
    /// The payload's identity key is not 32 bytes of hex.
    Identity,
}

/// The text an account-payload error is reported with.
pub open spec fn store_message(e: StoreError) -> Seq<char> {
    match e {
        StoreError::Envelope(e) => "account blob: "@ + envelope_message(e),
        StoreError::Payload(m) => "account payload: "@ + m@,
        StoreError::Identity => "account payload carries a malformed identity key"@,
    }
}

impl StoreError {
    /// The text this error is reported with.
    pub fn message(&self) -> (r: String)
        ensures
            r@ == store_message(*self),
    {
        match self {
            StoreError::Envelope(e) => cat("account blob: ", e.message().as_str()),
            StoreError::Payload(m) => cat("account payload: ", m.as_str()),
            StoreError::Identity => string_from_str("account payload carries a malformed identity key"),
        }
    }
}

/// Seal `payload` as `account_id`'s blob under `master`.
pub fn seal_payload(master: &MasterKey, account_id: &[u8; ACCOUNT_ID_LEN], payload: &[u8]) -> (r: Vec<u8>)
    requires
        payload@.len() < aead_max_msg(),
    ensures
        seals(master@, r@, blob_aad_spec(account_id@), payload@),
{
    let aad = blob_aad(account_id);
    master.seal(payload, aad.as_slice())
}

/// Open `account_id`'s blob under `master`: the payload, or the envelope
/// failure (a blob too short to be one, or one that does not verify under
/// this key and this account).
pub fn open_payload(master: &MasterKey, account_id: &[u8; ACCOUNT_ID_LEN], blob: &[u8]) -> (r: Result<Vec<u8>, StoreError>)
    ensures
        match open_spec(master@, blob@, blob_aad_spec(account_id@)) {
            Ok(m) => r matches Ok(v) && v@ == m,
            Err(f) => r matches Err(StoreError::Envelope(e)) && failure_of(e) == f,
        },
{
    let aad = blob_aad(account_id);
    match master.open(blob, aad.as_slice()) {
        Ok(v) => Ok(v),
        Err(e) => Err(StoreError::Envelope(e)),
    }
}

/// A sealed payload opens to itself under the same key and account.
pub proof fn law_payload_round_trips(key: Seq<u8>, account_id: Seq<u8>, blob: Seq<u8>, payload: Seq<u8>)
    requires
        seals(key, blob, blob_aad_spec(account_id), payload),
    ensures
        open_spec(key, blob, blob_aad_spec(account_id)) == Ok::<Seq<u8>, EnvelopeFailure>(payload),
{
    crate::envelope::law_open_reverses_seal(key, blob, blob_aad_spec(account_id), payload);
}

/// The identity key a payload carries, from its 64 hex digits.
pub fn identity_secret(id_hex: &str) -> (r: Result<[u8; 32], StoreError>)
    ensures
        r is Ok <==> (id_hex@.len() == 64 && forall|i: int| 0 <= i < 64 ==> is_hex_char(#[trigger] id_hex@[i])),
        r matches Ok(k) ==> k@ == unhex_spec(id_hex@),
        r matches Err(e) ==> e is Identity,
{
    match hex_to_32(id_hex) {
        Some(k) => Ok(k),
        None => Err(StoreError::Identity),
    }
}

} // verus!
