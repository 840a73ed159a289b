//! The account directory row: the nickname is never stored in the clear,
//! only as a keyed-hash blind index (to find the row at login) and as a
//! cipher bound to the row's own account id (for the operator).

use blake2::digest::consts::U32;
use blake2::digest::Mac;
use blake2::Blake2bMac;
use unicode_normalization::UnicodeNormalization;
use vstd::prelude::*;
use vstd::utf8::{decode_utf8, encode_utf8, valid_utf8};

use crate::envelope::{
    aead_decrypt, aead_encrypt, open_spec, random_bytes, seals, split_bytes, unix_secs,
    Wrapping, AEAD_TAG_LEN, XNONCE_LEN,
};
use crate::text::{cat, decimal, decimal_spec, lowercase_of, spec_lowercase, string_from_str, trim};

verus! {

/// Minimum nickname length in characters, measured on the normalised form.
pub const MIN_NICK_LEN: usize = 8;
/// The server key that keys the blind index and the nickname cipher is
/// exactly this many bytes.
pub const SERVER_KEY_LEN: usize = 32;
/// Bytes of an account id (a UUID).
pub const ACCOUNT_ID_LEN: usize = 16;

/// The Unicode canonical composition (NFC) of `s`.
pub uninterp spec fn spec_nfc(s: Seq<char>) -> Seq<char>;

/// Keyed BLAKE2b with a 32-byte output over `msg` under `key`.
pub uninterp spec fn spec_blake2b_mac256(key: Seq<u8>, msg: Seq<u8>) -> Seq<u8>;

/// `UnicodeNormalization::nfc` collected into a `String`. Claimed: the
/// result is the named composition of `s`.
#[verifier::external_body]
fn nfc_of(s: &str) -> (r: String)
    ensures
        r@ == spec_nfc(s@),
{
    s.nfc().collect::<String>()
}

/// `Blake2bMac<U32>::new_from_slice`, `update`, `finalize`. Claimed: the
/// result is the named 32-byte tag. Keys of up to 64 bytes are accepted.
#[verifier::external_body]
fn blake2b_mac256(key: &[u8], msg: &[u8]) -> (r: Vec<u8>)
    requires
        key@.len() <= 64,
    ensures
        r@ == spec_blake2b_mac256(key@, msg@),
        r@.len() == 32,
{
    let mut mac = <Blake2bMac<U32> as Mac>::new_from_slice(key).expect("key of at most 64 bytes");
    mac.update(msg);
    mac.finalize().into_bytes().to_vec()
}

/// `String::from_utf8`. Claimed: a string exactly when the bytes are valid
/// UTF-8, holding the characters they encode.
#[verifier::external_body]
fn string_from_utf8(b: Vec<u8>) -> (r: Option<String>)
    ensures
        r is Some <==> valid_utf8(b@),
        r matches Some(s) ==> s@ == decode_utf8(b@),
{
    String::from_utf8(b).ok()
}

/// Why an account operation was refused.
#[derive(Debug)]
pub enum AccountError {
    NickEmpty,
    NickTooShort,
    /// Blind-index collision while the instance is closed.
    Conflict,
    NotFound,
    Malformed,
    /// The schema could not be parsed or applied.
    Migrate(String),
    Db(String),
}

/// The text an account error is reported with.
pub open spec fn account_message(e: AccountError) -> Seq<char> {
    match e {
        AccountError::NickEmpty => "nickname is empty after trimming"@,
        AccountError::NickTooShort => "nickname must be at least "@ + decimal_spec(MIN_NICK_LEN as nat) + " characters"@,
        AccountError::Conflict => "that nickname is taken on this instance"@,
        AccountError::NotFound => "no such account"@,
        AccountError::Malformed => "stored nickname is malformed"@,
        AccountError::Migrate(m) => "schema migration: "@ + m@,
        AccountError::Db(m) => "account store: "@ + m@,
    }
}

impl AccountError {
    /// The text this error is reported with.
    pub fn message(&self) -> (r: String)
        ensures
            r@ == account_message(*self),
    {
        match self {
            AccountError::NickEmpty => string_from_str("nickname is empty after trimming"),
            AccountError::NickTooShort => {
                let head = cat("nickname must be at least ", decimal(MIN_NICK_LEN).as_str());
                cat(head.as_str(), " characters")
            },
            AccountError::Conflict => string_from_str("that nickname is taken on this instance"),
            AccountError::NotFound => string_from_str("no such account"),
            AccountError::Malformed => string_from_str("stored nickname is malformed"),
            AccountError::Migrate(m) => cat("schema migration: ", m.as_str()),
            AccountError::Db(m) => cat("account store: ", m.as_str()),
        }
    }
}

/// The normal form of a nickname: trimmed, composed, lower-cased.
pub open spec fn normal_nick(raw: Seq<char>) -> Seq<char> {
    spec_lowercase(spec_nfc(crate::text::trim_spec(raw)))
}

/// The nickname check on an already normalised form `n`: empty is
/// `NickEmpty`, fewer than [`MIN_NICK_LEN`] characters is `NickTooShort`,
/// anything else is accepted as it is.
pub fn check_nick(n: String) -> (r: Result<String, AccountError>)
    ensures
        n@.len() == 0 ==> r matches Err(AccountError::NickEmpty),
        0 < n@.len() < MIN_NICK_LEN ==> r matches Err(AccountError::NickTooShort),
        n@.len() >= MIN_NICK_LEN ==> (r matches Ok(s) && s@ == n@),
{
    let cs = crate::text::chars_of(n.as_str());
    if cs.len() == 0 {
        return Err(AccountError::NickEmpty);
    }
    if cs.len() < MIN_NICK_LEN {
        return Err(AccountError::NickTooShort);
    }
    Ok(n)
}

/// Trim, compose (NFC), lower-case; then refuse an empty result or one
/// shorter than [`MIN_NICK_LEN`] characters.
pub fn normalize_nick(raw: &str) -> (r: Result<String, AccountError>)
    ensures
        normal_nick(raw@).len() == 0 ==> r matches Err(AccountError::NickEmpty),
        0 < normal_nick(raw@).len() < MIN_NICK_LEN ==> r matches Err(AccountError::NickTooShort),
        normal_nick(raw@).len() >= MIN_NICK_LEN ==> (r matches Ok(s) && s@ == normal_nick(raw@)),
{
    let t = trim(raw);
    let c = nfc_of(t.as_str());
    let l = lowercase_of(c.as_str());
    check_nick(l)
}

/// The blind index of a normalised nickname: keyed BLAKE2b-256 over its
/// UTF-8 bytes. Deterministic for a given key, useless without it.
pub fn blind_index(server_key: &[u8; SERVER_KEY_LEN], normalized_nick: &str) -> (r: Vec<u8>)
    ensures
        r@ == spec_blake2b_mac256(server_key@, encode_utf8(normalized_nick@)),
        r@.len() == 32,
{
    let key = server_key.as_slice();
    blake2b_mac256(key, normalized_nick.as_bytes())
}

/// Normalise then blind-index in one step: the login lookup path.
pub fn nick_blind_index(server_key: &[u8; SERVER_KEY_LEN], raw_nick: &str) -> (r: Result<Vec<u8>, AccountError>)
    ensures
        normal_nick(raw_nick@).len() == 0 ==> r matches Err(AccountError::NickEmpty),
        0 < normal_nick(raw_nick@).len() < MIN_NICK_LEN ==> r matches Err(AccountError::NickTooShort),
        normal_nick(raw_nick@).len() >= MIN_NICK_LEN ==> (r matches Ok(v) && v@ == spec_blake2b_mac256(
            server_key@,
            encode_utf8(normal_nick(raw_nick@)),
        )),
{
    let n = normalize_nick(raw_nick)?;
    Ok(blind_index(server_key, n.as_str()))
}

/// The associated data of a row's nickname cipher: a fixed label followed
/// by the row's account id, so a cipher cannot be lifted onto another row.
pub open spec fn nick_aad_spec(account_id: Seq<u8>) -> Seq<u8> {
    encode_utf8("qw-web/accounts/nick-v1"@) + account_id
}

fn row_aad(account_id: &[u8; ACCOUNT_ID_LEN]) -> (r: Vec<u8>)
    ensures
        r@ == nick_aad_spec(account_id@),
{
    let label = "qw-web/accounts/nick-v1".as_bytes();
    let mut out: Vec<u8> = Vec::new();
    let mut i: usize = 0;
    while i < label.len()
        invariant
            i <= label@.len(),
            out@ =~= label@.take(i as int),
        decreases label.len() - i,
    {
        out.push(label[i]);
        i = i + 1;
    }
    let mut j: usize = 0;
    while j < ACCOUNT_ID_LEN
        invariant
            j <= ACCOUNT_ID_LEN,
            account_id@.len() == ACCOUNT_ID_LEN,
            out@ =~= label@ + account_id@.take(j as int),
        decreases ACCOUNT_ID_LEN - j,
    {
        out.push(account_id[j]);
        j = j + 1;
    }
    assert(account_id@.take(ACCOUNT_ID_LEN as int) =~= account_id@);
    out
}

/// The longest nickname in UTF-8 bytes the cipher seals.
pub open spec fn nick_fits(nick: Seq<char>) -> bool {
    encode_utf8(nick).len() < crate::envelope::aead_max_msg()
}

/// Seal a nickname under the server key, bound to `account_id`: a fresh
/// nonce followed by the ciphertext. `None` for a nickname beyond the
/// cipher's message limit.
pub fn seal_nick(server_key: &[u8; SERVER_KEY_LEN], account_id: &[u8; ACCOUNT_ID_LEN], nick: &str) -> (r: Option<Vec<u8>>)
    ensures
        r is Some <==> nick_fits(nick@),
        r matches Some(c) ==> seals(server_key@, c@, nick_aad_spec(account_id@), encode_utf8(nick@)),
{
    let msg = nick.as_bytes();
    if msg.len() as u64 >= 274_877_906_880u64 {
        return None;
    }
    let aad = row_aad(account_id);
    let nonce = random_bytes(XNONCE_LEN);
    let ct = aead_encrypt(server_key.as_slice(), nonce.as_slice(), msg, aad.as_slice());
    let mut out = nonce;
    let mut tail = ct;
    let ghost n = out@;
    let ghost c = tail@;
    out.append(&mut tail);
    assert(out@.take(XNONCE_LEN as int) =~= n);
    assert(out@.skip(XNONCE_LEN as int) =~= c);
    Some(out)
}

/// What opening a nickname cipher yields: the nickname, or `Err` for a
/// cipher that is too short, does not verify under the key and row, or
/// does not hold UTF-8.
pub open spec fn open_nick_spec(server_key: Seq<u8>, account_id: Seq<u8>, cipher: Seq<u8>) -> Result<Seq<char>, ()> {
    match open_spec(server_key, cipher, nick_aad_spec(account_id)) {
        Ok(m) => if valid_utf8(m) { Ok(decode_utf8(m)) } else { Err(()) },
        Err(_) => Err(()),
    }
}

/// Decrypt a nickname sealed by [`seal_nick`] for the same row. Anything
/// that does not open to UTF-8 text is `Malformed`.
pub fn open_nick(server_key: &[u8; SERVER_KEY_LEN], account_id: &[u8; ACCOUNT_ID_LEN], cipher: &[u8]) -> (r: Result<String, AccountError>)
    ensures
        match open_nick_spec(server_key@, account_id@, cipher@) {
            Ok(n) => r matches Ok(s) && s@ == n,
            Err(_) => r matches Err(AccountError::Malformed),
        },
{
    if cipher.len() < XNONCE_LEN + AEAD_TAG_LEN {
        return Err(AccountError::Malformed);
    }
    let aad = row_aad(account_id);
    let (nonce, ct) = split_bytes(cipher, XNONCE_LEN);
    match aead_decrypt(server_key.as_slice(), nonce.as_slice(), ct.as_slice(), aad.as_slice()) {
        None => Err(AccountError::Malformed),
        Some(pt) => match string_from_utf8(pt) {
            Some(s) => Ok(s),
            None => Err(AccountError::Malformed),
        },
    }
}

/// A nickname sealed for a row opens, for that row, to the same nickname.
pub proof fn law_nick_cipher_round_trips(server_key: Seq<u8>, account_id: Seq<u8>, cipher: Seq<u8>, nick: Seq<char>)
    requires
        seals(server_key, cipher, nick_aad_spec(account_id), encode_utf8(nick)),
    ensures
        open_nick_spec(server_key, account_id, cipher) == Ok::<Seq<char>, ()>(nick),
{
    vstd::utf8::encode_utf8_valid_utf8(nick);
    vstd::utf8::encode_utf8_decode_utf8(nick);
}

/// One stored account. The blob and each wrapping are opaque here: this
/// layer never holds a master key.
#[derive(Debug, Clone)]
pub struct AccountRecord {
    pub account_id: [u8; ACCOUNT_ID_LEN],
    pub nick_index: Vec<u8>,
    pub nick_cipher: Vec<u8>,
    pub wrappings: Vec<Wrapping>,
    pub blob: Vec<u8>,
    pub created_at: u64,
    pub updated_at: u64,
}

impl AccountRecord {
    /// Build the row for a new account: normalise the nickname, derive its
    /// blind index, seal it to this row. The account id is minted by the
    /// caller. A nickname the normalisation refuses is refused with its
    /// error; one beyond the cipher's message limit is `Malformed`.
    pub fn new(
        server_key: &[u8; SERVER_KEY_LEN],
        account_id: [u8; ACCOUNT_ID_LEN],
        nick: &str,
        wrappings: Vec<Wrapping>,
        blob: Vec<u8>,
    ) -> (r: Result<Self, AccountError>)
        ensures
            normal_nick(nick@).len() == 0 ==> r matches Err(AccountError::NickEmpty),
            0 < normal_nick(nick@).len() < MIN_NICK_LEN ==> r matches Err(AccountError::NickTooShort),
            normal_nick(nick@).len() >= MIN_NICK_LEN ==> (nick_fits(normal_nick(nick@)) <==> r is Ok),
            r matches Ok(rec) ==> {
                &&& rec.account_id@ == account_id@
                &&& rec.nick_index@ == spec_blake2b_mac256(server_key@, encode_utf8(normal_nick(nick@)))
                &&& seals(server_key@, rec.nick_cipher@, nick_aad_spec(account_id@), encode_utf8(normal_nick(nick@)))
                &&& rec.wrappings@ == wrappings@
                &&& rec.blob@ == blob@
                &&& rec.created_at == rec.updated_at
            },
            r matches Err(e) ==> e is NickEmpty || e is NickTooShort || e is Malformed,
    {
        let n = normalize_nick(nick)?;
        let now = unix_secs();
        let nick_index = blind_index(server_key, n.as_str());
        let nick_cipher = match seal_nick(server_key, &account_id, n.as_str()) {
            Some(c) => c,
            None => {
                return Err(AccountError::Malformed);
            },
        };
        Ok(AccountRecord { account_id, nick_index, nick_cipher, wrappings, blob, created_at: now, updated_at: now })
    }

    /// The stored nickname, decrypted with the server key: the operator's
    /// path (re-indexing after a merge), not the login path.
    pub fn nick(&self, server_key: &[u8; SERVER_KEY_LEN]) -> (r: Result<String, AccountError>)
        ensures
            match open_nick_spec(server_key@, self.account_id@, self.nick_cipher@) {
                Ok(n) => r matches Ok(s) && s@ == n,
                Err(_) => r matches Err(AccountError::Malformed),
            },
    {
        open_nick(server_key, &self.account_id, self.nick_cipher.as_slice())
    }
}

} // verus!
