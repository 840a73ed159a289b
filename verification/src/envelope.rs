//! The account secret envelope: one master key per account that seals the
//! account blob, and a set of wrappings, each one key-encryption key's
//! sealed copy of that same master.
//!
//! A `Secret` wrapping derives its key-encryption key from a user secret
//! through Argon2id and seals the master with XChaCha20-Poly1305 under a
//! fixed domain separator as associated data, so a wrapping can never be
//! replayed as an account blob or the other way round.

use std::time::{SystemTime, UNIX_EPOCH};

use argon2::{Algorithm, Argon2, Params, Version};
use chacha20poly1305::aead::{Aead, KeyInit, Payload};
use chacha20poly1305::{Key, XChaCha20Poly1305, XNonce};
use rand::RngCore;
use vstd::prelude::*;
use vstd::utf8::encode_utf8;

use crate::text::{cat, debug_str, spec_debug_str, str_eq, string_from_str};

verus! {

/// Bytes of a master key.
pub const MASTER_LEN: usize = 32;
/// Bytes of a key-encryption key.
pub const KEK_LEN: usize = 32;
/// Bytes of an XChaCha20-Poly1305 nonce.
pub const XNONCE_LEN: usize = 24;
/// Bytes of a fresh Argon2id salt.
pub const SALT_LEN: usize = 16;
/// Bytes of the authentication tag every sealed message carries.
pub const AEAD_TAG_LEN: usize = 16;
/// Longest message the cipher seals: below 2^32 - 1 blocks of 64 bytes.
pub open spec fn aead_max_msg() -> int {
    274_877_906_880
}

/// The XChaCha20-Poly1305 ciphertext (message then tag) of `msg` under
/// `key`, `nonce` and associated data `aad`.
pub uninterp spec fn spec_aead_encrypt(key: Seq<u8>, nonce: Seq<u8>, msg: Seq<u8>, aad: Seq<u8>) -> Seq<u8>;

/// The XChaCha20-Poly1305 opening of ciphertext `ct`: the message, or `None`
/// when the tag does not verify under `key`, `nonce` and `aad`.
pub uninterp spec fn spec_aead_decrypt(key: Seq<u8>, nonce: Seq<u8>, ct: Seq<u8>, aad: Seq<u8>) -> Option<Seq<u8>>;

/// The Argon2id (version 0x13) output of 32 bytes for `secret` and `salt`
/// at memory cost `m`, time cost `t`, parallelism `p`; `None` when the
/// parameters or the salt are refused.
pub uninterp spec fn spec_argon2id(secret: Seq<u8>, salt: Seq<u8>, m: u32, t: u32, p: u32) -> Option<Seq<u8>>;

/// `Aead::encrypt` of `XChaCha20Poly1305`: the ciphertext with the 16-byte
/// tag appended. Claimed: the result is the named ciphertext, 16 bytes longer
/// than the message, and it opens back to the message under the same key,
/// nonce and associated data (the cipher's correctness). Under the length
/// bound the call does not fail.
#[verifier::external_body]
pub(crate) fn aead_encrypt(key: &[u8], nonce: &[u8], msg: &[u8], aad: &[u8]) -> (r: Vec<u8>)
    requires
        key@.len() == 32,
        nonce@.len() == XNONCE_LEN,
        msg@.len() < aead_max_msg(),
    ensures
        r@ == spec_aead_encrypt(key@, nonce@, msg@, aad@),
        r@.len() == msg@.len() + AEAD_TAG_LEN,
        spec_aead_decrypt(key@, nonce@, r@, aad@) == Some(msg@),
{
    XChaCha20Poly1305::new(Key::from_slice(key))
        .encrypt(XNonce::from_slice(nonce), Payload { msg, aad })
        .expect("within the ChaCha20 block limit")
}

/// `Aead::decrypt` of `XChaCha20Poly1305`. Claimed: `Some` exactly when the
/// named opening is `Some`, with that message.
#[verifier::external_body]
pub(crate) fn aead_decrypt(key: &[u8], nonce: &[u8], ct: &[u8], aad: &[u8]) -> (r: Option<Vec<u8>>)
    requires
        key@.len() == 32,
        nonce@.len() == XNONCE_LEN,
    ensures
        r is Some <==> spec_aead_decrypt(key@, nonce@, ct@, aad@) is Some,
        r matches Some(m) ==> spec_aead_decrypt(key@, nonce@, ct@, aad@) == Some(m@),
{
    XChaCha20Poly1305::new(Key::from_slice(key))
        .decrypt(XNonce::from_slice(nonce), Payload { msg: ct, aad })
        .ok()
}

/// `RngCore::fill_bytes` of the thread-local CSPRNG: `n` random bytes.
/// Claimed: only the length.
#[verifier::external_body]
pub(crate) fn random_bytes(n: usize) -> (r: Vec<u8>)
    ensures
        r@.len() == n,
{
    let mut v = vec![0u8; n];
    rand::rng().fill_bytes(&mut v);
    v
}

/// `argon2::Error`, carried opaquely until it is turned into a message.
#[verifier::external_type_specification]
#[verifier::external_body]
pub struct ExArgon2Error(argon2::Error);

/// The inputs Argon2id takes: between 1 and 2^24 - 1 lanes, at least 8 KiB
/// of memory per lane, at least one pass, a salt of 8 to 2^32 - 1 bytes and
/// a secret of at most 2^32 - 1 bytes.
pub open spec fn argon2_accepts(secret_len: int, salt_len: int, m: u32, t: u32, p: u32) -> bool {
    &&& 1 <= p <= 0xff_ffff
    &&& 8 * p <= m
    &&& 1 <= t
    &&& 8 <= salt_len <= 0xffff_ffff
    &&& secret_len <= 0xffff_ffff
}

/// `Params::new` then `Argon2::hash_password_into` (Argon2id, version 0x13,
/// 32-byte output). Claimed: `Ok` exactly when the named output exists, with
/// that output of 32 bytes, and that is exactly when the inputs are in the
/// ranges `Params::new` and `verify_inputs` check (`argon2_accepts`); filling
/// the memory and the final hash do not fail for a 32-byte output.
/// Parallelism is bounded so that `Params::new`'s `p_cost * 8` cannot
/// overflow.
#[verifier::external_body]
fn argon2id_kek(secret: &[u8], salt: &[u8], m: u32, t: u32, p: u32) -> (r: Result<Vec<u8>, argon2::Error>)
    requires
        p <= u32::MAX / 8,
    ensures
        r is Ok <==> spec_argon2id(secret@, salt@, m, t, p) is Some,
        r is Ok <==> argon2_accepts(secret@.len() as int, salt@.len() as int, m, t, p),
        r matches Ok(k) ==> spec_argon2id(secret@, salt@, m, t, p) == Some(k@) && k@.len() == KEK_LEN,
{
    let params = Params::new(m, t, p, Some(KEK_LEN))?;
    let mut out = vec![0u8; KEK_LEN];
    Argon2::new(Algorithm::Argon2id, Version::V0x13, params).hash_password_into(secret, salt, &mut out)?;
    Ok(out)
}

/// `Display` of `argon2::Error`. Nothing is claimed of the text.
#[verifier::external_body]
fn argon2_error_text(e: &argon2::Error) -> String {
    e.to_string()
}

/// The `argon2` crate's recommended costs, `Params::DEFAULT_M_COST`,
/// `DEFAULT_T_COST` and `DEFAULT_P_COST`. Claimed: their values in the
/// version used, 19456 KiB, 2 passes, 1 lane.
#[verifier::external_body]
fn argon2_default_costs() -> (r: (u32, u32, u32))
    ensures
        r == (19456u32, 2u32, 1u32),
{
    (Params::DEFAULT_M_COST, Params::DEFAULT_T_COST, Params::DEFAULT_P_COST)
}

/// The message for a KDF name other than Argon2id: `unsupported kdf`
/// followed by the name in `Debug` form.
fn unsupported_kdf_text(alg: &str) -> (r: String)
    ensures
        r@ == "unsupported kdf "@ + spec_debug_str(alg@),
{
    cat("unsupported kdf ", debug_str(alg).as_str())
}

/// `SystemTime::now` as whole seconds since the Unix epoch, zero before it.
/// Nothing is claimed: it reads the clock.
#[verifier::external_body]
pub(crate) fn unix_secs() -> u64 {
    SystemTime::now().duration_since(UNIX_EPOCH).map(|d| d.as_secs()).unwrap_or(0)
}

/// The associated data bound into every master-key wrapping.
pub open spec fn wrap_aad_spec() -> Seq<u8> {
    encode_utf8("qw-web/envelope/master-v1"@)
}

fn wrap_aad() -> (r: &'static [u8])
    ensures
        r@ == wrap_aad_spec(),
{
    "qw-web/envelope/master-v1".as_bytes()
}

/// What went wrong sealing or opening.
#[derive(Debug, Clone)]
pub enum EnvelopeError {
    Kdf(String),
    Encrypt,
    Decrypt,
    Kind,
    Malformed,
}

/// The text an envelope error is reported with.
pub open spec fn envelope_message(e: EnvelopeError) -> Seq<char> {
    match e {
        EnvelopeError::Kdf(m) => "key derivation failed: "@ + m@,
        EnvelopeError::Encrypt => "wrapping the master key failed"@,
        EnvelopeError::Decrypt => "wrong secret, or the wrapping was tampered with"@,
        EnvelopeError::Kind => "this wrapping is not a user-secret KEK"@,
        EnvelopeError::Malformed => "the wrapping or sealed blob is malformed"@,
    }
}

impl EnvelopeError {
    /// The text this error is reported with.
    pub fn message(&self) -> (r: String)
        ensures
            r@ == envelope_message(*self),
    {
        match self {
            EnvelopeError::Kdf(m) => crate::text::cat("key derivation failed: ", m.as_str()),
            EnvelopeError::Encrypt => string_from_str("wrapping the master key failed"),
            EnvelopeError::Decrypt => string_from_str("wrong secret, or the wrapping was tampered with"),
            EnvelopeError::Kind => string_from_str("this wrapping is not a user-secret KEK"),
            EnvelopeError::Malformed => string_from_str("the wrapping or sealed blob is malformed"),
        }
    }
}

/// An [`EnvelopeError`] without its message: what contracts compare.
#[derive(Debug, Clone, Copy, PartialEq, Eq, Structural)]
pub enum EnvelopeFailure {
    Kdf,
    Encrypt,
    Decrypt,
    Kind,
    Malformed,
}

/// The class of an error.
pub open spec fn failure_of(e: EnvelopeError) -> EnvelopeFailure {
    match e {
        EnvelopeError::Kdf(_) => EnvelopeFailure::Kdf,
        EnvelopeError::Encrypt => EnvelopeFailure::Encrypt,
        EnvelopeError::Decrypt => EnvelopeFailure::Decrypt,
        EnvelopeError::Kind => EnvelopeFailure::Kind,
        EnvelopeError::Malformed => EnvelopeFailure::Malformed,
    }
}

/// 32 bytes that seal the account blob directly. Held in memory only.
pub struct MasterKey(Vec<u8>);

impl View for MasterKey {
    type V = Seq<u8>;

    closed spec fn view(&self) -> Seq<u8> {
        self.0@
    }
}

/// `blob` is the nonce followed by a ciphertext that opens to `msg` under
/// `key` and `aad`.
pub open spec fn seals(key: Seq<u8>, blob: Seq<u8>, aad: Seq<u8>, msg: Seq<u8>) -> bool {
    &&& blob.len() >= XNONCE_LEN + AEAD_TAG_LEN
    &&& spec_aead_decrypt(key, blob.take(XNONCE_LEN as int), blob.skip(XNONCE_LEN as int), aad)
        == Some(msg)
}

/// What opening `blob` under `key` and `aad` yields: too short is
/// `Malformed`, a tag that does not verify is `Decrypt`.
pub open spec fn open_spec(key: Seq<u8>, blob: Seq<u8>, aad: Seq<u8>) -> Result<Seq<u8>, EnvelopeFailure> {
    if blob.len() < XNONCE_LEN + AEAD_TAG_LEN {
        Err(EnvelopeFailure::Malformed)
    } else {
        match spec_aead_decrypt(key, blob.take(XNONCE_LEN as int), blob.skip(XNONCE_LEN as int), aad) {
            Some(m) => Ok(m),
            None => Err(EnvelopeFailure::Decrypt),
        }
    }
}

impl MasterKey {
    #[verifier::type_invariant]
    spec fn inv(self) -> bool {
        self.0@.len() == MASTER_LEN
    }

    /// A fresh random master key for a new account.
    pub fn random() -> (k: Self)
        ensures
            k@.len() == MASTER_LEN,
    {
        MasterKey(random_bytes(MASTER_LEN))
    }

    /// A master key from exactly 32 bytes; anything else is `Malformed`.
    pub fn from_slice(b: &[u8]) -> (r: Result<Self, EnvelopeError>)
        ensures
            r is Ok <==> b@.len() == MASTER_LEN,
            r matches Ok(k) ==> k@ == b@,
            r matches Err(e) ==> e is Malformed,
    {
        if b.len() != MASTER_LEN {
            return Err(EnvelopeError::Malformed);
        }
        let mut v: Vec<u8> = Vec::new();
        let mut i: usize = 0;
        while i < b.len()
            invariant
                i <= b@.len(),
                v@ =~= b@.take(i as int),
            decreases b.len() - i,
        {
            v.push(b[i]);
            i = i + 1;
        }
        assert(b@.take(b@.len() as int) =~= b@);
        Ok(MasterKey(v))
    }

    /// An independent copy of this key.
    pub fn duplicate(&self) -> (k: Self)
        ensures
            k@ == self@,
    {
        proof {
            use_type_invariant(self);
        }
        MasterKey(self.0.clone())
    }

    /// Seal `plaintext` under this key: a fresh random nonce followed by the
    /// ciphertext, with `aad` bound and required again on opening (pass the
    /// account id).
    pub fn seal(&self, plaintext: &[u8], aad: &[u8]) -> (r: Vec<u8>)
        requires
            plaintext@.len() < aead_max_msg(),
        ensures
            r@.len() == XNONCE_LEN + plaintext@.len() + AEAD_TAG_LEN,
            seals(self@, r@, aad@, plaintext@),
    {
        proof {
            use_type_invariant(self);
        }
        let nonce = random_bytes(XNONCE_LEN);
        let ct = aead_encrypt(self.0.as_slice(), nonce.as_slice(), plaintext, aad);
        let mut out = nonce;
        let mut tail = ct;
        let ghost n = out@;
        let ghost c = tail@;
        out.append(&mut tail);
        assert(out@.take(XNONCE_LEN as int) =~= n);
        assert(out@.skip(XNONCE_LEN as int) =~= c);
        out
    }

    /// Recover a blob sealed by [`MasterKey::seal`] with the same `aad`. Too
    /// short to hold a nonce and a tag is `Malformed`; a wrong key, a wrong
    /// `aad` or a tampered blob is `Decrypt`.
    pub fn open(&self, blob: &[u8], aad: &[u8]) -> (r: Result<Vec<u8>, EnvelopeError>)
        ensures
            match open_spec(self@, blob@, aad@) {
                Ok(m) => r matches Ok(v) && v@ == m,
                Err(f) => r matches Err(e) && failure_of(e) == f,
            },
    {
        proof {
            use_type_invariant(self);
        }
        if blob.len() < XNONCE_LEN + AEAD_TAG_LEN {
            return Err(EnvelopeError::Malformed);
        }
        let (nonce, ct) = split_bytes(blob, XNONCE_LEN);
        match aead_decrypt(self.0.as_slice(), nonce.as_slice(), ct.as_slice(), aad) {
            Some(m) => Ok(m),
            None => Err(EnvelopeError::Decrypt),
        }
    }

    /// The 32 key bytes themselves, for handing to another primitive.
    pub fn key_bytes(&self) -> (r: &[u8])
        ensures
            r@ == self@,
            r@.len() == MASTER_LEN,
    {
        proof {
            use_type_invariant(self);
        }
        self.0.as_slice()
    }
}

/// Opening what was sealed gives back what was sealed.
pub proof fn law_open_reverses_seal(key: Seq<u8>, blob: Seq<u8>, aad: Seq<u8>, msg: Seq<u8>)
    requires
        seals(key, blob, aad, msg),
    ensures
        open_spec(key, blob, aad) == Ok::<Seq<u8>, EnvelopeFailure>(msg),
{
}

/// `b` split into its first `at` bytes and the rest.
pub(crate) fn split_bytes(b: &[u8], at: usize) -> (r: (Vec<u8>, Vec<u8>))
    requires
        at <= b@.len(),
    ensures
        r.0@ == b@.take(at as int),
        r.1@ == b@.skip(at as int),
{
    let mut head: Vec<u8> = Vec::new();
    let mut tail: Vec<u8> = Vec::new();
    let mut i: usize = 0;
    while i < b.len()
        invariant
            at <= b@.len(),
            i <= b@.len(),
            i <= at ==> head@ =~= b@.take(i as int) && tail@.len() == 0,
            i > at ==> head@ =~= b@.take(at as int) && tail@ =~= b@.subrange(at as int, i as int),
        decreases b.len() - i,
    {
        if i < at {
            head.push(b[i]);
        } else {
            tail.push(b[i]);
        }
        i = i + 1;
    }
    assert(b@.subrange(at as int, b@.len() as int) =~= b@.skip(at as int));
    (head, tail)
}

/// Which kind of factor a [`Wrapping`] holds.
#[derive(Debug, Clone, Copy, PartialEq, Eq, Structural)]
#[non_exhaustive]
pub enum KekKind {
    /// A passphrase, raw key, or seed phrase through Argon2id.
    Secret,
}

/// The KDF settings of a `Secret` wrapping, stored so a re-derive uses the
/// same cost and salt.
#[derive(Debug, Clone, PartialEq, Eq)]
pub struct KdfParams {
    /// Only `"argon2id"` is accepted.
    pub alg: String,
    pub m_cost: u32,
    pub t_cost: u32,
    pub p_cost: u32,
    pub salt: Vec<u8>,
}

impl KdfParams {
    /// Argon2id at the `argon2` crate's recommended cost, with a fresh random
    /// 16-byte salt.
    pub fn argon2id() -> (p: Self)
        ensures
            p.alg@ == "argon2id"@,
            p.m_cost == 19456,
            p.t_cost == 2,
            p.p_cost == 1,
            p.salt@.len() == SALT_LEN,
    {
        let (m, t, pc) = argon2_default_costs();
        KdfParams { alg: string_from_str("argon2id"), m_cost: m, t_cost: t, p_cost: pc, salt: random_bytes(SALT_LEN) }
    }
}

/// The key-encryption key `secret` derives under `p`: `None` for a KDF other
/// than Argon2id or parameters Argon2id refuses.
pub open spec fn kek_spec(secret: Seq<u8>, p: KdfParams) -> Option<Seq<u8>> {
    if p.alg@ == "argon2id"@ {
        spec_argon2id(secret, p.salt@, p.m_cost, p.t_cost, p.p_cost)
    } else {
        None
    }
}

struct Kek(Vec<u8>);

fn derive_kek(secret: &[u8], p: &KdfParams) -> (r: Result<Kek, EnvelopeError>)
    requires
        p.p_cost <= u32::MAX / 8,
    ensures
        r matches Ok(k) ==> kek_spec(secret@, *p) == Some(k.0@) && k.0@.len() == KEK_LEN,
        r matches Err(e) ==> kek_spec(secret@, *p) is None && e is Kdf,
        r is Ok <==> kek_spec(secret@, *p) is Some,
        r is Ok <==> (p.alg@ == "argon2id"@ && argon2_accepts(
            secret@.len() as int,
            p.salt@.len() as int,
            p.m_cost,
            p.t_cost,
            p.p_cost,
        )),
{
    if !str_eq(p.alg.as_str(), "argon2id") {
        return Err(EnvelopeError::Kdf(unsupported_kdf_text(p.alg.as_str())));
    }
    match argon2id_kek(secret, p.salt.as_slice(), p.m_cost, p.t_cost, p.p_cost) {
        Ok(k) => Ok(Kek(k)),
        Err(e) => Err(EnvelopeError::Kdf(argon2_error_text(&e))),
    }
}

/// One key-encryption key's sealed copy of the account master key, plus the
/// metadata that dates and rotates it.
#[derive(Debug, Clone)]
pub struct Wrapping {
    /// A user-facing label ("passphrase", "seed", ...).
    pub tag: String,
    pub kind: KekKind,
    pub kdf: KdfParams,
    pub nonce: Vec<u8>,
    /// The master, sealed under the key-encryption key.
    pub wrapped: Vec<u8>,
    /// Unix seconds.
    pub created_at: u64,
    /// Unix seconds; from this instant on the wrapping is expired.
    pub not_after: Option<u64>,
    /// Re-wrap or drop this factor at the next opportunity.
    pub rotate: bool,
}

/// `w` holds `master` sealed under the key `secret` derives: what
/// [`Wrapping::seal_secret`] produces.
pub open spec fn sealed_by(w: Wrapping, secret: Seq<u8>, master: Seq<u8>) -> bool {
    &&& w.kind == KekKind::Secret
    &&& w.nonce@.len() == XNONCE_LEN
    &&& kek_spec(secret, w.kdf) matches Some(k) && spec_aead_decrypt(k, w.nonce@, w.wrapped@, wrap_aad_spec()) == Some(master)
    &&& master.len() == MASTER_LEN
}

/// What unwrapping `w` with `secret` yields: the master, or why not.
pub open spec fn unwrap_spec(w: Wrapping, secret: Seq<u8>) -> Result<Seq<u8>, EnvelopeFailure> {
    if w.kind != KekKind::Secret {
        Err(EnvelopeFailure::Kind)
    } else if w.nonce@.len() != XNONCE_LEN {
        Err(EnvelopeFailure::Malformed)
    } else {
        match kek_spec(secret, w.kdf) {
            None => Err(EnvelopeFailure::Kdf),
            Some(k) => match spec_aead_decrypt(k, w.nonce@, w.wrapped@, wrap_aad_spec()) {
                None => Err(EnvelopeFailure::Decrypt),
                Some(m) => if m.len() == MASTER_LEN { Ok(m) } else { Err(EnvelopeFailure::Malformed) },
            },
        }
    }
}

/// The wrapping's Argon2id parallelism is in the range the KDF accepts
/// without overflow.
pub open spec fn kdf_in_range(w: Wrapping) -> bool {
    w.kdf.p_cost <= u32::MAX / 8
}

/// Expired at `now`: `not_after` is set and reached.
pub open spec fn expired_spec(w: Wrapping, now: u64) -> bool {
    match w.not_after {
        Some(t) => now >= t,
        None => false,
    }
}

/// Not to be offered for a new login: flagged for rotation, or expired.
pub open spec fn stale_spec(w: Wrapping, now: u64) -> bool {
    w.rotate || expired_spec(w, now)
}

impl Wrapping {
    /// Wrap `master` under a key derived from `secret` at clock reading
    /// `now`: fresh salt and nonce, tagged `tag`, no expiry, not flagged.
    /// Fails only when Argon2id refuses the derivation, which at these costs
    /// is exactly when the secret is longer than 2^32 - 1 bytes.
    pub fn seal_secret_at(tag: &str, secret: &[u8], master: &MasterKey, now: u64) -> (r: Result<Self, EnvelopeError>)
        ensures
            r matches Ok(w) ==> {
                &&& w.tag@ == tag@
                &&& w.kdf.alg@ == "argon2id"@ && w.kdf.m_cost == 19456 && w.kdf.t_cost == 2
                    && w.kdf.p_cost == 1 && w.kdf.salt@.len() == SALT_LEN
                &&& w.created_at == now
                &&& w.not_after is None
                &&& !w.rotate
                &&& sealed_by(w, secret@, master@)
            },
            r matches Err(e) ==> e is Kdf,
            r is Ok <==> secret@.len() <= 0xffff_ffff,
    {
        let kdf = KdfParams::argon2id();
        let kek = derive_kek(secret, &kdf)?;
        let nonce = random_bytes(XNONCE_LEN);
        let key = master.key_bytes();
        let wrapped = aead_encrypt(kek.0.as_slice(), nonce.as_slice(), key, wrap_aad());
        Ok(Wrapping {
            tag: string_from_str(tag),
            kind: KekKind::Secret,
            kdf,
            nonce,
            wrapped,
            created_at: now,
            not_after: None,
            rotate: false,
        })
    }

    /// [`Wrapping::seal_secret_at`] stamped with the current time.
    pub fn seal_secret(tag: &str, secret: &[u8], master: &MasterKey) -> (r: Result<Self, EnvelopeError>)
        ensures
            r matches Ok(w) ==> {
                &&& w.tag@ == tag@
                &&& w.kdf.alg@ == "argon2id"@ && w.kdf.salt@.len() == SALT_LEN
                &&& w.not_after is None
                &&& !w.rotate
                &&& sealed_by(w, secret@, master@)
            },
            r matches Err(e) ==> e is Kdf,
            r is Ok <==> secret@.len() <= 0xffff_ffff,
    {
        Self::seal_secret_at(tag, secret, master, unix_secs())
    }

    /// Recover the master key, given the secret for this wrapping. A kind
    /// other than `Secret` is `Kind`; a nonce of the wrong size or a result
    /// of the wrong size is `Malformed`; a refused derivation is `Kdf`; a
    /// wrong secret or a tampered row is `Decrypt`.
    pub fn unwrap_secret(&self, secret: &[u8]) -> (r: Result<MasterKey, EnvelopeError>)
        requires
            kdf_in_range(*self),
        ensures
            match unwrap_spec(*self, secret@) {
                Ok(m) => r matches Ok(k) && k@ == m,
                Err(f) => r matches Err(e) && failure_of(e) == f,
            },
    {
        if self.kind != KekKind::Secret {
            return Err(EnvelopeError::Kind);
        }
        if self.nonce.len() != XNONCE_LEN {
            return Err(EnvelopeError::Malformed);
        }
        let kek = derive_kek(secret, &self.kdf)?;
        match aead_decrypt(kek.0.as_slice(), self.nonce.as_slice(), self.wrapped.as_slice(), wrap_aad()) {
            None => Err(EnvelopeError::Decrypt),
            Some(plain) => MasterKey::from_slice(plain.as_slice()),
        }
    }

    /// Hard-expired by `not_after` at `now`.
    pub fn expired(&self, now: u64) -> (r: bool)
        ensures
            r == expired_spec(*self, now),
    {
        match self.not_after {
            Some(t) => now >= t,
            None => false,
        }
    }

    /// Not to be offered for a new login at `now`: flagged for rotation, or
    /// expired.
    pub fn stale(&self, now: u64) -> (r: bool)
        ensures
            r == stale_spec(*self, now),
    {
        self.rotate || self.expired(now)
    }
}

/// A wrapping sealed under a secret opens with that secret, to the master it
/// sealed.
pub proof fn law_unwrap_reverses_seal(w: Wrapping, secret: Seq<u8>, master: Seq<u8>)
    requires
        sealed_by(w, secret, master),
    ensures
        unwrap_spec(w, secret) == Ok::<Seq<u8>, EnvelopeFailure>(master),
{
}

} // verus!
