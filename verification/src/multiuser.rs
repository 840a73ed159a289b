//! The decisions of the multi-user web front: session cookies, the caller
//! address used for rate limiting, how key-set refusals are answered, the
//! checks on key-management requests, and minting the recovery code.

use vstd::prelude::*;
use vstd::utf8::encode_utf8;

use crate::accounts::{AccountRecord, ACCOUNT_ID_LEN, SERVER_KEY_LEN};
use crate::envelope::{random_bytes, stale_spec, unix_secs, unwrap_spec, MasterKey, Wrapping};
use crate::text::{hex_spec, cat, chars_of, debug_str, spec_debug_str, str_eq, string_from_str, trim, trim_spec};
use crate::unlock::{
    add_secret, all_in_range, any_fresh, fresh_rows, new_row, present_secret_at, rotate_secret, scan, stale_tags,
    sweep_stale_at, tag_index, try_order, unlock_message, UnlockError, Unlocked,
};

verus! {

/// The session cookie's name.
pub const COOKIE: &'static str = "qw_session";
/// A session lives at most this long, in seconds (12 hours).
pub const ABS_TTL_SECS: u64 = 43200;
/// A session idle this long, in seconds, is over (30 minutes).
pub const IDLE_TTL_SECS: u64 = 1800;
/// Shortest secret a user may add or rotate to, in bytes.
pub const MIN_KEK_SECRET_LEN: usize = 8;
/// The tag of the primary passphrase wrapping, minted at registration.
pub const PRIMARY_TAG: &'static str = "passphrase";
/// The tag of the recovery-code wrapping.
pub const RECOVERY_TAG: &'static str = "recovery";

/// How a request failed, as the web front answers it.
#[derive(Debug)]
pub enum ApiError {
    Unauthorized,
    BadRequest(String),
    Conflict(String),
    Domain(String),
    Internal(String),
}

/// The HTTP status and message an error is answered with.
pub open spec fn answer_of(e: ApiError) -> (u16, Seq<char>) {
    match e {
        ApiError::Unauthorized => (401, "not signed in"@),
        ApiError::BadRequest(m) => (400, m@),
        ApiError::Conflict(m) => (409, m@),
        ApiError::Domain(m) => (422, m@),
        ApiError::Internal(m) => (500, m@),
    }
}

impl ApiError {
    /// A bad request with this message.
    pub fn bad(message: String) -> (r: ApiError)
        ensures
            r matches ApiError::BadRequest(m) && m@ == message@,
    {
        ApiError::BadRequest(message)
    }

    /// An internal failure with this message.
    pub fn internal(message: String) -> (r: ApiError)
        ensures
            r matches ApiError::Internal(m) && m@ == message@,
    {
        ApiError::Internal(message)
    }

    /// The HTTP status and message this error is answered with.
    pub fn answer(self) -> (r: (u16, String))
        ensures
            r.0 == answer_of(self).0 && r.1@ == answer_of(self).1,
    {
        match self {
            ApiError::Unauthorized => (401, string_from_str("not signed in")),
            ApiError::BadRequest(m) => (400, m),
            ApiError::Conflict(m) => (409, m),
            ApiError::Domain(m) => (422, m),
            ApiError::Internal(m) => (500, m),
        }
    }
}

/// How a key-set refusal is answered: a duplicate tag is a conflict, the
/// last key and an unknown tag are domain refusals, anything else is
/// internal.
pub open spec fn unlock_answer(e: UnlockError) -> (u16, Seq<char>) {
    match e {
        UnlockError::DuplicateTag(t) => (409, "a key tagged "@ + spec_debug_str(t@) + " already exists"@),
        UnlockError::WouldOrphan => (422, "that is the only remaining key \u{2014} add another before removing it"@),
        UnlockError::UnknownTag(t) => (422, "no key tagged "@ + spec_debug_str(t@)),
        _ => (500, unlock_message(e)),
    }
}

/// Answer a key-set refusal.
pub fn unlock_err(e: UnlockError) -> (r: ApiError)
    ensures
        answer_of(r) == unlock_answer(e),
{
    let msg = e.message();
    match e {
        UnlockError::DuplicateTag(t) => {
            let head = cat("a key tagged ", debug_str(t.as_str()).as_str());
            ApiError::Conflict(cat(head.as_str(), " already exists"))
        },
        UnlockError::WouldOrphan => ApiError::Domain(
            string_from_str("that is the only remaining key \u{2014} add another before removing it"),
        ),
        UnlockError::UnknownTag(t) => ApiError::Domain(cat("no key tagged ", debug_str(t.as_str()).as_str())),
        _ => ApiError::internal(msg),
    }
}

/// The `Set-Cookie` value that starts a session under `token`.
pub open spec fn set_cookie_spec(token: Seq<char>) -> Seq<char> {
    "qw_session="@ + token + "; HttpOnly; SameSite=Strict; Path=/; Max-Age=43200; Secure"@
}

/// The `Set-Cookie` value that starts a session under `token`: HTTP-only,
/// same-site strict, secure, for the absolute session lifetime.
pub fn set_cookie(token: &str) -> (r: String)
    ensures
        r@ == set_cookie_spec(token@),
{
    let head = cat("qw_session=", token);
    cat(head.as_str(), "; HttpOnly; SameSite=Strict; Path=/; Max-Age=43200; Secure")
}

/// The `Set-Cookie` value that ends the session.
pub fn clear_cookie() -> (r: String)
    ensures
        r@ == "qw_session=; HttpOnly; SameSite=Strict; Path=/; Max-Age=0"@,
{
    string_from_str("qw_session=; HttpOnly; SameSite=Strict; Path=/; Max-Age=0")
}

/// The session token a `Cookie` header carries: the value of the first
/// `;`-separated pair, trimmed, whose name is the session cookie's.
pub open spec fn token_spec(cookies: Seq<Seq<char>>) -> Option<Seq<char>>
    decreases cookies.len(),
{
    if cookies.len() == 0 {
        None
    } else {
        match crate::text::split_once_spec(trim_spec(cookies[0]), '=') {
            Some((k, v)) => if k == "qw_session"@ {
                Some(v)
            } else {
                token_spec(cookies.drop_first())
            },
            None => token_spec(cookies.drop_first()),
        }
    }
}

/// The session token in a `Cookie` header value, if any.
pub fn token_from(cookie_header: &str) -> (r: Option<String>)
    ensures
        match token_spec(crate::text::split_on(cookie_header@, ';')) {
            Some(t) => r matches Some(s) && s@ == t,
            None => r is None,
        },
{
    let cs = chars_of(cookie_header);
    let parts = crate::text::split_chars(cs.as_slice(), ';');
    let ghost pv = parts@.map_values(|v: Vec<char>| v@);
    let mut i: usize = 0;
    assert(pv.skip(0) =~= pv);
    while i < parts.len()
        invariant
            i <= parts@.len(),
            pv == parts@.map_values(|v: Vec<char>| v@),
            pv == crate::text::split_on(cookie_header@, ';'),
            token_spec(pv) == token_spec(pv.skip(i as int)),
        decreases parts.len() - i,
    {
        proof {
            assert(pv.skip(i as int)[0] == parts@[i as int]@);
            assert(pv.skip(i as int).drop_first() =~= pv.skip(i + 1));
        }
        let t = crate::text::trim_chars(parts[i].as_slice());
        match crate::text::split_once_chars(t.as_slice(), '=') {
            Some((k, v)) => {
                let key = crate::text::string_from_chars(k.as_slice());
                if str_eq(key.as_str(), COOKIE) {
                    return Some(crate::text::string_from_chars(v.as_slice()));
                }
            },
            None => {},
        }
        i = i + 1;
    }
    None
}

/// The address a request is rate-limited under: the trimmed
/// `CF-Connecting-IP` header when present and not blank, else the first
/// hop of `X-Forwarded-For`, trimmed, when not blank, else the peer
/// address, else `unknown`.
pub open spec fn client_ip_spec(cf: Option<Seq<char>>, xff: Option<Seq<char>>, peer: Option<Seq<char>>) -> Seq<char> {
    let cf_ok = cf matches Some(c) && trim_spec(c).len() > 0;
    let xff_first = match xff {
        Some(x) => Some(trim_spec(crate::text::split_on(x, ',')[0])),
        None => None,
    };
    if cf_ok {
        trim_spec(cf->Some_0)
    } else if xff_first matches Some(f) && f.len() > 0 {
        xff_first->Some_0
    } else {
        match peer {
            Some(p) => p,
            None => "unknown"@,
        }
    }
}

/// The address a request is rate-limited under, from the headers' values
/// (when they are text) and the peer address (when known). Never to be
/// trusted for authorisation.
pub fn client_ip_of(cf: Option<&str>, xff: Option<&str>, peer: Option<String>) -> (r: String)
    ensures
        r@ == client_ip_spec(
            match cf {
                Some(c) => Some(c@),
                None => None,
            },
            match xff {
                Some(x) => Some(x@),
                None => None,
            },
            match peer {
                Some(p) => Some(p@),
                None => None,
            },
        ),
{
    if let Some(c) = cf {
        let t = trim(c);
        if chars_of(t.as_str()).len() > 0 {
            return t;
        }
    }
    if let Some(x) = xff {
        let cs = chars_of(x);
        let parts = crate::text::split_chars(cs.as_slice(), ',');
        proof {
            crate::text::lemma_split_on_nonempty_pub(x@, ',');
        }
        let first = crate::text::trim_chars(parts[0].as_slice());
        if first.len() > 0 {
            return crate::text::string_from_chars(first.as_slice());
        }
    }
    match peer {
        Some(p) => p,
        None => string_from_str("unknown"),
    }
}

/// A session is over once it is older than the absolute lifetime or has
/// been idle longer than the idle lifetime.
pub fn session_expired(since_created_secs: u64, since_seen_secs: u64) -> (r: bool)
    ensures
        r == (since_created_secs > ABS_TTL_SECS || since_seen_secs > IDLE_TTL_SECS),
{
    since_created_secs > ABS_TTL_SECS || since_seen_secs > IDLE_TTL_SECS
}

/// The bytes of `s` number fewer than `n`.
pub open spec fn shorter_than_bytes(s: Seq<char>, n: nat) -> bool {
    encode_utf8(s).len() < n
}

/// Check a request to add a key: the primary tag is refused (it is
/// changed by rotation), a blank tag is refused, a secret of fewer than
/// [`MIN_KEK_SECRET_LEN`] bytes is refused.
pub fn check_kek_add(tag: &str, secret: &str) -> (r: Result<(), ApiError>)
    ensures
        tag@ == "passphrase"@ ==> (r matches Err(ApiError::BadRequest(m)) && m@ == spec_debug_str("passphrase"@)
            + " is the primary passphrase \u{2014} use rotate to change it"@),
        tag@ != "passphrase"@ && trim_spec(tag@).len() == 0 ==> (r matches Err(ApiError::BadRequest(m)) && m@
            == "a key needs a label"@),
        tag@ != "passphrase"@ && trim_spec(tag@).len() > 0 && shorter_than_bytes(secret@, MIN_KEK_SECRET_LEN as nat)
            ==> (r matches Err(ApiError::BadRequest(m)) && m@ == "the secret must be at least 8 characters"@),
        tag@ != "passphrase"@ && trim_spec(tag@).len() > 0 && !shorter_than_bytes(secret@, MIN_KEK_SECRET_LEN as nat)
            ==> r is Ok,
{
    if str_eq(tag, PRIMARY_TAG) {
        let q = debug_str(PRIMARY_TAG);
        return Err(ApiError::BadRequest(cat(q.as_str(), " is the primary passphrase \u{2014} use rotate to change it")));
    }
    if chars_of(trim(tag).as_str()).len() == 0 {
        return Err(ApiError::BadRequest(string_from_str("a key needs a label")));
    }
    if secret.as_bytes().len() < MIN_KEK_SECRET_LEN {
        return Err(ApiError::BadRequest(string_from_str("the secret must be at least 8 characters")));
    }
    Ok(())
}

/// Check a request to remove a key: the primary passphrase cannot be
/// removed.
pub fn check_kek_drop(tag: &str) -> (r: Result<(), ApiError>)
    ensures
        tag@ == "passphrase"@ ==> (r matches Err(ApiError::BadRequest(m)) && m@ == spec_debug_str("passphrase"@)
            + " cannot be removed"@),
        tag@ != "passphrase"@ ==> r is Ok,
{
    if str_eq(tag, PRIMARY_TAG) {
        let q = debug_str(PRIMARY_TAG);
        return Err(ApiError::BadRequest(cat(q.as_str(), " cannot be removed")));
    }
    Ok(())
}

/// Check a request to rotate a key: the new secret needs at least
/// [`MIN_KEK_SECRET_LEN`] bytes.
pub fn check_kek_rotate(new_secret: &str) -> (r: Result<(), ApiError>)
    ensures
        shorter_than_bytes(new_secret@, MIN_KEK_SECRET_LEN as nat) ==> (r matches Err(ApiError::BadRequest(m)) && m@
            == "the new secret must be at least 8 characters"@),
        !shorter_than_bytes(new_secret@, MIN_KEK_SECRET_LEN as nat) ==> r is Ok,
{
    if new_secret.as_bytes().len() < MIN_KEK_SECRET_LEN {
        return Err(ApiError::BadRequest(string_from_str("the new secret must be at least 8 characters")));
    }
    Ok(())
}

/// How a refused key derivation is answered: the key-set message for a
/// failed wrapping, around Argon2id's own text `t`.
pub open spec fn kdf_refusal(t: Seq<char>) -> Seq<char> {
    "wrapping the key failed: key derivation failed: "@ + t
}

/// Mint or re-mint the recovery wrapping under `code`: an existing
/// `recovery` row is rotated in place, otherwise one is added, and every
/// other row stays. It fails, leaving the set as it was, only when
/// Argon2id refuses the derivation (a code longer than 2^32 - 1 bytes);
/// that is answered as an internal error.
pub fn remint_recovery(w: &mut Vec<Wrapping>, master: &MasterKey, code: &str) -> (r: Result<(), ApiError>)
    ensures
        r is Ok ==> (exists|i: int| 0 <= i < final(w)@.len() && (#[trigger] final(w)@[i]).tag@ == "recovery"@
            && crate::unlock::new_row(final(w)@[i], "recovery"@, encode_utf8(code@), master@)),
        r is Ok ==> final(w)@.len() == old(w)@.len() + (if tag_index(old(w)@, "recovery"@) is Some { 0int } else { 1int }),
        r is Ok ==> match tag_index(old(w)@, "recovery"@) {
            Some(i) => final(w)@ == old(w)@.update(i, final(w)@[i]) && crate::unlock::new_row(
                final(w)@[i],
                "recovery"@,
                encode_utf8(code@),
                master@,
            ),
            None => final(w)@.drop_last() == old(w)@ && crate::unlock::new_row(
                final(w)@.last(),
                "recovery"@,
                encode_utf8(code@),
                master@,
            ),
        },
        r matches Err(e) ==> exists|t: Seq<char>| #[trigger] answer_of(e) == (500u16, kdf_refusal(t)),
        r is Err ==> final(w)@ == old(w)@,
        encode_utf8(code@).len() <= 0xffff_ffff ==> r is Ok,
        crate::unlock::tags_unique(old(w)@) ==> crate::unlock::tags_unique(final(w)@),
{
    let mut found = false;
    let mut i: usize = 0;
    while i < w.len()
        invariant
            i <= w@.len(),
            found == exists|j: int| 0 <= j < i && (#[trigger] w@[j]).tag@ == "recovery"@,
        decreases w.len() - i,
    {
        if str_eq(w[i].tag.as_str(), RECOVERY_TAG) {
            found = true;
        }
        i = i + 1;
    }
    proof {
        crate::unlock::lemma_tag_index_pub(w@, "recovery"@);
    }
    if found {
        match rotate_secret(w, master, RECOVERY_TAG, code.as_bytes()) {
            Ok(()) => Ok(()),
            Err(e) => {
                proof {
                    lemma_kdf_answer(e);
                }
                Err(unlock_err(e))
            },
        }
    } else {
        match add_secret(w, master, RECOVERY_TAG, code.as_bytes()) {
            Ok(()) => Ok(()),
            Err(e) => {
                proof {
                    lemma_kdf_answer(e);
                }
                Err(unlock_err(e))
            },
        }
    }
}

proof fn lemma_kdf_answer(e: UnlockError)
    requires
        e matches UnlockError::Envelope(crate::envelope::EnvelopeError::Kdf(_)),
    ensures
        exists|t: Seq<char>| #[trigger] unlock_answer(e) == (500u16, kdf_refusal(t)),
{
    if let UnlockError::Envelope(crate::envelope::EnvelopeError::Kdf(m)) = e {
        reveal_strlit("wrapping the key failed: ");
        reveal_strlit("key derivation failed: ");
        reveal_strlit("wrapping the key failed: key derivation failed: ");
        assert("wrapping the key failed: "@ + ("key derivation failed: "@ + m@) =~= kdf_refusal(m@));
        assert(unlock_answer(e) == (500u16, kdf_refusal(m@)));
    }
}


/// The operator check on editing the host's default server list: refused
/// outright when no admin token is configured; otherwise the
/// `Authorization` header must be `Bearer ` followed by exactly that token.
pub open spec fn admin_refusal_spec(token: Option<Seq<char>>, authorization: Option<Seq<char>>) -> Option<Seq<char>> {
    match token {
        None => Some("host-default editing is disabled (QW_ADMIN_TOKEN unset)"@),
        Some(t) => match authorization {
            Some(a) => if a.len() >= 7 && a.take(7) == "Bearer "@ && a.skip(7) == t {
                None
            } else {
                Some("bad admin token"@)
            },
            None => Some("bad admin token"@),
        },
    }
}

/// Check an operator request against the configured admin token: `None`
/// lets it through, otherwise the reason it is refused (answered 403).
pub fn admin_refusal(token: Option<&str>, authorization: Option<&str>) -> (r: Option<String>)
    ensures
        match admin_refusal_spec(
            match token {
                Some(t) => Some(t@),
                None => None,
            },
            match authorization {
                Some(a) => Some(a@),
                None => None,
            },
        ) {
            Some(m) => r matches Some(s) && s@ == m,
            None => r is None,
        },
{
    let t = match token {
        None => {
            return Some(string_from_str("host-default editing is disabled (QW_ADMIN_TOKEN unset)"));
        },
        Some(t) => t,
    };
    let a = match authorization {
        None => {
            return Some(string_from_str("bad admin token"));
        },
        Some(a) => a,
    };
    let cs = chars_of(a);
    let prefix = chars_of("Bearer ");
    proof {
        reveal_strlit("Bearer ");
    }
    if crate::text::starts_with_chars(cs.as_slice(), prefix.as_slice()) {
        let rest = crate::text::slice_range(cs.as_slice(), 7, cs.len());
        let presented = crate::text::string_from_chars(rest.as_slice());
        proof {
            assert(rest@ =~= a@.skip(7));
        }
        if str_eq(presented.as_str(), t) {
            return None;
        }
    }
    Some(string_from_str("bad admin token"))
}

/// What a sign-in decided among the records sharing a blind index: which
/// record the secret opened, that record (its stale wrappings swept when a
/// fresh one survives), what the secret unlocked, and whether the sweep
/// dropped anything, so that the swept key set is written back.
pub struct LoginPick {
    pub index: usize,
    pub record: AccountRecord,
    pub unlocked: Unlocked,
    pub swept: bool,
}

/// The secret opens the key set `ws` at `now`.
pub open spec fn opens(ws: Seq<Wrapping>, secret: Seq<u8>, now: u64) -> bool {
    scan(try_order(ws, now), secret, None) is Ok
}

/// Every wrapping of every record has its derivation parameters in range.
pub open spec fn records_in_range(rs: Seq<AccountRecord>) -> bool {
    forall|i: int| 0 <= i < rs.len() ==> all_in_range(#[trigger] rs[i].wrappings@)
}

/// Whether every wrapping of every record has its derivation parameters in
/// range: the check a caller makes on records read from storage before
/// signing in among them.
pub fn records_ok(records: &[AccountRecord]) -> (r: bool)
    ensures
        r == records_in_range(records@),
{
    let mut i: usize = 0;
    while i < records.len()
        invariant
            i <= records@.len(),
            forall|j: int| 0 <= j < i ==> all_in_range(#[trigger] records@[j].wrappings@),
        decreases records.len() - i,
    {
        if !crate::unlock::wrappings_in_range(records[i].wrappings.as_slice()) {
            return false;
        }
        i = i + 1;
    }
    true
}

/// What signing in among `records` at clock reading `now` gives: `None`
/// exactly when the secret opens no record's key set; otherwise the first
/// record it opens, unlocked as presenting the secret to it gives, with
/// every field as it was but its key set swept, and whether the sweep
/// dropped anything.
pub open spec fn login_outcome(records: Seq<AccountRecord>, secret: Seq<u8>, now: u64, r: Option<LoginPick>) -> bool {
    &&& (r is None <==> forall|i: int| 0 <= i < records.len() ==> !opens(#[trigger] records[i].wrappings@, secret, now))
    &&& (r matches Some(p) ==> {
        let old_rec = records[p.index as int];
        let ws = old_rec.wrappings@;
        &&& p.index < records.len()
        &&& opens(ws, secret, now)
        &&& forall|j: int| 0 <= j < p.index ==> !opens(#[trigger] records[j].wrappings@, secret, now)
        &&& scan(try_order(ws, now), secret, None) matches Ok(w) && unwrap_spec(w, secret) == Ok::<
            Seq<u8>,
            crate::envelope::EnvelopeFailure,
        >(p.unlocked.master@) && p.unlocked.via@ == w.tag@ && p.unlocked.stale == stale_spec(w, now)
        &&& p.record.account_id == old_rec.account_id
        &&& p.record.nick_index == old_rec.nick_index
        &&& p.record.nick_cipher == old_rec.nick_cipher
        &&& p.record.blob == old_rec.blob
        &&& p.record.created_at == old_rec.created_at
        &&& p.record.updated_at == old_rec.updated_at
        &&& p.record.wrappings@ == (if any_fresh(ws, now) { fresh_rows(ws, now) } else { ws })
        &&& p.swept == (any_fresh(ws, now) && stale_tags(ws, now).len() > 0)
    })
}

/// Sign in among `records` at clock reading `now`: the first record whose
/// key set the secret opens wins, and a record it does not open, for
/// whatever reason, is passed over. The winner comes back with its stale
/// wrappings swept when a fresh one survives; `swept` says whether that
/// dropped anything. `None` when the secret opens no record.
pub fn pick_login_at(records: Vec<AccountRecord>, secret: &[u8], now: u64) -> (r: Option<LoginPick>)
    requires
        records_in_range(records@),
    ensures
        login_outcome(records@, secret@, now, r),
{
    let ghost all = records@;
    let mut i: usize = 0;
    while i < records.len()
        invariant
            i <= records@.len(),
            records@ == all,
            records_in_range(records@),
            forall|j: int| 0 <= j < i ==> !opens(#[trigger] records@[j].wrappings@, secret@, now),
        decreases records.len() - i,
    {
        assert(all_in_range(records@[i as int].wrappings@));
        match present_secret_at(records[i].wrappings.as_slice(), secret, now) {
            Ok(unlocked) => {
                assert(opens(all[i as int].wrappings@, secret@, now));
                let mut pool = records;
                let mut record = pool.remove(i);
                assert(record == all[i as int]);
                let dropped = sweep_stale_at(&mut record.wrappings, now);
                proof {
                    assert(dropped@.map_values(|t: String| t@).len() == dropped@.len());
                }
                let swept = dropped.len() > 0;
                return Some(LoginPick { index: i, record, unlocked, swept });
            },
            Err(_) => {},
        }
        i = i + 1;
    }
    None
}

/// [`pick_login_at`] at the current time: the outcome is what signing in
/// at the clock reading taken gives. Whatever that reading, a pick names a
/// record of the list whose key set the secret opens, and that record's
/// account.
pub fn pick_login(records: Vec<AccountRecord>, secret: &[u8]) -> (r: Option<LoginPick>)
    requires
        records_in_range(records@),
    ensures
        exists|now: u64| #[trigger] login_outcome(records@, secret@, now, r),
        r matches Some(p) ==> p.index < records@.len() && p.record.account_id == records@[p.index as int].account_id
            && (exists|now: u64| #[trigger] opens(records@[p.index as int].wrappings@, secret@, now)),
{
    let now = unix_secs();
    let ghost all = records@;
    let r = pick_login_at(records, secret, now);
    assert(login_outcome(all, secret@, now, r));
    r
}

/// The key set of a new account: the primary passphrase wrapping, then the
/// recovery wrapping, both of `master`. A refusal from the key set (a
/// secret or code longer than 2^32 - 1 bytes) is an internal failure.
pub fn registration_wrappings(master: &MasterKey, secret: &[u8], recovery_code: &str) -> (r: Result<Vec<Wrapping>, ApiError>)
    ensures
        r matches Ok(ws) ==> ws@.len() == 2 && new_row(ws@[0], "passphrase"@, secret@, master@) && new_row(
            ws@[1],
            "recovery"@,
            encode_utf8(recovery_code@),
            master@,
        ),
        r matches Err(e) ==> e is Internal,
        secret@.len() <= 0xffff_ffff && encode_utf8(recovery_code@).len() <= 0xffff_ffff ==> r is Ok,
{
    let mut ws: Vec<Wrapping> = Vec::new();
    proof {
        reveal_strlit("passphrase");
        reveal_strlit("recovery");
        crate::unlock::lemma_tag_index_pub(ws@, "passphrase"@);
    }
    match add_secret(&mut ws, master, PRIMARY_TAG, secret) {
        Ok(()) => {},
        Err(e) => {
            return Err(ApiError::internal(e.message()));
        },
    }
    let ghost first = ws@;
    proof {
        crate::unlock::lemma_tag_index_pub(ws@, "recovery"@);
        assert(ws@[0].tag@ == "passphrase"@);
        assert(ws@[0].tag@ != "recovery"@);
    }
    match add_secret(&mut ws, master, RECOVERY_TAG, recovery_code.as_bytes()) {
        Ok(()) => {},
        Err(e) => {
            return Err(ApiError::internal(e.message()));
        },
    }
    assert(ws@[0] == first[0]);
    Ok(ws)
}

/// The directory row of a new account: its key set (the primary
/// passphrase wrapping, then the recovery wrapping, both of `master`) and
/// its nickname, normalised, blind-indexed and sealed to the row. A key-set
/// refusal is an internal failure; a nickname the row refuses is a bad
/// request carrying the refusal's text.
pub fn new_account_record(
    server_key: &[u8; SERVER_KEY_LEN],
    account_id: [u8; ACCOUNT_ID_LEN],
    nick: &str,
    master: &MasterKey,
    secret: &[u8],
    recovery_code: &str,
    blob: Vec<u8>,
) -> (r: Result<AccountRecord, ApiError>)
    ensures
        r matches Ok(rec) ==> {
            &&& rec.account_id@ == account_id@
            &&& rec.nick_index@ == crate::accounts::spec_blake2b_mac256(server_key@, encode_utf8(crate::accounts::normal_nick(nick@)))
            &&& rec.blob@ == blob@
            &&& rec.wrappings@.len() == 2
            &&& new_row(rec.wrappings@[0], "passphrase"@, secret@, master@)
            &&& new_row(rec.wrappings@[1], "recovery"@, encode_utf8(recovery_code@), master@)
        },
        r matches Err(ApiError::BadRequest(m)) ==> exists|e: crate::accounts::AccountError| m@ == crate::accounts::account_message(e)
            && (e is NickEmpty || e is NickTooShort || e is Malformed),
        r matches Err(e) ==> e is Internal || e is BadRequest,
        crate::accounts::normal_nick(nick@).len() < crate::accounts::MIN_NICK_LEN ==> r is Err,
        secret@.len() <= 0xffff_ffff && encode_utf8(recovery_code@).len() <= 0xffff_ffff
            && crate::accounts::normal_nick(nick@).len() >= crate::accounts::MIN_NICK_LEN
            && crate::accounts::nick_fits(crate::accounts::normal_nick(nick@)) ==> r is Ok,
{
    let wrappings = registration_wrappings(master, secret, recovery_code)?;
    match AccountRecord::new(server_key, account_id, nick, wrappings, blob) {
        Ok(rec) => Ok(rec),
        Err(e) => {
            let m = e.message();
            Err(ApiError::bad(m))
        },
    }
}

/// A recovery code from 16 random bytes: their 32 hex digits in four
/// groups of eight, joined by `-`.
pub open spec fn recovery_code_spec(raw: Seq<u8>) -> Seq<char> {
    let h = hex_spec(raw);
    h.subrange(0, 8) + "-"@ + h.subrange(8, 16) + "-"@ + h.subrange(16, 24) + "-"@ + h.subrange(24, 32)
}

proof fn lemma_hex_len(b: Seq<u8>)
    ensures
        hex_spec(b).len() == 2 * b.len(),
    decreases b.len(),
{
    if b.len() > 0 {
        lemma_hex_len(b.drop_last());
    }
}

/// The recovery code of 16 bytes.
pub fn recovery_code_of(raw: &[u8]) -> (r: String)
    requires
        raw@.len() == 16,
    ensures
        r@ == recovery_code_spec(raw@),
{
    let h = crate::vault::hex_of_bytes(raw);
    proof {
        lemma_hex_len(raw@);
    }
    let cs = chars_of(h.as_str());
    let g0 = crate::text::slice_range(cs.as_slice(), 0, 8);
    let g1 = crate::text::slice_range(cs.as_slice(), 8, 16);
    let g2 = crate::text::slice_range(cs.as_slice(), 16, 24);
    let g3 = crate::text::slice_range(cs.as_slice(), 24, 32);
    let s0 = crate::text::string_from_chars(g0.as_slice());
    let s1 = crate::text::string_from_chars(g1.as_slice());
    let s2 = crate::text::string_from_chars(g2.as_slice());
    let s3 = crate::text::string_from_chars(g3.as_slice());
    let a = cat(cat(s0.as_str(), "-").as_str(), s1.as_str());
    let b = cat(cat(a.as_str(), "-").as_str(), s2.as_str());
    cat(cat(b.as_str(), "-").as_str(), s3.as_str())
}

/// A fresh 128-bit recovery code, written on paper once and entered at
/// the sign-in box like any passphrase. Whatever the random bytes, it is
/// four groups of eight lower-case hex digits joined by `-`.
pub fn generate_recovery_code() -> (r: String)
    ensures
        exists|raw: Seq<u8>| raw.len() == 16 && r@ == recovery_code_spec(raw),
{
    let raw = random_bytes(16);
    recovery_code_of(raw.as_slice())
}

/// A fresh session token: 32 random bytes as hex. Whatever the bytes, it
/// is 64 lower-case hex digits.
pub fn new_token() -> (r: String)
    ensures
        exists|raw: Seq<u8>| raw.len() == 32 && r@ == hex_spec(raw),
{
    let raw = random_bytes(32);
    crate::vault::hex_of_bytes(raw.as_slice())
}

} // verus!
