//! The key-encryption-key set of an account: presenting a secret against it,
//! adding, dropping and rotating wrappings, flagging one for rotation, and
//! post-login housekeeping. Every wrapping seals the same master key, so
//! none of these operations touches the master or the sealed blob.

use vstd::prelude::*;

use crate::envelope::{
    failure_of, kdf_in_range, stale_spec, unix_secs, unwrap_spec, EnvelopeError,
    EnvelopeFailure, KekKind, MasterKey, Wrapping, sealed_by,
};
use crate::text::{str_eq, string_from_str, strs};

verus! {

/// Why a key-set operation was refused.
#[derive(Debug)]
pub enum UnlockError {
    /// No wrapping in the set accepted the secret.
    NoMatch,
    /// Refused: this would remove the last way into the account.
    WouldOrphan,
    /// No wrapping carries that tag.
    UnknownTag(String),
    /// A wrapping with that tag already exists.
    DuplicateTag(String),
    /// Sealing or opening a wrapping failed.
    Envelope(EnvelopeError),
}

/// The text a key-set error is reported with.
pub open spec fn unlock_message(e: UnlockError) -> Seq<char> {
    match e {
        UnlockError::NoMatch => "no key matched that secret"@,
        UnlockError::WouldOrphan => "that is the only remaining key \u{2014} cannot remove it"@,
        UnlockError::UnknownTag(t) => "no key tagged "@ + crate::text::spec_debug_str(t@),
        UnlockError::DuplicateTag(t) => "a key tagged "@ + crate::text::spec_debug_str(t@) + " already exists"@,
        UnlockError::Envelope(e) => "wrapping the key failed: "@ + crate::envelope::envelope_message(e),
    }
}

impl UnlockError {
    /// The text this error is reported with.
    pub fn message(&self) -> (r: String)
        ensures
            r@ == unlock_message(*self),
    {
        match self {
            UnlockError::NoMatch => string_from_str("no key matched that secret"),
            UnlockError::WouldOrphan => string_from_str("that is the only remaining key \u{2014} cannot remove it"),
            UnlockError::UnknownTag(t) => crate::text::cat("no key tagged ", crate::text::debug_str(t.as_str()).as_str()),
            UnlockError::DuplicateTag(t) => {
                let head = crate::text::cat("a key tagged ", crate::text::debug_str(t.as_str()).as_str());
                crate::text::cat(head.as_str(), " already exists")
            },
            UnlockError::Envelope(e) => crate::text::cat("wrapping the key failed: ", e.message().as_str()),
        }
    }
}

/// One row of the key set for display: metadata only, never key material.
#[derive(Debug, Clone)]
pub struct WrappingInfo {
    pub tag: String,
    pub kind: KekKind,
    pub created_at: u64,
    pub not_after: Option<u64>,
    pub rotate: bool,
    /// Flagged for rotation, or past `not_after`.
    pub stale: bool,
}

/// The display row of `w` at `now`.
pub open spec fn info_of(w: Wrapping, now: u64) -> WrappingInfo {
    WrappingInfo {
        tag: w.tag,
        kind: w.kind,
        created_at: w.created_at,
        not_after: w.not_after,
        rotate: w.rotate,
        stale: stale_spec(w, now),
    }
}

/// The key set as the account's key page shows it at `now`, in set order.
pub fn enumerate_at(wrappings: &[Wrapping], now: u64) -> (r: Vec<WrappingInfo>)
    ensures
        r@.len() == wrappings@.len(),
        forall|i: int| 0 <= i < r@.len() ==> #[trigger] r@[i] == info_of(wrappings@[i], now),
{
    let mut out: Vec<WrappingInfo> = Vec::new();
    let mut i: usize = 0;
    while i < wrappings.len()
        invariant
            i <= wrappings@.len(),
            out@.len() == i,
            forall|j: int| 0 <= j < i ==> #[trigger] out@[j] == info_of(wrappings@[j], now),
        decreases wrappings.len() - i,
    {
        let w = &wrappings[i];
        out.push(WrappingInfo {
            tag: w.tag.clone(),
            kind: w.kind,
            created_at: w.created_at,
            not_after: w.not_after,
            rotate: w.rotate,
            stale: w.stale(now),
        });
        i = i + 1;
    }
    out
}

/// The rows `r` are the key set `ws` as shown at clock reading `now`.
pub open spec fn shown_at(r: Seq<WrappingInfo>, ws: Seq<Wrapping>, now: u64) -> bool {
    r.len() == ws.len() && forall|j: int| 0 <= j < r.len() ==> #[trigger] r[j] == info_of(ws[j], now)
}

/// The key set as the account's key page shows it now: one row per
/// wrapping, in set order, carrying its tag, kind and dates, and staleness
/// judged at one clock reading for every row.
pub fn enumerate(wrappings: &[Wrapping]) -> (r: Vec<WrappingInfo>)
    ensures
        r@.len() == wrappings@.len(),
        forall|i: int| 0 <= i < r@.len() ==> {
            &&& (#[trigger] r@[i]).tag == wrappings@[i].tag
            &&& r@[i].kind == wrappings@[i].kind
            &&& r@[i].created_at == wrappings@[i].created_at
            &&& r@[i].not_after == wrappings@[i].not_after
            &&& r@[i].rotate == wrappings@[i].rotate
        },
        exists|now: u64| #[trigger] shown_at(r@, wrappings@, now),
{
    let now = unix_secs();
    let r = enumerate_at(wrappings, now);
    assert(shown_at(r@, wrappings@, now));
    r
}

/// A master key just recovered from the key set.
pub struct Unlocked {
    pub master: MasterKey,
    /// The tag of the wrapping that let us in.
    pub via: String,
    /// That wrapping is flagged for rotation or expired.
    pub stale: bool,
}

/// The `Secret` wrappings of `ws` whose staleness at `now` is `stale`, in
/// set order.
pub open spec fn secret_rows(ws: Seq<Wrapping>, now: u64, stale: bool) -> Seq<Wrapping>
    decreases ws.len(),
{
    if ws.len() == 0 {
        Seq::empty()
    } else {
        let prev = secret_rows(ws.drop_last(), now, stale);
        let w = ws.last();
        if w.kind == KekKind::Secret && stale_spec(w, now) == stale {
            prev.push(w)
        } else {
            prev
        }
    }
}

/// The order a presented secret is tried in: fresh `Secret` rows first,
/// then stale ones, each in set order.
pub open spec fn try_order(ws: Seq<Wrapping>, now: u64) -> Seq<Wrapping> {
    secret_rows(ws, now, false) + secret_rows(ws, now, true)
}

/// Trying `secret` against `cs` in order: the first row it unwraps, or, when
/// none does, the class of the last failure that was not a plain wrong
/// secret (`None` when every failure was).
pub open spec fn scan(cs: Seq<Wrapping>, secret: Seq<u8>, broken: Option<EnvelopeFailure>) -> Result<
    Wrapping,
    Option<EnvelopeFailure>,
>
    decreases cs.len(),
{
    if cs.len() == 0 {
        Err(broken)
    } else {
        match unwrap_spec(cs[0], secret) {
            Ok(_) => Ok(cs[0]),
            Err(f) => scan(
                cs.drop_first(),
                secret,
                if f == EnvelopeFailure::Decrypt { broken } else { Some(f) },
            ),
        }
    }
}

/// Every wrapping's derivation parameters are in range.
pub open spec fn all_in_range(ws: Seq<Wrapping>) -> bool {
    forall|i: int| 0 <= i < ws.len() ==> kdf_in_range(#[trigger] ws[i])
}

/// Whether every wrapping's derivation parameters are in range: the check
/// a caller makes on rows read from storage before presenting a secret.
pub fn wrappings_in_range(ws: &[Wrapping]) -> (r: bool)
    ensures
        r == all_in_range(ws@),
{
    let mut i: usize = 0;
    while i < ws.len()
        invariant
            i <= ws@.len(),
            forall|j: int| 0 <= j < i ==> kdf_in_range(#[trigger] ws@[j]),
        decreases ws.len() - i,
    {
        if ws[i].kdf.p_cost > u32::MAX / 8 {
            assert(!kdf_in_range(ws@[i as int]));
            return false;
        }
        i = i + 1;
    }
    true
}

proof fn lemma_secret_rows_from(ws: Seq<Wrapping>, now: u64, stale: bool)
    ensures
        forall|j: int| 0 <= j < secret_rows(ws, now, stale).len() ==> ws.contains(
            #[trigger] secret_rows(ws, now, stale)[j],
        ) && secret_rows(ws, now, stale)[j].kind == KekKind::Secret && stale_spec(
            secret_rows(ws, now, stale)[j],
            now,
        ) == stale,
    decreases ws.len(),
{
    if ws.len() > 0 {
        lemma_secret_rows_from(ws.drop_last(), now, stale);
        let prev = secret_rows(ws.drop_last(), now, stale);
        assert forall|j: int| 0 <= j < prev.len() implies ws.contains(#[trigger] prev[j]) by {
            let w = choose|w: int| 0 <= w < ws.drop_last().len() && ws.drop_last()[w] == prev[j];
            assert(ws[w] == prev[j]);
        }
        assert(ws[ws.len() - 1] == ws.last());
    }
}

impl Unlocked {
    /// The recovered master key.
    pub open spec fn master_view(&self) -> Seq<u8> {
        self.master@
    }
}

/// The rows the indices `idx` point at in `ws`.
pub open spec fn rows_at(ws: Seq<Wrapping>, idx: Seq<usize>) -> Seq<Wrapping> {
    idx.map_values(|k: usize| ws[k as int])
}

fn collect_rows(ws: &[Wrapping], now: u64, stale: bool, out: &mut Vec<usize>)
    requires
        forall|j: int| 0 <= j < old(out)@.len() ==> (#[trigger] old(out)@[j]) < ws@.len(),
    ensures
        rows_at(ws@, final(out)@) == rows_at(ws@, old(out)@) + secret_rows(ws@, now, stale),
        forall|j: int| 0 <= j < final(out)@.len() ==> (#[trigger] final(out)@[j]) < ws@.len(),
{
    let ghost start = rows_at(ws@, out@);
    let mut i: usize = 0;
    while i < ws.len()
        invariant
            i <= ws@.len(),
            rows_at(ws@, out@) == start + secret_rows(ws@.take(i as int), now, stale),
            forall|j: int| 0 <= j < out@.len() ==> (#[trigger] out@[j]) < ws@.len(),
        decreases ws.len() - i,
    {
        let w = &ws[i];
        let ghost before = out@;
        if w.kind == KekKind::Secret && w.stale(now) == stale {
            out.push(i);
            assert(rows_at(ws@, out@) =~= rows_at(ws@, before).push(ws@[i as int]));
        }
        proof {
            assert(ws@.take(i + 1).drop_last() =~= ws@.take(i as int));
            assert(ws@.take(i + 1).last() == ws@[i as int]);
        }
        i = i + 1;
    }
    assert(ws@.take(ws@.len() as int) =~= ws@);
}

/// What presenting `secret` to the key set `ws` at clock reading `now`
/// gives: the first row of [`try_order`] it unwraps lets the caller in with
/// that row's master, tag and staleness; otherwise the failure of the last
/// broken row, or `NoMatch`.
pub open spec fn presented_at(ws: Seq<Wrapping>, secret: Seq<u8>, now: u64, r: Result<Unlocked, UnlockError>) -> bool {
    match scan(try_order(ws, now), secret, None) {
        Ok(w) => r matches Ok(u) && unwrap_spec(w, secret) == Ok::<Seq<u8>, EnvelopeFailure>(u.master@) && u.via@
            == w.tag@ && u.stale == stale_spec(w, now),
        Err(Some(f)) => r matches Err(UnlockError::Envelope(e)) && failure_of(e) == f,
        Err(None) => r matches Err(UnlockError::NoMatch),
    }
}

/// Try `secret` against every `Secret` wrapping, fresh rows before stale
/// ones, at clock reading `now`. The first row it unwraps lets the caller
/// in, reporting that row's tag and staleness. When none does: the failure
/// of the last row that was broken rather than merely the wrong secret, or
/// `NoMatch` when every row was simply the wrong secret.
pub fn present_secret_at(wrappings: &[Wrapping], secret: &[u8], now: u64) -> (r: Result<
    Unlocked,
    UnlockError,
>)
    requires
        all_in_range(wrappings@),
    ensures
        presented_at(wrappings@, secret@, now, r),
{
    let mut order: Vec<usize> = Vec::new();
    assert(rows_at(wrappings@, order@) =~= Seq::<Wrapping>::empty());
    collect_rows(wrappings, now, false, &mut order);
    collect_rows(wrappings, now, true, &mut order);
    let ghost cs = try_order(wrappings@, now);
    assert(rows_at(wrappings@, order@) =~= cs);
    proof {
        lemma_secret_rows_from(wrappings@, now, false);
        lemma_secret_rows_from(wrappings@, now, true);
        assert forall|j: int| 0 <= j < cs.len() implies kdf_in_range(#[trigger] cs[j]) by {
            if j < secret_rows(wrappings@, now, false).len() {
                assert(cs[j] == secret_rows(wrappings@, now, false)[j]);
            } else {
                let k = j - secret_rows(wrappings@, now, false).len();
                assert(cs[j] == secret_rows(wrappings@, now, true)[k]);
            }
            let w = choose|w: int| 0 <= w < wrappings@.len() && wrappings@[w] == cs[j];
            assert(kdf_in_range(wrappings@[w]));
        }
    }
    let mut broken: Option<EnvelopeError> = None;
    let mut i: usize = 0;
    assert(cs.skip(0) =~= cs);
    while i < order.len()
        invariant
            i <= order@.len(),
            rows_at(wrappings@, order@) == cs,
            cs == try_order(wrappings@, now),
            forall|j: int| 0 <= j < order@.len() ==> (#[trigger] order@[j]) < wrappings@.len(),
            forall|j: int| 0 <= j < cs.len() ==> kdf_in_range(#[trigger] cs[j]),
            scan(cs, secret@, None) == scan(
                cs.skip(i as int),
                secret@,
                match broken {
                    Some(e) => Some(failure_of(e)),
                    None => None,
                },
            ),
        decreases order.len() - i,
    {
        let w = &wrappings[order[i]];
        proof {
            assert(cs[i as int] == wrappings@[order@[i as int] as int]);
            assert(cs.skip(i as int)[0] == cs[i as int]);
            assert(cs.skip(i as int).drop_first() =~= cs.skip(i + 1));
        }
        match w.unwrap_secret(secret) {
            Ok(master) => {
                assert(scan(cs.skip(i as int), secret@, match broken {
                    Some(e) => Some(failure_of(e)),
                    None => None,
                }) == Ok::<Wrapping, Option<EnvelopeFailure>>(cs[i as int]));
                return Ok(Unlocked { master, via: w.tag.clone(), stale: w.stale(now) });
            },
            Err(EnvelopeError::Decrypt) => {},
            Err(e) => {
                broken = Some(e);
            },
        }
        i = i + 1;
    }
    assert(cs.skip(cs.len() as int) =~= Seq::<Wrapping>::empty());
    match broken {
        Some(e) => Err(UnlockError::Envelope(e)),
        None => Err(UnlockError::NoMatch),
    }
}

/// [`present_secret_at`] at the current time: the result is what presenting
/// the secret gives at the clock reading taken. Whatever that reading, a
/// success comes from a `Secret` wrapping of the set that the secret
/// unwraps, with that wrapping's tag.
pub fn present_secret(wrappings: &[Wrapping], secret: &[u8]) -> (r: Result<Unlocked, UnlockError>)
    requires
        all_in_range(wrappings@),
    ensures
        exists|now: u64| #[trigger] presented_at(wrappings@, secret@, now, r),
        r matches Ok(u) ==> exists|i: int|
            0 <= i < wrappings@.len() && (#[trigger] wrappings@[i]).tag@ == u.via@ && unwrap_spec(
                wrappings@[i],
                secret@,
            ) == Ok::<Seq<u8>, EnvelopeFailure>(u.master@),
{
    let now = unix_secs();
    let r = present_secret_at(wrappings, secret, now);
    assert(presented_at(wrappings@, secret@, now, r));
    proof {
        lemma_scan_found(try_order(wrappings@, now), secret@, None);
        lemma_secret_rows_from(wrappings@, now, false);
        lemma_secret_rows_from(wrappings@, now, true);
        if let Ok(w) = scan(try_order(wrappings@, now), secret@, None) {
            let cs = try_order(wrappings@, now);
            let j = choose|j: int| 0 <= j < cs.len() && cs[j] == w;
            let a = secret_rows(wrappings@, now, false);
            if j < a.len() {
                assert(cs[j] == a[j]);
            } else {
                assert(cs[j] == secret_rows(wrappings@, now, true)[j - a.len()]);
            }
            let i = choose|i: int| 0 <= i < wrappings@.len() && wrappings@[i] == w;
            assert(wrappings@[i].tag@ == w.tag@);
        }
    }
    r
}

proof fn lemma_scan_found(cs: Seq<Wrapping>, secret: Seq<u8>, broken: Option<EnvelopeFailure>)
    ensures
        scan(cs, secret, broken) matches Ok(w) ==> (exists|j: int| 0 <= j < cs.len() && cs[j] == w)
            && unwrap_spec(w, secret) is Ok,
    decreases cs.len(),
{
    if cs.len() > 0 {
        let f = match unwrap_spec(cs[0], secret) {
            Ok(_) => broken,
            Err(f) => if f == EnvelopeFailure::Decrypt { broken } else { Some(f) },
        };
        lemma_scan_found(cs.drop_first(), secret, f);
        if let Ok(w) = scan(cs, secret, broken) {
            if !(unwrap_spec(cs[0], secret) is Ok) {
                let j = choose|j: int| 0 <= j < cs.drop_first().len() && cs.drop_first()[j] == w;
                assert(cs[j + 1] == w);
            }
        }
    }
}

/// The index of the first wrapping tagged `tag`, if any.
pub open spec fn tag_index(ws: Seq<Wrapping>, tag: Seq<char>) -> Option<int>
    decreases ws.len(),
{
    if ws.len() == 0 {
        None
    } else if ws[0].tag@ == tag {
        Some(0)
    } else {
        match tag_index(ws.drop_first(), tag) {
            Some(i) => Some(i + 1),
            None => None,
        }
    }
}

/// Tags are held at most once.
pub open spec fn tags_unique(ws: Seq<Wrapping>) -> bool {
    forall|a: int, b: int| 0 <= a < b < ws.len() ==> (#[trigger] ws[a]).tag@ != (#[trigger] ws[b]).tag@
}

proof fn lemma_tag_index(ws: Seq<Wrapping>, tag: Seq<char>)
    ensures
        tag_index(ws, tag) matches Some(i) ==> 0 <= i < ws.len() && ws[i].tag@ == tag && forall|j: int|
            0 <= j < i ==> (#[trigger] ws[j]).tag@ != tag,
        tag_index(ws, tag) is None ==> forall|j: int| 0 <= j < ws.len() ==> (#[trigger] ws[j]).tag@ != tag,
    decreases ws.len(),
{
    if ws.len() > 0 {
        lemma_tag_index(ws.drop_first(), tag);
        assert forall|j: int| 0 < j < ws.len() implies #[trigger] ws[j] == ws.drop_first()[j - 1] by {}
    }
}

/// Where the first wrapping tagged `tag` sits, and that none before it,
/// or none at all, carries the tag.
pub proof fn lemma_tag_index_pub(ws: Seq<Wrapping>, tag: Seq<char>)
    ensures
        tag_index(ws, tag) matches Some(i) ==> 0 <= i < ws.len() && ws[i].tag@ == tag && forall|j: int|
            0 <= j < i ==> (#[trigger] ws[j]).tag@ != tag,
        tag_index(ws, tag) is None ==> forall|j: int| 0 <= j < ws.len() ==> (#[trigger] ws[j]).tag@ != tag,
{
    lemma_tag_index(ws, tag);
}

fn find_tag(ws: &Vec<Wrapping>, tag: &str) -> (r: Option<usize>)
    ensures
        r matches Some(i) ==> tag_index(ws@, tag@) == Some(i as int),
        r is None ==> tag_index(ws@, tag@) is None,
{
    proof {
        lemma_tag_index(ws@, tag@);
    }
    let mut i: usize = 0;
    while i < ws.len()
        invariant
            i <= ws@.len(),
            forall|j: int| 0 <= j < i ==> (#[trigger] ws@[j]).tag@ != tag@,
            tag_index(ws@, tag@) matches Some(k) ==> 0 <= k < ws@.len() && ws@[k].tag@ == tag@ && forall|j: int|
                0 <= j < k ==> (#[trigger] ws@[j]).tag@ != tag@,
            tag_index(ws@, tag@) is None ==> forall|j: int| 0 <= j < ws@.len() ==> (#[trigger] ws@[j]).tag@ != tag@,
        decreases ws.len() - i,
    {
        if str_eq(ws[i].tag.as_str(), tag) {
            return Some(i);
        }
        i = i + 1;
    }
    None
}

/// A fresh `Secret` wrapping of `master` under `secret` with this tag and
/// no expiry, not flagged.
pub open spec fn new_row(w: Wrapping, tag: Seq<char>, secret: Seq<u8>, master: Seq<u8>) -> bool {
    &&& w.tag@ == tag
    &&& w.not_after is None
    &&& !w.rotate
    &&& sealed_by(w, secret, master)
}

/// Append a fresh `Secret` wrapping of `master` under `secret`, tagged
/// `tag`. A tag already in the set is refused and the set left unchanged;
/// so is a derivation Argon2id refuses.
pub fn add_secret(wrappings: &mut Vec<Wrapping>, master: &MasterKey, tag: &str, secret: &[u8]) -> (r: Result<
    (),
    UnlockError,
>)
    ensures
        tag_index(old(wrappings)@, tag@) is Some ==> (r matches Err(UnlockError::DuplicateTag(t)) && t@ == tag@),
        r is Ok ==> tag_index(old(wrappings)@, tag@) is None && final(wrappings)@.len() == old(wrappings)@.len() + 1
            && final(wrappings)@.drop_last() == old(wrappings)@ && new_row(
            final(wrappings)@.last(),
            tag@,
            secret@,
            master@,
        ),
        r is Err ==> final(wrappings)@ == old(wrappings)@,
        r matches Err(e) ==> e is DuplicateTag || e matches UnlockError::Envelope(EnvelopeError::Kdf(_)),
        r matches Err(UnlockError::DuplicateTag(_)) ==> tag_index(old(wrappings)@, tag@) is Some,
        tag_index(old(wrappings)@, tag@) is None && secret@.len() <= 0xffff_ffff ==> r is Ok,
        tags_unique(old(wrappings)@) ==> tags_unique(final(wrappings)@),
{
    if find_tag(wrappings, tag).is_some() {
        return Err(UnlockError::DuplicateTag(string_from_str(tag)));
    }
    match Wrapping::seal_secret(tag, secret, master) {
        Ok(w) => {
            proof {
                lemma_tag_index(wrappings@, tag@);
            }
            wrappings.push(w);
            assert(wrappings@.drop_last() =~= old(wrappings)@);
            Ok(())
        },
        Err(e) => Err(UnlockError::Envelope(e)),
    }
}

/// Remove the wrapping tagged `tag` and hand it back. An unknown tag is
/// refused; so is removing the only wrapping left.
pub fn drop_tag(wrappings: &mut Vec<Wrapping>, tag: &str) -> (r: Result<Wrapping, UnlockError>)
    ensures
        match tag_index(old(wrappings)@, tag@) {
            None => r matches Err(UnlockError::UnknownTag(t)) && t@ == tag@ && final(wrappings)@ == old(wrappings)@,
            Some(i) => if old(wrappings)@.len() == 1 {
                r matches Err(UnlockError::WouldOrphan) && final(wrappings)@ == old(wrappings)@
            } else {
                r matches Ok(w) && w == old(wrappings)@[i] && final(wrappings)@ == old(wrappings)@.remove(i)
            },
        },
        old(wrappings)@.len() > 0 ==> final(wrappings)@.len() > 0,
        tags_unique(old(wrappings)@) ==> tags_unique(final(wrappings)@),
{
    let idx = match find_tag(wrappings, tag) {
        Some(i) => i,
        None => {
            return Err(UnlockError::UnknownTag(string_from_str(tag)));
        },
    };
    proof {
        lemma_tag_index(wrappings@, tag@);
    }
    if wrappings.len() == 1 {
        return Err(UnlockError::WouldOrphan);
    }
    Ok(wrappings.remove(idx))
}

/// Re-seal the wrapping tagged `tag` under `new_secret`: a fresh salt and
/// nonce, the flag cleared, the same tag and position. An unknown tag is
/// refused; a refused derivation (a secret longer than 2^32 - 1 bytes)
/// leaves the set unchanged.
pub fn rotate_secret(wrappings: &mut Vec<Wrapping>, master: &MasterKey, tag: &str, new_secret: &[u8]) -> (r: Result<
    (),
    UnlockError,
>)
    ensures
        match tag_index(old(wrappings)@, tag@) {
            None => r matches Err(UnlockError::UnknownTag(t)) && t@ == tag@ && final(wrappings)@ == old(wrappings)@,
            Some(i) => match r {
                Ok(()) => final(wrappings)@.len() == old(wrappings)@.len() && final(wrappings)@ == old(wrappings)@.update(
                    i,
                    final(wrappings)@[i],
                ) && new_row(final(wrappings)@[i], tag@, new_secret@, master@),
                Err(e) => e matches UnlockError::Envelope(EnvelopeError::Kdf(_)) && final(wrappings)@ == old(wrappings)@,
            },
        },
        tag_index(old(wrappings)@, tag@) is Some && new_secret@.len() <= 0xffff_ffff ==> r is Ok,
        tags_unique(old(wrappings)@) ==> tags_unique(final(wrappings)@),
{
    let idx = match find_tag(wrappings, tag) {
        Some(i) => i,
        None => {
            return Err(UnlockError::UnknownTag(string_from_str(tag)));
        },
    };
    proof {
        lemma_tag_index(wrappings@, tag@);
    }
    match Wrapping::seal_secret(tag, new_secret, master) {
        Ok(w) => {
            wrappings.set(idx, w);
            Ok(())
        },
        Err(e) => Err(UnlockError::Envelope(e)),
    }
}

/// Flag the wrapping tagged `tag` so the next login re-wraps or drops it.
/// An unknown tag is refused.
pub fn flag_for_rotation(wrappings: &mut Vec<Wrapping>, tag: &str) -> (r: Result<(), UnlockError>)
    ensures
        match tag_index(old(wrappings)@, tag@) {
            None => r matches Err(UnlockError::UnknownTag(t)) && t@ == tag@ && final(wrappings)@ == old(wrappings)@,
            Some(i) => r is Ok && final(wrappings)@ == old(wrappings)@.update(
                i,
                Wrapping { rotate: true, ..old(wrappings)@[i] },
            ),
        },
        tags_unique(old(wrappings)@) ==> tags_unique(final(wrappings)@),
{
    let idx = match find_tag(wrappings, tag) {
        Some(i) => i,
        None => {
            return Err(UnlockError::UnknownTag(string_from_str(tag)));
        },
    };
    proof {
        lemma_tag_index(wrappings@, tag@);
    }
    let mut w = wrappings.remove(idx);
    w.rotate = true;
    wrappings.insert(idx, w);
    Ok(())
}

/// The wrappings of `ws` not stale at `now`, in order.
pub open spec fn fresh_rows(ws: Seq<Wrapping>, now: u64) -> Seq<Wrapping>
    decreases ws.len(),
{
    if ws.len() == 0 {
        Seq::empty()
    } else {
        let prev = fresh_rows(ws.drop_last(), now);
        if stale_spec(ws.last(), now) { prev } else { prev.push(ws.last()) }
    }
}

/// The tags of the wrappings of `ws` stale at `now`, in order.
pub open spec fn stale_tags(ws: Seq<Wrapping>, now: u64) -> Seq<Seq<char>>
    decreases ws.len(),
{
    if ws.len() == 0 {
        Seq::empty()
    } else {
        let prev = stale_tags(ws.drop_last(), now);
        if stale_spec(ws.last(), now) { prev.push(ws.last().tag@) } else { prev }
    }
}

/// At least one wrapping of `ws` is fresh at `now`.
pub open spec fn any_fresh(ws: Seq<Wrapping>, now: u64) -> bool {
    exists|i: int| 0 <= i < ws.len() && !stale_spec(#[trigger] ws[i], now)
}

/// What sweeping `ws` at `now` leaves and drops: with a fresh wrapping
/// left, every stale one goes and its tag is reported, in set order; an
/// all-stale set stays as it is and nothing is reported.
pub open spec fn swept_at(ws: Seq<Wrapping>, now: u64, kept: Seq<Wrapping>, dropped: Seq<Seq<char>>) -> bool {
    if any_fresh(ws, now) {
        kept == fresh_rows(ws, now) && dropped == stale_tags(ws, now)
    } else {
        kept == ws && dropped.len() == 0
    }
}

/// Post-login housekeeping at `now`: drop every stale wrapping provided at
/// least one fresh wrapping remains, and return the dropped tags in set
/// order. An all-stale set is left intact.
pub fn sweep_stale_at(wrappings: &mut Vec<Wrapping>, now: u64) -> (dropped: Vec<String>)
    ensures
        swept_at(old(wrappings)@, now, final(wrappings)@, strs(dropped@)),
        any_fresh(old(wrappings)@, now) ==> final(wrappings)@ == fresh_rows(old(wrappings)@, now)
            && dropped@.map_values(|s: String| s@) == stale_tags(old(wrappings)@, now),
        !any_fresh(old(wrappings)@, now) ==> final(wrappings)@ == old(wrappings)@ && dropped@.len() == 0,
        tags_unique(old(wrappings)@) ==> tags_unique(final(wrappings)@),
{
    let mut has_fresh = false;
    let mut i: usize = 0;
    while i < wrappings.len()
        invariant
            i <= wrappings@.len(),
            has_fresh == exists|j: int| 0 <= j < i && !stale_spec(#[trigger] wrappings@[j], now),
        decreases wrappings.len() - i,
    {
        if !wrappings[i].stale(now) {
            has_fresh = true;
        }
        i = i + 1;
    }
    if !has_fresh {
        return Vec::new();
    }
    let mut rest: Vec<Wrapping> = Vec::new();
    std::mem::swap(&mut rest, wrappings);
    let ghost all = rest@;
    let mut kept: Vec<Wrapping> = Vec::new();
    let mut dropped: Vec<String> = Vec::new();
    let ghost mut k: int = 0;
    while rest.len() > 0
        invariant
            0 <= k <= all.len(),
            rest@ == all.skip(k),
            kept@ == fresh_rows(all.take(k), now),
            dropped@.map_values(|s: String| s@) == stale_tags(all.take(k), now),
        decreases rest.len(),
    {
        let w = rest.remove(0);
        proof {
            assert(all.take(k + 1).drop_last() =~= all.take(k));
            assert(all.take(k + 1).last() == all[k]);
            assert(w == all[k]);
            assert(rest@ =~= all.skip(k + 1));
            k = k + 1;
        }
        if w.stale(now) {
            let ghost before = dropped@;
            dropped.push(w.tag);
            assert(dropped@.map_values(|s: String| s@) =~= before.map_values(|s: String| s@).push(w.tag@));
        } else {
            kept.push(w);
        }
    }
    assert(all.take(all.len() as int) =~= all);
    proof {
        lemma_fresh_rows_keep_unique(all, now);
    }
    *wrappings = kept;
    dropped
}

/// [`sweep_stale_at`] at the current time: what stays and what is dropped
/// are what a sweep at the clock reading taken gives. Whatever that
/// reading, what stays is empty only if the set was.
pub fn sweep_stale(wrappings: &mut Vec<Wrapping>) -> (dropped: Vec<String>)
    ensures
        exists|now: u64| #[trigger] swept_at(old(wrappings)@, now, final(wrappings)@, strs(dropped@)),
        old(wrappings)@.len() > 0 ==> final(wrappings)@.len() > 0,
        final(wrappings)@.len() + dropped@.len() == old(wrappings)@.len(),
        tags_unique(old(wrappings)@) ==> tags_unique(final(wrappings)@),
{
    let now = unix_secs();
    let d = sweep_stale_at(wrappings, now);
    proof {
        lemma_sweep_sizes(old(wrappings)@, now);
        lemma_fresh_rows_keep_unique(old(wrappings)@, now);
        assert(swept_at(old(wrappings)@, now, wrappings@, strs(d@)));
    }
    d
}

proof fn lemma_fresh_rows_from(ws: Seq<Wrapping>, now: u64)
    ensures
        forall|j: int| 0 <= j < fresh_rows(ws, now).len() ==> ws.contains(#[trigger] fresh_rows(ws, now)[j]),
    decreases ws.len(),
{
    if ws.len() > 0 {
        lemma_fresh_rows_from(ws.drop_last(), now);
        let prev = fresh_rows(ws.drop_last(), now);
        assert forall|j: int| 0 <= j < prev.len() implies ws.contains(#[trigger] prev[j]) by {
            let w = choose|w: int| 0 <= w < ws.drop_last().len() && ws.drop_last()[w] == prev[j];
            assert(ws[w] == prev[j]);
        }
        assert(ws[ws.len() - 1] == ws.last());
    }
}

proof fn lemma_fresh_rows_keep_unique(ws: Seq<Wrapping>, now: u64)
    ensures
        tags_unique(ws) ==> tags_unique(fresh_rows(ws, now)),
    decreases ws.len(),
{
    if ws.len() > 0 && tags_unique(ws) {
        let init = ws.drop_last();
        assert(tags_unique(init)) by {
            assert forall|a: int, b: int| 0 <= a < b < init.len() implies (#[trigger] init[a]).tag@ != (#[trigger] init[b]).tag@ by {
                assert(init[a] == ws[a] && init[b] == ws[b]);
            }
        }
        lemma_fresh_rows_keep_unique(init, now);
        lemma_fresh_rows_from(init, now);
        let prev = fresh_rows(init, now);
        if !stale_spec(ws.last(), now) {
            let cur = prev.push(ws.last());
            assert forall|a: int, b: int| 0 <= a < b < cur.len() implies (#[trigger] cur[a]).tag@ != (#[trigger] cur[b]).tag@ by {
                if b == cur.len() - 1 {
                    assert(init.contains(prev[a]));
                    let k = choose|k: int| 0 <= k < init.len() && init[k] == prev[a];
                    assert(ws[k] == prev[a]);
                    assert(ws[ws.len() - 1] == ws.last());
                } else {
                    assert(cur[a] == prev[a] && cur[b] == prev[b]);
                }
            }
        }
    }
}

proof fn lemma_sweep_sizes(ws: Seq<Wrapping>, now: u64)
    ensures
        fresh_rows(ws, now).len() + stale_tags(ws, now).len() == ws.len(),
        any_fresh(ws, now) ==> fresh_rows(ws, now).len() > 0,
    decreases ws.len(),
{
    if ws.len() > 0 {
        lemma_sweep_sizes(ws.drop_last(), now);
        if any_fresh(ws, now) && stale_spec(ws.last(), now) {
            let i = choose|i: int| 0 <= i < ws.len() && !stale_spec(#[trigger] ws[i], now);
            assert(i != ws.len() - 1);
            assert(ws.drop_last()[i] == ws[i]);
            assert(any_fresh(ws.drop_last(), now));
        }
    }
}

proof fn lemma_secret_rows_has(ws: Seq<Wrapping>, now: u64, stale: bool, i: int)
    requires
        0 <= i < ws.len(),
        ws[i].kind == KekKind::Secret,
        stale_spec(ws[i], now) == stale,
    ensures
        secret_rows(ws, now, stale).contains(ws[i]),
    decreases ws.len(),
{
    if i < ws.len() - 1 {
        lemma_secret_rows_has(ws.drop_last(), now, stale, i);
        let prev = secret_rows(ws.drop_last(), now, stale);
        let k = choose|k: int| 0 <= k < prev.len() && prev[k] == ws.drop_last()[i];
        assert(secret_rows(ws, now, stale)[k] == prev[k]);
    } else {
        assert(ws.last() == ws[i]);
        let cur = secret_rows(ws, now, stale);
        assert(cur[cur.len() - 1] == ws[i]);
    }
}

proof fn lemma_scan_stops_in_prefix(
    a: Seq<Wrapping>,
    b: Seq<Wrapping>,
    secret: Seq<u8>,
    broken: Option<EnvelopeFailure>,
)
    requires
        exists|j: int| 0 <= j < a.len() && unwrap_spec(#[trigger] a[j], secret) is Ok,
    ensures
        scan(a + b, secret, broken) matches Ok(w) && a.contains(w),
    decreases a.len(),
{
    let ab = a + b;
    assert(ab[0] == a[0]);
    if !(unwrap_spec(a[0], secret) is Ok) {
        let j = choose|j: int| 0 <= j < a.len() && unwrap_spec(#[trigger] a[j], secret) is Ok;
        assert(a.drop_first()[j - 1] == a[j]);
        let f = match unwrap_spec(a[0], secret) {
            Ok(_) => broken,
            Err(f) => if f == EnvelopeFailure::Decrypt { broken } else { Some(f) },
        };
        lemma_scan_stops_in_prefix(a.drop_first(), b, secret, f);
        assert(ab.drop_first() =~= a.drop_first() + b);
        let w = scan(a.drop_first() + b, secret, f)->Ok_0;
        let k = choose|k: int| 0 <= k < a.drop_first().len() && a.drop_first()[k] == w;
        assert(a[k + 1] == w);
    } else {
        assert(a.contains(a[0]));
    }
}

/// A live key is preferred over a stale one: when some fresh `Secret`
/// wrapping accepts the secret, the wrapping that lets the caller in is a
/// fresh one that accepts it.
pub proof fn law_present_prefers_fresh(ws: Seq<Wrapping>, secret: Seq<u8>, now: u64, i: int)
    requires
        0 <= i < ws.len(),
        ws[i].kind == KekKind::Secret,
        !stale_spec(ws[i], now),
        unwrap_spec(ws[i], secret) is Ok,
    ensures
        scan(try_order(ws, now), secret, None) matches Ok(w) && !stale_spec(w, now) && ws.contains(w)
            && unwrap_spec(w, secret) is Ok,
{
    let fresh = secret_rows(ws, now, false);
    lemma_secret_rows_has(ws, now, false, i);
    lemma_secret_rows_from(ws, now, false);
    let k = choose|k: int| 0 <= k < fresh.len() && fresh[k] == ws[i];
    assert(unwrap_spec(fresh[k], secret) is Ok);
    lemma_scan_stops_in_prefix(fresh, secret_rows(ws, now, true), secret, None);
    lemma_scan_found(try_order(ws, now), secret, None);
    let w = scan(try_order(ws, now), secret, None)->Ok_0;
    let m = choose|m: int| 0 <= m < fresh.len() && fresh[m] == w;
    assert(fresh.contains(fresh[m]));
}

} // verus!
