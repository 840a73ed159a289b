//! The client's on-disk identity: where the key file lives, and its text
//! form, 32 bytes as 64 hexadecimal digits.


use vstd::prelude::*;

use crate::text::{chars_of, hex_digit, hex_spec, string_from_chars};

verus! {

/// The path `name` names inside the directory `dir`, as `Path::join` forms
/// it for a relative `name` with the `/` separator: `name` alone when `dir`
/// is empty, appended directly when `dir` already ends in `/`, and after a
/// `/` otherwise.
pub open spec fn joined(dir: Seq<char>, name: Seq<char>) -> Seq<char> {
    if dir.len() == 0 {
        name
    } else if dir.last() == '/' {
        dir + name
    } else {
        dir + "/"@ + name
    }
}

/// `Path::join` of a relative file name, as text. Claimed: the result is
/// [`joined`], which is what `PathBuf::push` documents for a relative path
/// (a separator is added unless the base is empty or already ends in one).
/// Both inputs are text, so the joined path is text and the lossy
/// conversion back changes nothing.
#[verifier::external_body]
fn path_join(dir: &str, name: &str) -> (r: String)
    requires
        name@.len() > 0,
        name@[0] != '/',
    ensures
        r@ == joined(dir@, name@),
{
    std::path::Path::new(dir).join(name).to_string_lossy().into_owned()
}

/// On-disk client state: one secret key in one directory. The key file is
/// the whole identity; there is no account to recover it from.
pub struct Vault {
    dir: String,
}

impl Vault {
    /// The directory the vault lives in.
    pub closed spec fn dir(&self) -> Seq<char> {
        self.dir@
    }

    /// A vault in `dir`.
    pub fn at(dir: &str) -> (r: Self)
        ensures
            r.dir() == dir@,
    {
        Vault { dir: dir.to_string() }
    }

    /// Where the secret key is kept: `identity.key` in the vault's
    /// directory.
    pub fn key_path(&self) -> (r: String)
        ensures
            r@ == joined(self.dir(), "identity.key"@),
    {
        proof {
            reveal_strlit("identity.key");
        }
        path_join(self.dir.as_str(), "identity.key")
    }
}

fn hex_char(d: u8) -> (c: char)
    requires
        d < 16,
    ensures
        c == hex_digit(d as nat),
{
    match d {
        0 => '0',
        1 => '1',
        2 => '2',
        3 => '3',
        4 => '4',
        5 => '5',
        6 => '6',
        7 => '7',
        8 => '8',
        9 => '9',
        10 => 'a',
        11 => 'b',
        12 => 'c',
        13 => 'd',
        14 => 'e',
        _ => 'f',
    }
}

/// The 32 key bytes as 64 lower-case hexadecimal digits.
pub fn hex_of(bytes: &[u8; 32]) -> (r: String)
    ensures
        r@ == hex_spec(bytes@),
{
    hex_of_bytes(bytes.as_slice())
}

/// Bytes as lower-case hexadecimal, two digits per byte, high nibble first.
pub fn hex_of_bytes(b: &[u8]) -> (r: String)
    ensures
        r@ == hex_spec(b@),
{
    let mut out: Vec<char> = Vec::new();
    let mut i: usize = 0;
    while i < b.len()
        invariant
            i <= b@.len(),
            out@ == hex_spec(b@.take(i as int)),
        decreases b.len() - i,
    {
        proof {
            assert(b@.take(i + 1).drop_last() =~= b@.take(i as int));
            assert(b@.take(i + 1).last() == b@[i as int]);
        }
        out.push(hex_char(b[i] / 16));
        out.push(hex_char(b[i] % 16));
        i = i + 1;
    }
    assert(b@.take(b@.len() as int) =~= b@);
    string_from_chars(out.as_slice())
}

/// A hexadecimal digit, in either case.
pub open spec fn is_hex_char(c: char) -> bool {
    let v = c as u32;
    (48 <= v <= 57) || (97 <= v <= 102) || (65 <= v <= 70)
}

/// The value of a hexadecimal digit.
pub open spec fn hex_value(c: char) -> nat {
    let v = c as u32;
    if 48 <= v <= 57 {
        (v - 48) as nat
    } else if 97 <= v <= 102 {
        (v - 87) as nat
    } else {
        (v - 55) as nat
    }
}

/// The 32 bytes 64 hexadecimal digits spell, two digits per byte, high
/// nibble first.
pub open spec fn unhex_spec(s: Seq<char>) -> Seq<u8> {
    Seq::new(32, |i: int| (16 * hex_value(s[2 * i]) + hex_value(s[2 * i + 1])) as u8)
}

fn hex_val(c: char) -> (r: u8)
    requires
        is_hex_char(c),
    ensures
        r == hex_value(c),
        r < 16,
{
    let v = c as u32;
    if 48 <= v && v <= 57 {
        (v - 48) as u8
    } else if 97 <= v && v <= 102 {
        (v - 87) as u8
    } else {
        (v - 55) as u8
    }
}

/// Read a key file's text: exactly 64 hexadecimal digits (either case)
/// give the 32 bytes they spell; anything else is `None`.
pub fn hex_to_32(s: &str) -> (r: Option<[u8; 32]>)
    ensures
        r is Some <==> (s@.len() == 64 && forall|i: int| 0 <= i < 64 ==> is_hex_char(#[trigger] s@[i])),
        r matches Some(a) ==> a@ == unhex_spec(s@),
{
    let cs = chars_of(s);
    if cs.len() != 64 {
        return None;
    }
    let mut i: usize = 0;
    while i < 64
        invariant
            i <= 64,
            cs@ == s@,
            cs@.len() == 64,
            forall|j: int| 0 <= j < i ==> is_hex_char(#[trigger] s@[j]),
        decreases 64 - i,
    {
        if !is_hex(cs[i]) {
            return None;
        }
        i = i + 1;
    }
    let mut out: [u8; 32] = [0u8; 32];
    let mut k: usize = 0;
    while k < 32
        invariant
            k <= 32,
            cs@ == s@,
            cs@.len() == 64,
            forall|j: int| 0 <= j < 64 ==> is_hex_char(#[trigger] s@[j]),
            forall|j: int| 0 <= j < k ==> out@[j] == unhex_spec(s@)[j],
        decreases 32 - k,
    {
        let hi = hex_val(cs[2 * k]);
        let lo = hex_val(cs[2 * k + 1]);
        out[k] = hi * 16 + lo;
        k = k + 1;
    }
    assert(out@ =~= unhex_spec(s@));
    Some(out)
}

fn is_hex(c: char) -> (r: bool)
    ensures
        r == is_hex_char(c),
{
    let v = c as u32;
    (48 <= v && v <= 57) || (97 <= v && v <= 102) || (65 <= v && v <= 70)
}

proof fn lemma_hex_spec_index(b: Seq<u8>)
    ensures
        hex_spec(b).len() == 2 * b.len(),
        forall|i: int|
            0 <= i < b.len() ==> hex_spec(b)[2 * i] == hex_digit((#[trigger] b[i] / 16) as nat) && hex_spec(b)[2 * i
                + 1] == hex_digit((b[i] % 16) as nat),
    decreases b.len(),
{
    if b.len() > 0 {
        let d = b.drop_last();
        lemma_hex_spec_index(d);
        assert forall|i: int| 0 <= i < b.len() implies hex_spec(b)[2 * i] == hex_digit((#[trigger] b[i] / 16) as nat)
            && hex_spec(b)[2 * i + 1] == hex_digit((b[i] % 16) as nat) by {
            if i < d.len() {
                assert(b[i] == d[i]);
            }
        }
    }
}

proof fn lemma_hex_digit_value(d: nat)
    requires
        d < 16,
    ensures
        is_hex_char(hex_digit(d)),
        hex_value(hex_digit(d)) == d,
{
}

/// A key written as text reads back as the same key: the hexadecimal of
/// 32 bytes is 64 digits, and they spell those bytes.
pub proof fn law_key_text_round_trips(b: Seq<u8>)
    requires
        b.len() == 32,
    ensures
        hex_spec(b).len() == 64,
        forall|i: int| 0 <= i < 64 ==> is_hex_char(#[trigger] hex_spec(b)[i]),
        unhex_spec(hex_spec(b)) == b,
{
    lemma_hex_spec_index(b);
    let h = hex_spec(b);
    assert forall|i: int| 0 <= i < 64 implies is_hex_char(#[trigger] h[i]) by {
        let k = i / 2;
        assert(0 <= k < 32);
        if i % 2 == 0 {
            assert(i == 2 * k);
            assert(h[2 * k] == hex_digit((b[k] / 16) as nat));
            lemma_hex_digit_value((b[k] / 16) as nat);
        } else {
            assert(i == 2 * k + 1);
            assert(h[2 * k + 1] == hex_digit((b[k] % 16) as nat));
            lemma_hex_digit_value((b[k] % 16) as nat);
        }
    }
    assert forall|k: int| 0 <= k < 32 implies #[trigger] unhex_spec(h)[k] == b[k] by {
        assert(h[2 * k] == hex_digit((b[k] / 16) as nat));
        assert(h[2 * k + 1] == hex_digit((b[k] % 16) as nat));
        lemma_hex_digit_value((b[k] / 16) as nat);
        lemma_hex_digit_value((b[k] % 16) as nat);
    }
    assert(unhex_spec(h) =~= b);
}

} // verus!
