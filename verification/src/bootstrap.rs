//! Cold-start suggestions from real collaboration history.
//!
//! A repository's commit log yields *candidates*: skill tags from the file
//! types each contributor touched, and introduction pairs from
//! `Co-authored-by:` trailers, real evidence that two people worked
//! together. Nothing is signed or published on anyone's behalf: each
//! contributor reviews their own suggestions and signs what they confirm.
//!
//! The log is read as `git log --name-only` prints it with the record
//! format `RS %H US %an US %ae US %B ETX`: a record separator (U+0002)
//! before each commit, unit separators (U+001F) between hash, author name,
//! author email and message, an end mark (U+0003) after the message, then
//! the touched paths one per line.

use vstd::prelude::*;

use crate::text::{
    cat, string_from_str, strs, str_eq, chars_of, is_white_space, lowercase_of, rsplit_once_chars, rsplit_once_spec, spec_lowercase,
    split_chars, split_on, split_once_chars, split_once_spec, starts_with_chars, str_lt,
    string_from_chars, trim_chars, trim_spec,
};

verus! {

/// Separates one commit record from the next.
pub const RECORD_SEP: char = '\u{2}';
/// Separates the header fields of a record.
pub const UNIT_SEP: char = '\u{1f}';
/// Ends the message of a record; the touched paths follow.
pub const BODY_END: char = '\u{3}';

/// The final component of the path `p` that `Path::file_name` finds: the
/// last of the `/`-separated pieces that are neither empty nor `.`, unless
/// there is none or it is `..`.
pub open spec fn file_name_spec(p: Seq<char>) -> Option<Seq<char>> {
    let comps = split_on(p, '/').filter(|c: Seq<char>| c.len() > 0 && c != "."@);
    if comps.len() == 0 || comps.last() == ".."@ {
        None
    } else {
        Some(comps.last())
    }
}

/// The index of the last `c` in `s`, or -1 when there is none.
pub open spec fn last_index_of(s: Seq<char>, c: char) -> int
    decreases s.len(),
{
    if s.len() == 0 {
        -1
    } else if s.last() == c {
        s.len() - 1
    } else {
        last_index_of(s.drop_last(), c)
    }
}

/// The extension `std::path::Path::extension` finds in the path `p`: the
/// text after the last `.` of the final component, when that component
/// has a `.` that is not its first character.
pub open spec fn spec_file_extension(p: Seq<char>) -> Option<Seq<char>> {
    match file_name_spec(p) {
        None => None,
        Some(n) => {
            let k = last_index_of(n, '.');
            if k <= 0 {
                None
            } else {
                Some(n.subrange(k + 1, n.len() as int))
            }
        },
    }
}

/// `Path::extension`, as text. Claimed: the result is
/// [`spec_file_extension`], the rule `Path::file_name` and `extension`
/// document for a path with the `/` separator. The extension of a path
/// given as text is itself text, so the conversion back to `str` does not
/// fail.
#[verifier::external_body]
fn path_extension(p: &str) -> (r: Option<String>)
    ensures
        match spec_file_extension(p@) {
            Some(e) => r matches Some(s) && s@ == e,
            None => r is None,
        },
{
    std::path::Path::new(p).extension().and_then(|e| e.to_str()).map(|e| e.to_string())
}

/// `std::io::Error`, carried opaquely in a [`BootstrapError`].
#[verifier::external_type_specification]
#[verifier::external_body]
pub struct ExIoError(std::io::Error);

/// Why a repository could not be read.
#[derive(Debug)]
pub enum BootstrapError {
    /// `git` could not be started.
    GitCommandFailed(std::io::Error),
    /// `git log` ran but failed: not a repository, or no history.
    NotAGitRepository,
}

/// `Display` of `std::io::Error`. Nothing is claimed of the text: it is
/// the operating system's description.
#[verifier::external_body]
fn io_error_text(e: &std::io::Error) -> String {
    e.to_string()
}

impl BootstrapError {
    /// The text this error is reported with. For a failed start it is
    /// `could not run git: ` followed by the system's own description.
    pub fn message(&self) -> (r: String)
        ensures
            match self {
                BootstrapError::GitCommandFailed(_) => r@.len() >= 19 && r@.subrange(0, 19) == "could not run git: "@,
                BootstrapError::NotAGitRepository => r@ == "not a git repository (or git log failed)"@,
            },
    {
        match self {
            BootstrapError::GitCommandFailed(e) => {
                let r = cat("could not run git: ", io_error_text(e).as_str());
                proof {
                    reveal_strlit("could not run git: ");
                    assert(r@.subrange(0, 19) =~= "could not run git: "@);
                }
                r
            },
            BootstrapError::NotAGitRepository => string_from_str("not a git repository (or git log failed)"),
        }
    }
}

/// A person as git names them. Identity is the e-mail address, compared
/// without regard to ASCII case; the name is for display.
#[derive(Debug, Clone)]
pub struct Contributor {
    pub name: String,
    pub email: String,
}

/// `c` with ASCII upper case folded to lower case, as a code point.
pub open spec fn ascii_fold(c: char) -> u32 {
    let v = c as u32;
    if 65 <= v <= 90 {
        (v + 32) as u32
    } else {
        v
    }
}

/// The identity key of an e-mail address: its characters with ASCII case
/// folded, which is what `str::eq_ignore_ascii_case` compares.
pub open spec fn email_key(e: Seq<char>) -> Seq<u32> {
    e.map_values(|c: char| ascii_fold(c))
}

fn fold_char(c: char) -> (r: u32)
    ensures
        r == ascii_fold(c),
{
    let v = c as u32;
    if 65 <= v && v <= 90 {
        v + 32
    } else {
        v
    }
}

/// Whether two e-mail addresses are the same identity.
pub fn same_email(a: &str, b: &str) -> (r: bool)
    ensures
        r == (email_key(a@) == email_key(b@)),
{
    let ca = chars_of(a);
    let cb = chars_of(b);
    if ca.len() != cb.len() {
        assert(email_key(a@).len() != email_key(b@).len());
        return false;
    }
    let mut i: usize = 0;
    while i < ca.len()
        invariant
            ca@ == a@,
            cb@ == b@,
            ca@.len() == cb@.len(),
            i <= ca@.len(),
            forall|j: int| 0 <= j < i ==> ascii_fold(#[trigger] a@[j]) == ascii_fold(b@[j]),
        decreases ca.len() - i,
    {
        if fold_char(ca[i]) != fold_char(cb[i]) {
            assert(email_key(a@)[i as int] != email_key(b@)[i as int]);
            return false;
        }
        i = i + 1;
    }
    assert(email_key(a@) =~= email_key(b@));
    true
}

impl Contributor {
    /// The identity key of this contributor.
    pub open spec fn key(self) -> Seq<u32> {
        email_key(self.email@)
    }

    /// The same person as `other`: the e-mail addresses match without regard
    /// to ASCII case, whatever the names.
    pub fn same_person(&self, other: &Contributor) -> (r: bool)
        ensures
            r == (self.key() == other.key()),
    {
        same_email(self.email.as_str(), other.email.as_str())
    }
}

/// A contributor as text: name and e-mail.
pub open spec fn cview(c: Contributor) -> (Seq<char>, Seq<char>) {
    (c.name@, c.email@)
}

/// One commit as the suggestions read it: the author, the lower-cased
/// extensions of the touched paths (in listing order, repeats kept), and
/// the co-authors its trailers name (in message order).
#[derive(Debug, Clone)]
pub struct LogCommit {
    pub author: Contributor,
    pub extensions: Vec<String>,
    pub co_authors: Vec<Contributor>,
}

/// A commit as text.
pub open spec fn commit_view(c: LogCommit) -> ((Seq<char>, Seq<char>), Seq<Seq<char>>, Seq<(Seq<char>, Seq<char>)>) {
    (cview(c.author), c.extensions@.map_values(|s: String| s@), c.co_authors@.map_values(|x: Contributor| cview(x)))
}

/// The trailer that credits a co-author.
pub open spec fn trailer_prefix() -> Seq<char> {
    "Co-authored-by:"@
}

/// `Name <email>` read from `s`: the text before the last `<` and the text
/// between it and a closing `>` at the very end, both trimmed and
/// non-empty.
pub open spec fn name_email_spec(s: Seq<char>) -> Option<(Seq<char>, Seq<char>)> {
    match rsplit_once_spec(trim_spec(s), '<') {
        None => None,
        Some((n, e)) => if e.len() > 0 && e.last() == '>' {
            let name = trim_spec(n);
            let email = trim_spec(e.drop_last());
            if name.len() == 0 || email.len() == 0 {
                None
            } else {
                Some((name, email))
            }
        } else {
            None
        },
    }
}

/// The lower-cased extensions of the non-blank path lines, in order.
pub open spec fn file_exts(lines: Seq<Seq<char>>) -> Seq<Seq<char>>
    decreases lines.len(),
{
    if lines.len() == 0 {
        Seq::empty()
    } else {
        let prev = file_exts(lines.drop_last());
        let t = trim_spec(lines.last());
        if t.len() > 0 {
            match spec_file_extension(t) {
                Some(e) => prev.push(spec_lowercase(e)),
                None => prev,
            }
        } else {
            prev
        }
    }
}

/// The co-authors named by the trailer lines of a message, in order.
pub open spec fn trailers(lines: Seq<Seq<char>>) -> Seq<(Seq<char>, Seq<char>)>
    decreases lines.len(),
{
    if lines.len() == 0 {
        Seq::empty()
    } else {
        let prev = trailers(lines.drop_last());
        let t = trim_spec(lines.last());
        let p = trailer_prefix();
        if t.len() >= p.len() && t.take(p.len() as int) == p {
            match name_email_spec(t.skip(p.len() as int)) {
                Some(c) => prev.push(c),
                None => prev,
            }
        } else {
            prev
        }
    }
}

/// One record read as a commit: `None` when it lacks the end mark or one of
/// the four header fields.
pub open spec fn commit_of(block: Seq<char>) -> Option<((Seq<char>, Seq<char>), Seq<Seq<char>>, Seq<(Seq<char>, Seq<char>)>)> {
    match split_once_spec(block, BODY_END) {
        None => None,
        Some((head, files)) => match split_once_spec(head, UNIT_SEP) {
            None => None,
            Some((_hash, r1)) => match split_once_spec(r1, UNIT_SEP) {
                None => None,
                Some((name, r2)) => match split_once_spec(r2, UNIT_SEP) {
                    None => None,
                    Some((email, body)) => Some(
                        (
                            (trim_spec(name), trim_spec(email)),
                            file_exts(split_on(files, '\n')),
                            trailers(split_on(body, '\n')),
                        ),
                    ),
                },
            },
        },
    }
}

/// The commits of the non-blank, well-formed records, in log order.
pub open spec fn log_commits(blocks: Seq<Seq<char>>) -> Seq<((Seq<char>, Seq<char>), Seq<Seq<char>>, Seq<(Seq<char>, Seq<char>)>)>
    decreases blocks.len(),
{
    if blocks.len() == 0 {
        Seq::empty()
    } else {
        let prev = log_commits(blocks.drop_last());
        let b = blocks.last();
        if trim_spec(b).len() > 0 {
            match commit_of(b) {
                Some(c) => prev.push(c),
                None => prev,
            }
        } else {
            prev
        }
    }
}

/// The commits of a whole log.
pub open spec fn parse_spec(text: Seq<char>) -> Seq<((Seq<char>, Seq<char>), Seq<Seq<char>>, Seq<(Seq<char>, Seq<char>)>)> {
    log_commits(split_on(text, RECORD_SEP))
}

/// `Name <email>` read from a trailer's value, or `None` when either part
/// is missing.
pub fn parse_name_email(s: &str) -> (r: Option<Contributor>)
    ensures
        match name_email_spec(s@) {
            Some((n, e)) => r matches Some(c) && c.name@ == n && c.email@ == e,
            None => r is None,
        },
{
    let cs = chars_of(s);
    parse_name_email_chars(cs.as_slice())
}

fn parse_name_email_chars(t: &[char]) -> (r: Option<Contributor>)
    ensures
        match name_email_spec(t@) {
            Some((n, e)) => r matches Some(c) && c.name@ == n && c.email@ == e,
            None => r is None,
        },
{
    let t2 = trim_chars(t);
    let (n, e) = match rsplit_once_chars(t2.as_slice(), '<') {
        Some(p) => p,
        None => {
            return None;
        },
    };
    if e.len() == 0 || e[e.len() - 1] != '>' {
        return None;
    }
    let inner = crate::text::slice_range(e.as_slice(), 0, e.len() - 1);
    assert(inner@ =~= e@.drop_last());
    let name = trim_chars(n.as_slice());
    let email = trim_chars(inner.as_slice());
    if name.len() == 0 || email.len() == 0 {
        return None;
    }
    Some(Contributor { name: string_from_chars(name.as_slice()), email: string_from_chars(email.as_slice()) })
}

fn exts_of(files: &[char]) -> (r: Vec<String>)
    ensures
        r@.map_values(|s: String| s@) == file_exts(split_on(files@, '\n')),
{
    let lines = split_chars(files, '\n');
    let ghost lv = lines@.map_values(|v: Vec<char>| v@);
    let mut out: Vec<String> = Vec::new();
    let mut i: usize = 0;
    while i < lines.len()
        invariant
            i <= lines@.len(),
            lv == lines@.map_values(|v: Vec<char>| v@),
            lv == split_on(files@, '\n'),
            out@.map_values(|s: String| s@) == file_exts(lv.take(i as int)),
        decreases lines.len() - i,
    {
        proof {
            assert(lv.take(i + 1).drop_last() =~= lv.take(i as int));
            assert(lv.take(i + 1).last() == lines@[i as int]@);
        }
        let t = trim_chars(lines[i].as_slice());
        if t.len() > 0 {
            let path = string_from_chars(t.as_slice());
            match path_extension(path.as_str()) {
                Some(e) => {
                    let ghost before = out@;
                    out.push(lowercase_of(e.as_str()));
                    assert(out@.map_values(|s: String| s@) =~= before.map_values(|s: String| s@).push(
                        spec_lowercase(e@),
                    ));
                },
                None => {},
            }
        }
        i = i + 1;
    }
    assert(lv.take(lv.len() as int) =~= lv);
    out
}

fn trailers_of(body: &[char]) -> (r: Vec<Contributor>)
    ensures
        r@.map_values(|c: Contributor| cview(c)) == trailers(split_on(body@, '\n')),
{
    let lines = split_chars(body, '\n');
    let ghost lv = lines@.map_values(|v: Vec<char>| v@);
    let prefix = chars_of("Co-authored-by:");
    let mut out: Vec<Contributor> = Vec::new();
    let mut i: usize = 0;
    while i < lines.len()
        invariant
            i <= lines@.len(),
            prefix@ == trailer_prefix(),
            lv == lines@.map_values(|v: Vec<char>| v@),
            lv == split_on(body@, '\n'),
            out@.map_values(|c: Contributor| cview(c)) == trailers(lv.take(i as int)),
        decreases lines.len() - i,
    {
        proof {
            assert(lv.take(i + 1).drop_last() =~= lv.take(i as int));
            assert(lv.take(i + 1).last() == lines@[i as int]@);
        }
        let t = trim_chars(lines[i].as_slice());
        if starts_with_chars(t.as_slice(), prefix.as_slice()) {
            let rest = crate::text::slice_range(t.as_slice(), prefix.len(), t.len());
            assert(rest@ =~= t@.skip(prefix@.len() as int));
            match parse_name_email_chars(rest.as_slice()) {
                Some(c) => {
                    let ghost before = out@;
                    out.push(c);
                    assert(out@.map_values(|c: Contributor| cview(c)) =~= before.map_values(
                        |c: Contributor| cview(c),
                    ).push(cview(c)));
                },
                None => {},
            }
        }
        i = i + 1;
    }
    assert(lv.take(lv.len() as int) =~= lv);
    out
}

fn commit_from(block: &[char]) -> (r: Option<LogCommit>)
    ensures
        match commit_of(block@) {
            Some(c) => r matches Some(x) && commit_view(x) == c,
            None => r is None,
        },
{
    let (head, files) = match split_once_chars(block, BODY_END) {
        Some(p) => p,
        None => {
            return None;
        },
    };
    let (_hash, r1) = match split_once_chars(head.as_slice(), UNIT_SEP) {
        Some(p) => p,
        None => {
            return None;
        },
    };
    let (name, r2) = match split_once_chars(r1.as_slice(), UNIT_SEP) {
        Some(p) => p,
        None => {
            return None;
        },
    };
    let (email, body) = match split_once_chars(r2.as_slice(), UNIT_SEP) {
        Some(p) => p,
        None => {
            return None;
        },
    };
    let n = trim_chars(name.as_slice());
    let e = trim_chars(email.as_slice());
    let author = Contributor { name: string_from_chars(n.as_slice()), email: string_from_chars(e.as_slice()) };
    let extensions = exts_of(files.as_slice());
    let co_authors = trailers_of(body.as_slice());
    Some(LogCommit { author, extensions, co_authors })
}

/// Read a `git log` in the record format of this module into its commits,
/// in log order. Blank records and records without the end mark or one of
/// the four header fields are skipped.
pub fn parse_log(text: &str) -> (r: Vec<LogCommit>)
    ensures
        r@.map_values(|c: LogCommit| commit_view(c)) == parse_spec(text@),
{
    let cs = chars_of(text);
    let blocks = split_chars(cs.as_slice(), RECORD_SEP);
    let ghost bv = blocks@.map_values(|v: Vec<char>| v@);
    let mut out: Vec<LogCommit> = Vec::new();
    let mut i: usize = 0;
    while i < blocks.len()
        invariant
            i <= blocks@.len(),
            bv == blocks@.map_values(|v: Vec<char>| v@),
            bv == split_on(text@, RECORD_SEP),
            out@.map_values(|c: LogCommit| commit_view(c)) == log_commits(bv.take(i as int)),
        decreases blocks.len() - i,
    {
        proof {
            assert(bv.take(i + 1).drop_last() =~= bv.take(i as int));
            assert(bv.take(i + 1).last() == blocks@[i as int]@);
        }
        let t = trim_chars(blocks[i].as_slice());
        if t.len() > 0 {
            match commit_from(blocks[i].as_slice()) {
                Some(c) => {
                    let ghost before = out@;
                    let ghost cv = commit_view(c);
                    out.push(c);
                    assert(out@.map_values(|c: LogCommit| commit_view(c)) =~= before.map_values(
                        |c: LogCommit| commit_view(c),
                    ).push(cv));
                },
                None => {},
            }
        }
        i = i + 1;
    }
    assert(bv.take(bv.len() as int) =~= bv);
    out
}

/// The taxonomy leaf a lower-cased file extension suggests: a best-effort
/// mapping, reviewed by the contributor before anything is signed.
pub open spec fn ext_tag_spec(ext: Seq<char>) -> Option<Seq<char>> {
    if ext == "rs"@ {
        Some("it/backend/languages#rust"@)
    } else if ext == "go"@ {
        Some("it/backend/languages#go"@)
    } else if ext == "py"@ {
        Some("it/backend/languages#python"@)
    } else if ext == "java"@ {
        Some("it/backend/languages#java"@)
    } else if ext == "kt"@ || ext == "kts"@ {
        Some("it/backend/languages#kotlin"@)
    } else if ext == "cs"@ {
        Some("it/backend/languages#csharp"@)
    } else if ext == "rb"@ {
        Some("it/backend/languages#ruby"@)
    } else if ext == "php"@ {
        Some("it/backend/languages#php"@)
    } else if ext == "ex"@ || ext == "exs"@ {
        Some("it/backend/languages#elixir"@)
    } else if ext == "scala"@ {
        Some("it/backend/languages#scala"@)
    } else if ext == "cpp"@ || ext == "cc"@ || ext == "cxx"@ || ext == "hpp"@ {
        Some("it/backend/languages#cpp"@)
    } else if ext == "c"@ || ext == "h"@ {
        Some("it/embedded/firmware#c-embedded"@)
    } else if ext == "js"@ || ext == "jsx"@ || ext == "mjs"@ {
        Some("it/frontend/fundamentals#javascript"@)
    } else if ext == "ts"@ || ext == "tsx"@ {
        Some("it/frontend/fundamentals#typescript"@)
    } else if ext == "swift"@ {
        Some("it/mobile/native#swift"@)
    } else if ext == "sql"@ {
        Some("it/data/analytics#sql"@)
    } else if ext == "tf"@ {
        Some("it/infra/automation#terraform"@)
    } else if ext == "sol"@ {
        Some("it/distributed/blockchain#solidity"@)
    } else if ext == "md"@ {
        Some("it/docs#technical-writing"@)
    } else {
        None
    }
}

/// The extension table: each source extension suggests the taxonomy leaf
/// of its own language (or, for Markdown, technical writing), pair by pair.
pub proof fn law_extension_table()
    ensures
        ext_tag_spec("rs"@) matches Some(t) && t == "it/backend/languages#rust"@,
        ext_tag_spec("go"@) matches Some(t) && t == "it/backend/languages#go"@,
        ext_tag_spec("py"@) matches Some(t) && t == "it/backend/languages#python"@,
        ext_tag_spec("java"@) matches Some(t) && t == "it/backend/languages#java"@,
        ext_tag_spec("kt"@) matches Some(t) && t == "it/backend/languages#kotlin"@,
        ext_tag_spec("kts"@) matches Some(t) && t == "it/backend/languages#kotlin"@,
        ext_tag_spec("cs"@) matches Some(t) && t == "it/backend/languages#csharp"@,
        ext_tag_spec("rb"@) matches Some(t) && t == "it/backend/languages#ruby"@,
        ext_tag_spec("php"@) matches Some(t) && t == "it/backend/languages#php"@,
        ext_tag_spec("ex"@) matches Some(t) && t == "it/backend/languages#elixir"@,
        ext_tag_spec("exs"@) matches Some(t) && t == "it/backend/languages#elixir"@,
        ext_tag_spec("scala"@) matches Some(t) && t == "it/backend/languages#scala"@,
        ext_tag_spec("cpp"@) matches Some(t) && t == "it/backend/languages#cpp"@,
        ext_tag_spec("cc"@) matches Some(t) && t == "it/backend/languages#cpp"@,
        ext_tag_spec("cxx"@) matches Some(t) && t == "it/backend/languages#cpp"@,
        ext_tag_spec("hpp"@) matches Some(t) && t == "it/backend/languages#cpp"@,
        ext_tag_spec("c"@) matches Some(t) && t == "it/embedded/firmware#c-embedded"@,
        ext_tag_spec("h"@) matches Some(t) && t == "it/embedded/firmware#c-embedded"@,
        ext_tag_spec("js"@) matches Some(t) && t == "it/frontend/fundamentals#javascript"@,
        ext_tag_spec("jsx"@) matches Some(t) && t == "it/frontend/fundamentals#javascript"@,
        ext_tag_spec("mjs"@) matches Some(t) && t == "it/frontend/fundamentals#javascript"@,
        ext_tag_spec("ts"@) matches Some(t) && t == "it/frontend/fundamentals#typescript"@,
        ext_tag_spec("tsx"@) matches Some(t) && t == "it/frontend/fundamentals#typescript"@,
        ext_tag_spec("swift"@) matches Some(t) && t == "it/mobile/native#swift"@,
        ext_tag_spec("sql"@) matches Some(t) && t == "it/data/analytics#sql"@,
        ext_tag_spec("tf"@) matches Some(t) && t == "it/infra/automation#terraform"@,
        ext_tag_spec("sol"@) matches Some(t) && t == "it/distributed/blockchain#solidity"@,
        ext_tag_spec("md"@) matches Some(t) && t == "it/docs#technical-writing"@,
{
    assert(ext_tag_spec("rs"@) matches Some(t) && t == "it/backend/languages#rust"@) by {
        reveal_strlit("rs");
    }
    assert(ext_tag_spec("go"@) matches Some(t) && t == "it/backend/languages#go"@) by {
        reveal_strlit("go");
        reveal_strlit("rs");
        assert("go"@[0] != "rs"@[0]);
        assert("go"@ != "rs"@);
    }
    assert(ext_tag_spec("py"@) matches Some(t) && t == "it/backend/languages#python"@) by {
        reveal_strlit("py");
        reveal_strlit("rs");
        assert("py"@[0] != "rs"@[0]);
        assert("py"@ != "rs"@);
        reveal_strlit("go");
        assert("py"@[0] != "go"@[0]);
        assert("py"@ != "go"@);
    }
    assert(ext_tag_spec("java"@) matches Some(t) && t == "it/backend/languages#java"@) by {
        reveal_strlit("java");
        reveal_strlit("rs");
        assert("java"@.len() != "rs"@.len());
        assert("java"@ != "rs"@);
        reveal_strlit("go");
        assert("java"@.len() != "go"@.len());
        assert("java"@ != "go"@);
        reveal_strlit("py");
        assert("java"@.len() != "py"@.len());
        assert("java"@ != "py"@);
    }
    assert(ext_tag_spec("kt"@) matches Some(t) && t == "it/backend/languages#kotlin"@) by {
        reveal_strlit("kt");
        reveal_strlit("rs");
        assert("kt"@[0] != "rs"@[0]);
        assert("kt"@ != "rs"@);
        reveal_strlit("go");
        assert("kt"@[0] != "go"@[0]);
        assert("kt"@ != "go"@);
        reveal_strlit("py");
        assert("kt"@[0] != "py"@[0]);
        assert("kt"@ != "py"@);
        reveal_strlit("java");
        assert("kt"@.len() != "java"@.len());
        assert("kt"@ != "java"@);
    }
    assert(ext_tag_spec("kts"@) matches Some(t) && t == "it/backend/languages#kotlin"@) by {
        reveal_strlit("kts");
        reveal_strlit("rs");
        assert("kts"@.len() != "rs"@.len());
        assert("kts"@ != "rs"@);
        reveal_strlit("go");
        assert("kts"@.len() != "go"@.len());
        assert("kts"@ != "go"@);
        reveal_strlit("py");
        assert("kts"@.len() != "py"@.len());
        assert("kts"@ != "py"@);
        reveal_strlit("java");
        assert("kts"@.len() != "java"@.len());
        assert("kts"@ != "java"@);
        reveal_strlit("kt");
        assert("kts"@.len() != "kt"@.len());
        assert("kts"@ != "kt"@);
    }
    assert(ext_tag_spec("cs"@) matches Some(t) && t == "it/backend/languages#csharp"@) by {
        reveal_strlit("cs");
        reveal_strlit("rs");
        assert("cs"@[0] != "rs"@[0]);
        assert("cs"@ != "rs"@);
        reveal_strlit("go");
        assert("cs"@[0] != "go"@[0]);
        assert("cs"@ != "go"@);
        reveal_strlit("py");
        assert("cs"@[0] != "py"@[0]);
        assert("cs"@ != "py"@);
        reveal_strlit("java");
        assert("cs"@.len() != "java"@.len());
        assert("cs"@ != "java"@);
        reveal_strlit("kt");
        assert("cs"@[0] != "kt"@[0]);
        assert("cs"@ != "kt"@);
        reveal_strlit("kts");
        assert("cs"@.len() != "kts"@.len());
        assert("cs"@ != "kts"@);
    }
    assert(ext_tag_spec("rb"@) matches Some(t) && t == "it/backend/languages#ruby"@) by {
        reveal_strlit("rb");
        reveal_strlit("rs");
        assert("rb"@[1] != "rs"@[1]);
        assert("rb"@ != "rs"@);
        reveal_strlit("go");
        assert("rb"@[0] != "go"@[0]);
        assert("rb"@ != "go"@);
        reveal_strlit("py");
        assert("rb"@[0] != "py"@[0]);
        assert("rb"@ != "py"@);
        reveal_strlit("java");
        assert("rb"@.len() != "java"@.len());
        assert("rb"@ != "java"@);
        reveal_strlit("kt");
        assert("rb"@[0] != "kt"@[0]);
        assert("rb"@ != "kt"@);
        reveal_strlit("kts");
        assert("rb"@.len() != "kts"@.len());
        assert("rb"@ != "kts"@);
        reveal_strlit("cs");
        assert("rb"@[0] != "cs"@[0]);
        assert("rb"@ != "cs"@);
    }
    assert(ext_tag_spec("php"@) matches Some(t) && t == "it/backend/languages#php"@) by {
        reveal_strlit("php");
        reveal_strlit("rs");
        assert("php"@.len() != "rs"@.len());
        assert("php"@ != "rs"@);
        reveal_strlit("go");
        assert("php"@.len() != "go"@.len());
        assert("php"@ != "go"@);
        reveal_strlit("py");
        assert("php"@.len() != "py"@.len());
        assert("php"@ != "py"@);
        reveal_strlit("java");
        assert("php"@.len() != "java"@.len());
        assert("php"@ != "java"@);
        reveal_strlit("kt");
        assert("php"@.len() != "kt"@.len());
        assert("php"@ != "kt"@);
        reveal_strlit("kts");
        assert("php"@[0] != "kts"@[0]);
        assert("php"@ != "kts"@);
        reveal_strlit("cs");
        assert("php"@.len() != "cs"@.len());
        assert("php"@ != "cs"@);
        reveal_strlit("rb");
        assert("php"@.len() != "rb"@.len());
        assert("php"@ != "rb"@);
    }
    assert(ext_tag_spec("ex"@) matches Some(t) && t == "it/backend/languages#elixir"@) by {
        reveal_strlit("ex");
        reveal_strlit("rs");
        assert("ex"@[0] != "rs"@[0]);
        assert("ex"@ != "rs"@);
        reveal_strlit("go");
        assert("ex"@[0] != "go"@[0]);
        assert("ex"@ != "go"@);
        reveal_strlit("py");
        assert("ex"@[0] != "py"@[0]);
        assert("ex"@ != "py"@);
        reveal_strlit("java");
        assert("ex"@.len() != "java"@.len());
        assert("ex"@ != "java"@);
        reveal_strlit("kt");
        assert("ex"@[0] != "kt"@[0]);
        assert("ex"@ != "kt"@);
        reveal_strlit("kts");
        assert("ex"@.len() != "kts"@.len());
        assert("ex"@ != "kts"@);
        reveal_strlit("cs");
        assert("ex"@[0] != "cs"@[0]);
        assert("ex"@ != "cs"@);
        reveal_strlit("rb");
        assert("ex"@[0] != "rb"@[0]);
        assert("ex"@ != "rb"@);
        reveal_strlit("php");
        assert("ex"@.len() != "php"@.len());
        assert("ex"@ != "php"@);
    }
    assert(ext_tag_spec("exs"@) matches Some(t) && t == "it/backend/languages#elixir"@) by {
        reveal_strlit("exs");
        reveal_strlit("rs");
        assert("exs"@.len() != "rs"@.len());
        assert("exs"@ != "rs"@);
        reveal_strlit("go");
        assert("exs"@.len() != "go"@.len());
        assert("exs"@ != "go"@);
        reveal_strlit("py");
        assert("exs"@.len() != "py"@.len());
        assert("exs"@ != "py"@);
        reveal_strlit("java");
        assert("exs"@.len() != "java"@.len());
        assert("exs"@ != "java"@);
        reveal_strlit("kt");
        assert("exs"@.len() != "kt"@.len());
        assert("exs"@ != "kt"@);
        reveal_strlit("kts");
        assert("exs"@[0] != "kts"@[0]);
        assert("exs"@ != "kts"@);
        reveal_strlit("cs");
        assert("exs"@.len() != "cs"@.len());
        assert("exs"@ != "cs"@);
        reveal_strlit("rb");
        assert("exs"@.len() != "rb"@.len());
        assert("exs"@ != "rb"@);
        reveal_strlit("php");
        assert("exs"@[0] != "php"@[0]);
        assert("exs"@ != "php"@);
        reveal_strlit("ex");
        assert("exs"@.len() != "ex"@.len());
        assert("exs"@ != "ex"@);
    }
    assert(ext_tag_spec("scala"@) matches Some(t) && t == "it/backend/languages#scala"@) by {
        reveal_strlit("scala");
        reveal_strlit("rs");
        assert("scala"@.len() != "rs"@.len());
        assert("scala"@ != "rs"@);
        reveal_strlit("go");
        assert("scala"@.len() != "go"@.len());
        assert("scala"@ != "go"@);
        reveal_strlit("py");
        assert("scala"@.len() != "py"@.len());
        assert("scala"@ != "py"@);
        reveal_strlit("java");
        assert("scala"@.len() != "java"@.len());
        assert("scala"@ != "java"@);
        reveal_strlit("kt");
        assert("scala"@.len() != "kt"@.len());
        assert("scala"@ != "kt"@);
        reveal_strlit("kts");
        assert("scala"@.len() != "kts"@.len());
        assert("scala"@ != "kts"@);
        reveal_strlit("cs");
        assert("scala"@.len() != "cs"@.len());
        assert("scala"@ != "cs"@);
        reveal_strlit("rb");
        assert("scala"@.len() != "rb"@.len());
        assert("scala"@ != "rb"@);
        reveal_strlit("php");
        assert("scala"@.len() != "php"@.len());
        assert("scala"@ != "php"@);
        reveal_strlit("ex");
        assert("scala"@.len() != "ex"@.len());
        assert("scala"@ != "ex"@);
        reveal_strlit("exs");
        assert("scala"@.len() != "exs"@.len());
        assert("scala"@ != "exs"@);
    }
    assert(ext_tag_spec("cpp"@) matches Some(t) && t == "it/backend/languages#cpp"@) by {
        reveal_strlit("cpp");
        reveal_strlit("rs");
        assert("cpp"@.len() != "rs"@.len());
        assert("cpp"@ != "rs"@);
        reveal_strlit("go");
        assert("cpp"@.len() != "go"@.len());
        assert("cpp"@ != "go"@);
        reveal_strlit("py");
        assert("cpp"@.len() != "py"@.len());
        assert("cpp"@ != "py"@);
        reveal_strlit("java");
        assert("cpp"@.len() != "java"@.len());
        assert("cpp"@ != "java"@);
        reveal_strlit("kt");
        assert("cpp"@.len() != "kt"@.len());
        assert("cpp"@ != "kt"@);
        reveal_strlit("kts");
        assert("cpp"@[0] != "kts"@[0]);
        assert("cpp"@ != "kts"@);
        reveal_strlit("cs");
        assert("cpp"@.len() != "cs"@.len());
        assert("cpp"@ != "cs"@);
        reveal_strlit("rb");
        assert("cpp"@.len() != "rb"@.len());
        assert("cpp"@ != "rb"@);
        reveal_strlit("php");
        assert("cpp"@[0] != "php"@[0]);
        assert("cpp"@ != "php"@);
        reveal_strlit("ex");
        assert("cpp"@.len() != "ex"@.len());
        assert("cpp"@ != "ex"@);
        reveal_strlit("exs");
        assert("cpp"@[0] != "exs"@[0]);
        assert("cpp"@ != "exs"@);
        reveal_strlit("scala");
        assert("cpp"@.len() != "scala"@.len());
        assert("cpp"@ != "scala"@);
    }
    assert(ext_tag_spec("cc"@) matches Some(t) && t == "it/backend/languages#cpp"@) by {
        reveal_strlit("cc");
        reveal_strlit("rs");
        assert("cc"@[0] != "rs"@[0]);
        assert("cc"@ != "rs"@);
        reveal_strlit("go");
        assert("cc"@[0] != "go"@[0]);
        assert("cc"@ != "go"@);
        reveal_strlit("py");
        assert("cc"@[0] != "py"@[0]);
        assert("cc"@ != "py"@);
        reveal_strlit("java");
        assert("cc"@.len() != "java"@.len());
        assert("cc"@ != "java"@);
        reveal_strlit("kt");
        assert("cc"@[0] != "kt"@[0]);
        assert("cc"@ != "kt"@);
        reveal_strlit("kts");
        assert("cc"@.len() != "kts"@.len());
        assert("cc"@ != "kts"@);
        reveal_strlit("cs");
        assert("cc"@[1] != "cs"@[1]);
        assert("cc"@ != "cs"@);
        reveal_strlit("rb");
        assert("cc"@[0] != "rb"@[0]);
        assert("cc"@ != "rb"@);
        reveal_strlit("php");
        assert("cc"@.len() != "php"@.len());
        assert("cc"@ != "php"@);
        reveal_strlit("ex");
        assert("cc"@[0] != "ex"@[0]);
        assert("cc"@ != "ex"@);
        reveal_strlit("exs");
        assert("cc"@.len() != "exs"@.len());
        assert("cc"@ != "exs"@);
        reveal_strlit("scala");
        assert("cc"@.len() != "scala"@.len());
        assert("cc"@ != "scala"@);
        reveal_strlit("cpp");
        assert("cc"@.len() != "cpp"@.len());
        assert("cc"@ != "cpp"@);
    }
    assert(ext_tag_spec("cxx"@) matches Some(t) && t == "it/backend/languages#cpp"@) by {
        reveal_strlit("cxx");
        reveal_strlit("rs");
        assert("cxx"@.len() != "rs"@.len());
        assert("cxx"@ != "rs"@);
        reveal_strlit("go");
        assert("cxx"@.len() != "go"@.len());
        assert("cxx"@ != "go"@);
        reveal_strlit("py");
        assert("cxx"@.len() != "py"@.len());
        assert("cxx"@ != "py"@);
        reveal_strlit("java");
        assert("cxx"@.len() != "java"@.len());
        assert("cxx"@ != "java"@);
        reveal_strlit("kt");
        assert("cxx"@.len() != "kt"@.len());
        assert("cxx"@ != "kt"@);
        reveal_strlit("kts");
        assert("cxx"@[0] != "kts"@[0]);
        assert("cxx"@ != "kts"@);
        reveal_strlit("cs");
        assert("cxx"@.len() != "cs"@.len());
        assert("cxx"@ != "cs"@);
        reveal_strlit("rb");
        assert("cxx"@.len() != "rb"@.len());
        assert("cxx"@ != "rb"@);
        reveal_strlit("php");
        assert("cxx"@[0] != "php"@[0]);
        assert("cxx"@ != "php"@);
        reveal_strlit("ex");
        assert("cxx"@.len() != "ex"@.len());
        assert("cxx"@ != "ex"@);
        reveal_strlit("exs");
        assert("cxx"@[0] != "exs"@[0]);
        assert("cxx"@ != "exs"@);
        reveal_strlit("scala");
        assert("cxx"@.len() != "scala"@.len());
        assert("cxx"@ != "scala"@);
        reveal_strlit("cpp");
        assert("cxx"@[1] != "cpp"@[1]);
        assert("cxx"@ != "cpp"@);
        reveal_strlit("cc");
        assert("cxx"@.len() != "cc"@.len());
        assert("cxx"@ != "cc"@);
    }
    assert(ext_tag_spec("hpp"@) matches Some(t) && t == "it/backend/languages#cpp"@) by {
        reveal_strlit("hpp");
        reveal_strlit("rs");
        assert("hpp"@.len() != "rs"@.len());
        assert("hpp"@ != "rs"@);
        reveal_strlit("go");
        assert("hpp"@.len() != "go"@.len());
        assert("hpp"@ != "go"@);
        reveal_strlit("py");
        assert("hpp"@.len() != "py"@.len());
        assert("hpp"@ != "py"@);
        reveal_strlit("java");
        assert("hpp"@.len() != "java"@.len());
        assert("hpp"@ != "java"@);
        reveal_strlit("kt");
        assert("hpp"@.len() != "kt"@.len());
        assert("hpp"@ != "kt"@);
        reveal_strlit("kts");
        assert("hpp"@[0] != "kts"@[0]);
        assert("hpp"@ != "kts"@);
        reveal_strlit("cs");
        assert("hpp"@.len() != "cs"@.len());
        assert("hpp"@ != "cs"@);
        reveal_strlit("rb");
        assert("hpp"@.len() != "rb"@.len());
        assert("hpp"@ != "rb"@);
        reveal_strlit("php");
        assert("hpp"@[0] != "php"@[0]);
        assert("hpp"@ != "php"@);
        reveal_strlit("ex");
        assert("hpp"@.len() != "ex"@.len());
        assert("hpp"@ != "ex"@);
        reveal_strlit("exs");
        assert("hpp"@[0] != "exs"@[0]);
        assert("hpp"@ != "exs"@);
        reveal_strlit("scala");
        assert("hpp"@.len() != "scala"@.len());
        assert("hpp"@ != "scala"@);
        reveal_strlit("cpp");
        assert("hpp"@[0] != "cpp"@[0]);
        assert("hpp"@ != "cpp"@);
        reveal_strlit("cc");
        assert("hpp"@.len() != "cc"@.len());
        assert("hpp"@ != "cc"@);
        reveal_strlit("cxx");
        assert("hpp"@[0] != "cxx"@[0]);
        assert("hpp"@ != "cxx"@);
    }
    assert(ext_tag_spec("c"@) matches Some(t) && t == "it/embedded/firmware#c-embedded"@) by {
        reveal_strlit("c");
        reveal_strlit("rs");
        assert("c"@.len() != "rs"@.len());
        assert("c"@ != "rs"@);
        reveal_strlit("go");
        assert("c"@.len() != "go"@.len());
        assert("c"@ != "go"@);
        reveal_strlit("py");
        assert("c"@.len() != "py"@.len());
        assert("c"@ != "py"@);
        reveal_strlit("java");
        assert("c"@.len() != "java"@.len());
        assert("c"@ != "java"@);
        reveal_strlit("kt");
        assert("c"@.len() != "kt"@.len());
        assert("c"@ != "kt"@);
        reveal_strlit("kts");
        assert("c"@.len() != "kts"@.len());
        assert("c"@ != "kts"@);
        reveal_strlit("cs");
        assert("c"@.len() != "cs"@.len());
        assert("c"@ != "cs"@);
        reveal_strlit("rb");
        assert("c"@.len() != "rb"@.len());
        assert("c"@ != "rb"@);
        reveal_strlit("php");
        assert("c"@.len() != "php"@.len());
        assert("c"@ != "php"@);
        reveal_strlit("ex");
        assert("c"@.len() != "ex"@.len());
        assert("c"@ != "ex"@);
        reveal_strlit("exs");
        assert("c"@.len() != "exs"@.len());
        assert("c"@ != "exs"@);
        reveal_strlit("scala");
        assert("c"@.len() != "scala"@.len());
        assert("c"@ != "scala"@);
        reveal_strlit("cpp");
        assert("c"@.len() != "cpp"@.len());
        assert("c"@ != "cpp"@);
        reveal_strlit("cc");
        assert("c"@.len() != "cc"@.len());
        assert("c"@ != "cc"@);
        reveal_strlit("cxx");
        assert("c"@.len() != "cxx"@.len());
        assert("c"@ != "cxx"@);
        reveal_strlit("hpp");
        assert("c"@.len() != "hpp"@.len());
        assert("c"@ != "hpp"@);
    }
    assert(ext_tag_spec("h"@) matches Some(t) && t == "it/embedded/firmware#c-embedded"@) by {
        reveal_strlit("h");
        reveal_strlit("rs");
        assert("h"@.len() != "rs"@.len());
        assert("h"@ != "rs"@);
        reveal_strlit("go");
        assert("h"@.len() != "go"@.len());
        assert("h"@ != "go"@);
        reveal_strlit("py");
        assert("h"@.len() != "py"@.len());
        assert("h"@ != "py"@);
        reveal_strlit("java");
        assert("h"@.len() != "java"@.len());
        assert("h"@ != "java"@);
        reveal_strlit("kt");
        assert("h"@.len() != "kt"@.len());
        assert("h"@ != "kt"@);
        reveal_strlit("kts");
        assert("h"@.len() != "kts"@.len());
        assert("h"@ != "kts"@);
        reveal_strlit("cs");
        assert("h"@.len() != "cs"@.len());
        assert("h"@ != "cs"@);
        reveal_strlit("rb");
        assert("h"@.len() != "rb"@.len());
        assert("h"@ != "rb"@);
        reveal_strlit("php");
        assert("h"@.len() != "php"@.len());
        assert("h"@ != "php"@);
        reveal_strlit("ex");
        assert("h"@.len() != "ex"@.len());
        assert("h"@ != "ex"@);
        reveal_strlit("exs");
        assert("h"@.len() != "exs"@.len());
        assert("h"@ != "exs"@);
        reveal_strlit("scala");
        assert("h"@.len() != "scala"@.len());
        assert("h"@ != "scala"@);
        reveal_strlit("cpp");
        assert("h"@.len() != "cpp"@.len());
        assert("h"@ != "cpp"@);
        reveal_strlit("cc");
        assert("h"@.len() != "cc"@.len());
        assert("h"@ != "cc"@);
        reveal_strlit("cxx");
        assert("h"@.len() != "cxx"@.len());
        assert("h"@ != "cxx"@);
        reveal_strlit("hpp");
        assert("h"@.len() != "hpp"@.len());
        assert("h"@ != "hpp"@);
        reveal_strlit("c");
        assert("h"@[0] != "c"@[0]);
        assert("h"@ != "c"@);
    }
    assert(ext_tag_spec("js"@) matches Some(t) && t == "it/frontend/fundamentals#javascript"@) by {
        reveal_strlit("js");
        reveal_strlit("rs");
        assert("js"@[0] != "rs"@[0]);
        assert("js"@ != "rs"@);
        reveal_strlit("go");
        assert("js"@[0] != "go"@[0]);
        assert("js"@ != "go"@);
        reveal_strlit("py");
        assert("js"@[0] != "py"@[0]);
        assert("js"@ != "py"@);
        reveal_strlit("java");
        assert("js"@.len() != "java"@.len());
        assert("js"@ != "java"@);
        reveal_strlit("kt");
        assert("js"@[0] != "kt"@[0]);
        assert("js"@ != "kt"@);
        reveal_strlit("kts");
        assert("js"@.len() != "kts"@.len());
        assert("js"@ != "kts"@);
        reveal_strlit("cs");
        assert("js"@[0] != "cs"@[0]);
        assert("js"@ != "cs"@);
        reveal_strlit("rb");
        assert("js"@[0] != "rb"@[0]);
        assert("js"@ != "rb"@);
        reveal_strlit("php");
        assert("js"@.len() != "php"@.len());
        assert("js"@ != "php"@);
        reveal_strlit("ex");
        assert("js"@[0] != "ex"@[0]);
        assert("js"@ != "ex"@);
        reveal_strlit("exs");
        assert("js"@.len() != "exs"@.len());
        assert("js"@ != "exs"@);
        reveal_strlit("scala");
        assert("js"@.len() != "scala"@.len());
        assert("js"@ != "scala"@);
        reveal_strlit("cpp");
        assert("js"@.len() != "cpp"@.len());
        assert("js"@ != "cpp"@);
        reveal_strlit("cc");
        assert("js"@[0] != "cc"@[0]);
        assert("js"@ != "cc"@);
        reveal_strlit("cxx");
        assert("js"@.len() != "cxx"@.len());
        assert("js"@ != "cxx"@);
        reveal_strlit("hpp");
        assert("js"@.len() != "hpp"@.len());
        assert("js"@ != "hpp"@);
        reveal_strlit("c");
        assert("js"@.len() != "c"@.len());
        assert("js"@ != "c"@);
        reveal_strlit("h");
        assert("js"@.len() != "h"@.len());
        assert("js"@ != "h"@);
    }
    assert(ext_tag_spec("jsx"@) matches Some(t) && t == "it/frontend/fundamentals#javascript"@) by {
        reveal_strlit("jsx");
        reveal_strlit("rs");
        assert("jsx"@.len() != "rs"@.len());
        assert("jsx"@ != "rs"@);
        reveal_strlit("go");
        assert("jsx"@.len() != "go"@.len());
        assert("jsx"@ != "go"@);
        reveal_strlit("py");
        assert("jsx"@.len() != "py"@.len());
        assert("jsx"@ != "py"@);
        reveal_strlit("java");
        assert("jsx"@.len() != "java"@.len());
        assert("jsx"@ != "java"@);
        reveal_strlit("kt");
        assert("jsx"@.len() != "kt"@.len());
        assert("jsx"@ != "kt"@);
        reveal_strlit("kts");
        assert("jsx"@[0] != "kts"@[0]);
        assert("jsx"@ != "kts"@);
        reveal_strlit("cs");
        assert("jsx"@.len() != "cs"@.len());
        assert("jsx"@ != "cs"@);
        reveal_strlit("rb");
        assert("jsx"@.len() != "rb"@.len());
        assert("jsx"@ != "rb"@);
        reveal_strlit("php");
        assert("jsx"@[0] != "php"@[0]);
        assert("jsx"@ != "php"@);
        reveal_strlit("ex");
        assert("jsx"@.len() != "ex"@.len());
        assert("jsx"@ != "ex"@);
        reveal_strlit("exs");
        assert("jsx"@[0] != "exs"@[0]);
        assert("jsx"@ != "exs"@);
        reveal_strlit("scala");
        assert("jsx"@.len() != "scala"@.len());
        assert("jsx"@ != "scala"@);
        reveal_strlit("cpp");
        assert("jsx"@[0] != "cpp"@[0]);
        assert("jsx"@ != "cpp"@);
        reveal_strlit("cc");
        assert("jsx"@.len() != "cc"@.len());
        assert("jsx"@ != "cc"@);
        reveal_strlit("cxx");
        assert("jsx"@[0] != "cxx"@[0]);
        assert("jsx"@ != "cxx"@);
        reveal_strlit("hpp");
        assert("jsx"@[0] != "hpp"@[0]);
        assert("jsx"@ != "hpp"@);
        reveal_strlit("c");
        assert("jsx"@.len() != "c"@.len());
        assert("jsx"@ != "c"@);
        reveal_strlit("h");
        assert("jsx"@.len() != "h"@.len());
        assert("jsx"@ != "h"@);
        reveal_strlit("js");
        assert("jsx"@.len() != "js"@.len());
        assert("jsx"@ != "js"@);
    }
    assert(ext_tag_spec("mjs"@) matches Some(t) && t == "it/frontend/fundamentals#javascript"@) by {
        reveal_strlit("mjs");
        reveal_strlit("rs");
        assert("mjs"@.len() != "rs"@.len());
        assert("mjs"@ != "rs"@);
        reveal_strlit("go");
        assert("mjs"@.len() != "go"@.len());
        assert("mjs"@ != "go"@);
        reveal_strlit("py");
        assert("mjs"@.len() != "py"@.len());
        assert("mjs"@ != "py"@);
        reveal_strlit("java");
        assert("mjs"@.len() != "java"@.len());
        assert("mjs"@ != "java"@);
        reveal_strlit("kt");
        assert("mjs"@.len() != "kt"@.len());
        assert("mjs"@ != "kt"@);
        reveal_strlit("kts");
        assert("mjs"@[0] != "kts"@[0]);
        assert("mjs"@ != "kts"@);
        reveal_strlit("cs");
        assert("mjs"@.len() != "cs"@.len());
        assert("mjs"@ != "cs"@);
        reveal_strlit("rb");
        assert("mjs"@.len() != "rb"@.len());
        assert("mjs"@ != "rb"@);
        reveal_strlit("php");
        assert("mjs"@[0] != "php"@[0]);
        assert("mjs"@ != "php"@);
        reveal_strlit("ex");
        assert("mjs"@.len() != "ex"@.len());
        assert("mjs"@ != "ex"@);
        reveal_strlit("exs");
        assert("mjs"@[0] != "exs"@[0]);
        assert("mjs"@ != "exs"@);
        reveal_strlit("scala");
        assert("mjs"@.len() != "scala"@.len());
        assert("mjs"@ != "scala"@);
        reveal_strlit("cpp");
        assert("mjs"@[0] != "cpp"@[0]);
        assert("mjs"@ != "cpp"@);
        reveal_strlit("cc");
        assert("mjs"@.len() != "cc"@.len());
        assert("mjs"@ != "cc"@);
        reveal_strlit("cxx");
        assert("mjs"@[0] != "cxx"@[0]);
        assert("mjs"@ != "cxx"@);
        reveal_strlit("hpp");
        assert("mjs"@[0] != "hpp"@[0]);
        assert("mjs"@ != "hpp"@);
        reveal_strlit("c");
        assert("mjs"@.len() != "c"@.len());
        assert("mjs"@ != "c"@);
        reveal_strlit("h");
        assert("mjs"@.len() != "h"@.len());
        assert("mjs"@ != "h"@);
        reveal_strlit("js");
        assert("mjs"@.len() != "js"@.len());
        assert("mjs"@ != "js"@);
        reveal_strlit("jsx");
        assert("mjs"@[0] != "jsx"@[0]);
        assert("mjs"@ != "jsx"@);
    }
    assert(ext_tag_spec("ts"@) matches Some(t) && t == "it/frontend/fundamentals#typescript"@) by {
        reveal_strlit("ts");
        reveal_strlit("rs");
        assert("ts"@[0] != "rs"@[0]);
        assert("ts"@ != "rs"@);
        reveal_strlit("go");
        assert("ts"@[0] != "go"@[0]);
        assert("ts"@ != "go"@);
        reveal_strlit("py");
        assert("ts"@[0] != "py"@[0]);
        assert("ts"@ != "py"@);
        reveal_strlit("java");
        assert("ts"@.len() != "java"@.len());
        assert("ts"@ != "java"@);
        reveal_strlit("kt");
        assert("ts"@[0] != "kt"@[0]);
        assert("ts"@ != "kt"@);
        reveal_strlit("kts");
        assert("ts"@.len() != "kts"@.len());
        assert("ts"@ != "kts"@);
        reveal_strlit("cs");
        assert("ts"@[0] != "cs"@[0]);
        assert("ts"@ != "cs"@);
        reveal_strlit("rb");
        assert("ts"@[0] != "rb"@[0]);
        assert("ts"@ != "rb"@);
        reveal_strlit("php");
        assert("ts"@.len() != "php"@.len());
        assert("ts"@ != "php"@);
        reveal_strlit("ex");
        assert("ts"@[0] != "ex"@[0]);
        assert("ts"@ != "ex"@);
        reveal_strlit("exs");
        assert("ts"@.len() != "exs"@.len());
        assert("ts"@ != "exs"@);
        reveal_strlit("scala");
        assert("ts"@.len() != "scala"@.len());
        assert("ts"@ != "scala"@);
        reveal_strlit("cpp");
        assert("ts"@.len() != "cpp"@.len());
        assert("ts"@ != "cpp"@);
        reveal_strlit("cc");
        assert("ts"@[0] != "cc"@[0]);
        assert("ts"@ != "cc"@);
        reveal_strlit("cxx");
        assert("ts"@.len() != "cxx"@.len());
        assert("ts"@ != "cxx"@);
        reveal_strlit("hpp");
        assert("ts"@.len() != "hpp"@.len());
        assert("ts"@ != "hpp"@);
        reveal_strlit("c");
        assert("ts"@.len() != "c"@.len());
        assert("ts"@ != "c"@);
        reveal_strlit("h");
        assert("ts"@.len() != "h"@.len());
        assert("ts"@ != "h"@);
        reveal_strlit("js");
        assert("ts"@[0] != "js"@[0]);
        assert("ts"@ != "js"@);
        reveal_strlit("jsx");
        assert("ts"@.len() != "jsx"@.len());
        assert("ts"@ != "jsx"@);
        reveal_strlit("mjs");
        assert("ts"@.len() != "mjs"@.len());
        assert("ts"@ != "mjs"@);
    }
    assert(ext_tag_spec("tsx"@) matches Some(t) && t == "it/frontend/fundamentals#typescript"@) by {
        reveal_strlit("tsx");
        reveal_strlit("rs");
        assert("tsx"@.len() != "rs"@.len());
        assert("tsx"@ != "rs"@);
        reveal_strlit("go");
        assert("tsx"@.len() != "go"@.len());
        assert("tsx"@ != "go"@);
        reveal_strlit("py");
        assert("tsx"@.len() != "py"@.len());
        assert("tsx"@ != "py"@);
        reveal_strlit("java");
        assert("tsx"@.len() != "java"@.len());
        assert("tsx"@ != "java"@);
        reveal_strlit("kt");
        assert("tsx"@.len() != "kt"@.len());
        assert("tsx"@ != "kt"@);
        reveal_strlit("kts");
        assert("tsx"@[0] != "kts"@[0]);
        assert("tsx"@ != "kts"@);
        reveal_strlit("cs");
        assert("tsx"@.len() != "cs"@.len());
        assert("tsx"@ != "cs"@);
        reveal_strlit("rb");
        assert("tsx"@.len() != "rb"@.len());
        assert("tsx"@ != "rb"@);
        reveal_strlit("php");
        assert("tsx"@[0] != "php"@[0]);
        assert("tsx"@ != "php"@);
        reveal_strlit("ex");
        assert("tsx"@.len() != "ex"@.len());
        assert("tsx"@ != "ex"@);
        reveal_strlit("exs");
        assert("tsx"@[0] != "exs"@[0]);
        assert("tsx"@ != "exs"@);
        reveal_strlit("scala");
        assert("tsx"@.len() != "scala"@.len());
        assert("tsx"@ != "scala"@);
        reveal_strlit("cpp");
        assert("tsx"@[0] != "cpp"@[0]);
        assert("tsx"@ != "cpp"@);
        reveal_strlit("cc");
        assert("tsx"@.len() != "cc"@.len());
        assert("tsx"@ != "cc"@);
        reveal_strlit("cxx");
        assert("tsx"@[0] != "cxx"@[0]);
        assert("tsx"@ != "cxx"@);
        reveal_strlit("hpp");
        assert("tsx"@[0] != "hpp"@[0]);
        assert("tsx"@ != "hpp"@);
        reveal_strlit("c");
        assert("tsx"@.len() != "c"@.len());
        assert("tsx"@ != "c"@);
        reveal_strlit("h");
        assert("tsx"@.len() != "h"@.len());
        assert("tsx"@ != "h"@);
        reveal_strlit("js");
        assert("tsx"@.len() != "js"@.len());
        assert("tsx"@ != "js"@);
        reveal_strlit("jsx");
        assert("tsx"@[0] != "jsx"@[0]);
        assert("tsx"@ != "jsx"@);
        reveal_strlit("mjs");
        assert("tsx"@[0] != "mjs"@[0]);
        assert("tsx"@ != "mjs"@);
        reveal_strlit("ts");
        assert("tsx"@.len() != "ts"@.len());
        assert("tsx"@ != "ts"@);
    }
    assert(ext_tag_spec("swift"@) matches Some(t) && t == "it/mobile/native#swift"@) by {
        reveal_strlit("swift");
        reveal_strlit("rs");
        assert("swift"@.len() != "rs"@.len());
        assert("swift"@ != "rs"@);
        reveal_strlit("go");
        assert("swift"@.len() != "go"@.len());
        assert("swift"@ != "go"@);
        reveal_strlit("py");
        assert("swift"@.len() != "py"@.len());
        assert("swift"@ != "py"@);
        reveal_strlit("java");
        assert("swift"@.len() != "java"@.len());
        assert("swift"@ != "java"@);
        reveal_strlit("kt");
        assert("swift"@.len() != "kt"@.len());
        assert("swift"@ != "kt"@);
        reveal_strlit("kts");
        assert("swift"@.len() != "kts"@.len());
        assert("swift"@ != "kts"@);
        reveal_strlit("cs");
        assert("swift"@.len() != "cs"@.len());
        assert("swift"@ != "cs"@);
        reveal_strlit("rb");
        assert("swift"@.len() != "rb"@.len());
        assert("swift"@ != "rb"@);
        reveal_strlit("php");
        assert("swift"@.len() != "php"@.len());
        assert("swift"@ != "php"@);
        reveal_strlit("ex");
        assert("swift"@.len() != "ex"@.len());
        assert("swift"@ != "ex"@);
        reveal_strlit("exs");
        assert("swift"@.len() != "exs"@.len());
        assert("swift"@ != "exs"@);
        reveal_strlit("scala");
        assert("swift"@[1] != "scala"@[1]);
        assert("swift"@ != "scala"@);
        reveal_strlit("cpp");
        assert("swift"@.len() != "cpp"@.len());
        assert("swift"@ != "cpp"@);
        reveal_strlit("cc");
        assert("swift"@.len() != "cc"@.len());
        assert("swift"@ != "cc"@);
        reveal_strlit("cxx");
        assert("swift"@.len() != "cxx"@.len());
        assert("swift"@ != "cxx"@);
        reveal_strlit("hpp");
        assert("swift"@.len() != "hpp"@.len());
        assert("swift"@ != "hpp"@);
        reveal_strlit("c");
        assert("swift"@.len() != "c"@.len());
        assert("swift"@ != "c"@);
        reveal_strlit("h");
        assert("swift"@.len() != "h"@.len());
        assert("swift"@ != "h"@);
        reveal_strlit("js");
        assert("swift"@.len() != "js"@.len());
        assert("swift"@ != "js"@);
        reveal_strlit("jsx");
        assert("swift"@.len() != "jsx"@.len());
        assert("swift"@ != "jsx"@);
        reveal_strlit("mjs");
        assert("swift"@.len() != "mjs"@.len());
        assert("swift"@ != "mjs"@);
        reveal_strlit("ts");
        assert("swift"@.len() != "ts"@.len());
        assert("swift"@ != "ts"@);
        reveal_strlit("tsx");
        assert("swift"@.len() != "tsx"@.len());
        assert("swift"@ != "tsx"@);
    }
    assert(ext_tag_spec("sql"@) matches Some(t) && t == "it/data/analytics#sql"@) by {
        reveal_strlit("sql");
        reveal_strlit("rs");
        assert("sql"@.len() != "rs"@.len());
        assert("sql"@ != "rs"@);
        reveal_strlit("go");
        assert("sql"@.len() != "go"@.len());
        assert("sql"@ != "go"@);
        reveal_strlit("py");
        assert("sql"@.len() != "py"@.len());
        assert("sql"@ != "py"@);
        reveal_strlit("java");
        assert("sql"@.len() != "java"@.len());
        assert("sql"@ != "java"@);
        reveal_strlit("kt");
        assert("sql"@.len() != "kt"@.len());
        assert("sql"@ != "kt"@);
        reveal_strlit("kts");
        assert("sql"@[0] != "kts"@[0]);
        assert("sql"@ != "kts"@);
        reveal_strlit("cs");
        assert("sql"@.len() != "cs"@.len());
        assert("sql"@ != "cs"@);
        reveal_strlit("rb");
        assert("sql"@.len() != "rb"@.len());
        assert("sql"@ != "rb"@);
        reveal_strlit("php");
        assert("sql"@[0] != "php"@[0]);
        assert("sql"@ != "php"@);
        reveal_strlit("ex");
        assert("sql"@.len() != "ex"@.len());
        assert("sql"@ != "ex"@);
        reveal_strlit("exs");
        assert("sql"@[0] != "exs"@[0]);
        assert("sql"@ != "exs"@);
        reveal_strlit("scala");
        assert("sql"@.len() != "scala"@.len());
        assert("sql"@ != "scala"@);
        reveal_strlit("cpp");
        assert("sql"@[0] != "cpp"@[0]);
        assert("sql"@ != "cpp"@);
        reveal_strlit("cc");
        assert("sql"@.len() != "cc"@.len());
        assert("sql"@ != "cc"@);
        reveal_strlit("cxx");
        assert("sql"@[0] != "cxx"@[0]);
        assert("sql"@ != "cxx"@);
        reveal_strlit("hpp");
        assert("sql"@[0] != "hpp"@[0]);
        assert("sql"@ != "hpp"@);
        reveal_strlit("c");
        assert("sql"@.len() != "c"@.len());
        assert("sql"@ != "c"@);
        reveal_strlit("h");
        assert("sql"@.len() != "h"@.len());
        assert("sql"@ != "h"@);
        reveal_strlit("js");
        assert("sql"@.len() != "js"@.len());
        assert("sql"@ != "js"@);
        reveal_strlit("jsx");
        assert("sql"@[0] != "jsx"@[0]);
        assert("sql"@ != "jsx"@);
        reveal_strlit("mjs");
        assert("sql"@[0] != "mjs"@[0]);
        assert("sql"@ != "mjs"@);
        reveal_strlit("ts");
        assert("sql"@.len() != "ts"@.len());
        assert("sql"@ != "ts"@);
        reveal_strlit("tsx");
        assert("sql"@[0] != "tsx"@[0]);
        assert("sql"@ != "tsx"@);
        reveal_strlit("swift");
        assert("sql"@.len() != "swift"@.len());
        assert("sql"@ != "swift"@);
    }
    assert(ext_tag_spec("tf"@) matches Some(t) && t == "it/infra/automation#terraform"@) by {
        reveal_strlit("tf");
        reveal_strlit("rs");
        assert("tf"@[0] != "rs"@[0]);
        assert("tf"@ != "rs"@);
        reveal_strlit("go");
        assert("tf"@[0] != "go"@[0]);
        assert("tf"@ != "go"@);
        reveal_strlit("py");
        assert("tf"@[0] != "py"@[0]);
        assert("tf"@ != "py"@);
        reveal_strlit("java");
        assert("tf"@.len() != "java"@.len());
        assert("tf"@ != "java"@);
        reveal_strlit("kt");
        assert("tf"@[0] != "kt"@[0]);
        assert("tf"@ != "kt"@);
        reveal_strlit("kts");
        assert("tf"@.len() != "kts"@.len());
        assert("tf"@ != "kts"@);
        reveal_strlit("cs");
        assert("tf"@[0] != "cs"@[0]);
        assert("tf"@ != "cs"@);
        reveal_strlit("rb");
        assert("tf"@[0] != "rb"@[0]);
        assert("tf"@ != "rb"@);
        reveal_strlit("php");
        assert("tf"@.len() != "php"@.len());
        assert("tf"@ != "php"@);
        reveal_strlit("ex");
        assert("tf"@[0] != "ex"@[0]);
        assert("tf"@ != "ex"@);
        reveal_strlit("exs");
        assert("tf"@.len() != "exs"@.len());
        assert("tf"@ != "exs"@);
        reveal_strlit("scala");
        assert("tf"@.len() != "scala"@.len());
        assert("tf"@ != "scala"@);
        reveal_strlit("cpp");
        assert("tf"@.len() != "cpp"@.len());
        assert("tf"@ != "cpp"@);
        reveal_strlit("cc");
        assert("tf"@[0] != "cc"@[0]);
        assert("tf"@ != "cc"@);
        reveal_strlit("cxx");
        assert("tf"@.len() != "cxx"@.len());
        assert("tf"@ != "cxx"@);
        reveal_strlit("hpp");
        assert("tf"@.len() != "hpp"@.len());
        assert("tf"@ != "hpp"@);
        reveal_strlit("c");
        assert("tf"@.len() != "c"@.len());
        assert("tf"@ != "c"@);
        reveal_strlit("h");
        assert("tf"@.len() != "h"@.len());
        assert("tf"@ != "h"@);
        reveal_strlit("js");
        assert("tf"@[0] != "js"@[0]);
        assert("tf"@ != "js"@);
        reveal_strlit("jsx");
        assert("tf"@.len() != "jsx"@.len());
        assert("tf"@ != "jsx"@);
        reveal_strlit("mjs");
        assert("tf"@.len() != "mjs"@.len());
        assert("tf"@ != "mjs"@);
        reveal_strlit("ts");
        assert("tf"@[1] != "ts"@[1]);
        assert("tf"@ != "ts"@);
        reveal_strlit("tsx");
        assert("tf"@.len() != "tsx"@.len());
        assert("tf"@ != "tsx"@);
        reveal_strlit("swift");
        assert("tf"@.len() != "swift"@.len());
        assert("tf"@ != "swift"@);
        reveal_strlit("sql");
        assert("tf"@.len() != "sql"@.len());
        assert("tf"@ != "sql"@);
    }
    assert(ext_tag_spec("sol"@) matches Some(t) && t == "it/distributed/blockchain#solidity"@) by {
        reveal_strlit("sol");
        reveal_strlit("rs");
        assert("sol"@.len() != "rs"@.len());
        assert("sol"@ != "rs"@);
        reveal_strlit("go");
        assert("sol"@.len() != "go"@.len());
        assert("sol"@ != "go"@);
        reveal_strlit("py");
        assert("sol"@.len() != "py"@.len());
        assert("sol"@ != "py"@);
        reveal_strlit("java");
        assert("sol"@.len() != "java"@.len());
        assert("sol"@ != "java"@);
        reveal_strlit("kt");
        assert("sol"@.len() != "kt"@.len());
        assert("sol"@ != "kt"@);
        reveal_strlit("kts");
        assert("sol"@[0] != "kts"@[0]);
        assert("sol"@ != "kts"@);
        reveal_strlit("cs");
        assert("sol"@.len() != "cs"@.len());
        assert("sol"@ != "cs"@);
        reveal_strlit("rb");
        assert("sol"@.len() != "rb"@.len());
        assert("sol"@ != "rb"@);
        reveal_strlit("php");
        assert("sol"@[0] != "php"@[0]);
        assert("sol"@ != "php"@);
        reveal_strlit("ex");
        assert("sol"@.len() != "ex"@.len());
        assert("sol"@ != "ex"@);
        reveal_strlit("exs");
        assert("sol"@[0] != "exs"@[0]);
        assert("sol"@ != "exs"@);
        reveal_strlit("scala");
        assert("sol"@.len() != "scala"@.len());
        assert("sol"@ != "scala"@);
        reveal_strlit("cpp");
        assert("sol"@[0] != "cpp"@[0]);
        assert("sol"@ != "cpp"@);
        reveal_strlit("cc");
        assert("sol"@.len() != "cc"@.len());
        assert("sol"@ != "cc"@);
        reveal_strlit("cxx");
        assert("sol"@[0] != "cxx"@[0]);
        assert("sol"@ != "cxx"@);
        reveal_strlit("hpp");
        assert("sol"@[0] != "hpp"@[0]);
        assert("sol"@ != "hpp"@);
        reveal_strlit("c");
        assert("sol"@.len() != "c"@.len());
        assert("sol"@ != "c"@);
        reveal_strlit("h");
        assert("sol"@.len() != "h"@.len());
        assert("sol"@ != "h"@);
        reveal_strlit("js");
        assert("sol"@.len() != "js"@.len());
        assert("sol"@ != "js"@);
        reveal_strlit("jsx");
        assert("sol"@[0] != "jsx"@[0]);
        assert("sol"@ != "jsx"@);
        reveal_strlit("mjs");
        assert("sol"@[0] != "mjs"@[0]);
        assert("sol"@ != "mjs"@);
        reveal_strlit("ts");
        assert("sol"@.len() != "ts"@.len());
        assert("sol"@ != "ts"@);
        reveal_strlit("tsx");
        assert("sol"@[0] != "tsx"@[0]);
        assert("sol"@ != "tsx"@);
        reveal_strlit("swift");
        assert("sol"@.len() != "swift"@.len());
        assert("sol"@ != "swift"@);
        reveal_strlit("sql");
        assert("sol"@[1] != "sql"@[1]);
        assert("sol"@ != "sql"@);
        reveal_strlit("tf");
        assert("sol"@.len() != "tf"@.len());
        assert("sol"@ != "tf"@);
    }
    assert(ext_tag_spec("md"@) matches Some(t) && t == "it/docs#technical-writing"@) by {
        reveal_strlit("md");
        reveal_strlit("rs");
        assert("md"@[0] != "rs"@[0]);
        assert("md"@ != "rs"@);
        reveal_strlit("go");
        assert("md"@[0] != "go"@[0]);
        assert("md"@ != "go"@);
        reveal_strlit("py");
        assert("md"@[0] != "py"@[0]);
        assert("md"@ != "py"@);
        reveal_strlit("java");
        assert("md"@.len() != "java"@.len());
        assert("md"@ != "java"@);
        reveal_strlit("kt");
        assert("md"@[0] != "kt"@[0]);
        assert("md"@ != "kt"@);
        reveal_strlit("kts");
        assert("md"@.len() != "kts"@.len());
        assert("md"@ != "kts"@);
        reveal_strlit("cs");
        assert("md"@[0] != "cs"@[0]);
        assert("md"@ != "cs"@);
        reveal_strlit("rb");
        assert("md"@[0] != "rb"@[0]);
        assert("md"@ != "rb"@);
        reveal_strlit("php");
        assert("md"@.len() != "php"@.len());
        assert("md"@ != "php"@);
        reveal_strlit("ex");
        assert("md"@[0] != "ex"@[0]);
        assert("md"@ != "ex"@);
        reveal_strlit("exs");
        assert("md"@.len() != "exs"@.len());
        assert("md"@ != "exs"@);
        reveal_strlit("scala");
        assert("md"@.len() != "scala"@.len());
        assert("md"@ != "scala"@);
        reveal_strlit("cpp");
        assert("md"@.len() != "cpp"@.len());
        assert("md"@ != "cpp"@);
        reveal_strlit("cc");
        assert("md"@[0] != "cc"@[0]);
        assert("md"@ != "cc"@);
        reveal_strlit("cxx");
        assert("md"@.len() != "cxx"@.len());
        assert("md"@ != "cxx"@);
        reveal_strlit("hpp");
        assert("md"@.len() != "hpp"@.len());
        assert("md"@ != "hpp"@);
        reveal_strlit("c");
        assert("md"@.len() != "c"@.len());
        assert("md"@ != "c"@);
        reveal_strlit("h");
        assert("md"@.len() != "h"@.len());
        assert("md"@ != "h"@);
        reveal_strlit("js");
        assert("md"@[0] != "js"@[0]);
        assert("md"@ != "js"@);
        reveal_strlit("jsx");
        assert("md"@.len() != "jsx"@.len());
        assert("md"@ != "jsx"@);
        reveal_strlit("mjs");
        assert("md"@.len() != "mjs"@.len());
        assert("md"@ != "mjs"@);
        reveal_strlit("ts");
        assert("md"@[0] != "ts"@[0]);
        assert("md"@ != "ts"@);
        reveal_strlit("tsx");
        assert("md"@.len() != "tsx"@.len());
        assert("md"@ != "tsx"@);
        reveal_strlit("swift");
        assert("md"@.len() != "swift"@.len());
        assert("md"@ != "swift"@);
        reveal_strlit("sql");
        assert("md"@.len() != "sql"@.len());
        assert("md"@ != "sql"@);
        reveal_strlit("tf");
        assert("md"@[0] != "tf"@[0]);
        assert("md"@ != "tf"@);
        reveal_strlit("sol");
        assert("md"@.len() != "sol"@.len());
        assert("md"@ != "sol"@);
    }
}

/// Only the extensions of the table suggest a tag; every other extension
/// suggests none.
pub proof fn law_unlisted_extensions_suggest_nothing(ext: Seq<char>)
    requires
        ext != "rs"@,
        ext != "go"@,
        ext != "py"@,
        ext != "java"@,
        ext != "kt"@,
        ext != "kts"@,
        ext != "cs"@,
        ext != "rb"@,
        ext != "php"@,
        ext != "ex"@,
        ext != "exs"@,
        ext != "scala"@,
        ext != "cpp"@,
        ext != "cc"@,
        ext != "cxx"@,
        ext != "hpp"@,
        ext != "c"@,
        ext != "h"@,
        ext != "js"@,
        ext != "jsx"@,
        ext != "mjs"@,
        ext != "ts"@,
        ext != "tsx"@,
        ext != "swift"@,
        ext != "sql"@,
        ext != "tf"@,
        ext != "sol"@,
        ext != "md"@,
    ensures
        ext_tag_spec(ext) is None,
{
}

/// The taxonomy leaf a lower-cased file extension suggests, if any.
pub fn extension_to_skill_tag(ext: &str) -> (r: Option<&'static str>)
    ensures
        match ext_tag_spec(ext@) {
            Some(t) => r matches Some(s) && s@ == t,
            None => r is None,
        },
{
    if str_eq(ext, "rs") {
        Some("it/backend/languages#rust")
    } else if str_eq(ext, "go") {
        Some("it/backend/languages#go")
    } else if str_eq(ext, "py") {
        Some("it/backend/languages#python")
    } else if str_eq(ext, "java") {
        Some("it/backend/languages#java")
    } else if str_eq(ext, "kt") || str_eq(ext, "kts") {
        Some("it/backend/languages#kotlin")
    } else if str_eq(ext, "cs") {
        Some("it/backend/languages#csharp")
    } else if str_eq(ext, "rb") {
        Some("it/backend/languages#ruby")
    } else if str_eq(ext, "php") {
        Some("it/backend/languages#php")
    } else if str_eq(ext, "ex") || str_eq(ext, "exs") {
        Some("it/backend/languages#elixir")
    } else if str_eq(ext, "scala") {
        Some("it/backend/languages#scala")
    } else if str_eq(ext, "cpp") || str_eq(ext, "cc") || str_eq(ext, "cxx") || str_eq(ext, "hpp") {
        Some("it/backend/languages#cpp")
    } else if str_eq(ext, "c") || str_eq(ext, "h") {
        Some("it/embedded/firmware#c-embedded")
    } else if str_eq(ext, "js") || str_eq(ext, "jsx") || str_eq(ext, "mjs") {
        Some("it/frontend/fundamentals#javascript")
    } else if str_eq(ext, "ts") || str_eq(ext, "tsx") {
        Some("it/frontend/fundamentals#typescript")
    } else if str_eq(ext, "swift") {
        Some("it/mobile/native#swift")
    } else if str_eq(ext, "sql") {
        Some("it/data/analytics#sql")
    } else if str_eq(ext, "tf") {
        Some("it/infra/automation#terraform")
    } else if str_eq(ext, "sol") {
        Some("it/distributed/blockchain#solidity")
    } else if str_eq(ext, "md") {
        Some("it/docs#technical-writing")
    } else {
        None
    }
}

/// A commit as text: author (name, e-mail), extensions, co-authors.
pub type CommitText = ((Seq<char>, Seq<char>), Seq<Seq<char>>, Seq<(Seq<char>, Seq<char>)>);

/// The commits as text.
pub open spec fn commits_view(cs: Seq<LogCommit>) -> Seq<CommitText> {
    cs.map_values(|c: LogCommit| commit_view(c))
}

/// `c` was authored by the identity `k`.
pub open spec fn authored(c: CommitText, k: Seq<u32>) -> bool {
    email_key(c.0.1) == k
}

/// `c` credits the identity `k` in a trailer.
pub open spec fn credits(c: CommitText, k: Seq<u32>) -> bool {
    exists|j: int| 0 <= j < c.2.len() && email_key(#[trigger] c.2[j].1) == k
}

/// How many of `cs` the identity `k` authored.
pub open spec fn commits_by(cs: Seq<CommitText>, k: Seq<u32>) -> nat
    decreases cs.len(),
{
    if cs.len() == 0 {
        0
    } else {
        commits_by(cs.drop_last(), k) + if authored(cs.last(), k) {
            1nat
        } else {
            0nat
        }
    }
}

/// Some commit by `k` touched a file whose extension suggests the tag `t`.
pub open spec fn suggests_tag(cs: Seq<CommitText>, k: Seq<u32>, t: Seq<char>) -> bool {
    exists|i: int, j: int|
        0 <= i < cs.len() && authored(cs[i], k) && 0 <= j < cs[i].1.len() && ext_tag_spec(#[trigger] cs[i].1[j])
            == Some(t)
}

/// `x` worked with `k`: `k` credited `x` on a commit of its own, or `x`
/// authored a commit that credits `k`.
pub open spec fn introduces(cs: Seq<CommitText>, k: Seq<u32>, x: Seq<u32>) -> bool {
    ||| exists|i: int, j: int|
        0 <= i < cs.len() && authored(cs[i], k) && 0 <= j < cs[i].2.len() && email_key(#[trigger] cs[i].2[j].1)
            == x
    ||| exists|i: int| 0 <= i < cs.len() && credits(#[trigger] cs[i], k) && authored(cs[i], x)
}

/// The identity `x` appears in `cs`, as an author or a co-author.
pub open spec fn known(cs: Seq<CommitText>, x: Seq<u32>) -> bool {
    exists|i: int| 0 <= i < cs.len() && (authored(#[trigger] cs[i], x) || credits(cs[i], x))
}

/// How a contributor is named: as on the first commit the identity
/// authored, or, for someone seen only in trailers, as some trailer names
/// them.
pub open spec fn named_as_seen(cs: Seq<CommitText>, c: Contributor) -> bool {
    let k = c.key();
    if exists|i: int| 0 <= i < cs.len() && authored(#[trigger] cs[i], k) {
        exists|i: int|
            0 <= i < cs.len() && authored(#[trigger] cs[i], k) && cs[i].0 == cview(c) && forall|h: int|
                0 <= h < i ==> !authored(#[trigger] cs[h], k)
    } else {
        exists|i: int, j: int| 0 <= i < cs.len() && 0 <= j < cs[i].2.len() && #[trigger] cs[i].2[j] == cview(c)
    }
}

/// The identity keys of a list of contributors.
pub open spec fn keys_of(v: Seq<Contributor>) -> Seq<Seq<u32>> {
    v.map_values(|c: Contributor| c.key())
}

/// No identity occurs twice.
pub open spec fn keys_unique(v: Seq<Contributor>) -> bool {
    forall|a: int, b: int| 0 <= a < b < v.len() ==> (#[trigger] v[a]).key() != (#[trigger] v[b]).key()
}

/// The suggestion for one contributor of the log.
#[derive(Debug, Clone)]
pub struct BootstrapSuggestion {
    pub contributor: Contributor,
    pub commit_count: u32,
    /// Leaf tags suggested by the extensions of the files this contributor
    /// touched, each once, ranked by how many touched files suggest each,
    /// most first: candidates to review before signing a profile, never
    /// published as they are.
    pub candidate_skill_tags: Vec<String>,
    /// The others seen on a shared `Co-authored-by:` trailer, each once:
    /// candidates for an introduction, with the same caveat.
    pub candidate_introductions: Vec<Contributor>,
}

/// `s` is what the log `cs` says of its contributor.
pub open spec fn describes(cs: Seq<CommitText>, s: BootstrapSuggestion) -> bool {
    let k = s.contributor.key();
    let tags = s.candidate_skill_tags@.map_values(|t: String| t@);
    let intros = s.candidate_introductions@;
    &&& known(cs, k)
    &&& named_as_seen(cs, s.contributor)
    &&& s.commit_count == commits_by(cs, k)
    &&& forall|t: Seq<char>| tags.contains(t) <==> suggests_tag(cs, k, t)
    &&& forall|a: int, b: int| 0 <= a < b < tags.len() ==> #[trigger] tags[a] != #[trigger] tags[b]
    &&& forall|a: int, b: int| 0 <= a < b < tags.len() ==> tag_weight(cs, k, #[trigger] tags[a]) >= tag_weight(
        cs,
        k,
        #[trigger] tags[b],
    )
    &&& forall|x: Seq<u32>| keys_of(intros).contains(x) <==> introduces(cs, k, x)
    &&& keys_unique(intros)
}

/// `a` may be listed before `b`: more commits first, then by name.
pub open spec fn ranks_before(a: BootstrapSuggestion, b: BootstrapSuggestion) -> bool {
    a.commit_count > b.commit_count || (a.commit_count == b.commit_count && !str_lt(
        b.contributor.name@,
        a.contributor.name@,
    ))
}

fn has_key(ids: &Vec<Contributor>, email: &str) -> (r: bool)
    ensures
        r == keys_of(ids@).contains(email_key(email@)),
{
    let mut i: usize = 0;
    while i < ids.len()
        invariant
            i <= ids@.len(),
            forall|j: int| 0 <= j < i ==> (#[trigger] ids@[j]).key() != email_key(email@),
        decreases ids.len() - i,
    {
        if same_email(ids[i].email.as_str(), email) {
            assert(keys_of(ids@)[i as int] == email_key(email@));
            return true;
        }
        i = i + 1;
    }
    proof {
        if keys_of(ids@).contains(email_key(email@)) {
            let j = choose|j: int| 0 <= j < keys_of(ids@).len() && keys_of(ids@)[j] == email_key(email@);
            assert(ids@[j].key() == email_key(email@));
        }
    }
    false
}

fn copy_contributor(c: &Contributor) -> (r: Contributor)
    ensures
        r == *c,
{
    Contributor { name: c.name.clone(), email: c.email.clone() }
}

/// Every identity of the log once: authors in order of their first commit,
/// then those seen only in trailers, in order of first mention.
fn identities(cs: &[LogCommit]) -> (ids: Vec<Contributor>)
    ensures
        keys_unique(ids@),
        forall|a: int|
            0 <= a < ids@.len() ==> known(commits_view(cs@), (#[trigger] ids@[a]).key()) && named_as_seen(
                commits_view(cs@),
                ids@[a],
            ),
        forall|x: Seq<u32>| known(commits_view(cs@), x) ==> keys_of(ids@).contains(x),
{
    let ghost cv = commits_view(cs@);
    let mut ids: Vec<Contributor> = Vec::new();
    let mut i: usize = 0;
    while i < cs.len()
        invariant
            i <= cs@.len(),
            cv == commits_view(cs@),
            keys_unique(ids@),
            forall|a: int|
                0 <= a < ids@.len() ==> known(cv, (#[trigger] ids@[a]).key()) && named_as_seen(cv, ids@[a]),
            forall|h: int| 0 <= h < i ==> keys_of(ids@).contains(email_key((#[trigger] cv[h]).0.1)),
        decreases cs.len() - i,
    {
        assert(cv[i as int] == commit_view(cs@[i as int]));
        if !has_key(&ids, cs[i].author.email.as_str()) {
            let c = copy_contributor(&cs[i].author);
            let ghost before = ids@;
            ids.push(c);
            proof {
                let k = c.key();
                assert(authored(cv[i as int], k));
                assert forall|h: int| 0 <= h < i implies !authored(#[trigger] cv[h], k) by {
                    if authored(cv[h], k) {
                        assert(keys_of(before).contains(k));
                    }
                }
                assert(named_as_seen(cv, c));
                assert(known(cv, k));
                assert forall|a: int, b: int| 0 <= a < b < ids@.len() implies (#[trigger] ids@[a]).key()
                    != (#[trigger] ids@[b]).key() by {
                    if b == ids@.len() - 1 {
                        assert(keys_of(before)[a] == ids@[a].key());
                    }
                }
                assert forall|h: int| 0 <= h < i + 1 implies keys_of(ids@).contains(email_key((#[trigger] cv[h]).0.1)) by {
                    if h < i {
                        let a = choose|a: int| 0 <= a < keys_of(before).len() && keys_of(before)[a] == email_key(cv[h].0.1);
                        assert(keys_of(ids@)[a] == keys_of(before)[a]);
                    } else {
                        assert(keys_of(ids@)[ids@.len() - 1] == k);
                    }
                }
            }
        } else {
            assert(keys_of(ids@).contains(email_key(cv[i as int].0.1)));
        }
        i = i + 1;
    }
    let mut i: usize = 0;
    while i < cs.len()
        invariant
            i <= cs@.len(),
            cv == commits_view(cs@),
            keys_unique(ids@),
            forall|a: int|
                0 <= a < ids@.len() ==> known(cv, (#[trigger] ids@[a]).key()) && named_as_seen(cv, ids@[a]),
            forall|h: int| 0 <= h < cv.len() ==> keys_of(ids@).contains(email_key((#[trigger] cv[h]).0.1)),
            forall|h: int, j: int|
                0 <= h < i && 0 <= j < cv[h].2.len() ==> keys_of(ids@).contains(email_key((#[trigger] cv[h].2[j]).1)),
        decreases cs.len() - i,
    {
        assert(cv[i as int] == commit_view(cs@[i as int]));
        let cos = &cs[i].co_authors;
        let mut j: usize = 0;
        while j < cos.len()
            invariant
                i < cs@.len(),
                j <= cos@.len(),
                cos == &cs@[i as int].co_authors,
                cv == commits_view(cs@),
                cv[i as int] == commit_view(cs@[i as int]),
                keys_unique(ids@),
                forall|a: int|
                    0 <= a < ids@.len() ==> known(cv, (#[trigger] ids@[a]).key()) && named_as_seen(cv, ids@[a]),
                forall|h: int| 0 <= h < cv.len() ==> keys_of(ids@).contains(email_key((#[trigger] cv[h]).0.1)),
                forall|h: int, jj: int|
                    0 <= h < i && 0 <= jj < cv[h].2.len() ==> keys_of(ids@).contains(email_key((#[trigger] cv[h].2[jj]).1)),
                forall|jj: int| 0 <= jj < j ==> keys_of(ids@).contains(email_key((#[trigger] cv[i as int].2[jj]).1)),
            decreases cos.len() - j,
        {
            assert(cv[i as int].2[j as int] == cview(cos@[j as int]));
            if !has_key(&ids, cos[j].email.as_str()) {
                let c = copy_contributor(&cos[j]);
                let ghost before = ids@;
                ids.push(c);
                proof {
                    let k = c.key();
                    assert(email_key(cv[i as int].2[j as int].1) == k);
                    assert(credits(cv[i as int], k));
                    assert(known(cv, k));
                    assert(!(exists|h: int| 0 <= h < cv.len() && authored(#[trigger] cv[h], k))) by {
                        if exists|h: int| 0 <= h < cv.len() && authored(#[trigger] cv[h], k) {
                            let h = choose|h: int| 0 <= h < cv.len() && authored(#[trigger] cv[h], k);
                            assert(keys_of(before).contains(email_key(cv[h].0.1)));
                        }
                    }
                    assert(named_as_seen(cv, c));
                    assert forall|a: int, b: int| 0 <= a < b < ids@.len() implies (#[trigger] ids@[a]).key()
                        != (#[trigger] ids@[b]).key() by {
                        if b == ids@.len() - 1 {
                            assert(keys_of(before)[a] == ids@[a].key());
                        }
                    }
                    assert forall|x: Seq<u32>| keys_of(before).contains(x) implies keys_of(ids@).contains(x) by {
                        let a = choose|a: int| 0 <= a < keys_of(before).len() && keys_of(before)[a] == x;
                        assert(keys_of(ids@)[a] == keys_of(before)[a]);
                    }
                    assert(keys_of(ids@)[ids@.len() - 1] == k);
                }
            }
            j = j + 1;
        }
        i = i + 1;
    }
    proof {
        assert forall|x: Seq<u32>| known(cv, x) implies keys_of(ids@).contains(x) by {
            let h = choose|h: int| 0 <= h < cv.len() && (authored(#[trigger] cv[h], x) || credits(cv[h], x));
            if !authored(cv[h], x) {
                let j = choose|j: int| 0 <= j < cv[h].2.len() && email_key(#[trigger] cv[h].2[j].1) == x;
                assert(keys_of(ids@).contains(email_key(cv[h].2[j].1)));
            } else {
                assert(keys_of(ids@).contains(email_key(cv[h].0.1)));
            }
        }
    }
    ids
}

proof fn lemma_commits_by_bound(cs: Seq<CommitText>, k: Seq<u32>)
    ensures
        commits_by(cs, k) <= cs.len(),
    decreases cs.len(),
{
    if cs.len() > 0 {
        lemma_commits_by_bound(cs.drop_last(), k);
    }
}

fn count_commits(cs: &[LogCommit], who: &Contributor) -> (n: u32)
    requires
        cs@.len() <= u32::MAX,
    ensures
        n == commits_by(commits_view(cs@), who.key()),
{
    let ghost cv = commits_view(cs@);
    let ghost k = who.key();
    let mut n: u32 = 0;
    let mut i: usize = 0;
    while i < cs.len()
        invariant
            i <= cs@.len(),
            cs@.len() <= u32::MAX,
            cv == commits_view(cs@),
            k == who.key(),
            n == commits_by(cv.take(i as int), k),
            n <= i,
        decreases cs.len() - i,
    {
        proof {
            assert(cv.take(i + 1).drop_last() =~= cv.take(i as int));
            assert(cv.take(i + 1).last() == commit_view(cs@[i as int]));
        }
        if cs[i].author.same_person(who) {
            n = n + 1;
        }
        i = i + 1;
    }
    assert(cv.take(cv.len() as int) =~= cv);
    n
}

fn tags_of(cs: &[LogCommit], who: &Contributor) -> (r: Vec<String>)
    ensures
        forall|t: Seq<char>| strs(r@).contains(t) <==> suggests_tag(commits_view(cs@), who.key(), t),
        forall|a: int, b: int| 0 <= a < b < r@.len() ==> (#[trigger] r@[a])@ != (#[trigger] r@[b])@,
{
    let ghost cv = commits_view(cs@);
    let ghost k = who.key();
    let mut out: Vec<String> = Vec::new();
    let mut i: usize = 0;
    while i < cs.len()
        invariant
            i <= cs@.len(),
            cv == commits_view(cs@),
            k == who.key(),
            forall|a: int, b: int| 0 <= a < b < out@.len() ==> (#[trigger] out@[a])@ != (#[trigger] out@[b])@,
            forall|t: Seq<char>| strs(out@).contains(t) <==> exists|i2: int, j2: int|
                0 <= i2 < i && authored(cv[i2], k) && 0 <= j2 < cv[i2].1.len() && ext_tag_spec(#[trigger] cv[i2].1[j2])
                    == Some(t),
        decreases cs.len() - i,
    {
        assert(cv[i as int] == commit_view(cs@[i as int]));
        if cs[i].author.same_person(who) {
            let exts = &cs[i].extensions;
            let mut j: usize = 0;
            while j < exts.len()
                invariant
                    i < cs@.len(),
                    j <= exts@.len(),
                    exts == &cs@[i as int].extensions,
                    cv == commits_view(cs@),
                    cv[i as int] == commit_view(cs@[i as int]),
                    authored(cv[i as int], k),
                    forall|a: int, b: int| 0 <= a < b < out@.len() ==> (#[trigger] out@[a])@ != (#[trigger] out@[b])@,
                    forall|t: Seq<char>| strs(out@).contains(t) <==> (exists|i2: int, j2: int|
                        0 <= i2 < i && authored(cv[i2], k) && 0 <= j2 < cv[i2].1.len() && ext_tag_spec(
                            #[trigger] cv[i2].1[j2],
                        ) == Some(t)) || (exists|j2: int| 0 <= j2 < j && ext_tag_spec(#[trigger] cv[i as int].1[j2]) == Some(t)),
                decreases exts.len() - j,
            {
                assert(cv[i as int].1[j as int] == exts@[j as int]@);
                let ghost prev = strs(out@);
                let ghost e = cv[i as int].1[j as int];
                assert(forall|x: Seq<char>| prev.contains(x) <==> (exists|i2: int, j2: int|
                    0 <= i2 < i && authored(cv[i2], k) && 0 <= j2 < cv[i2].1.len() && ext_tag_spec(
                        #[trigger] cv[i2].1[j2],
                    ) == Some(x)) || (exists|j2: int| 0 <= j2 < j && ext_tag_spec(#[trigger] cv[i as int].1[j2]) == Some(x)));
                match extension_to_skill_tag(exts[j].as_str()) {
                    Some(t) => {
                        if !crate::text::contains_str(&out, t) {
                            let ghost before = out@;
                            out.push(crate::text::string_from_str(t));
                            proof {
                                assert(strs(out@) =~= strs(before).push(t@));
                                assert forall|a: int, b: int| 0 <= a < b < out@.len() implies (#[trigger] out@[a])@
                                    != (#[trigger] out@[b])@ by {
                                    if b == out@.len() - 1 {
                                        assert(strs(before)[a] == out@[a]@);
                                    }
                                }
                            }
                        }
                        proof {
                            assert forall|x: Seq<char>| strs(out@).contains(x) <==> (prev.contains(x) || ext_tag_spec(e) == Some(x)) by {
                                if strs(out@).contains(x) && !prev.contains(x) {
                                    let q = choose|q: int| 0 <= q < strs(out@).len() && strs(out@)[q] == x;
                                    assert(q == prev.len());
                                }
                                if prev.contains(x) {
                                    let q = choose|q: int| 0 <= q < prev.len() && prev[q] == x;
                                    assert(strs(out@)[q] == x);
                                }
                                if ext_tag_spec(e) == Some(x) && !prev.contains(x) {
                                    assert(strs(out@)[prev.len() as int] == x);
                                }
                            }
                        }
                    },
                    None => {
                        assert(strs(out@) == prev);
                        assert(ext_tag_spec(e) is None);
                    },
                }
                assert(forall|x: Seq<char>| strs(out@).contains(x) <==> (prev.contains(x) || ext_tag_spec(e) == Some(x)));
                proof {
                    assert forall|t: Seq<char>| strs(out@).contains(t) <==> (exists|i2: int, j2: int|
                        0 <= i2 < i && authored(cv[i2], k) && 0 <= j2 < cv[i2].1.len() && ext_tag_spec(
                            #[trigger] cv[i2].1[j2],
                        ) == Some(t)) || (exists|j2: int| 0 <= j2 < j + 1 && ext_tag_spec(#[trigger] cv[i as int].1[j2]) == Some(t)) by {
                        assert(strs(out@).contains(t) <==> (prev.contains(t) || ext_tag_spec(e) == Some(t)));
                        if ext_tag_spec(cv[i as int].1[j as int]) == Some(t) {
                            assert(strs(out@).contains(t));
                        }
                        if exists|j2: int| 0 <= j2 < j + 1 && ext_tag_spec(#[trigger] cv[i as int].1[j2]) == Some(t) {
                            let j2 = choose|j2: int| 0 <= j2 < j + 1 && ext_tag_spec(#[trigger] cv[i as int].1[j2]) == Some(t);
                            if j2 < j {
                                assert(prev.contains(t));
                            }
                        }
                        if strs(out@).contains(t) {
                            if prev.contains(t) {
                                if exists|j2: int| 0 <= j2 < j && ext_tag_spec(#[trigger] cv[i as int].1[j2]) == Some(t) {
                                    let j2 = choose|j2: int| 0 <= j2 < j && ext_tag_spec(#[trigger] cv[i as int].1[j2]) == Some(t);
                                    assert(0 <= j2 < j + 1);
                                }
                            } else {
                                assert(ext_tag_spec(cv[i as int].1[j as int]) == Some(t));
                            }
                        }
                    }
                }
                j = j + 1;
            }
            proof {
                assert forall|t: Seq<char>| strs(out@).contains(t) <==> exists|i2: int, j2: int|
                    0 <= i2 < i + 1 && authored(cv[i2], k) && 0 <= j2 < cv[i2].1.len() && ext_tag_spec(#[trigger] cv[i2].1[j2])
                        == Some(t) by {
                    if exists|j2: int| 0 <= j2 < exts@.len() && ext_tag_spec(#[trigger] cv[i as int].1[j2]) == Some(t) {
                        let j2 = choose|j2: int| 0 <= j2 < exts@.len() && ext_tag_spec(#[trigger] cv[i as int].1[j2]) == Some(t);
                        assert(ext_tag_spec(cv[i as int].1[j2]) == Some(t));
                    }
                    if exists|i2: int, j2: int|
                        0 <= i2 < i + 1 && authored(cv[i2], k) && 0 <= j2 < cv[i2].1.len() && ext_tag_spec(#[trigger] cv[i2].1[j2])
                            == Some(t) {
                        let (i2, j2) = choose|i2: int, j2: int|
                            0 <= i2 < i + 1 && authored(cv[i2], k) && 0 <= j2 < cv[i2].1.len() && ext_tag_spec(#[trigger] cv[i2].1[j2])
                                == Some(t);
                        if i2 == i {
                            assert(ext_tag_spec(cv[i as int].1[j2]) == Some(t));
                        }
                    }
                }
            }
        } else {
            proof {
                assert forall|t: Seq<char>| strs(out@).contains(t) <==> exists|i2: int, j2: int|
                    0 <= i2 < i + 1 && authored(cv[i2], k) && 0 <= j2 < cv[i2].1.len() && ext_tag_spec(#[trigger] cv[i2].1[j2])
                        == Some(t) by {
                    if exists|i2: int, j2: int|
                        0 <= i2 < i + 1 && authored(cv[i2], k) && 0 <= j2 < cv[i2].1.len() && ext_tag_spec(#[trigger] cv[i2].1[j2])
                            == Some(t) {
                        let (i2, j2) = choose|i2: int, j2: int|
                            0 <= i2 < i + 1 && authored(cv[i2], k) && 0 <= j2 < cv[i2].1.len() && ext_tag_spec(#[trigger] cv[i2].1[j2])
                                == Some(t);
                        assert(i2 != i);
                    }
                }
            }
        }
        i = i + 1;
    }
    out
}

/// How many of the extensions `exts` suggest the tag `t`.
pub open spec fn count_in(exts: Seq<Seq<char>>, t: Seq<char>) -> nat
    decreases exts.len(),
{
    if exts.len() == 0 {
        0
    } else {
        count_in(exts.drop_last(), t) + if ext_tag_spec(exts.last()) == Some(t) {
            1nat
        } else {
            0nat
        }
    }
}

/// How many files the identity `k` touched, over its commits, whose
/// extension suggests the tag `t` (a file counted once per commit).
pub open spec fn files_for(cs: Seq<CommitText>, k: Seq<u32>, t: Seq<char>) -> nat
    decreases cs.len(),
{
    if cs.len() == 0 {
        0
    } else {
        files_for(cs.drop_last(), k, t) + if authored(cs.last(), k) {
            count_in(cs.last().1, t)
        } else {
            0nat
        }
    }
}

/// `n`, held at `u64::MAX`.
pub open spec fn held_u64(n: nat) -> u64 {
    if n >= u64::MAX {
        u64::MAX
    } else {
        n as u64
    }
}

/// The weight a tag is ranked by for `k`: how many touched files suggest
/// it, held at `u64::MAX`.
pub open spec fn tag_weight(cs: Seq<CommitText>, k: Seq<u32>, t: Seq<char>) -> u64 {
    held_u64(files_for(cs, k, t))
}

fn count_files(cs: &[LogCommit], who: &Contributor, t: &str) -> (n: u64)
    ensures
        n == tag_weight(commits_view(cs@), who.key(), t@),
{
    let ghost cv = commits_view(cs@);
    let ghost k = who.key();
    let mut n: u64 = 0;
    let mut i: usize = 0;
    while i < cs.len()
        invariant
            i <= cs@.len(),
            cv == commits_view(cs@),
            k == who.key(),
            n == held_u64(files_for(cv.take(i as int), k, t@)),
        decreases cs.len() - i,
    {
        proof {
            assert(cv.take(i + 1).drop_last() =~= cv.take(i as int));
            assert(cv.take(i + 1).last() == commit_view(cs@[i as int]));
        }
        let ghost base = files_for(cv.take(i as int), k, t@);
        if cs[i].author.same_person(who) {
            let exts = &cs[i].extensions;
            let ghost ev = cv[i as int].1;
            assert(ev == exts@.map_values(|s: String| s@));
            let mut j: usize = 0;
            while j < exts.len()
                invariant
                    j <= exts@.len(),
                    ev == exts@.map_values(|s: String| s@),
                    n == held_u64(base + count_in(ev.take(j as int), t@)),
                decreases exts.len() - j,
            {
                proof {
                    assert(ev.take(j + 1).drop_last() =~= ev.take(j as int));
                    assert(ev.take(j + 1).last() == exts@[j as int]@);
                }
                match extension_to_skill_tag(exts[j].as_str()) {
                    Some(u) => {
                        if crate::text::str_eq(u, t) {
                            n = if n < u64::MAX { n + 1 } else { n };
                        }
                    },
                    None => {},
                }
                j = j + 1;
            }
            assert(ev.take(exts@.len() as int) =~= ev);
        }
        i = i + 1;
    }
    assert(cv.take(cv.len() as int) =~= cv);
    n
}

/// `v` reordered by weight, heaviest first; equal weights keep no
/// particular order. Nothing is added or lost.
fn by_weight(v: Vec<(String, u64)>) -> (r: Vec<(String, u64)>)
    requires
        forall|a: int, b: int| 0 <= a < b < v@.len() ==> (#[trigger] v@[a]).0@ != (#[trigger] v@[b]).0@,
    ensures
        r@.len() == v@.len(),
        forall|x: (String, u64)| r@.contains(x) <==> v@.contains(x),
        forall|a: int, b: int| 0 <= a < b < r@.len() ==> (#[trigger] r@[a]).0@ != (#[trigger] r@[b]).0@,
        forall|a: int, b: int| 0 <= a < b < r@.len() ==> (#[trigger] r@[a]).1 >= (#[trigger] r@[b]).1,
{
    let ghost all = v@;
    let mut rest = v;
    let mut out: Vec<(String, u64)> = Vec::new();
    while rest.len() > 0
        invariant
            out@.len() + rest@.len() == all.len(),
            forall|x: (String, u64)| (out@.contains(x) || rest@.contains(x)) <==> all.contains(x),
            forall|a: int, b: int| 0 <= a < b < out@.len() ==> (#[trigger] out@[a]).0@ != (#[trigger] out@[b]).0@,
            forall|a: int, b: int| 0 <= a < b < rest@.len() ==> (#[trigger] rest@[a]).0@ != (#[trigger] rest@[b]).0@,
            forall|a: int, b: int| 0 <= a < out@.len() && 0 <= b < rest@.len() ==> (#[trigger] out@[a]).0@ != (
            #[trigger] rest@[b]).0@,
            forall|a: int, b: int| 0 <= a < b < out@.len() ==> (#[trigger] out@[a]).1 >= (#[trigger] out@[b]).1,
            forall|a: int, b: int| 0 <= a < out@.len() && 0 <= b < rest@.len() ==> (#[trigger] out@[a]).1 >= (
            #[trigger] rest@[b]).1,
        decreases rest.len(),
    {
        let mut best: usize = 0;
        let mut j: usize = 1;
        while j < rest.len()
            invariant
                best < j <= rest@.len(),
                forall|q: int| 0 <= q < j ==> (#[trigger] rest@[q]).1 <= rest@[best as int].1,
            decreases rest.len() - j,
        {
            if rest[j].1 > rest[best].1 {
                best = j;
            }
            j = j + 1;
        }
        let ghost r0 = rest@;
        let ghost o0 = out@;
        let x = rest.remove(best);
        proof {
            assert(rest@ =~= r0.remove(best as int));
            assert(x == r0[best as int]);
        }
        out.push(x);
        proof {
            assert forall|y: (String, u64)| (out@.contains(y) || rest@.contains(y)) <==> all.contains(y) by {
                if out@.contains(y) {
                    let q = choose|q: int| 0 <= q < out@.len() && out@[q] == y;
                    if q < o0.len() {
                        assert(o0[q] == y);
                    } else {
                        assert(r0[best as int] == y);
                    }
                }
                if rest@.contains(y) {
                    let q = choose|q: int| 0 <= q < rest@.len() && rest@[q] == y;
                    if q < best {
                        assert(r0[q] == y);
                    } else {
                        assert(r0[q + 1] == y);
                    }
                }
                if o0.contains(y) {
                    let q = choose|q: int| 0 <= q < o0.len() && o0[q] == y;
                    assert(out@[q] == y);
                }
                if r0.contains(y) {
                    let q = choose|q: int| 0 <= q < r0.len() && r0[q] == y;
                    if q < best {
                        assert(rest@[q] == y);
                    } else if q == best {
                        assert(out@[o0.len() as int] == y);
                    } else {
                        assert(rest@[q - 1] == y);
                    }
                }
            }
            assert forall|a: int, b: int| 0 <= a < b < out@.len() implies (#[trigger] out@[a]).0@ != (#[trigger] out@[b]).0@ by {
                if b == o0.len() {
                    assert(out@[a] == o0[a]);
                }
            }
            assert forall|a: int, b: int| 0 <= a < b < out@.len() implies (#[trigger] out@[a]).1 >= (#[trigger] out@[b]).1 by {
                if b == o0.len() {
                    assert(out@[a] == o0[a]);
                }
            }
            assert forall|a: int, b: int| 0 <= a < b < rest@.len() implies (#[trigger] rest@[a]).0@ != (#[trigger] rest@[b]).0@ by {
                let a0 = if a < best { a } else { a + 1 };
                let b0 = if b < best { b } else { b + 1 };
                assert(rest@[a] == r0[a0] && rest@[b] == r0[b0]);
            }
            assert forall|a: int, b: int| 0 <= a < out@.len() && 0 <= b < rest@.len() implies (#[trigger] out@[a]).0@ != (
            #[trigger] rest@[b]).0@ by {
                let b0 = if b < best { b } else { b + 1 };
                assert(rest@[b] == r0[b0]);
                if a < o0.len() {
                    assert(out@[a] == o0[a]);
                }
            }
            assert forall|a: int, b: int| 0 <= a < out@.len() && 0 <= b < rest@.len() implies (#[trigger] out@[a]).1 >= (
            #[trigger] rest@[b]).1 by {
                let b0 = if b < best { b } else { b + 1 };
                assert(rest@[b] == r0[b0]);
                if a < o0.len() {
                    assert(out@[a] == o0[a]);
                } else {
                    assert(r0[b0].1 <= r0[best as int].1);
                }
            }
        }
    }
    out
}

/// The tags `who`'s touched files suggest, each once, heaviest first by
/// [`tag_weight`].
fn ranked_tags(cs: &[LogCommit], who: &Contributor) -> (r: Vec<String>)
    ensures
        forall|t: Seq<char>| strs(r@).contains(t) <==> suggests_tag(commits_view(cs@), who.key(), t),
        forall|a: int, b: int| 0 <= a < b < r@.len() ==> (#[trigger] r@[a])@ != (#[trigger] r@[b])@,
        forall|a: int, b: int| 0 <= a < b < r@.len() ==> tag_weight(commits_view(cs@), who.key(), (#[trigger] r@[a])@)
            >= tag_weight(commits_view(cs@), who.key(), (#[trigger] r@[b])@),
{
    let ghost cv = commits_view(cs@);
    let ghost k = who.key();
    let tags = tags_of(cs, who);
    let mut w: Vec<(String, u64)> = Vec::new();
    let mut i: usize = 0;
    while i < tags.len()
        invariant
            i <= tags@.len(),
            cv == commits_view(cs@),
            k == who.key(),
            w@.len() == i,
            forall|q: int| 0 <= q < i ==> (#[trigger] w@[q]).0@ == tags@[q]@ && w@[q].1 == tag_weight(cv, k, tags@[q]@),
        decreases tags.len() - i,
    {
        let n = count_files(cs, who, tags[i].as_str());
        w.push((tags[i].clone(), n));
        i = i + 1;
    }
    proof {
        assert forall|a: int, b: int| 0 <= a < b < w@.len() implies (#[trigger] w@[a]).0@ != (#[trigger] w@[b]).0@ by {
            assert(w@[a].0@ == tags@[a]@ && w@[b].0@ == tags@[b]@);
        }
    }
    let ghost wv = w@;
    let sorted = by_weight(w);
    proof {
        assert forall|q: int| 0 <= q < sorted@.len() implies (#[trigger] sorted@[q]).1 == tag_weight(cv, k, sorted@[q].0@) by {
            assert(wv.contains(sorted@[q]));
            let p = choose|p: int| 0 <= p < wv.len() && wv[p] == sorted@[q];
        }
    }
    let mut r: Vec<String> = Vec::new();
    let mut j: usize = 0;
    while j < sorted.len()
        invariant
            j <= sorted@.len(),
            r@.len() == j,
            forall|q: int| 0 <= q < j ==> (#[trigger] r@[q])@ == sorted@[q].0@,
        decreases sorted.len() - j,
    {
        r.push(sorted[j].0.clone());
        j = j + 1;
    }
    proof {
        assert(forall|t: Seq<char>| strs(tags@).contains(t) <==> suggests_tag(cv, k, t));
        assert forall|t: Seq<char>| strs(r@).contains(t) implies strs(tags@).contains(t) by {
            let q = choose|q: int| 0 <= q < strs(r@).len() && strs(r@)[q] == t;
            assert(strs(r@)[q] == r@[q]@);
            assert(r@[q]@ == sorted@[q].0@);
            assert(sorted@.contains(sorted@[q]));
            assert(wv.contains(sorted@[q]));
            let p = choose|p: int| 0 <= p < wv.len() && wv[p] == sorted@[q];
            assert(wv[p].0@ == tags@[p]@);
            assert(strs(tags@)[p] == tags@[p]@);
            assert(strs(tags@)[p] == t);
        }
        assert forall|t: Seq<char>| strs(tags@).contains(t) implies strs(r@).contains(t) by {
            let p = choose|p: int| 0 <= p < strs(tags@).len() && strs(tags@)[p] == t;
            assert(strs(tags@)[p] == tags@[p]@);
            assert(wv[p].0@ == t);
            assert(wv.contains(wv[p]));
            assert(sorted@.contains(wv[p]));
            let q = choose|q: int| 0 <= q < sorted@.len() && sorted@[q] == wv[p];
            assert(strs(r@)[q] == r@[q]@);
            assert(strs(r@)[q] == t);
        }
        assert forall|a: int, b: int| 0 <= a < b < r@.len() implies (#[trigger] r@[a])@ != (#[trigger] r@[b])@ by {
            assert(r@[a]@ == sorted@[a].0@ && r@[b]@ == sorted@[b].0@);
        }
        assert forall|a: int, b: int| 0 <= a < b < r@.len() implies tag_weight(cv, k, (#[trigger] r@[a])@) >= tag_weight(
            cv,
            k,
            (#[trigger] r@[b])@,
        ) by {
            assert(r@[a]@ == sorted@[a].0@ && r@[b]@ == sorted@[b].0@);
            assert(sorted@[a].1 >= sorted@[b].1);
        }
    }
    r
}

fn push_new_person(out: &mut Vec<Contributor>, c: &Contributor)
    requires
        keys_unique(old(out)@),
    ensures
        keys_unique(final(out)@),
        forall|x: Seq<u32>| keys_of(final(out)@).contains(x) <==> (keys_of(old(out)@).contains(x) || x == c.key()),
{
    let ghost before = out@;
    if has_key(out, c.email.as_str()) {
        return;
    }
    out.push(copy_contributor(c));
    proof {
        assert(keys_of(out@) =~= keys_of(before).push(c.key()));
        assert forall|a: int, b: int| 0 <= a < b < out@.len() implies (#[trigger] out@[a]).key() != (#[trigger] out@[b]).key() by {
            if b == out@.len() - 1 {
                assert(keys_of(before)[a] == out@[a].key());
            }
        }
        assert forall|x: Seq<u32>| keys_of(out@).contains(x) <==> (keys_of(before).contains(x) || x == c.key()) by {
            if keys_of(out@).contains(x) && x != c.key() {
                let q = choose|q: int| 0 <= q < keys_of(out@).len() && keys_of(out@)[q] == x;
                assert(keys_of(before)[q] == x);
            }
            if keys_of(before).contains(x) {
                let q = choose|q: int| 0 <= q < keys_of(before).len() && keys_of(before)[q] == x;
                assert(keys_of(out@)[q] == x);
            }
            if x == c.key() {
                assert(keys_of(out@)[before.len() as int] == x);
            }
        }
    }
}

fn credits_exec(c: &LogCommit, who: &Contributor) -> (r: bool)
    ensures
        r == credits(commit_view(*c), who.key()),
{
    let ghost cv = commit_view(*c);
    let mut j: usize = 0;
    while j < c.co_authors.len()
        invariant
            j <= c.co_authors@.len(),
            cv == commit_view(*c),
            forall|jj: int| 0 <= jj < j ==> email_key((#[trigger] cv.2[jj]).1) != who.key(),
        decreases c.co_authors.len() - j,
    {
        assert(cv.2[j as int] == cview(c.co_authors@[j as int]));
        if c.co_authors[j].same_person(who) {
            assert(email_key(cv.2[j as int].1) == who.key());
            return true;
        }
        j = j + 1;
    }
    false
}

fn intros_of(cs: &[LogCommit], who: &Contributor) -> (r: Vec<Contributor>)
    ensures
        keys_unique(r@),
        forall|x: Seq<u32>| keys_of(r@).contains(x) <==> introduces(commits_view(cs@), who.key(), x),
{
    let ghost cv = commits_view(cs@);
    let ghost k = who.key();
    let mut out: Vec<Contributor> = Vec::new();
    let mut i: usize = 0;
    while i < cs.len()
        invariant
            i <= cs@.len(),
            cv == commits_view(cs@),
            k == who.key(),
            keys_unique(out@),
            forall|x: Seq<u32>| keys_of(out@).contains(x) <==> exists|i2: int, j2: int|
                0 <= i2 < i && authored(cv[i2], k) && 0 <= j2 < cv[i2].2.len() && email_key((#[trigger] cv[i2].2[j2]).1)
                    == x,
        decreases cs.len() - i,
    {
        assert(cv[i as int] == commit_view(cs@[i as int]));
        if cs[i].author.same_person(who) {
            let cos = &cs[i].co_authors;
            let mut j: usize = 0;
            while j < cos.len()
                invariant
                    i < cs@.len(),
                    j <= cos@.len(),
                    cos == &cs@[i as int].co_authors,
                    cv == commits_view(cs@),
                    cv[i as int] == commit_view(cs@[i as int]),
                    authored(cv[i as int], k),
                    keys_unique(out@),
                    forall|x: Seq<u32>| keys_of(out@).contains(x) <==> (exists|i2: int, j2: int|
                        0 <= i2 < i && authored(cv[i2], k) && 0 <= j2 < cv[i2].2.len() && email_key(
                            (#[trigger] cv[i2].2[j2]).1,
                        ) == x) || (exists|j2: int| 0 <= j2 < j && email_key((#[trigger] cv[i as int].2[j2]).1) == x),
                decreases cos.len() - j,
            {
                assert(cv[i as int].2[j as int] == cview(cos@[j as int]));
                let ghost prev = keys_of(out@);
                assert(forall|x: Seq<u32>| prev.contains(x) <==> (exists|i2: int, j2: int|
                    0 <= i2 < i && authored(cv[i2], k) && 0 <= j2 < cv[i2].2.len() && email_key(
                        (#[trigger] cv[i2].2[j2]).1,
                    ) == x) || (exists|j2: int| 0 <= j2 < j && email_key((#[trigger] cv[i as int].2[j2]).1) == x));
                push_new_person(&mut out, &cos[j]);
                proof {
                    let e = email_key(cv[i as int].2[j as int].1);
                    assert forall|x: Seq<u32>| keys_of(out@).contains(x) <==> (exists|i2: int, j2: int|
                        0 <= i2 < i && authored(cv[i2], k) && 0 <= j2 < cv[i2].2.len() && email_key(
                            (#[trigger] cv[i2].2[j2]).1,
                        ) == x) || (exists|j2: int| 0 <= j2 < j + 1 && email_key((#[trigger] cv[i as int].2[j2]).1) == x) by {
                        assert(keys_of(out@).contains(x) <==> (prev.contains(x) || x == e));
                        if exists|j2: int| 0 <= j2 < j + 1 && email_key((#[trigger] cv[i as int].2[j2]).1) == x {
                            let j2 = choose|j2: int| 0 <= j2 < j + 1 && email_key((#[trigger] cv[i as int].2[j2]).1) == x;
                            if j2 < j {
                                assert(prev.contains(x));
                            }
                        }
                        if keys_of(out@).contains(x) {
                            if prev.contains(x) {
                                if exists|j2: int| 0 <= j2 < j && email_key((#[trigger] cv[i as int].2[j2]).1) == x {
                                    let j2 = choose|j2: int| 0 <= j2 < j && email_key((#[trigger] cv[i as int].2[j2]).1) == x;
                                    assert(0 <= j2 < j + 1);
                                }
                            } else {
                                assert(email_key(cv[i as int].2[j as int].1) == x);
                            }
                        }
                    }
                }
                j = j + 1;
            }
            proof {
                assert forall|x: Seq<u32>| keys_of(out@).contains(x) <==> exists|i2: int, j2: int|
                    0 <= i2 < i + 1 && authored(cv[i2], k) && 0 <= j2 < cv[i2].2.len() && email_key((#[trigger] cv[i2].2[j2]).1)
                        == x by {
                    if exists|j2: int| 0 <= j2 < cos@.len() && email_key((#[trigger] cv[i as int].2[j2]).1) == x {
                        let j2 = choose|j2: int| 0 <= j2 < cos@.len() && email_key((#[trigger] cv[i as int].2[j2]).1) == x;
                        assert(email_key(cv[i as int].2[j2].1) == x);
                    }
                    if exists|i2: int, j2: int|
                        0 <= i2 < i + 1 && authored(cv[i2], k) && 0 <= j2 < cv[i2].2.len() && email_key((#[trigger] cv[i2].2[j2]).1)
                            == x {
                        let (i2, j2) = choose|i2: int, j2: int|
                            0 <= i2 < i + 1 && authored(cv[i2], k) && 0 <= j2 < cv[i2].2.len() && email_key((#[trigger] cv[i2].2[j2]).1)
                                == x;
                        if i2 == i {
                            assert(email_key(cv[i as int].2[j2].1) == x);
                        }
                    }
                }
            }
        } else {
            proof {
                assert forall|x: Seq<u32>| keys_of(out@).contains(x) <==> exists|i2: int, j2: int|
                    0 <= i2 < i + 1 && authored(cv[i2], k) && 0 <= j2 < cv[i2].2.len() && email_key((#[trigger] cv[i2].2[j2]).1)
                        == x by {
                    if exists|i2: int, j2: int|
                        0 <= i2 < i + 1 && authored(cv[i2], k) && 0 <= j2 < cv[i2].2.len() && email_key((#[trigger] cv[i2].2[j2]).1)
                            == x {
                        let (i2, j2) = choose|i2: int, j2: int|
                            0 <= i2 < i + 1 && authored(cv[i2], k) && 0 <= j2 < cv[i2].2.len() && email_key((#[trigger] cv[i2].2[j2]).1)
                                == x;
                        assert(i2 != i);
                    }
                }
            }
        }
        i = i + 1;
    }
    let ghost first = keys_of(out@);
    let mut i: usize = 0;
    while i < cs.len()
        invariant
            i <= cs@.len(),
            cv == commits_view(cs@),
            k == who.key(),
            keys_unique(out@),
            forall|x: Seq<u32>| first.contains(x) <==> exists|i2: int, j2: int|
                0 <= i2 < cv.len() && authored(cv[i2], k) && 0 <= j2 < cv[i2].2.len() && email_key((#[trigger] cv[i2].2[j2]).1)
                    == x,
            forall|x: Seq<u32>| keys_of(out@).contains(x) <==> (first.contains(x) || exists|i2: int|
                0 <= i2 < i && credits(#[trigger] cv[i2], k) && authored(cv[i2], x)),
        decreases cs.len() - i,
    {
        assert(cv[i as int] == commit_view(cs@[i as int]));
        let ghost prev = keys_of(out@);
        let ghost a = email_key(cv[i as int].0.1);
        let cr = credits_exec(&cs[i], who);
        if cr {
            push_new_person(&mut out, &cs[i].author);
            assert(forall|x: Seq<u32>| keys_of(out@).contains(x) <==> (prev.contains(x) || x == a));
        } else {
            assert(keys_of(out@) == prev);
        }
        let ghost ci = i as int;
        i = i + 1;
        proof {
            assert forall|x: Seq<u32>| keys_of(out@).contains(x) <==> (first.contains(x) || exists|i2: int|
                0 <= i2 < i && credits(#[trigger] cv[i2], k) && authored(cv[i2], x)) by {
                assert(prev.contains(x) <==> (first.contains(x) || exists|i2: int|
                    0 <= i2 < ci && credits(#[trigger] cv[i2], k) && authored(cv[i2], x)));
                if exists|i2: int| 0 <= i2 < i && credits(#[trigger] cv[i2], k) && authored(cv[i2], x) {
                    let i2 = choose|i2: int| 0 <= i2 < i && credits(#[trigger] cv[i2], k) && authored(cv[i2], x);
                    if i2 == ci {
                        assert(keys_of(out@).contains(x));
                    }
                }
                if keys_of(out@).contains(x) && !prev.contains(x) {
                    assert(cr && x == a);
                    assert(credits(cv[ci], k) && authored(cv[ci], x));
                }
            }
        }
    }
    proof {
        assert forall|x: Seq<u32>| keys_of(out@).contains(x) <==> introduces(cv, k, x) by {
            if exists|i2: int| 0 <= i2 < cv.len() && credits(#[trigger] cv[i2], k) && authored(cv[i2], x) {
                let i2 = choose|i2: int| 0 <= i2 < cv.len() && credits(#[trigger] cv[i2], k) && authored(cv[i2], x);
                assert(credits(cv[i2], k));
            }
            if first.contains(x) {
                let (i2, j2) = choose|i2: int, j2: int|
                    0 <= i2 < cv.len() && authored(cv[i2], k) && 0 <= j2 < cv[i2].2.len() && email_key((#[trigger] cv[i2].2[j2]).1)
                        == x;
                assert(email_key(cv[i2].2[j2].1) == x);
            }
            if introduces(cv, k, x) {
                if exists|i2: int, j2: int|
                    0 <= i2 < cv.len() && authored(cv[i2], k) && 0 <= j2 < cv[i2].2.len() && email_key(#[trigger] cv[i2].2[j2].1)
                        == x {
                    let (i2, j2) = choose|i2: int, j2: int|
                        0 <= i2 < cv.len() && authored(cv[i2], k) && 0 <= j2 < cv[i2].2.len() && email_key(#[trigger] cv[i2].2[j2].1)
                            == x;
                    assert(email_key(cv[i2].2[j2].1) == x);
                    assert(first.contains(x));
                } else {
                    let i2 = choose|i2: int| 0 <= i2 < cv.len() && credits(#[trigger] cv[i2], k) && authored(cv[i2], x);
                    assert(credits(cv[i2], k));
                }
            }
        }
    }
    out
}

/// No contributor is suggested twice.
pub open spec fn suggestions_unique(v: Seq<BootstrapSuggestion>) -> bool {
    forall|a: int, b: int|
        0 <= a < b < v.len() ==> (#[trigger] v[a]).contributor.key() != (#[trigger] v[b]).contributor.key()
}

proof fn lemma_ranks_total(a: BootstrapSuggestion, b: BootstrapSuggestion)
    ensures
        ranks_before(a, b) || ranks_before(b, a),
{
    crate::text::lemma_str_lt_total(a.contributor.name@, b.contributor.name@);
}

proof fn lemma_ranks_trans(a: BootstrapSuggestion, b: BootstrapSuggestion, c: BootstrapSuggestion)
    requires
        ranks_before(a, b),
        ranks_before(b, c),
    ensures
        ranks_before(a, c),
{
    let (x, y, z) = (a.contributor.name@, b.contributor.name@, c.contributor.name@);
    if a.commit_count == c.commit_count {
        crate::text::lemma_str_lt_total(x, y);
        crate::text::lemma_str_lt_total(y, z);
        if str_lt(z, x) {
            if str_lt(x, y) {
                crate::text::lemma_str_lt_trans(z, x, y);
            }
        }
    }
}

fn ranks_before_exec(a: &BootstrapSuggestion, b: &BootstrapSuggestion) -> (r: bool)
    ensures
        r == ranks_before(*a, *b),
{
    a.commit_count > b.commit_count || (a.commit_count == b.commit_count && !crate::text::str_less(
        b.contributor.name.as_str(),
        a.contributor.name.as_str(),
    ))
}

/// `v` ordered by commit count, most first, then by name; ties keep their
/// order.
fn ranked(v: Vec<BootstrapSuggestion>) -> (r: Vec<BootstrapSuggestion>)
    requires
        suggestions_unique(v@),
    ensures
        r@.len() == v@.len(),
        forall|x: BootstrapSuggestion| r@.contains(x) <==> v@.contains(x),
        suggestions_unique(r@),
        forall|a: int, b: int| 0 <= a < b < r@.len() ==> ranks_before(#[trigger] r@[a], #[trigger] r@[b]),
{
    let ghost all = v@;
    let mut rest = v;
    let mut out: Vec<BootstrapSuggestion> = Vec::new();
    while rest.len() > 0
        invariant
            out@.len() + rest@.len() == all.len(),
            forall|x: BootstrapSuggestion| (out@.contains(x) || rest@.contains(x)) <==> all.contains(x),
            suggestions_unique(out@),
            suggestions_unique(rest@),
            forall|a: int, b: int|
                0 <= a < out@.len() && 0 <= b < rest@.len() ==> (#[trigger] out@[a]).contributor.key()
                    != (#[trigger] rest@[b]).contributor.key(),
            forall|a: int, b: int| 0 <= a < b < out@.len() ==> ranks_before(#[trigger] out@[a], #[trigger] out@[b]),
        decreases rest.len(),
    {
        let ghost old_rest = rest@;
        let ghost old_out = out@;
        let x = rest.remove(0);
        assert(rest@ =~= old_rest.drop_first());
        assert(x == old_rest[0]);
        let mut p: usize = 0;
        while p < out.len() && ranks_before_exec(&out[p], &x)
            invariant
                p <= out@.len(),
                out@ == old_out,
                forall|j: int| 0 <= j < p ==> ranks_before(#[trigger] out@[j], x),
            decreases out.len() - p,
        {
            p = p + 1;
        }
        proof {
            if p < old_out.len() {
                lemma_ranks_total(old_out[p as int], x);
                assert forall|j: int| p <= j < old_out.len() implies ranks_before(x, #[trigger] old_out[j]) by {
                    if j > p {
                        lemma_ranks_trans(x, old_out[p as int], old_out[j]);
                    }
                }
            }
        }
        out.insert(p, x);
        proof {
            let nv = out@;
            assert(nv =~= old_out.take(p as int).push(x) + old_out.skip(p as int));
            assert forall|a: int, b: int| 0 <= a < b < nv.len() implies ranks_before(#[trigger] nv[a], #[trigger] nv[b]) by {
                if b < p {
                    assert(nv[a] == old_out[a] && nv[b] == old_out[b]);
                } else if b == p {
                    assert(nv[a] == old_out[a]);
                } else if a == p {
                    assert(nv[b] == old_out[b - 1]);
                } else if a < p {
                    assert(nv[a] == old_out[a] && nv[b] == old_out[b - 1]);
                    lemma_ranks_trans(old_out[a], x, old_out[b - 1]);
                } else {
                    assert(nv[a] == old_out[a - 1] && nv[b] == old_out[b - 1]);
                }
            }
            assert forall|a: int, b: int| 0 <= a < b < nv.len() implies (#[trigger] nv[a]).contributor.key()
                != (#[trigger] nv[b]).contributor.key() by {
                if b < p {
                    assert(nv[a] == old_out[a] && nv[b] == old_out[b]);
                } else if b == p {
                    assert(nv[a] == old_out[a]);
                    assert(old_rest[0] == x);
                } else if a == p {
                    assert(nv[b] == old_out[b - 1]);
                    assert(old_rest[0] == x);
                } else if a < p {
                    assert(nv[a] == old_out[a] && nv[b] == old_out[b - 1]);
                } else {
                    assert(nv[a] == old_out[a - 1] && nv[b] == old_out[b - 1]);
                }
            }
            assert forall|a: int, b: int|
                0 <= a < nv.len() && 0 <= b < rest@.len() implies (#[trigger] nv[a]).contributor.key()
                    != (#[trigger] rest@[b]).contributor.key() by {
                assert(rest@[b] == old_rest[b + 1]);
                if a < p {
                    assert(nv[a] == old_out[a]);
                } else if a == p {
                    assert(old_rest[0] == x);
                } else {
                    assert(nv[a] == old_out[a - 1]);
                }
            }
            assert forall|y: BootstrapSuggestion| (nv.contains(y) || rest@.contains(y)) <==> all.contains(y) by {
                if nv.contains(y) {
                    let q = choose|q: int| 0 <= q < nv.len() && nv[q] == y;
                    if q < p {
                        assert(old_out[q] == y);
                    } else if q > p {
                        assert(old_out[q - 1] == y);
                    } else {
                        assert(old_rest[0] == y);
                    }
                }
                if rest@.contains(y) {
                    let q = choose|q: int| 0 <= q < rest@.len() && rest@[q] == y;
                    assert(old_rest[q + 1] == y);
                }
                if all.contains(y) {
                    if old_out.contains(y) {
                        let q = choose|q: int| 0 <= q < old_out.len() && old_out[q] == y;
                        if q < p {
                            assert(nv[q] == y);
                        } else {
                            assert(nv[q + 1] == y);
                        }
                    } else {
                        let q = choose|q: int| 0 <= q < old_rest.len() && old_rest[q] == y;
                        if q == 0 {
                            assert(nv[p as int] == y);
                        } else {
                            assert(rest@[q - 1] == y);
                        }
                    }
                }
            }
        }
    }
    out
}

/// The suggestions a parsed log yields: one per contributor seen, as author
/// or co-author, ranked by commit count (most first), then by name.
pub fn suggest(cs: &[LogCommit]) -> (r: Vec<BootstrapSuggestion>)
    requires
        cs@.len() <= u32::MAX,
    ensures
        forall|a: int| 0 <= a < r@.len() ==> describes(commits_view(cs@), #[trigger] r@[a]),
        forall|x: Seq<u32>|
            known(commits_view(cs@), x) ==> exists|a: int| 0 <= a < r@.len() && (#[trigger] r@[a]).contributor.key() == x,
        suggestions_unique(r@),
        forall|a: int, b: int| 0 <= a < b < r@.len() ==> ranks_before(#[trigger] r@[a], #[trigger] r@[b]),
{
    let ghost cv = commits_view(cs@);
    let ids = identities(cs);
    let mut out: Vec<BootstrapSuggestion> = Vec::new();
    let mut i: usize = 0;
    while i < ids.len()
        invariant
            i <= ids@.len(),
            cs@.len() <= u32::MAX,
            cv == commits_view(cs@),
            keys_unique(ids@),
            forall|a: int| 0 <= a < ids@.len() ==> known(cv, (#[trigger] ids@[a]).key()) && named_as_seen(cv, ids@[a]),
            out@.len() == i,
            forall|a: int| 0 <= a < i ==> (#[trigger] out@[a]).contributor == ids@[a] && describes(cv, out@[a]),
        decreases ids.len() - i,
    {
        let who = &ids[i];
        let commit_count = count_commits(cs, who);
        let candidate_skill_tags = ranked_tags(cs, who);
        let candidate_introductions = intros_of(cs, who);
        let s = BootstrapSuggestion { contributor: copy_contributor(who), commit_count, candidate_skill_tags, candidate_introductions };
        proof {
            let tv = strs(s.candidate_skill_tags@);
            assert(forall|t: Seq<char>| tv.contains(t) <==> suggests_tag(cv, who.key(), t));
            assert forall|a: int, b: int| 0 <= a < b < tv.len() implies #[trigger] tv[a] != #[trigger] tv[b] by {
                assert(tv[a] == s.candidate_skill_tags@[a]@ && tv[b] == s.candidate_skill_tags@[b]@);
            }
            assert forall|a: int, b: int| 0 <= a < b < tv.len() implies tag_weight(cv, who.key(), #[trigger] tv[a])
                >= tag_weight(cv, who.key(), #[trigger] tv[b]) by {
                assert(tv[a] == s.candidate_skill_tags@[a]@ && tv[b] == s.candidate_skill_tags@[b]@);
            }
            assert(describes(cv, s));
        }
        out.push(s);
        i = i + 1;
    }
    proof {
        assert forall|a: int, b: int| 0 <= a < b < out@.len() implies (#[trigger] out@[a]).contributor.key()
            != (#[trigger] out@[b]).contributor.key() by {
            assert(out@[a].contributor == ids@[a] && out@[b].contributor == ids@[b]);
        }
    }
    let ghost built = out@;
    let r = ranked(out);
    proof {
        assert forall|a: int| 0 <= a < r@.len() implies describes(cv, #[trigger] r@[a]) by {
            assert(built.contains(r@[a]));
            let q = choose|q: int| 0 <= q < built.len() && built[q] == r@[a];
        }
        assert forall|x: Seq<u32>| known(cv, x) implies exists|a: int| 0 <= a < r@.len() && (#[trigger] r@[a]).contributor.key() == x by {
            assert(keys_of(ids@).contains(x));
            let q = choose|q: int| 0 <= q < keys_of(ids@).len() && keys_of(ids@)[q] == x;
            assert(built[q].contributor == ids@[q]);
            assert(built.contains(built[q]));
            assert(r@.contains(built[q]));
            let a = choose|a: int| 0 <= a < r@.len() && r@[a] == built[q];
            assert(r@[a].contributor.key() == x);
        }
    }
    r
}

/// The suggestions a `git log` in the record format of this module yields:
/// [`suggest`] over [`parse_log`].
pub fn analyze_log(text: &str) -> (r: Vec<BootstrapSuggestion>)
    requires
        text@.len() < u32::MAX,
    ensures
        forall|a: int| 0 <= a < r@.len() ==> describes(parse_spec(text@), #[trigger] r@[a]),
        forall|x: Seq<u32>|
            known(parse_spec(text@), x) ==> exists|a: int| 0 <= a < r@.len() && (#[trigger] r@[a]).contributor.key() == x,
        suggestions_unique(r@),
        forall|a: int, b: int| 0 <= a < b < r@.len() ==> ranks_before(#[trigger] r@[a], #[trigger] r@[b]),
{
    let commits = parse_log(text);
    proof {
        lemma_split_on_len(text@, RECORD_SEP);
        lemma_log_commits_len(split_on(text@, RECORD_SEP));
        assert(commits_view(commits@) == parse_spec(text@));
    }
    suggest(commits.as_slice())
}

proof fn lemma_split_on_len(s: Seq<char>, c: char)
    ensures
        split_on(s, c).len() <= s.len() + 1,
    decreases s.len(),
{
    if s.len() > 0 {
        lemma_split_on_len(s.drop_last(), c);
    }
}

proof fn lemma_log_commits_len(b: Seq<Seq<char>>)
    ensures
        log_commits(b).len() <= b.len(),
    decreases b.len(),
{
    if b.len() > 0 {
        lemma_log_commits_len(b.drop_last());
    }
}

} // verus!
