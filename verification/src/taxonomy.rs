//! The skill taxonomy and its synonyms: the model the profile editor
//! resolves skill input against. Free text is normalised and resolved
//! through the synonyms before anything is signed, since tag fragmentation
//! cannot be undone once it is in a signed record.
//!
//! The model is built from the parsed taxonomy tree (sectors, domains,
//! optional areas, skills) and the synonym table, both in file order.

use vstd::prelude::*;
use vstd::seq_lib::lemma_flatten_concat;

use crate::text::{
    insert_sorted, sorted_unique, strs, cat, chars_of, is_white_space, is_white_space_char, join_strings, join_with,
    lemma_str_lt_total, lemma_str_lt_trans, lowercase_of, spec_lowercase, str_eq, str_has_char,
    str_less, str_lt, string_from_chars, string_from_str, trim, trim_spec,
};

verus! {

/// An area of a wide domain, with the skills it groups.
#[derive(Debug, Clone)]
pub struct TaxonomyArea {
    pub name: String,
    pub skills: Vec<String>,
}

/// A domain: a narrow one lists skills directly, a wider one groups them
/// into areas (or both).
#[derive(Debug, Clone)]
pub struct TaxonomyDomain {
    pub name: String,
    pub skills: Vec<String>,
    pub areas: Vec<TaxonomyArea>,
}

/// A sector and its domains.
#[derive(Debug, Clone)]
pub struct TaxonomySector {
    pub name: String,
    pub domains: Vec<TaxonomyDomain>,
}

/// One row of the synonym table: a canonical skill name and the aliases
/// that stand for it.
#[derive(Debug, Clone)]
pub struct SynonymEntry {
    pub canonical: String,
    pub aliases: Vec<String>,
}

/// The characters of each string pair.
pub open spec fn pairs(v: Seq<(String, String)>) -> Seq<(Seq<char>, Seq<char>)> {
    v.map_values(|p: (String, String)| (p.0@, p.1@))
}

/// The leaf tag `path#skill`, with its bare skill name.
pub open spec fn leaf_entry(path: Seq<char>, skill: Seq<char>) -> (Seq<char>, Seq<char>) {
    (path + "#"@ + skill, skill)
}

/// The leaves of the skills listed directly under `path`, in order.
pub open spec fn skill_entries(path: Seq<char>, skills: Seq<String>) -> Seq<(Seq<char>, Seq<char>)> {
    skills.map_values(|s: String| leaf_entry(path, s@))
}

/// The leaves of a domain of `sector`: its own skills, then each area's.
pub open spec fn domain_entries(sector: Seq<char>, d: TaxonomyDomain) -> Seq<(Seq<char>, Seq<char>)> {
    let p = sector + "/"@ + d.name@;
    skill_entries(p, d.skills@) + d.areas@.map_values(
        |a: TaxonomyArea| skill_entries(p + "/"@ + a.name@, a.skills@),
    ).flatten()
}

/// The leaves of a sector, domain by domain.
pub open spec fn sector_entries(s: TaxonomySector) -> Seq<(Seq<char>, Seq<char>)> {
    s.domains@.map_values(|d: TaxonomyDomain| domain_entries(s.name@, d)).flatten()
}

/// Every leaf of the tree with its skill name, in tree order (duplicates
/// kept).
pub open spec fn tree_entries(secs: Seq<TaxonomySector>) -> Seq<(Seq<char>, Seq<char>)> {
    secs.map_values(|s: TaxonomySector| sector_entries(s)).flatten()
}

/// Each lower-cased alias with its canonical skill, in table order.
pub open spec fn alias_pairs(syn: Seq<SynonymEntry>) -> Seq<(Seq<char>, Seq<char>)> {
    syn.map_values(
        |e: SynonymEntry| e.aliases@.map_values(|a: String| (spec_lowercase(a@), e.canonical@)),
    ).flatten()
}

proof fn lemma_map_take_push<A, B>(s: Seq<A>, i: int, f: spec_fn(A) -> B)
    requires
        0 <= i < s.len(),
    ensures
        s.take(i + 1).map_values(f) == s.take(i).map_values(f).push(f(s[i])),
{
    assert(s.take(i + 1).map_values(f) =~= s.take(i).map_values(f).push(f(s[i])));
}

fn push_skills(path: &str, skills: &[String], out: &mut Vec<(String, String)>)
    ensures
        pairs(final(out)@) == pairs(old(out)@) + skill_entries(path@, skills@),
{
    let ghost start = pairs(out@);
    let hash = cat(path, "#");
    let mut i: usize = 0;
    while i < skills.len()
        invariant
            i <= skills@.len(),
            hash@ == path@ + "#"@,
            pairs(out@) == start + skill_entries(path@, skills@.take(i as int)),
        decreases skills.len() - i,
    {
        let tag = cat(hash.as_str(), skills[i].as_str());
        let ghost before = out@;
        out.push((tag, skills[i].clone()));
        proof {
            assert(pairs(out@) =~= pairs(before).push(leaf_entry(path@, skills@[i as int]@)));
            assert(skill_entries(path@, skills@.take(i + 1)) =~= skill_entries(path@, skills@.take(i as int)).push(
                leaf_entry(path@, skills@[i as int]@),
            ));
        }
        i = i + 1;
    }
    assert(skills@.take(skills@.len() as int) =~= skills@);
}

fn push_domain(sector: &str, d: &TaxonomyDomain, out: &mut Vec<(String, String)>)
    ensures
        pairs(final(out)@) == pairs(old(out)@) + domain_entries(sector@, *d),
{
    let ghost start = pairs(out@);
    let p = cat(&cat(sector, "/"), d.name.as_str());
    push_skills(p.as_str(), d.skills.as_slice(), out);
    let ghost f = |a: TaxonomyArea| skill_entries(p@ + "/"@ + a.name@, a.skills@);
    let ghost mid = pairs(out@);
    let pslash = cat(p.as_str(), "/");
    let mut i: usize = 0;
    while i < d.areas.len()
        invariant
            i <= d.areas@.len(),
            pslash@ == p@ + "/"@,
            p@ == sector@ + "/"@ + d.name@,
            f == (|a: TaxonomyArea| skill_entries(p@ + "/"@ + a.name@, a.skills@)),
            mid == start + skill_entries(p@, d.skills@),
            pairs(out@) == mid + d.areas@.take(i as int).map_values(f).flatten(),
        decreases d.areas.len() - i,
    {
        let a = &d.areas[i];
        let ap = cat(pslash.as_str(), a.name.as_str());
        push_skills(ap.as_str(), a.skills.as_slice(), out);
        proof {
            lemma_map_take_push(d.areas@, i as int, f);
            d.areas@.take(i as int).map_values(f).lemma_flatten_push(f(d.areas@[i as int]));
        }
        i = i + 1;
    }
    assert(d.areas@.take(d.areas@.len() as int) =~= d.areas@);
}

fn push_sector(s: &TaxonomySector, out: &mut Vec<(String, String)>)
    ensures
        pairs(final(out)@) == pairs(old(out)@) + sector_entries(*s),
{
    let ghost start = pairs(out@);
    let ghost f = |d: TaxonomyDomain| domain_entries(s.name@, d);
    let mut i: usize = 0;
    while i < s.domains.len()
        invariant
            i <= s.domains@.len(),
            f == (|d: TaxonomyDomain| domain_entries(s.name@, d)),
            pairs(out@) == start + s.domains@.take(i as int).map_values(f).flatten(),
        decreases s.domains.len() - i,
    {
        push_domain(s.name.as_str(), &s.domains[i], out);
        proof {
            lemma_map_take_push(s.domains@, i as int, f);
            s.domains@.take(i as int).map_values(f).lemma_flatten_push(f(s.domains@[i as int]));
        }
        i = i + 1;
    }
    assert(s.domains@.take(s.domains@.len() as int) =~= s.domains@);
}

fn collect_entries(secs: &[TaxonomySector]) -> (r: Vec<(String, String)>)
    ensures
        pairs(r@) == tree_entries(secs@),
{
    let mut out: Vec<(String, String)> = Vec::new();
    let ghost f = |s: TaxonomySector| sector_entries(s);
    assert(pairs(out@) =~= Seq::<(Seq<char>, Seq<char>)>::empty());
    let mut i: usize = 0;
    while i < secs.len()
        invariant
            i <= secs@.len(),
            f == (|s: TaxonomySector| sector_entries(s)),
            pairs(out@) == secs@.take(i as int).map_values(f).flatten(),
        decreases secs.len() - i,
    {
        let ghost before = pairs(out@);
        push_sector(&secs[i], &mut out);
        proof {
            lemma_map_take_push(secs@, i as int, f);
            secs@.take(i as int).map_values(f).lemma_flatten_push(f(secs@[i as int]));
            assert(before + f(secs@[i as int]) =~= pairs(out@));
        }
        i = i + 1;
    }
    assert(secs@.take(secs@.len() as int) =~= secs@);
    out
}

/// The sorted, duplicate-free leaf tags of `entries`.
fn sorted_tags(entries: &Vec<(String, String)>) -> (r: Vec<String>)
    ensures
        sorted_unique(strs(r@)),
        forall|x: Seq<char>| strs(r@).contains(x) <==> (exists|i: int|
            0 <= i < entries@.len() && (#[trigger] entries@[i]).0@ == x),
{
    let mut out: Vec<String> = Vec::new();
    let mut i: usize = 0;
    while i < entries.len()
        invariant
            i <= entries@.len(),
            sorted_unique(strs(out@)),
            forall|x: Seq<char>| strs(out@).contains(x) <==> (exists|k: int|
                0 <= k < i && (#[trigger] entries@[k]).0@ == x),
        decreases entries.len() - i,
    {
        let t = entries[i].0.clone();
        insert_sorted(&mut out, t);
        proof {
            assert forall|x: Seq<char>| strs(out@).contains(x) <==> (exists|k: int|
                0 <= k < i + 1 && (#[trigger] entries@[k]).0@ == x) by {
                if x == entries@[i as int].0@ {
                    assert(entries@[i as int].0@ == x);
                }
            }
        }
        i = i + 1;
    }
    out
}

fn collect_aliases(syn: &[SynonymEntry]) -> (r: Vec<(String, String)>)
    ensures
        pairs(r@) == alias_pairs(syn@),
{
    let mut out: Vec<(String, String)> = Vec::new();
    let ghost f = |e: SynonymEntry| e.aliases@.map_values(|a: String| (spec_lowercase(a@), e.canonical@));
    assert(pairs(out@) =~= Seq::<(Seq<char>, Seq<char>)>::empty());
    let mut i: usize = 0;
    while i < syn.len()
        invariant
            i <= syn@.len(),
            f == (|e: SynonymEntry| e.aliases@.map_values(|a: String| (spec_lowercase(a@), e.canonical@))),
            pairs(out@) == syn@.take(i as int).map_values(f).flatten(),
        decreases syn.len() - i,
    {
        let e = &syn[i];
        let ghost start = pairs(out@);
        let mut j: usize = 0;
        while j < e.aliases.len()
            invariant
                j <= e.aliases@.len(),
                pairs(out@) == start + e.aliases@.take(j as int).map_values(
                    |a: String| (spec_lowercase(a@), e.canonical@),
                ),
            decreases e.aliases.len() - j,
        {
            let ghost before = out@;
            out.push((lowercase_of(e.aliases[j].as_str()), e.canonical.clone()));
            proof {
                assert(pairs(out@) =~= pairs(before).push((spec_lowercase(e.aliases@[j as int]@), e.canonical@)));
                assert(e.aliases@.take(j + 1).map_values(|a: String| (spec_lowercase(a@), e.canonical@))
                    =~= e.aliases@.take(j as int).map_values(|a: String| (spec_lowercase(a@), e.canonical@)).push(
                    (spec_lowercase(e.aliases@[j as int]@), e.canonical@),
                ));
            }
            j = j + 1;
        }
        proof {
            assert(e.aliases@.take(e.aliases@.len() as int) =~= e.aliases@);
            lemma_map_take_push(syn@, i as int, f);
            syn@.take(i as int).map_values(f).lemma_flatten_push(f(syn@[i as int]));
        }
        i = i + 1;
    }
    assert(syn@.take(syn@.len() as int) =~= syn@);
    out
}

/// `leaves` is sorted, each once, and exactly the tags of `entries`.
pub open spec fn leaves_index(leaves: Seq<Seq<char>>, entries: Seq<(Seq<char>, Seq<char>)>) -> bool {
    &&& sorted_unique(leaves)
    &&& forall|x: Seq<char>| leaves.contains(x) <==> (exists|i: int| 0 <= i < entries.len() && (#[trigger] entries[i]).0 == x)
}

/// The indexed taxonomy.
#[derive(Debug)]
pub struct Taxonomy {
    /// Every leaf tag, `sector/domain[/area]#skill`, sorted and unique.
    leaves: Vec<String>,
    /// Every leaf tag with its bare skill name, in tree order.
    entries: Vec<(String, String)>,
    /// Lower-cased alias and canonical skill name, in table order; a later
    /// row overrides an earlier one for the same alias.
    aliases: Vec<(String, String)>,
}

impl Taxonomy {
    /// Every leaf tag, sorted and unique.
    pub closed spec fn leaf_tags(&self) -> Seq<Seq<char>> {
        strs(self.leaves@)
    }

    /// Every leaf tag with its bare skill name, in tree order.
    pub closed spec fn entry_pairs(&self) -> Seq<(Seq<char>, Seq<char>)> {
        pairs(self.entries@)
    }

    /// Alias and canonical skill name, in table order.
    pub closed spec fn alias_table(&self) -> Seq<(Seq<char>, Seq<char>)> {
        pairs(self.aliases@)
    }

    /// The leaves are sorted, each once, and exactly the tags of the
    /// entries.
    #[verifier::type_invariant]
    spec fn indexed(self) -> bool {
        leaves_index(strs(self.leaves@), pairs(self.entries@))
    }

    /// Index a parsed taxonomy tree and synonym table.
    pub fn build(sectors: &[TaxonomySector], synonyms: &[SynonymEntry]) -> (m: Self)
        ensures
            m.entry_pairs() == tree_entries(sectors@),
            m.alias_table() == alias_pairs(synonyms@),
            sorted_unique(m.leaf_tags()),
            forall|x: Seq<char>| m.leaf_tags().contains(x) <==> (exists|i: int|
                0 <= i < tree_entries(sectors@).len() && (#[trigger] tree_entries(sectors@)[i]).0 == x),
    {
        let entries = collect_entries(sectors);
        let leaves = sorted_tags(&entries);
        let aliases = collect_aliases(synonyms);
        proof {
            assert forall|x: Seq<char>| strs(leaves@).contains(x) <==> (exists|i: int|
                0 <= i < tree_entries(sectors@).len() && (#[trigger] tree_entries(sectors@)[i]).0 == x) by {
                if strs(leaves@).contains(x) {
                    let i = choose|i: int| 0 <= i < entries@.len() && (#[trigger] entries@[i]).0@ == x;
                    assert(pairs(entries@)[i].0 == x);
                }
                if exists|i: int| 0 <= i < tree_entries(sectors@).len() && (#[trigger] tree_entries(sectors@)[i]).0 == x {
                    let i = choose|i: int| 0 <= i < tree_entries(sectors@).len() && (#[trigger] tree_entries(sectors@)[i]).0 == x;
                    assert(pairs(entries@)[i].0 == entries@[i].0@);
                }
            }
        }
        proof {
            assert forall|x: Seq<char>| strs(leaves@).contains(x) <==> (exists|i: int|
                0 <= i < pairs(entries@).len() && (#[trigger] pairs(entries@)[i]).0 == x) by {
                if strs(leaves@).contains(x) {
                    let i = choose|i: int| 0 <= i < entries@.len() && (#[trigger] entries@[i]).0@ == x;
                    assert(pairs(entries@)[i].0 == x);
                }
                if exists|i: int| 0 <= i < pairs(entries@).len() && (#[trigger] pairs(entries@)[i]).0 == x {
                    let i = choose|i: int| 0 <= i < pairs(entries@).len() && (#[trigger] pairs(entries@)[i]).0 == x;
                    assert(pairs(entries@)[i].0 == entries@[i].0@);
                }
            }
        }
        assert(leaves_index(strs(leaves@), pairs(entries@)));
        let m = Taxonomy { leaves, entries, aliases };
        m
    }
}

/// Every leaf tag of the taxonomy, sorted: the source list for the
/// editor's picker.
pub fn leaves(m: &Taxonomy) -> (r: &[String])
    ensures
        strs(r@) == m.leaf_tags(),
{
    m.leaves.as_slice()
}

/// What a piece of user input resolved to.
#[derive(Debug, Clone, PartialEq)]
pub enum Resolved {
    /// A leaf that exists in the taxonomy: routable.
    Canonical(String),
    /// A well-formed `sector/domain[/area]#skill` tag whose skill is not in
    /// the taxonomy yet. Legal (the skill set is open) but unroutable until
    /// the taxonomy catches up.
    Unrouted(String),
}

impl Resolved {
    /// The tag, whichever way it resolved.
    pub fn tag(&self) -> (r: &str)
        ensures
            r@ == match self {
                Resolved::Canonical(t) => t@,
                Resolved::Unrouted(t) => t@,
            },
    {
        match self {
            Resolved::Canonical(t) => t.as_str(),
            Resolved::Unrouted(t) => t.as_str(),
        }
    }
}

/// `s` up to (not including) the first `c`, or all of `s` without one.
pub open spec fn before_char(s: Seq<char>, c: char) -> Seq<char>
    decreases s.len(),
{
    if s.len() == 0 {
        Seq::empty()
    } else if s[0] == c {
        Seq::empty()
    } else {
        seq![s[0]] + before_char(s.drop_first(), c)
    }
}

/// The maximal runs of non-white-space characters of `s`, in order: what
/// `str::split_whitespace` yields.
pub open spec fn words(s: Seq<char>) -> Seq<Seq<char>>
    decreases s.len(),
{
    if s.len() == 0 {
        Seq::empty()
    } else {
        let w = words(s.drop_last());
        let c = s.last();
        if is_white_space(c) {
            w
        } else if s.len() > 1 && !is_white_space(s[s.len() - 2]) {
            w.drop_last().push(w.last().push(c))
        } else {
            w.push(seq![c])
        }
    }
}

/// The free-text normal form: drop an `@version` qualifier, trim,
/// lower-case, and join the words with `-`.
pub open spec fn free_text_spec(s: Seq<char>) -> Seq<char> {
    join_with(words(spec_lowercase(trim_spec(before_char(s, '@')))), "-"@)
}

fn split_words(s: &str) -> (r: Vec<String>)
    ensures
        strs(r@) == words(s@),
{
    let cs = chars_of(s);
    let mut acc: Vec<String> = Vec::new();
    let mut cur: Vec<char> = Vec::new();
    let mut i: usize = 0;
    while i < cs.len()
        invariant
            i <= cs@.len(),
            cs@ == s@,
            cur@.len() > 0 <==> (i > 0 && !is_white_space(cs@[i - 1])),
            cur@.len() > 0 ==> words(cs@.take(i as int)) == strs(acc@).push(cur@),
            cur@.len() == 0 ==> words(cs@.take(i as int)) == strs(acc@),
        decreases cs.len() - i,
    {
        let c = cs[i];
        let ghost pre = cs@.take(i as int);
        let ghost nxt = cs@.take(i + 1);
        proof {
            assert(nxt.drop_last() =~= pre);
            assert(nxt.last() == c);
            if i > 0 {
                assert(nxt[nxt.len() - 2] == cs@[i - 1]);
            }
        }
        if is_white_space_char(c) {
            if cur.len() > 0 {
                let ghost before = acc@;
                acc.push(string_from_chars(cur.as_slice()));
                assert(strs(acc@) =~= strs(before).push(cur@));
                cur = Vec::new();
            }
        } else {
            let ghost old_cur = cur@;
            cur.push(c);
            proof {
                if old_cur.len() > 0 {
                    assert(words(nxt) == words(pre).drop_last().push(words(pre).last().push(c)));
                    assert(strs(acc@).push(old_cur).drop_last() =~= strs(acc@));
                    assert(words(nxt) =~= strs(acc@).push(cur@));
                } else {
                    assert(cur@ =~= seq![c]);
                    assert(words(nxt) == words(pre).push(seq![c]));
                    assert(words(nxt) =~= strs(acc@).push(cur@));
                }
            }
        }
        i = i + 1;
    }
    assert(cs@.take(cs@.len() as int) =~= cs@);
    if cur.len() > 0 {
        let ghost before = acc@;
        acc.push(string_from_chars(cur.as_slice()));
        assert(strs(acc@) =~= strs(before).push(cur@));
    }
    acc
}

fn before_at(s: &str) -> (r: String)
    ensures
        r@ == before_char(s@, '@'),
{
    let cs = chars_of(s);
    let mut out: Vec<char> = Vec::new();
    let mut i: usize = 0;
    while i < cs.len() && cs[i] != '@'
        invariant
            i <= cs@.len(),
            cs@ == s@,
            forall|j: int| 0 <= j < i ==> cs@[j] != '@',
            out@ == cs@.take(i as int),
        decreases cs.len() - i,
    {
        out.push(cs[i]);
        i = i + 1;
        assert(out@ =~= cs@.take(i as int));
    }
    proof {
        lemma_before_char_prefix(cs@, '@', i as int);
    }
    string_from_chars(out.as_slice())
}

proof fn lemma_before_char_prefix(s: Seq<char>, c: char, k: int)
    requires
        0 <= k <= s.len(),
        forall|j: int| 0 <= j < k ==> s[j] != c,
        k == s.len() || s[k] == c,
    ensures
        before_char(s, c) == s.take(k),
    decreases k,
{
    if k == 0 {
        assert(s.take(0) =~= Seq::<char>::empty());
    } else {
        assert forall|j: int| 0 <= j < k - 1 implies s.drop_first()[j] != c by {
            assert(s.drop_first()[j] == s[j + 1]);
        }
        if k < s.len() {
            assert(s.drop_first()[k - 1] == s[k]);
        }
        lemma_before_char_prefix(s.drop_first(), c, k - 1);
        assert(seq![s[0]] + s.drop_first().take(k - 1) =~= s.take(k));
    }
}

/// The free-text normal form of skill input: drop an `@version`
/// qualifier, trim, lower-case, and join the words with `-`.
pub fn normalize_free_text(input: &str) -> (r: String)
    ensures
        r@ == free_text_spec(input@),
{
    let base = before_at(input);
    let t = trim(base.as_str());
    let l = lowercase_of(t.as_str());
    let ws = split_words(l.as_str());
    join_strings(ws.as_slice(), "-")
}

/// The leaf tags carrying the bare skill name `skill`, in tree order.
pub open spec fn skill_tags(entries: Seq<(Seq<char>, Seq<char>)>, skill: Seq<char>) -> Seq<Seq<char>>
    decreases entries.len(),
{
    if entries.len() == 0 {
        Seq::empty()
    } else {
        let prev = skill_tags(entries.drop_last(), skill);
        if entries.last().1 == skill {
            prev.push(entries.last().0)
        } else {
            prev
        }
    }
}

/// The canonical skill the alias `word` stands for: the last row of the
/// table that names it.
pub open spec fn alias_lookup(ps: Seq<(Seq<char>, Seq<char>)>, word: Seq<char>) -> Option<Seq<char>>
    decreases ps.len(),
{
    if ps.len() == 0 {
        None
    } else if ps.last().0 == word {
        Some(ps.last().1)
    } else {
        alias_lookup(ps.drop_last(), word)
    }
}

/// The refusal of a bare skill name that sits under several areas.
pub open spec fn ambiguous_msg(skill: Seq<char>, tags: Seq<Seq<char>>) -> Seq<char> {
    "`"@ + skill + "` is under more than one area \u{2014} pick one: "@ + join_with(tags, ", "@)
}

/// The refusal of input that names no known skill.
pub open spec fn unknown_msg(input: Seq<char>) -> Seq<char> {
    "`"@ + input
        + "` is not a known skill \u{2014} pick from the list, or type the full sector/domain#skill form to publish it as an unrouted tag"@
}

proof fn lemma_alias_lookup_suffix(ps: Seq<(Seq<char>, Seq<char>)>, word: Seq<char>, i: int)
    requires
        0 <= i <= ps.len(),
        forall|j: int| i <= j < ps.len() ==> (#[trigger] ps[j]).0 != word,
    ensures
        alias_lookup(ps, word) == alias_lookup(ps.take(i), word),
    decreases ps.len() - i,
{
    if i == ps.len() {
        assert(ps.take(i) =~= ps);
    } else {
        let d = ps.drop_last();
        assert(ps.last() == ps[ps.len() - 1]);
        assert forall|j: int| i <= j < d.len() implies (#[trigger] d[j]).0 != word by {
            assert(d[j] == ps[j]);
        }
        lemma_alias_lookup_suffix(d, word, i);
        assert(d.take(i) =~= ps.take(i));
    }
}

fn alias_get(ps: &Vec<(String, String)>, word: &str) -> (r: Option<String>)
    ensures
        match alias_lookup(pairs(ps@), word@) {
            Some(c) => r matches Some(s) && s@ == c,
            None => r is None,
        },
{
    let ghost v = pairs(ps@);
    let mut i: usize = ps.len();
    while i > 0
        invariant
            i <= ps@.len(),
            v == pairs(ps@),
            forall|j: int| i <= j < v.len() ==> (#[trigger] v[j]).0 != word@,
        decreases i,
    {
        i = i - 1;
        if str_eq(ps[i].0.as_str(), word) {
            proof {
                lemma_alias_lookup_suffix(v, word@, i + 1);
                assert(v.take(i + 1).last() == v[i as int]);
                assert(v.take(i + 1).drop_last() =~= v.take(i as int));
            }
            return Some(ps[i].1.clone());
        }
    }
    proof {
        lemma_alias_lookup_suffix(v, word@, 0);
    }
    None
}

fn tags_for(entries: &Vec<(String, String)>, skill: &str) -> (r: Vec<String>)
    ensures
        strs(r@) == skill_tags(pairs(entries@), skill@),
{
    let ghost v = pairs(entries@);
    let mut out: Vec<String> = Vec::new();
    let mut i: usize = 0;
    while i < entries.len()
        invariant
            i <= entries@.len(),
            v == pairs(entries@),
            strs(out@) == skill_tags(v.take(i as int), skill@),
        decreases entries.len() - i,
    {
        proof {
            assert(v.take(i + 1).drop_last() =~= v.take(i as int));
            assert(v.take(i + 1).last() == v[i as int]);
        }
        if str_eq(entries[i].1.as_str(), skill) {
            let ghost before = out@;
            out.push(entries[i].0.clone());
            assert(strs(out@) =~= strs(before).push(entries@[i as int].0@));
        }
        i = i + 1;
    }
    assert(v.take(v.len() as int) =~= v);
    out
}

/// What resolving `input` against `m` gives: the tag and whether it is
/// canonical (a leaf), or the refusal.
///
/// Empty input is refused. Input holding both `#` and `/` is a full tag:
/// its normal form is canonical when it is a leaf, unrouted otherwise.
/// Anything else is a bare skill name or an alias of one: it resolves when
/// exactly one leaf carries that skill, and is refused, naming the
/// candidates, when several do, or when none does.
pub open spec fn resolve_spec(m: Taxonomy, input: Seq<char>) -> Result<(bool, Seq<char>), Seq<char>> {
    let t = trim_spec(input);
    if t.len() == 0 {
        Err("empty"@)
    } else if t.contains('#') && t.contains('/') {
        let full = free_text_spec(t);
        Ok((m.leaf_tags().contains(full), full))
    } else {
        let word = free_text_spec(t);
        let skill = match alias_lookup(m.alias_table(), word) {
            Some(c) => c,
            None => word,
        };
        let tags = skill_tags(m.entry_pairs(), skill);
        if tags.len() == 1 {
            Ok((true, tags[0]))
        } else if tags.len() > 1 {
            Err(ambiguous_msg(skill, tags))
        } else {
            Err(unknown_msg(input))
        }
    }
}

/// Only a full `sector/domain#skill` entry can come out unrouted: text
/// without a `/` (such as `C#`) is never read as a full tag, and resolves,
/// if at all, to a canonical tag of one of the taxonomy's entries; an
/// unrouted result always came from text holding both `/` and `#`.
pub proof fn law_only_full_tags_go_unrouted(m: Taxonomy, input: Seq<char>)
    ensures
        resolve_spec(m, input) matches Ok((false, _)) ==> trim_spec(input).contains('/') && trim_spec(input).contains(
            '#',
        ),
        !trim_spec(input).contains('/') ==> match resolve_spec(m, input) {
            Ok((canonical, t)) => canonical && exists|i: int|
                0 <= i < m.entry_pairs().len() && (#[trigger] m.entry_pairs()[i]).0 == t,
            Err(_) => true,
        },
{
    let t = trim_spec(input);
    if !(t.len() == 0 || (t.contains('#') && t.contains('/'))) {
        let word = free_text_spec(t);
        let skill = match alias_lookup(m.alias_table(), word) {
            Some(c) => c,
            None => word,
        };
        let tags = skill_tags(m.entry_pairs(), skill);
        if tags.len() == 1 {
            lemma_skill_tags_from(m.entry_pairs(), skill);
            assert(skill_tags(m.entry_pairs(), skill)[0] == tags[0]);
        }
    }
}

/// Resolve one editor entry (a full tag from the picker, or something the
/// user typed) to a canonical or an explicitly unrouted leaf, as
/// [`resolve_spec`] states.
pub fn resolve(m: &Taxonomy, input: &str) -> (r: Result<Resolved, String>)
    ensures
        match resolve_spec(*m, input@) {
            Ok((true, t)) => r matches Ok(Resolved::Canonical(s)) && s@ == t,
            Ok((false, t)) => r matches Ok(Resolved::Unrouted(s)) && s@ == t,
            Err(e) => r matches Err(s) && s@ == e,
        },
        r matches Ok(Resolved::Canonical(s)) ==> m.leaf_tags().contains(s@),
{
    let trimmed = trim(input);
    if chars_of(trimmed.as_str()).len() == 0 {
        return Err(string_from_str("empty"));
    }
    if str_has_char(trimmed.as_str(), '#') && str_has_char(trimmed.as_str(), '/') {
        let full = normalize_free_text(trimmed.as_str());
        if crate::text::contains_str(&m.leaves, full.as_str()) {
            return Ok(Resolved::Canonical(full));
        } else {
            return Ok(Resolved::Unrouted(full));
        }
    }
    let word = normalize_free_text(trimmed.as_str());
    let skill = match alias_get(&m.aliases, word.as_str()) {
        Some(c) => c,
        None => word,
    };
    let tags = tags_for(&m.entries, skill.as_str());
    if tags.len() == 1 {
        proof {
            use_type_invariant(m);
            law_skill_tags_are_leaves(*m, skill@);
        }
        return Ok(Resolved::Canonical(tags[0].clone()));
    }
    if tags.len() > 1 {
        let head = cat(&cat("`", skill.as_str()), "` is under more than one area \u{2014} pick one: ");
        let list = join_strings(tags.as_slice(), ", ");
        return Err(cat(head.as_str(), list.as_str()));
    }
    let head = cat("`", input);
    Err(cat(
        head.as_str(),
        "` is not a known skill \u{2014} pick from the list, or type the full sector/domain#skill form to publish it as an unrouted tag",
    ))
}

proof fn lemma_skill_tags_from(e: Seq<(Seq<char>, Seq<char>)>, skill: Seq<char>)
    ensures
        forall|k: int| 0 <= k < skill_tags(e, skill).len() ==> exists|i: int|
            0 <= i < e.len() && (#[trigger] e[i]).0 == #[trigger] skill_tags(e, skill)[k] && e[i].1 == skill,
    decreases e.len(),
{
    if e.len() > 0 {
        lemma_skill_tags_from(e.drop_last(), skill);
        let prev = skill_tags(e.drop_last(), skill);
        assert forall|k: int| 0 <= k < skill_tags(e, skill).len() implies exists|i: int|
            0 <= i < e.len() && (#[trigger] e[i]).0 == #[trigger] skill_tags(e, skill)[k] && e[i].1 == skill by {
            if k < prev.len() {
                let i = choose|i: int| 0 <= i < e.drop_last().len() && (#[trigger] e.drop_last()[i]).0 == prev[k]
                    && e.drop_last()[i].1 == skill;
                assert(e[i] == e.drop_last()[i]);
                assert(skill_tags(e, skill)[k] == prev[k]);
            } else {
                assert(e[e.len() - 1] == e.last());
            }
        }
    }
}

/// What a bare skill name resolves to is routable: in a model whose leaves
/// are exactly the tags of its entries (as every [`Taxonomy`] is), every
/// tag carrying a skill is a leaf.
pub proof fn law_skill_tags_are_leaves(m: Taxonomy, skill: Seq<char>)
    requires
        forall|x: Seq<char>| m.leaf_tags().contains(x) <==> (exists|i: int|
            0 <= i < m.entry_pairs().len() && (#[trigger] m.entry_pairs()[i]).0 == x),
    ensures
        forall|k: int| 0 <= k < skill_tags(m.entry_pairs(), skill).len() ==> m.leaf_tags().contains(
            #[trigger] skill_tags(m.entry_pairs(), skill)[k],
        ),
{
    lemma_skill_tags_from(m.entry_pairs(), skill);
}

} // verus!
