//! The editor side of a member's profile: which free-text fields and
//! history entries may travel, and the checks a new profile passes before
//! it is signed (resolved and bounded skill tags, well-formed links,
//! in-bound public fields).
//!
//! Every published tag is public: relays holding a referral query read
//! them to route it. The only lever is whether a tag is in the list at all.

use vstd::prelude::*;

use crate::taxonomy::{resolve, resolve_spec, Taxonomy};
use crate::text::{
    cat, chars_of, contains_str, decimal, decimal_spec, lemma_str_lt_total, lemma_str_lt_trans, lowercase_of,
    spec_lowercase, str_eq, str_less, str_lt, string_from_str, strs, trim, trim_spec,
};

verus! {

/// A profile carries fewer than 80 skill tags.
pub const MAX_TAGS: usize = 79;
/// Longest a single skill tag may be, in characters (fewer than 80).
pub const MAX_TAG_LEN: usize = 79;
/// A profile carries a handful of links, not a link farm.
pub const MAX_LINKS: usize = 8;

/// How far a free-text profile field is allowed to travel.
#[derive(Debug, Clone, Copy, PartialEq, Eq, Structural)]
pub enum FieldVisibility {
    /// Written into the published profile: everyone sees it.
    Public,
    /// Reserved for a contacts-only channel that is not built yet; until
    /// then held locally and not published, like `Private`.
    Contacts,
    /// Never leaves this device.
    Private,
}

impl Default for FieldVisibility {
    fn default() -> (r: Self)
        ensures
            r == FieldVisibility::Public,
    {
        FieldVisibility::Public
    }
}

/// The visibility a stored or sent string names: `private` and `contacts`
/// are those; anything else is `Public`.
pub open spec fn visibility_of(s: Seq<char>) -> FieldVisibility {
    if s == "private"@ {
        FieldVisibility::Private
    } else if s == "contacts"@ {
        FieldVisibility::Contacts
    } else {
        FieldVisibility::Public
    }
}

/// The lower-case name of a visibility.
pub open spec fn visibility_name(v: FieldVisibility) -> Seq<char> {
    match v {
        FieldVisibility::Public => "public"@,
        FieldVisibility::Contacts => "contacts"@,
        FieldVisibility::Private => "private"@,
    }
}

impl FieldVisibility {
    /// The visibility `s` names; anything unrecognised is `Public`.
    pub fn parse(s: &str) -> (r: Self)
        ensures
            r == visibility_of(s@),
    {
        if str_eq(s, "private") {
            FieldVisibility::Private
        } else if str_eq(s, "contacts") {
            FieldVisibility::Contacts
        } else {
            FieldVisibility::Public
        }
    }

    /// The lower-case name of this visibility.
    pub fn as_str(self) -> (r: &'static str)
        ensures
            r@ == visibility_name(self),
    {
        match self {
            FieldVisibility::Public => "public",
            FieldVisibility::Contacts => "contacts",
            FieldVisibility::Private => "private",
        }
    }
}

/// Naming a visibility and reading the name back gives the visibility.
pub proof fn law_visibility_name_round_trips(v: FieldVisibility)
    ensures
        visibility_of(visibility_name(v)) == v,
{
    reveal_strlit("public");
    reveal_strlit("contacts");
    reveal_strlit("private");
    assert("public"@.len() == 6 && "contacts"@.len() == 8 && "private"@.len() == 7);
}

/// One free-text profile field held on the device: its value and how far
/// it may travel.
#[derive(Debug, Clone, PartialEq)]
pub struct ProfileField {
    pub value: String,
    pub visibility: FieldVisibility,
}

impl Default for ProfileField {
    fn default() -> (r: Self)
        ensures
            r.value@.len() == 0,
            r.visibility == FieldVisibility::Public,
    {
        ProfileField { value: String::new(), visibility: FieldVisibility::Public }
    }
}

/// What a field contributes to the signed profile: its trimmed value when
/// it is `Public` and not blank.
pub open spec fn published_spec(value: Seq<char>, visibility: FieldVisibility) -> Option<Seq<char>> {
    if visibility == FieldVisibility::Public && trim_spec(value).len() > 0 {
        Some(trim_spec(value))
    } else {
        None
    }
}

impl ProfileField {
    /// The trimmed value if it is `Public` and not blank: what a signed
    /// profile mirrors.
    pub fn published(&self) -> (r: Option<String>)
        ensures
            match published_spec(self.value@, self.visibility) {
                Some(v) => r matches Some(s) && s@ == v,
                None => r is None,
            },
    {
        let v = trim(self.value.as_str());
        if self.visibility == FieldVisibility::Public && chars_of(v.as_str()).len() > 0 {
            Some(v)
        } else {
            None
        }
    }
}

/// `s` trimmed, as an owned string.
pub fn trimmed(s: &str) -> (r: String)
    ensures
        r@ == trim_spec(s@),
{
    trim(s)
}

/// One work-history entry.
#[derive(Debug, Clone, PartialEq)]
pub struct Employment {
    pub title: String,
    pub org: String,
    pub start: String,
    pub end: String,
    pub summary: String,
}

/// One education entry.
#[derive(Debug, Clone, PartialEq)]
pub struct Education {
    pub school: String,
    pub field: String,
    pub start: String,
    pub end: String,
}

/// One certification.
#[derive(Debug, Clone, PartialEq)]
pub struct Certification {
    pub name: String,
    pub issuer: String,
    pub year: String,
    pub url: String,
}

/// A work-history entry with its own visibility.
#[derive(Debug, Clone, PartialEq)]
pub struct LocalEmployment {
    pub entry: Employment,
    pub visibility: FieldVisibility,
}

/// An education entry with its own visibility.
#[derive(Debug, Clone, PartialEq)]
pub struct LocalEducation {
    pub entry: Education,
    pub visibility: FieldVisibility,
}

/// A certification with its own visibility.
#[derive(Debug, Clone, PartialEq)]
pub struct LocalCertification {
    pub entry: Certification,
    pub visibility: FieldVisibility,
}

impl LocalEmployment {
    /// Neither a title nor an organisation.
    pub open spec fn blank(self) -> bool {
        trim_spec(self.entry.title@).len() == 0 && trim_spec(self.entry.org@).len() == 0
    }

    /// The entry with every field trimmed, when it is `Public` and not
    /// blank.
    pub fn published(&self) -> (r: Option<Employment>)
        ensures
            (self.visibility == FieldVisibility::Public && !self.blank()) <==> r is Some,
            r matches Some(e) ==> {
                &&& e.title@ == trim_spec(self.entry.title@)
                &&& e.org@ == trim_spec(self.entry.org@)
                &&& e.start@ == trim_spec(self.entry.start@)
                &&& e.end@ == trim_spec(self.entry.end@)
                &&& e.summary@ == trim_spec(self.entry.summary@)
            },
    {
        let title = trim(self.entry.title.as_str());
        let org = trim(self.entry.org.as_str());
        if self.visibility != FieldVisibility::Public || (chars_of(title.as_str()).len() == 0 && chars_of(
            org.as_str(),
        ).len() == 0) {
            return None;
        }
        Some(
            Employment {
                title,
                org,
                start: trim(self.entry.start.as_str()),
                end: trim(self.entry.end.as_str()),
                summary: trim(self.entry.summary.as_str()),
            },
        )
    }
}

impl LocalEducation {
    /// No school.
    pub open spec fn blank(self) -> bool {
        trim_spec(self.entry.school@).len() == 0
    }

    /// The entry with every field trimmed, when it is `Public` and not
    /// blank.
    pub fn published(&self) -> (r: Option<Education>)
        ensures
            (self.visibility == FieldVisibility::Public && !self.blank()) <==> r is Some,
            r matches Some(e) ==> {
                &&& e.school@ == trim_spec(self.entry.school@)
                &&& e.field@ == trim_spec(self.entry.field@)
                &&& e.start@ == trim_spec(self.entry.start@)
                &&& e.end@ == trim_spec(self.entry.end@)
            },
    {
        let school = trim(self.entry.school.as_str());
        if self.visibility != FieldVisibility::Public || chars_of(school.as_str()).len() == 0 {
            return None;
        }
        Some(
            Education {
                school,
                field: trim(self.entry.field.as_str()),
                start: trim(self.entry.start.as_str()),
                end: trim(self.entry.end.as_str()),
            },
        )
    }
}

impl LocalCertification {
    /// No name.
    pub open spec fn blank(self) -> bool {
        trim_spec(self.entry.name@).len() == 0
    }

    /// The entry with every field trimmed, when it is `Public` and not
    /// blank.
    pub fn published(&self) -> (r: Option<Certification>)
        ensures
            (self.visibility == FieldVisibility::Public && !self.blank()) <==> r is Some,
            r matches Some(e) ==> {
                &&& e.name@ == trim_spec(self.entry.name@)
                &&& e.issuer@ == trim_spec(self.entry.issuer@)
                &&& e.year@ == trim_spec(self.entry.year@)
                &&& e.url@ == trim_spec(self.entry.url@)
            },
    {
        let name = trim(self.entry.name.as_str());
        if self.visibility != FieldVisibility::Public || chars_of(name.as_str()).len() == 0 {
            return None;
        }
        Some(
            Certification {
                name,
                issuer: trim(self.entry.issuer.as_str()),
                year: trim(self.entry.year.as_str()),
                url: trim(self.entry.url.as_str()),
            },
        )
    }
}

/// Profile detail held on the device; only the `Public` fields and entries
/// are copied into a signed profile.
#[derive(Debug, Clone, PartialEq)]
pub struct ProfileLocal {
    pub name: ProfileField,
    pub alt_name: ProfileField,
    pub headline: ProfileField,
    pub bio: ProfileField,
    pub location: ProfileField,
    pub employment: Vec<LocalEmployment>,
    pub education: Vec<LocalEducation>,
    pub certifications: Vec<LocalCertification>,
}

/// What the editor sends for one free-text field.
#[derive(Debug, Clone)]
pub struct ProfileFieldEdit {
    pub value: String,
    pub visibility: String,
}

impl ProfileFieldEdit {
    /// The field an edit asks for: the trimmed value, and the visibility
    /// its string names.
    pub fn to_field(&self) -> (r: ProfileField)
        ensures
            r.value@ == trim_spec(self.value@),
            r.visibility == visibility_of(self.visibility@),
    {
        ProfileField { value: trim(self.value.as_str()), visibility: FieldVisibility::parse(self.visibility.as_str()) }
    }

    /// The edit that shows a stored field: its value, and its visibility's
    /// name.
    pub fn from_field(f: &ProfileField) -> (r: ProfileFieldEdit)
        ensures
            r.value@ == f.value@,
            r.visibility@ == visibility_name(f.visibility),
    {
        ProfileFieldEdit { value: f.value.clone(), visibility: string_from_str(f.visibility.as_str()) }
    }
}

/// One free-text field as a shell shows it: the value and its visibility
/// as a lower-case string.
#[derive(Debug, Clone)]
pub struct FieldView {
    pub value: String,
    pub visibility: String,
}

impl FieldView {
    /// How a stored field is shown.
    pub fn of(f: &ProfileField) -> (r: FieldView)
        ensures
            r.value@ == f.value@,
            r.visibility@ == visibility_name(f.visibility),
    {
        FieldView { value: f.value.clone(), visibility: string_from_str(f.visibility.as_str()) }
    }
}

/// One skill the editor collected: the raw entry, and an optional level
/// and provenance.
#[derive(Debug, Clone)]
pub struct SkillEdit {
    pub tag: String,
    pub level: Option<String>,
    pub source: Option<String>,
}

/// An external-network link the editor collected.
#[derive(Debug, Clone)]
pub struct LinkEdit {
    pub network: String,
    pub url: String,
}

/// What the editor sends for the name: a bare string (public) or a field
/// with its visibility.
#[derive(Debug, Clone)]
pub enum NameEdit {
    Plain(String),
    Field(ProfileFieldEdit),
}

impl NameEdit {
    /// The field a name edit asks for: a bare string is the trimmed value,
    /// public.
    pub fn to_field(&self) -> (r: ProfileField)
        ensures
            match self {
                NameEdit::Plain(s) => r.value@ == trim_spec(s@) && r.visibility == FieldVisibility::Public,
                NameEdit::Field(f) => r.value@ == trim_spec(f.value@) && r.visibility == visibility_of(
                    f.visibility@,
                ),
            },
    {
        match self {
            NameEdit::Plain(s) => ProfileField { value: trim(s.as_str()), visibility: FieldVisibility::Public },
            NameEdit::Field(f) => f.to_field(),
        }
    }
}

/// What the editor collected. Optional fields left out leave the stored
/// value untouched; sent, they replace it.
#[derive(Debug, Clone)]
pub struct ProfileEdit {
    pub display_name: Option<NameEdit>,
    pub alt_name: Option<ProfileFieldEdit>,
    pub skills: Vec<SkillEdit>,
    pub links: Vec<LinkEdit>,
    pub headline: Option<ProfileFieldEdit>,
    pub bio: Option<ProfileFieldEdit>,
    pub location: Option<ProfileFieldEdit>,
    pub employment: Option<Vec<LocalEmployment>>,
    pub education: Option<Vec<LocalEducation>>,
    pub certifications: Option<Vec<LocalCertification>>,
}

impl Default for ProfileEdit {
    fn default() -> (r: Self)
        ensures
            r.display_name is None && r.alt_name is None && r.skills@.len() == 0 && r.links@.len() == 0
                && r.headline is None && r.bio is None && r.location is None && r.employment is None
                && r.education is None && r.certifications is None,
    {
        ProfileEdit {
            display_name: None,
            alt_name: None,
            skills: Vec::new(),
            links: Vec::new(),
            headline: None,
            bio: None,
            location: None,
            employment: None,
            education: None,
            certifications: None,
        }
    }
}

/// A link on a profile: the network's name and the URL.
#[derive(Debug, Clone, PartialEq)]
pub struct ExternalLink {
    pub network: String,
    pub url: String,
}

/// Why a profile edit was refused.
#[derive(Debug, Clone, PartialEq)]
pub enum ProfileError {
    /// More than [`MAX_TAGS`] after de-duplication.
    TooMany(usize),
    /// Nothing left to publish.
    Empty,
    /// One entry could not be resolved to a tag: the raw input and why.
    Tag { input: String, reason: String },
    /// A level string was not a level.
    Level { input: String },
    /// An external link did not validate.
    Link { input: String, reason: String },
    /// A public free-text field is over its character bound.
    Field { field: &'static str, reason: String },
}

/// The text a profile refusal is reported with.
pub open spec fn profile_message(e: ProfileError) -> Seq<char> {
    match e {
        ProfileError::TooMany(n) => decimal_spec(n as nat) + " tags \u{2014} a profile carries fewer than "@ + decimal_spec(
            (MAX_TAGS + 1) as nat,
        ) + " (NIP-QW03)"@,
        ProfileError::Empty => "a profile needs at least one skill tag"@,
        ProfileError::Tag { input, reason } => "`"@ + input@ + "`: "@ + reason@,
        ProfileError::Level { input } => "`"@ + input@ + "` is not a level (beginner, intermediate, senior, expert)"@,
        ProfileError::Link { input, reason } => "link `"@ + input@ + "`: "@ + reason@,
        ProfileError::Field { field, reason } => field@ + ": "@ + reason@,
    }
}

impl ProfileError {
    /// The text this refusal is reported with.
    pub fn message(&self) -> (r: String)
        ensures
            r@ == profile_message(*self),
    {
        match self {
            ProfileError::TooMany(n) => {
                let a = cat(decimal(*n).as_str(), " tags \u{2014} a profile carries fewer than ");
                let b = cat(a.as_str(), decimal(MAX_TAGS + 1).as_str());
                cat(b.as_str(), " (NIP-QW03)")
            },
            ProfileError::Empty => string_from_str("a profile needs at least one skill tag"),
            ProfileError::Tag { input, reason } => {
                let a = cat("`", input.as_str());
                let b = cat(a.as_str(), "`: ");
                cat(b.as_str(), reason.as_str())
            },
            ProfileError::Level { input } => {
                let a = cat("`", input.as_str());
                cat(a.as_str(), "` is not a level (beginner, intermediate, senior, expert)")
            },
            ProfileError::Link { input, reason } => {
                let a = cat("link `", input.as_str());
                let b = cat(a.as_str(), "`: ");
                cat(b.as_str(), reason.as_str())
            },
            ProfileError::Field { field, reason } => {
                let a = cat(field, ": ");
                cat(a.as_str(), reason.as_str())
            },
        }
    }
}

/// The refusal text of a field at or over its bound.
pub open spec fn shorter_than_msg(max: nat) -> Seq<char> {
    "must be shorter than "@ + decimal_spec(max) + " characters"@
}

fn shorter_than(max: usize) -> (r: String)
    ensures
        r@ == shorter_than_msg(max as nat),
{
    let head = cat("must be shorter than ", decimal(max).as_str());
    cat(head.as_str(), " characters")
}

/// The published value of a name field: `None` when it is not `Public` or
/// blank, refused when it is `max` characters or longer.
pub fn name_published(f: Option<ProfileField>, name: &'static str, max: usize) -> (r: Result<Option<String>, ProfileError>)
    ensures
        match f {
            None => r matches Ok(None),
            Some(f) => match published_spec(f.value@, f.visibility) {
                None => r matches Ok(None),
                Some(v) => if v.len() >= max {
                    r matches Err(ProfileError::Field { field, reason }) && field@ == name@ && reason@
                        == shorter_than_msg(max as nat)
                } else {
                    r matches Ok(Some(s)) && s@ == v
                },
            },
        },
{
    let v = match f {
        None => {
            return Ok(None);
        },
        Some(f) => match f.published() {
            None => {
                return Ok(None);
            },
            Some(v) => v,
        },
    };
    if chars_of(v.as_str()).len() >= max {
        return Err(ProfileError::Field { field: name, reason: shorter_than(max) });
    }
    Ok(Some(v))
}

/// The published value of an optional editor field, as [`name_published`]
/// reads it.
pub fn field_published(e: Option<&ProfileFieldEdit>, name: &'static str, max: usize) -> (r: Result<Option<String>, ProfileError>)
    ensures
        match e {
            None => r matches Ok(None),
            Some(e) => match published_spec(trim_spec(e.value@), visibility_of(e.visibility@)) {
                None => r matches Ok(None),
                Some(v) => if v.len() >= max {
                    r matches Err(ProfileError::Field { field, reason }) && field@ == name@ && reason@
                        == shorter_than_msg(max as nat)
                } else {
                    r matches Ok(Some(s)) && s@ == v
                },
            },
        },
{
    match e {
        None => Ok(None),
        Some(e) => name_published(Some(e.to_field()), name, max),
    }
}

/// A link as text: (network, url).
pub open spec fn link_view(l: ExternalLink) -> (Seq<char>, Seq<char>) {
    (l.network@, l.url@)
}

/// Links as text.
pub open spec fn links_view(v: Seq<ExternalLink>) -> Seq<(Seq<char>, Seq<char>)> {
    v.map_values(|l: ExternalLink| link_view(l))
}

/// A URL a profile may carry: `http://` or `https://`.
pub open spec fn web_url(u: Seq<char>) -> bool {
    (u.len() >= 7 && u.take(7) == "http://"@) || (u.len() >= 8 && u.take(8) == "https://"@)
}

/// The network a link is filed under: the lower-cased name, or `website`
/// for a blank one.
pub open spec fn network_of(n: Seq<char>) -> Seq<char> {
    if trim_spec(n).len() == 0 {
        "website"@
    } else {
        spec_lowercase(trim_spec(n))
    }
}

/// The links kept from `ls`, in order, or the first trimmed URL that is
/// not a web URL: blank URLs are skipped, and a URL already kept is not
/// kept twice.
pub open spec fn links_fold(ls: Seq<LinkEdit>) -> Result<Seq<(Seq<char>, Seq<char>)>, Seq<char>>
    decreases ls.len(),
{
    if ls.len() == 0 {
        Ok(Seq::empty())
    } else {
        match links_fold(ls.drop_last()) {
            Err(u) => Err(u),
            Ok(v) => {
                let l = ls.last();
                let url = trim_spec(l.url@);
                if url.len() == 0 {
                    Ok(v)
                } else if !web_url(url) {
                    Err(url)
                } else if exists|i: int| 0 <= i < v.len() && (#[trigger] v[i]).1 == url {
                    Ok(v)
                } else {
                    Ok(v.push((network_of(l.network@), url)))
                }
            },
        }
    }
}

fn has_url(v: &Vec<ExternalLink>, url: &str) -> (r: bool)
    ensures
        r == exists|i: int| 0 <= i < v@.len() && (#[trigger] links_view(v@)[i]).1 == url@,
{
    let ghost vv = links_view(v@);
    let mut i: usize = 0;
    while i < v.len()
        invariant
            i <= v@.len(),
            vv == links_view(v@),
            forall|j: int| 0 <= j < i ==> (#[trigger] vv[j]).1 != url@,
        decreases v.len() - i,
    {
        assert(vv[i as int] == link_view(v@[i as int]));
        if str_eq(v[i].url.as_str(), url) {
            return true;
        }
        i = i + 1;
    }
    false
}

fn starts_with_str(s: &str, p: &str) -> (r: bool)
    ensures
        r == (p@.len() <= s@.len() && s@.take(p@.len() as int) == p@),
{
    let cs = chars_of(s);
    let ps = chars_of(p);
    crate::text::starts_with_chars(cs.as_slice(), ps.as_slice())
}

/// Check and collect the editor's links: blank URLs are skipped, a
/// non-web URL is refused (the first one, trimmed), a repeated URL is kept
/// once, a blank network becomes `website` and any other is lower-cased;
/// more than [`MAX_LINKS`] is refused.
pub fn collect_links(links: &[LinkEdit]) -> (r: Result<Vec<ExternalLink>, ProfileError>)
    ensures
        match links_fold(links@) {
            Err(u) => r matches Err(ProfileError::Link { input, reason }) && input@ == u && reason@
                == "must be an http(s) URL"@,
            Ok(v) => if v.len() > MAX_LINKS {
                r matches Err(ProfileError::Link { input, reason }) && input@ == decimal_spec(v.len())
                    + " links"@ && reason@ == "at most "@ + decimal_spec(MAX_LINKS as nat)
            } else {
                r matches Ok(out) && links_view(out@) == v
            },
        },
{
    let mut out: Vec<ExternalLink> = Vec::new();
    let mut i: usize = 0;
    assert(links@.take(0).len() == 0);
    assert(links_view(out@) =~= Seq::<(Seq<char>, Seq<char>)>::empty());
    while i < links.len()
        invariant
            i <= links@.len(),
            links_fold(links@.take(i as int)) == Ok::<Seq<(Seq<char>, Seq<char>)>, Seq<char>>(
                links_view(out@),
            ),
        decreases links.len() - i,
    {
        proof {
            assert(links@.take(i + 1).drop_last() =~= links@.take(i as int));
            assert(links@.take(i + 1).last() == links@[i as int]);
        }
        let l = &links[i];
        let url = trim(l.url.as_str());
        if chars_of(url.as_str()).len() > 0 {
            if !(starts_with_str(url.as_str(), "http://") || starts_with_str(url.as_str(), "https://")) {
                proof {
                    reveal_strlit("http://");
                    reveal_strlit("https://");
                    lemma_links_fold_err_sticks(links@, i as int + 1);
                }
                return Err(ProfileError::Link { input: url, reason: string_from_str("must be an http(s) URL") });
            }
            proof {
                reveal_strlit("http://");
                reveal_strlit("https://");
            }
            if !has_url(&out, url.as_str()) {
                let n = trim(l.network.as_str());
                let network = if chars_of(n.as_str()).len() == 0 {
                    string_from_str("website")
                } else {
                    lowercase_of(n.as_str())
                };
                let ghost before = out@;
                out.push(ExternalLink { network, url });
                assert(links_view(out@) =~= links_view(before).push(link_view(out@[before.len() as int])));
            }
        }
        i = i + 1;
    }
    assert(links@.take(links@.len() as int) =~= links@);
    if out.len() > MAX_LINKS {
        let input = cat(decimal(out.len()).as_str(), " links");
        let reason = cat("at most ", decimal(MAX_LINKS).as_str());
        return Err(ProfileError::Link { input, reason });
    }
    Ok(out)
}

proof fn lemma_links_fold_err_sticks(ls: Seq<LinkEdit>, k: int)
    requires
        0 <= k <= ls.len(),
        links_fold(ls.take(k)) is Err,
    ensures
        links_fold(ls) == links_fold(ls.take(k)),
    decreases ls.len() - k,
{
    if k < ls.len() {
        assert(ls.take(k + 1).drop_last() =~= ls.take(k));
        lemma_links_fold_err_sticks(ls, k + 1);
    } else {
        assert(ls.take(k) =~= ls);
    }
}

/// The skill tags an edit resolves to, with what was said of each.
#[derive(Debug, Clone)]
pub struct SkillPicks {
    /// Resolved tags, de-duplicated, in entry order.
    pub tags: Vec<String>,
    /// (tag, level) for each tag an entry stated a level for, once per tag
    /// in the order first stated, the last level stated winning; the level
    /// by its name on the scale (`beginner` .. `expert`).
    pub levels: Vec<(String, String)>,
    /// The tags of entries whose provenance is `commit-analysis`, each once,
    /// in entry order.
    pub commit_analysis: Vec<String>,
}

/// Picks as text: tags, (tag, level) pairs, commit-analysis tags.
pub type PicksText = (Seq<Seq<char>>, Seq<(Seq<char>, Seq<char>)>, Seq<Seq<char>>);

/// Why reading the skill entries stopped: an entry that does not resolve
/// (its raw text, why), or a level that is not on the scale (its trimmed
/// text).
pub enum SkillRefusal {
    Tag { input: Seq<char>, reason: Seq<char> },
    Level { input: Seq<char> },
}

/// The level a lower-case spelling names: `beginner`, `intermediate`,
/// `senior` or `expert`, with `mid` read as `intermediate`; `None` for
/// anything else.
pub open spec fn scale_word(l: Seq<char>) -> Option<Seq<char>> {
    if l == "beginner"@ || l == "intermediate"@ || l == "senior"@ || l == "expert"@ {
        Some(l)
    } else if l == "mid"@ {
        Some("intermediate"@)
    } else {
        None
    }
}

/// The level a trimmed, non-blank level text names, by its lower-case
/// spelling (see [`scale_word`]).
pub open spec fn level_word(raw: Seq<char>) -> Option<Seq<char>> {
    scale_word(spec_lowercase(raw))
}

/// The level scale: each of its four names is read as itself, `mid` as
/// `intermediate`, and whatever a spelling is read as is one of the four
/// names, either the spelling itself or the reading of `mid`.
pub proof fn law_level_scale(l: Seq<char>)
    ensures
        scale_word("beginner"@) == Some("beginner"@),
        scale_word("intermediate"@) == Some("intermediate"@),
        scale_word("senior"@) == Some("senior"@),
        scale_word("expert"@) == Some("expert"@),
        scale_word("mid"@) == Some("intermediate"@),
        scale_word(l) matches Some(x) ==> (x == "beginner"@ || x == "intermediate"@ || x == "senior"@ || x
            == "expert"@),
        scale_word(l) matches Some(x) ==> (x == l || (l == "mid"@ && x == "intermediate"@)),
{
    reveal_strlit("beginner");
    reveal_strlit("intermediate");
    reveal_strlit("senior");
    reveal_strlit("expert");
    reveal_strlit("mid");
    assert("intermediate"@.len() != "beginner"@.len());
    assert("senior"@.len() != "beginner"@.len() && "senior"@.len() != "intermediate"@.len());
    assert("expert"@.len() != "beginner"@.len() && "expert"@.len() != "intermediate"@.len());
    assert("expert"@[0] != "senior"@[0]);
    assert("mid"@.len() != "beginner"@.len() && "mid"@.len() != "intermediate"@.len());
    assert("mid"@.len() != "senior"@.len() && "mid"@.len() != "expert"@.len());
    assert("intermediate"@ != "beginner"@);
    assert("senior"@ != "beginner"@ && "senior"@ != "intermediate"@);
    assert("expert"@ != "beginner"@ && "expert"@ != "intermediate"@ && "expert"@ != "senior"@);
    assert("mid"@ != "beginner"@ && "mid"@ != "intermediate"@ && "mid"@ != "senior"@ && "mid"@ != "expert"@);
}

/// Read a level text (already trimmed) on the profile's level scale.
pub fn level_name(raw: &str) -> (r: Option<String>)
    ensures
        match level_word(raw@) {
            Some(l) => r matches Some(s) && s@ == l,
            None => r is None,
        },
{
    let l = lowercase_of(raw);
    let ls = l.as_str();
    if str_eq(ls, "beginner") || str_eq(ls, "intermediate") || str_eq(ls, "senior") || str_eq(ls, "expert") {
        Some(l)
    } else if str_eq(ls, "mid") {
        Some(string_from_str("intermediate"))
    } else {
        None
    }
}

/// Where `t` stands among `levels`: the index of its first entry, or the
/// length when it has none.
pub open spec fn level_slot(levels: Seq<(Seq<char>, Seq<char>)>, t: Seq<char>) -> int
    decreases levels.len(),
{
    if levels.len() == 0 {
        0
    } else if levels[0].0 == t {
        0
    } else {
        1 + level_slot(levels.drop_first(), t)
    }
}

/// `levels` with the level of `t` set to `l`: its entry replaced where it
/// has one, else appended.
pub open spec fn put_level(levels: Seq<(Seq<char>, Seq<char>)>, t: Seq<char>, l: Seq<char>) -> Seq<(Seq<char>, Seq<char>)> {
    let k = level_slot(levels, t);
    if k < levels.len() {
        levels.update(k, (t, l))
    } else {
        levels.push((t, l))
    }
}

proof fn lemma_level_slot(levels: Seq<(Seq<char>, Seq<char>)>, t: Seq<char>, i: int)
    requires
        0 <= i <= levels.len(),
        forall|j: int| 0 <= j < i ==> (#[trigger] levels[j]).0 != t,
        i < levels.len() ==> levels[i].0 == t,
    ensures
        level_slot(levels, t) == i,
    decreases i,
{
    if i > 0 {
        assert forall|j: int| 0 <= j < i - 1 implies (#[trigger] levels.drop_first()[j]).0 != t by {
            assert(levels.drop_first()[j] == levels[j + 1]);
        }
        if i < levels.len() {
            assert(levels.drop_first()[i - 1] == levels[i]);
        }
        lemma_level_slot(levels.drop_first(), t, i - 1);
        assert(levels[0].0 != t);
    } else if levels.len() > 0 {
        assert(levels[0].0 == t);
    }
}

/// Set the level of `tag` in `levels`: its entry is replaced where it has
/// one, else one is appended.
fn set_level(levels: &mut Vec<(String, String)>, tag: String, level: String)
    ensures
        final(levels)@.map_values(|q: (String, String)| (q.0@, q.1@)) == put_level(
            old(levels)@.map_values(|q: (String, String)| (q.0@, q.1@)),
            tag@,
            level@,
        ),
{
    let ghost v0 = levels@.map_values(|q: (String, String)| (q.0@, q.1@));
    let mut i: usize = 0;
    while i < levels.len()
        invariant
            i <= levels@.len(),
            levels@ == old(levels)@,
            v0 == levels@.map_values(|q: (String, String)| (q.0@, q.1@)),
            forall|j: int| 0 <= j < i ==> (#[trigger] v0[j]).0 != tag@,
        decreases levels.len() - i,
    {
        if crate::text::str_eq(levels[i].0.as_str(), tag.as_str()) {
            proof {
                lemma_level_slot(v0, tag@, i as int);
            }
            let ghost t = tag@;
            let ghost l = level@;
            levels.set(i, (tag, level));
            assert(levels@.map_values(|q: (String, String)| (q.0@, q.1@)) =~= v0.update(i as int, (t, l)));
            return;
        }
        i = i + 1;
    }
    proof {
        lemma_level_slot(v0, tag@, i as int);
    }
    let ghost t = tag@;
    let ghost l = level@;
    levels.push((tag, level));
    assert(levels@.map_values(|q: (String, String)| (q.0@, q.1@)) =~= v0.push((t, l)));
}

/// Reading the editor's skill entries in order: blank entries are skipped;
/// the first entry that does not resolve stops with (its raw text, why);
/// otherwise each resolved tag is kept once, a non-blank level is read on
/// the level scale (stopping with its trimmed text when it is not a level)
/// and set for the tag (the last one stated winning), and a
/// `commit-analysis` provenance is noted once per tag.
pub open spec fn skills_fold(m: Taxonomy, es: Seq<SkillEdit>) -> Result<PicksText, SkillRefusal>
    decreases es.len(),
{
    if es.len() == 0 {
        Ok((Seq::empty(), Seq::empty(), Seq::empty()))
    } else {
        match skills_fold(m, es.drop_last()) {
            Err(e) => Err(e),
            Ok((tags, levels, ca)) => {
                let e = es.last();
                if trim_spec(e.tag@).len() == 0 {
                    Ok((tags, levels, ca))
                } else {
                    match resolve_spec(m, e.tag@) {
                        Err(reason) => Err(SkillRefusal::Tag { input: e.tag@, reason }),
                        Ok((_, t)) => {
                            let tags2 = if tags.contains(t) {
                                tags
                            } else {
                                tags.push(t)
                            };
                            let ca2 = match e.source {
                                Some(src) => if src@ == "commit-analysis"@ && !ca.contains(t) {
                                    ca.push(t)
                                } else {
                                    ca
                                },
                                None => ca,
                            };
                            match e.level {
                                Some(raw) => if trim_spec(raw@).len() > 0 {
                                    match level_word(trim_spec(raw@)) {
                                        Some(l) => Ok((tags2, put_level(levels, t, l), ca2)),
                                        None => Err(SkillRefusal::Level { input: trim_spec(raw@) }),
                                    }
                                } else {
                                    Ok((tags2, levels, ca2))
                                },
                                None => Ok((tags2, levels, ca2)),
                            }
                        },
                    }
                }
            }
        }
    }
}

/// The picks as text.
pub open spec fn picks_view(p: SkillPicks) -> PicksText {
    (
        strs(p.tags@),
        p.levels@.map_values(|q: (String, String)| (q.0@, q.1@)),
        strs(p.commit_analysis@),
    )
}

/// The refusal of a tag over [`MAX_TAG_LEN`].
pub open spec fn tag_too_long_msg() -> Seq<char> {
    "a skill tag is at most "@ + decimal_spec(MAX_TAG_LEN as nat) + " characters"@
}

/// The first of `tags` longer than [`MAX_TAG_LEN`] characters, if any.
pub open spec fn first_long_tag(tags: Seq<Seq<char>>) -> Option<Seq<char>>
    decreases tags.len(),
{
    if tags.len() == 0 {
        None
    } else if tags[0].len() > MAX_TAG_LEN {
        Some(tags[0])
    } else {
        first_long_tag(tags.drop_first())
    }
}

proof fn lemma_skills_fold_err_sticks(m: Taxonomy, es: Seq<SkillEdit>, k: int)
    requires
        0 <= k <= es.len(),
        skills_fold(m, es.take(k)) is Err,
    ensures
        skills_fold(m, es) == skills_fold(m, es.take(k)),
    decreases es.len() - k,
{
    if k < es.len() {
        assert(es.take(k + 1).drop_last() =~= es.take(k));
        lemma_skills_fold_err_sticks(m, es, k + 1);
    } else {
        assert(es.take(k) =~= es);
    }
}

fn is_commit_analysis(src: &Option<String>) -> (r: bool)
    ensures
        r == (src matches Some(s) && s@ == "commit-analysis"@),
{
    match src {
        Some(s) => str_eq(s.as_str(), "commit-analysis"),
        None => false,
    }
}

/// Resolve, de-duplicate and bound the editor's skill entries against the
/// taxonomy: the first entry that does not resolve is refused with its
/// raw text and the reason; no tag at all is `Empty`; more than
/// [`MAX_TAGS`] is `TooMany`; the first tag over [`MAX_TAG_LEN`]
/// characters is refused.
pub fn collect_skill_tags(m: &Taxonomy, skills: &[SkillEdit]) -> (r: Result<SkillPicks, ProfileError>)
    ensures
        match skills_fold(*m, skills@) {
            Err(SkillRefusal::Tag { input, reason }) => r matches Err(ProfileError::Tag { input: i, reason: why })
                && i@ == input && why@ == reason,
            Err(SkillRefusal::Level { input }) => r matches Err(ProfileError::Level { input: i }) && i@ == input,
            Ok((tags, levels, ca)) => if tags.len() == 0 {
                r matches Err(ProfileError::Empty)
            } else if tags.len() > MAX_TAGS {
                r matches Err(ProfileError::TooMany(n)) && n == tags.len()
            } else {
                match first_long_tag(tags) {
                    Some(t) => r matches Err(ProfileError::Tag { input: i, reason: why }) && i@ == t && why@
                        == tag_too_long_msg(),
                    None => r matches Ok(p) && picks_view(p) == (tags, levels, ca),
                }
            },
        },
{
    let mut picks = SkillPicks { tags: Vec::new(), levels: Vec::new(), commit_analysis: Vec::new() };
    let mut i: usize = 0;
    assert(skills@.take(0).len() == 0);
    assert(picks_view(picks) =~= (Seq::<Seq<char>>::empty(), Seq::<(Seq<char>, Seq<char>)>::empty(), Seq::<Seq<char>>::empty()));
    while i < skills.len()
        invariant
            i <= skills@.len(),
            skills_fold(*m, skills@.take(i as int)) == Ok::<PicksText, SkillRefusal>(picks_view(picks)),
        decreases skills.len() - i,
    {
        proof {
            assert(skills@.take(i + 1).drop_last() =~= skills@.take(i as int));
            assert(skills@.take(i + 1).last() == skills@[i as int]);
        }
        let e = &skills[i];
        let t = trim(e.tag.as_str());
        if chars_of(t.as_str()).len() > 0 {
            let tag = match resolve(m, e.tag.as_str()) {
                Err(reason) => {
                    proof {
                        lemma_skills_fold_err_sticks(*m, skills@, i as int + 1);
                    }
                    return Err(ProfileError::Tag { input: e.tag.clone(), reason });
                },
                Ok(res) => string_from_str(res.tag()),
            };
            let ghost old_p = picks_view(picks);
            if !contains_str(&picks.tags, tag.as_str()) {
                picks.tags.push(tag.clone());
                assert(strs(picks.tags@) =~= old_p.0.push(tag@));
            }
            if is_commit_analysis(&e.source) && !contains_str(&picks.commit_analysis, tag.as_str()) {
                picks.commit_analysis.push(tag.clone());
                assert(strs(picks.commit_analysis@) =~= old_p.2.push(tag@));
            }
            match &e.level {
                Some(raw) => {
                    let lv = trim(raw.as_str());
                    if chars_of(lv.as_str()).len() > 0 {
                        match level_name(lv.as_str()) {
                            Some(name) => {
                                set_level(&mut picks.levels, tag, name);
                            },
                            None => {
                                proof {
                                    lemma_skills_fold_err_sticks(*m, skills@, i as int + 1);
                                }
                                return Err(ProfileError::Level { input: lv });
                            },
                        }
                    }
                },
                None => {},
            }
        }
        i = i + 1;
    }
    assert(skills@.take(skills@.len() as int) =~= skills@);
    let n = picks.tags.len();
    if n == 0 {
        return Err(ProfileError::Empty);
    }
    if n > MAX_TAGS {
        return Err(ProfileError::TooMany(n));
    }
    let mut k: usize = 0;
    assert(strs(picks.tags@).skip(0) =~= strs(picks.tags@));
    while k < n
        invariant
            k <= n,
            n == picks.tags@.len(),
            n <= MAX_TAGS,
            skills_fold(*m, skills@) == Ok::<PicksText, SkillRefusal>(picks_view(picks)),
            first_long_tag(strs(picks.tags@)) == first_long_tag(strs(picks.tags@).skip(k as int)),
        decreases n - k,
    {
        proof {
            assert(strs(picks.tags@).skip(k as int)[0] == picks.tags@[k as int]@);
            assert(strs(picks.tags@).skip(k as int).drop_first() =~= strs(picks.tags@).skip(k + 1));
        }
        if chars_of(picks.tags[k].as_str()).len() > MAX_TAG_LEN {
            let input = picks.tags[k].clone();
            assert(first_long_tag(strs(picks.tags@).skip(k as int)) == Some(picks.tags@[k as int]@));
            let head = cat("a skill tag is at most ", decimal(MAX_TAG_LEN).as_str());
            return Err(ProfileError::Tag { input, reason: cat(head.as_str(), " characters") });
        }
        k = k + 1;
    }
    assert(strs(picks.tags@).skip(n as int).len() == 0);
    Ok(picks)
}

/// Which profile event a held record is.
#[derive(Debug, Clone, Copy, PartialEq, Eq, Structural)]
pub enum ProfileKind {
    /// The replaceable profile event, carrying a revision.
    Replaceable,
    /// The older skill-tags event, without one.
    Legacy,
    /// Anything else.
    Other,
}

/// What choosing a current profile reads of a held event.
#[derive(Debug, Clone)]
pub struct ProfileRecord {
    pub kind: ProfileKind,
    pub author: String,
    pub revision: u64,
    pub created_at: u64,
    pub id: String,
}

/// `a` ranks below `b` by `(revision, created_at, id)`.
pub open spec fn ranks_below(a: ProfileRecord, b: ProfileRecord) -> bool {
    ||| a.revision < b.revision
    ||| a.revision == b.revision && a.created_at < b.created_at
    ||| a.revision == b.revision && a.created_at == b.created_at && str_lt(a.id@, b.id@)
}

/// `r` is a profile event of kind `k` by `who`.
pub open spec fn by_author(r: ProfileRecord, who: Seq<char>, k: ProfileKind) -> bool {
    r.kind == k && r.author@ == who
}

/// `i` is the greatest of `rs` among `who`'s events of kind `k` (by
/// `(revision, created_at, id)` for a replaceable event, by `created_at`
/// for a legacy one), the last such when several are greatest.
pub open spec fn greatest_at(rs: Seq<ProfileRecord>, who: Seq<char>, k: ProfileKind, i: int) -> bool {
    &&& 0 <= i < rs.len()
    &&& by_author(rs[i], who, k)
    &&& forall|j: int| 0 <= j < rs.len() && by_author(#[trigger] rs[j], who, k) ==> (if k == ProfileKind::Replaceable {
        (j > i ==> ranks_below(rs[j], rs[i])) && (j < i ==> !ranks_below(rs[i], rs[j]))
    } else {
        (j > i ==> rs[j].created_at < rs[i].created_at) && (j < i ==> rs[j].created_at <= rs[i].created_at)
    })
}

/// `who` has an event of kind `k` among `rs`.
pub open spec fn has_kind(rs: Seq<ProfileRecord>, who: Seq<char>, k: ProfileKind) -> bool {
    exists|j: int| 0 <= j < rs.len() && by_author(#[trigger] rs[j], who, k)
}

proof fn lemma_ranks_below(a: ProfileRecord, b: ProfileRecord, c: ProfileRecord)
    ensures
        !(ranks_below(a, b) && ranks_below(b, a)),
        !ranks_below(a, a),
        ranks_below(a, b) && ranks_below(b, c) ==> ranks_below(a, c),
        !ranks_below(a, b) && !ranks_below(b, a) ==> a.revision == b.revision && a.created_at == b.created_at
            && a.id@ == b.id@,
{
    lemma_str_lt_total(a.id@, b.id@);
    lemma_str_lt_total(a.id@, a.id@);
    if str_lt(a.id@, b.id@) && str_lt(b.id@, c.id@) {
        lemma_str_lt_trans(a.id@, b.id@, c.id@);
    }
}

fn greatest_of(rs: &[ProfileRecord], who: &str, k: ProfileKind) -> (r: Option<usize>)
    ensures
        match r {
            Some(i) => greatest_at(rs@, who@, k, i as int),
            None => !has_kind(rs@, who@, k),
        },
{
    let mut best: Option<usize> = None;
    let mut n: usize = 0;
    while n < rs.len()
        invariant
            n <= rs@.len(),
            match best {
                None => forall|j: int| 0 <= j < n ==> !by_author(#[trigger] rs@[j], who@, k),
                Some(i) => i < n && greatest_at(rs@.take(n as int), who@, k, i as int),
            },
        decreases rs.len() - n,
    {
        let ghost before = best;
        let e = &rs[n];
        if e.kind == k && str_eq(e.author.as_str(), who) {
            let take = match best {
                None => true,
                Some(i) => {
                    let b = &rs[i];
                    if k == ProfileKind::Replaceable {
                        !(e.revision < b.revision || (e.revision == b.revision && (e.created_at < b.created_at || (
                        e.created_at == b.created_at && str_less(e.id.as_str(), b.id.as_str())))))
                    } else {
                        e.created_at >= b.created_at
                    }
                },
            };
            if take {
                best = Some(n);
            }
        }
        proof {
            let t = rs@.take(n + 1);
            assert forall|j: int| 0 <= j < n implies #[trigger] t[j] == rs@.take(n as int)[j] by {}
            match best {
                None => {},
                Some(i) => {
                    assert forall|j: int| 0 <= j < t.len() && by_author(#[trigger] t[j], who@, k) implies (if k
                        == ProfileKind::Replaceable {
                        (j > i ==> ranks_below(t[j], t[i as int])) && (j < i ==> !ranks_below(t[i as int], t[j]))
                    } else {
                        (j > i ==> t[j].created_at < t[i as int].created_at) && (j < i ==> t[j].created_at
                            <= t[i as int].created_at)
                    }) by {
                        match before {
                            None => {
                                assert(j == i);
                            },
                            Some(b0) => {
                                let tp = rs@.take(n as int);
                                lemma_ranks_below(t[j], t[b0 as int], t[i as int]);
                                lemma_ranks_below(t[b0 as int], t[i as int], t[j]);
                                lemma_ranks_below(t[j], t[i as int], t[b0 as int]);
                                lemma_ranks_below(t[i as int], t[j], t[b0 as int]);
                                if j < n {
                                    assert(tp[j] == t[j]);
                                    assert(by_author(tp[j], who@, k));
                                }
                                if b0 < n {
                                    assert(tp[b0 as int] == t[b0 as int]);
                                }
                            },
                        }
                    }
                },
            }
        }
        n = n + 1;
    }
    assert(rs@.take(rs@.len() as int) =~= rs@);
    best
}

/// The profile record that stands for `who` among held records `rs`, as
/// an index: the greatest replaceable one by `(revision, created_at, id)`
/// when there is any, else the newest legacy one by `created_at`; the
/// last of equals in either case. `None` when `who` published neither.
pub fn current_record(rs: &[ProfileRecord], who: &str) -> (r: Option<usize>)
    ensures
        has_kind(rs@, who@, ProfileKind::Replaceable) ==> (r matches Some(i) && greatest_at(
            rs@,
            who@,
            ProfileKind::Replaceable,
            i as int,
        )),
        !has_kind(rs@, who@, ProfileKind::Replaceable) ==> match r {
            Some(i) => greatest_at(rs@, who@, ProfileKind::Legacy, i as int),
            None => !has_kind(rs@, who@, ProfileKind::Legacy),
        },
{
    match greatest_of(rs, who, ProfileKind::Replaceable) {
        Some(i) => Some(i),
        None => greatest_of(rs, who, ProfileKind::Legacy),
    }
}

/// The revision `who`'s next profile edit signs: one past the greatest
/// revision among its replaceable profile records, or one when there is
/// none (held at `u64::MAX`).
pub fn next_revision(rs: &[ProfileRecord], who: &str) -> (r: u64)
    ensures
        forall|j: int| 0 <= j < rs@.len() && by_author(#[trigger] rs@[j], who@, ProfileKind::Replaceable) ==> (
        rs@[j].revision < r || r == u64::MAX),
        r == 1 || r == u64::MAX || exists|j: int| 0 <= j < rs@.len() && by_author(#[trigger] rs@[j], who@, ProfileKind::Replaceable)
            && r == rs@[j].revision + 1,
        !has_kind(rs@, who@, ProfileKind::Replaceable) ==> r == 1,
{
    let mut top: u64 = 0;
    let mut i: usize = 0;
    while i < rs.len()
        invariant
            i <= rs@.len(),
            forall|j: int| 0 <= j < i && by_author(#[trigger] rs@[j], who@, ProfileKind::Replaceable) ==> rs@[j].revision
                <= top,
            top == 0 || exists|j: int| 0 <= j < i && by_author(#[trigger] rs@[j], who@, ProfileKind::Replaceable)
                && top == rs@[j].revision,
            top > 0 ==> has_kind(rs@, who@, ProfileKind::Replaceable),
        decreases rs.len() - i,
    {
        if rs[i].kind == ProfileKind::Replaceable && str_eq(rs[i].author.as_str(), who) && rs[i].revision > top {
            top = rs[i].revision;
        }
        i = i + 1;
    }
    if top < u64::MAX {
        top + 1
    } else {
        top
    }
}

} // verus!
