use qw_core::profile::{
    collect_links, collect_skill_tags, field_published, name_published, trimmed, Certification,
    Employment, ExternalLink, FieldView, FieldVisibility, LinkEdit, LocalCertification,
    LocalEmployment, NameEdit, ProfileEdit, ProfileError, ProfileField, ProfileFieldEdit, SkillEdit,
    MAX_LINKS, MAX_TAGS, current_record, next_revision, ProfileKind, ProfileRecord,
};
use qw_core::taxonomy::{SynonymEntry, Taxonomy, TaxonomyArea, TaxonomyDomain, TaxonomySector};

fn taxonomy() -> Taxonomy {
    let it = TaxonomySector {
        name: "it".into(),
        domains: vec![TaxonomyDomain {
            name: "backend".into(),
            skills: vec![],
            areas: vec![TaxonomyArea {
                name: "languages".into(),
                skills: vec!["rust".into(), "go".into(), "python".into()],
            }],
        }],
    };
    let syn = vec![
        SynonymEntry { canonical: "go".into(), aliases: vec!["golang".into(), "go-lang".into()] },
        SynonymEntry { canonical: "rust".into(), aliases: vec!["rust-lang".into()] },
    ];
    Taxonomy::build(&[it], &syn)
}

fn skill(tag: &str) -> SkillEdit {
    SkillEdit { tag: tag.into(), level: None, source: None }
}

fn edit(value: &str, visibility: &str) -> ProfileFieldEdit {
    ProfileFieldEdit { value: value.into(), visibility: visibility.into() }
}

#[test]
fn resolves_and_deduplicates_mixed_input() {
    let p = collect_skill_tags(
        &taxonomy(),
        &[skill("it/backend/languages#rust"), skill("Go Lang"), skill("rust")],
    )
    .unwrap();
    assert_eq!(p.tags, vec!["it/backend/languages#rust", "it/backend/languages#go"]);
}

#[test]
fn levels_and_provenance_are_noted_per_tag() {
    let p = collect_skill_tags(
        &taxonomy(),
        &[
            SkillEdit { tag: "Rust Lang".into(), level: Some(" Expert ".into()), source: Some("commit-analysis".into()) },
            SkillEdit { tag: "it/backend/languages#go".into(), level: Some("  ".into()), source: Some("self".into()) },
        ],
    )
    .unwrap();
    assert_eq!(p.levels, vec![("it/backend/languages#rust".to_string(), "expert".to_string())]);
    assert_eq!(p.commit_analysis, vec!["it/backend/languages#rust".to_string()]);
}

#[test]
fn mid_is_read_as_intermediate() {
    let p = collect_skill_tags(
        &taxonomy(),
        &[
            SkillEdit { tag: "Rust Lang".into(), level: Some("Expert".into()), source: None },
            SkillEdit { tag: "it/backend/languages#go".into(), level: Some("mid".into()), source: None },
            SkillEdit { tag: "python".into(), level: Some("SENIOR".into()), source: None },
        ],
    )
    .unwrap();
    assert_eq!(
        p.levels,
        vec![
            ("it/backend/languages#rust".to_string(), "expert".to_string()),
            ("it/backend/languages#go".to_string(), "intermediate".to_string()),
            ("it/backend/languages#python".to_string(), "senior".to_string()),
        ]
    );
}

#[test]
fn rejects_a_bad_level_and_a_bad_link() {
    let mut skills = vec![skill("rust")];
    skills[0].level = Some("wizard".into());
    assert!(matches!(collect_skill_tags(&taxonomy(), &skills), Err(ProfileError::Level { .. })));

    let links = vec![LinkEdit { network: "ftp".into(), url: "ftp://nope".into() }];
    assert!(matches!(collect_links(&links), Err(ProfileError::Link { .. })));
}

#[test]
fn a_level_off_the_scale_is_named_trimmed_and_stops_the_read() {
    let skills = vec![
        SkillEdit { tag: "rust".into(), level: Some("  Guru ".into()), source: None },
        skill("definitely not a skill"),
    ];
    assert_eq!(
        collect_skill_tags(&taxonomy(), &skills).unwrap_err(),
        ProfileError::Level { input: "Guru".into() }
    );
}

#[test]
fn rejects_an_unresolvable_tag_naming_it() {
    match collect_skill_tags(&taxonomy(), &[skill("definitely not a skill")]) {
        Err(ProfileError::Tag { input, .. }) => assert_eq!(input, "definitely not a skill"),
        other => panic!("{other:?}"),
    }
}

#[test]
fn an_all_empty_list_is_empty_not_ok() {
    assert_eq!(collect_skill_tags(&taxonomy(), &[skill(""), skill("   ")]).unwrap_err(), ProfileError::Empty);
}

#[test]
fn tag_count_cap_is_the_nip_qw03_limit_not_five() {
    assert_eq!(MAX_TAGS, 79);
    let names: Vec<String> = (0..90).map(|i| format!("s{i:02}")).collect();
    let t = Taxonomy::build(
        &[TaxonomySector {
            name: "it".into(),
            domains: vec![TaxonomyDomain { name: "x".into(), skills: names.clone(), areas: vec![] }],
        }],
        &[],
    );
    let all: Vec<SkillEdit> = names.iter().map(|n| skill(&format!("it/x#{n}"))).collect();
    assert!(collect_skill_tags(&t, &all[..6]).is_ok());
    assert_eq!(collect_skill_tags(&t, &all[..MAX_TAGS + 1]).unwrap_err(), ProfileError::TooMany(MAX_TAGS + 1));
    assert!(collect_skill_tags(&t, &all[..MAX_TAGS]).is_ok());
}

#[test]
fn a_tag_of_eighty_characters_is_refused() {
    let long = format!("it/backend/languages#{}", "z".repeat(59));
    assert_eq!(long.chars().count(), 80);
    assert_eq!(
        collect_skill_tags(&taxonomy(), &[skill(&long)]).unwrap_err(),
        ProfileError::Tag { input: long.clone(), reason: "a skill tag is at most 79 characters".into() }
    );
}

#[test]
fn links_are_checked_normalised_and_deduplicated() {
    let links = collect_links(&[
        LinkEdit { network: "GitHub".into(), url: "  https://github.com/vk  ".into() },
        LinkEdit { network: "".into(), url: "https://vk.dev".into() },
        LinkEdit { network: "x".into(), url: "https://github.com/vk".into() },
        LinkEdit { network: "x".into(), url: "   ".into() },
    ])
    .unwrap();
    assert_eq!(links.len(), 2);
    assert_eq!(links[0], ExternalLink { network: "github".into(), url: "https://github.com/vk".into() });
    assert_eq!(links[1].network, "website");
}

#[test]
fn a_bad_link_is_refused() {
    assert_eq!(
        collect_links(&[LinkEdit { network: "ftp".into(), url: "ftp://nope".into() }]).unwrap_err(),
        ProfileError::Link { input: "ftp://nope".into(), reason: "must be an http(s) URL".into() }
    );
    let many: Vec<LinkEdit> =
        (0..MAX_LINKS + 1).map(|i| LinkEdit { network: "w".into(), url: format!("http://e{i}.org") }).collect();
    assert_eq!(
        collect_links(&many).unwrap_err(),
        ProfileError::Link { input: "9 links".into(), reason: "at most 8".into() }
    );
}

#[test]
fn headline_public_is_published_trimmed_private_bio_is_not() {
    assert_eq!(
        field_published(Some(&edit("  Backend engineer  ", "public")), "headline", 100).unwrap(),
        Some("Backend engineer".into())
    );
    assert_eq!(field_published(Some(&edit("a note to self", "private")), "bio", 100).unwrap(), None);
    assert_eq!(field_published(Some(&edit("hidden", "contacts")), "headline", 100).unwrap(), None);
    assert_eq!(field_published(None, "headline", 100).unwrap(), None);
}

#[test]
fn a_public_field_at_the_bound_is_rejected() {
    let at = "x".repeat(10);
    assert_eq!(
        field_published(Some(&edit(&at, "public")), "headline", 10).unwrap_err(),
        ProfileError::Field { field: "headline", reason: "must be shorter than 10 characters".into() }
    );
    assert!(field_published(Some(&edit(&"x".repeat(9), "public")), "headline", 10).is_ok());
}

#[test]
fn a_bare_name_is_public_and_trimmed() {
    let f = NameEdit::Plain("  vk  ".into()).to_field();
    assert_eq!(f, ProfileField { value: "vk".into(), visibility: FieldVisibility::Public });
    assert_eq!(name_published(Some(f), "display_name", 64).unwrap(), Some("vk".into()));
    let g = NameEdit::Field(edit(" Vlad ", "private")).to_field();
    assert_eq!(g.visibility, FieldVisibility::Private);
    assert_eq!(name_published(Some(g), "display_name", 64).unwrap(), None);
}

#[test]
fn visibility_names_round_trip_and_default_to_public() {
    for v in [FieldVisibility::Public, FieldVisibility::Contacts, FieldVisibility::Private] {
        assert_eq!(FieldVisibility::parse(v.as_str()), v);
    }
    assert_eq!(FieldVisibility::parse("PRIVATE"), FieldVisibility::Public);
    assert_eq!(FieldVisibility::default(), FieldVisibility::Public);
    let f = ProfileField { value: "x".into(), visibility: FieldVisibility::Contacts };
    let shown = FieldView::of(&f);
    assert_eq!((shown.value.as_str(), shown.visibility.as_str()), ("x", "contacts"));
    let back = ProfileFieldEdit::from_field(&f).to_field();
    assert_eq!(back, f);
}

#[test]
fn only_public_non_blank_entries_are_published() {
    let e = LocalEmployment {
        entry: Employment {
            title: " Dev ".into(),
            org: "".into(),
            start: " 2020 ".into(),
            end: "".into(),
            summary: " s ".into(),
        },
        visibility: FieldVisibility::Public,
    };
    let p = e.published().unwrap();
    assert_eq!((p.title.as_str(), p.start.as_str(), p.summary.as_str()), ("Dev", "2020", "s"));
    let blank = LocalCertification {
        entry: Certification { name: "  ".into(), issuer: "x".into(), year: "".into(), url: "".into() },
        visibility: FieldVisibility::Public,
    };
    assert!(blank.published().is_none());
    let private = LocalEmployment { visibility: FieldVisibility::Private, ..e };
    assert!(private.published().is_none());
    assert_eq!(trimmed("  a b  "), "a b");
    assert!(ProfileEdit::default().skills.is_empty());
}

#[test]
fn profile_refusals_read_as_the_editor_shows_them() {
    assert_eq!(
        ProfileError::TooMany(81).message(),
        "81 tags \u{2014} a profile carries fewer than 80 (NIP-QW03)"
    );
    assert_eq!(ProfileError::Empty.message(), "a profile needs at least one skill tag");
    assert_eq!(
        ProfileError::Tag { input: "cobol".into(), reason: "unknown".into() }.message(),
        "`cobol`: unknown"
    );
    assert_eq!(
        ProfileError::Level { input: "guru".into() }.message(),
        "`guru` is not a level (beginner, intermediate, senior, expert)"
    );
    assert_eq!(
        ProfileError::Link { input: "x".into(), reason: "no scheme".into() }.message(),
        "link `x`: no scheme"
    );
    assert_eq!(
        ProfileError::Field { field: "headline", reason: "too long".into() }.message(),
        "headline: too long"
    );
}

#[test]
fn one_level_per_tag_the_last_stated_winning() {
    let p = collect_skill_tags(
        &taxonomy(),
        &[
            SkillEdit { tag: "rust".into(), level: Some("beginner".into()), source: Some("commit-analysis".into()) },
            SkillEdit { tag: "go".into(), level: Some("senior".into()), source: None },
            SkillEdit { tag: "Rust Lang".into(), level: Some("expert".into()), source: Some("commit-analysis".into()) },
        ],
    )
    .unwrap();
    assert_eq!(
        p.levels,
        vec![
            ("it/backend/languages#rust".to_string(), "expert".to_string()),
            ("it/backend/languages#go".to_string(), "senior".to_string()),
        ]
    );
    assert_eq!(p.commit_analysis, vec!["it/backend/languages#rust".to_string()]);
}

fn record(kind: ProfileKind, author: &str, revision: u64, created_at: u64, id: &str) -> ProfileRecord {
    ProfileRecord { kind, author: author.into(), revision, created_at, id: id.into() }
}

#[test]
fn each_edit_bumps_the_revision() {
    let mut held: Vec<ProfileRecord> = Vec::new();
    assert_eq!(next_revision(&held, "me"), 1);
    held.push(record(ProfileKind::Replaceable, "me", 1, 10, "a"));
    assert_eq!(next_revision(&held, "me"), 2);
    held.push(record(ProfileKind::Replaceable, "me", 2, 20, "b"));
    assert_eq!(next_revision(&held, "me"), 3);
}

#[test]
fn current_takes_the_highest_revision_even_past_a_later_clock() {
    let store = vec![
        record(ProfileKind::Replaceable, "me", 1, 9_999, "rust-profile"),
        record(ProfileKind::Replaceable, "me", 2, 100, "go-profile"),
    ];
    assert_eq!(current_record(&store, "me"), Some(1), "(revision, created_at, id) order — rev 2 wins the later clock");
    assert!(current_record(&store, "someone-else").is_none());
}

#[test]
fn a_replaceable_profile_always_beats_a_legacy_9020() {
    let store = vec![
        record(ProfileKind::Legacy, "me", 0, 5_000, "legacy"),
        record(ProfileKind::Replaceable, "me", 1, 100, "replaceable"),
        record(ProfileKind::Legacy, "me", 0, 6_000, "newer-legacy"),
    ];
    assert_eq!(current_record(&store, "me"), Some(1));
    let legacy_only = vec![store[0].clone(), store[2].clone(), record(ProfileKind::Other, "me", 9, 9_999, "x")];
    assert_eq!(current_record(&legacy_only, "me"), Some(1));
}

#[test]
fn equal_revision_and_time_fall_to_the_greater_id() {
    let store = vec![
        record(ProfileKind::Replaceable, "me", 3, 50, "b"),
        record(ProfileKind::Replaceable, "me", 3, 50, "a"),
        record(ProfileKind::Replaceable, "you", 9, 50, "z"),
    ];
    assert_eq!(current_record(&store, "me"), Some(0));
}
