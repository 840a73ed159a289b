use qw_core::taxonomy::{
    leaves, normalize_free_text, resolve, Resolved, SynonymEntry, Taxonomy, TaxonomyArea,
    TaxonomyDomain, TaxonomySector,
};

fn strings(v: &[&str]) -> Vec<String> {
    v.iter().map(|s| s.to_string()).collect()
}

fn area(name: &str, skills: &[&str]) -> TaxonomyArea {
    TaxonomyArea { name: name.to_string(), skills: strings(skills) }
}

fn domain(name: &str, skills: &[&str], areas: Vec<TaxonomyArea>) -> TaxonomyDomain {
    TaxonomyDomain { name: name.to_string(), skills: strings(skills), areas }
}

/// The part of the bundled taxonomy that these cases rely on.
fn model() -> Taxonomy {
    let it = TaxonomySector {
        name: "it".to_string(),
        domains: vec![
            domain(
                "backend",
                &[],
                vec![
                    area("frameworks", &["axum"]),
                    area(
                        "languages",
                        &["rust", "go", "python", "java", "kotlin", "csharp", "ruby", "php", "elixir", "scala", "cpp"],
                    ),
                ],
            ),
            domain("docs", &["technical-writing"], vec![]),
            domain(
                "frontend",
                &[],
                vec![area("frameworks", &["react"]), area("fundamentals", &["javascript", "typescript"])],
            ),
            domain("mobile", &[], vec![area("native", &["swift"])]),
        ],
    };
    let synonyms = vec![
        SynonymEntry { canonical: "go".to_string(), aliases: strings(&["golang"]) },
        SynonymEntry { canonical: "rust".to_string(), aliases: strings(&["Rust-Lang", "rustlang"]) },
    ];
    Taxonomy::build(&[it], &synonyms)
}

#[test]
fn a_picker_tag_resolves_to_itself() {
    let m = model();
    assert_eq!(
        resolve(&m, "it/backend/languages#rust"),
        Ok(Resolved::Canonical("it/backend/languages#rust".into()))
    );
}

#[test]
fn free_text_resolves_through_synonyms() {
    let m = model();
    assert_eq!(resolve(&m, "Rust Lang"), Ok(Resolved::Canonical("it/backend/languages#rust".into())));
    assert_eq!(resolve(&m, "golang"), Ok(Resolved::Canonical("it/backend/languages#go".into())));
    assert_eq!(resolve(&m, "rust@1.80"), Ok(Resolved::Canonical("it/backend/languages#rust".into())));
}

#[test]
fn an_unknown_full_tag_is_unrouted_not_rejected() {
    let m = model();
    match resolve(&m, "it/backend/languages#zig") {
        Ok(Resolved::Unrouted(t)) => assert_eq!(t, "it/backend/languages#zig"),
        other => panic!("{other:?}"),
    }
}

#[test]
fn unknown_free_text_is_rejected() {
    let m = model();
    assert!(resolve(&m, "underwater basket weaving").is_err());
}

#[test]
fn leaves_are_sorted_unique_and_complete() {
    let m = model();
    let l = leaves(&m);
    assert_eq!(l.len(), 17);
    assert!(l.contains(&"it/backend/languages#rust".to_string()));
    assert!(l.contains(&"it/docs#technical-writing".to_string()));
    assert!(l.windows(2).all(|w| w[0] < w[1]));
}

#[test]
fn a_repeated_leaf_is_listed_once() {
    let s = TaxonomySector {
        name: "it".to_string(),
        domains: vec![domain("docs", &["writing", "writing", "editing"], vec![])],
    };
    let m = Taxonomy::build(&[s], &[]);
    assert_eq!(leaves(&m), &["it/docs#editing".to_string(), "it/docs#writing".to_string()][..]);
}

#[test]
fn a_skill_under_two_areas_must_be_picked() {
    let s = TaxonomySector {
        name: "it".to_string(),
        domains: vec![domain("frontend", &[], vec![area("a", &["react"]), area("b", &["react"])])],
    };
    let m = Taxonomy::build(&[s], &[]);
    assert_eq!(
        resolve(&m, "React"),
        Err("`react` is under more than one area \u{2014} pick one: it/frontend/a#react, it/frontend/b#react".to_string())
    );
}

#[test]
fn the_refusal_names_the_raw_input() {
    let m = model();
    assert_eq!(
        resolve(&m, " Basket Weaving "),
        Err("` Basket Weaving ` is not a known skill \u{2014} pick from the list, or type the full sector/domain#skill form to publish it as an unrouted tag".to_string())
    );
    assert_eq!(resolve(&m, "  \t "), Err("empty".to_string()));
}

#[test]
fn a_full_tag_is_normalised_before_lookup() {
    let m = model();
    assert_eq!(
        resolve(&m, "  IT/Backend/Languages#Rust  "),
        Ok(Resolved::Canonical("it/backend/languages#rust".into()))
    );
}

#[test]
fn free_text_normal_form() {
    assert_eq!(normalize_free_text("  Node JS  @ 18 "), "node-js");
    assert_eq!(normalize_free_text("Rust   Lang"), "rust-lang");
    assert_eq!(normalize_free_text("@x"), "");
}

#[test]
fn the_tag_of_either_resolution() {
    assert_eq!(Resolved::Canonical("a/b#c".into()).tag(), "a/b#c");
    assert_eq!(Resolved::Unrouted("a/b#d".into()).tag(), "a/b#d");
}

#[test]
fn a_later_synonym_row_overrides_an_earlier_alias() {
    let s = TaxonomySector {
        name: "it".to_string(),
        domains: vec![domain("x", &["one", "two"], vec![])],
    };
    let syn = vec![
        SynonymEntry { canonical: "one".to_string(), aliases: strings(&["n"]) },
        SynonymEntry { canonical: "two".to_string(), aliases: strings(&["N"]) },
    ];
    let m = Taxonomy::build(&[s], &syn);
    assert_eq!(resolve(&m, "n"), Ok(Resolved::Canonical("it/x#two".into())));
}
