use qw_core::bootstrap::{
    analyze_log, extension_to_skill_tag, parse_log, parse_name_email, same_email, BootstrapError, Contributor,
};

/// One record as `git log --name-only` prints it in the module's format.
fn record(hash: &str, name: &str, email: &str, body: &str, files: &[&str]) -> String {
    let mut s = format!("\u{2}{hash}\u{1f}{name}\u{1f}{email}\u{1f}{body}\u{3}\n");
    for f in files {
        s.push_str(f);
        s.push('\n');
    }
    s.push('\n');
    s
}

#[test]
fn analyzes_commit_count_and_file_extensions() {
    let log = record("b2", "Alice", "alice@example.com", "add lib\n", &["lib.py"])
        + &record("a1", "Alice", "alice@example.com", "add main\n", &["main.rs"]);
    let suggestions = analyze_log(&log);
    assert_eq!(suggestions.len(), 1);
    let alice = &suggestions[0];
    assert_eq!(alice.contributor.email, "alice@example.com");
    assert_eq!(alice.commit_count, 2);
    assert!(alice.candidate_skill_tags.contains(&"it/backend/languages#rust".to_string()));
    assert!(alice.candidate_skill_tags.contains(&"it/backend/languages#python".to_string()));
}

#[test]
fn co_authored_by_trailer_becomes_a_symmetric_introduction_candidate() {
    let log = record(
        "c3",
        "Alice",
        "alice@example.com",
        "docs\n\nCo-authored-by: Bob <bob@example.com>\n",
        &["readme.md"],
    );
    let suggestions = analyze_log(&log);
    let alice = suggestions.iter().find(|s| s.contributor.name == "Alice").unwrap();
    let bob = suggestions.iter().find(|s| s.contributor.email == "bob@example.com").unwrap();
    assert!(alice.candidate_introductions.iter().any(|c| c.email == "bob@example.com"));
    assert!(bob.candidate_introductions.iter().any(|c| c.email == "alice@example.com"));
    assert_eq!(bob.commit_count, 0);
    assert_eq!(alice.candidate_skill_tags, vec!["it/docs#technical-writing".to_string()]);
}

#[test]
fn same_email_different_name_spelling_merges_into_one_contributor() {
    let log = record("b2", "alice", "Alice@Example.com", "second\n", &["b.rs"])
        + &record("a1", "Alice", "alice@example.com", "first\n", &["a.rs"]);
    let suggestions = analyze_log(&log);
    assert_eq!(suggestions.len(), 1);
    assert_eq!(suggestions[0].commit_count, 2);
    assert_eq!(suggestions[0].contributor.name, "alice", "the name of the first commit in log order");
    assert_eq!(suggestions[0].candidate_skill_tags, vec!["it/backend/languages#rust".to_string()]);
}

#[test]
fn suggestions_rank_by_commits_then_name() {
    let log = record("1", "Zed", "z@x.org", "m\n", &["a.go"])
        + &record("2", "Bea", "b@x.org", "m\n", &[])
        + &record("3", "Zed", "z@x.org", "m\n", &[])
        + &record("4", "Amy", "a@x.org", "m\n", &["x.unknown", "Makefile", ".hidden"]);
    let s = analyze_log(&log);
    let names: Vec<&str> = s.iter().map(|x| x.contributor.name.as_str()).collect();
    assert_eq!(names, vec!["Zed", "Amy", "Bea"]);
    assert!(s[1].candidate_skill_tags.is_empty());
}

#[test]
fn blank_and_malformed_records_are_skipped() {
    let log = format!(
        "\u{2}  \n\u{2}no end mark\u{1f}a\u{1f}b\u{1f}c\u{2}h\u{1f}only two\u{3}\n{}",
        record("h", "Ann", "ann@x.org", "m\n", &["A.RS"])
    );
    let commits = parse_log(&log);
    assert_eq!(commits.len(), 1);
    assert_eq!(commits[0].extensions, vec!["rs".to_string()]);
    let s = analyze_log(&log);
    assert_eq!(s.len(), 1);
    assert_eq!(s[0].candidate_skill_tags, vec!["it/backend/languages#rust".to_string()]);
}

#[test]
fn a_trailer_needs_a_name_and_an_email() {
    let c = parse_name_email("  Bob Smith <bob@example.com> ").unwrap();
    assert_eq!((c.name.as_str(), c.email.as_str()), ("Bob Smith", "bob@example.com"));
    assert!(parse_name_email("<bob@example.com>").is_none());
    assert!(parse_name_email("Bob <>").is_none());
    assert!(parse_name_email("Bob bob@example.com").is_none());
    assert!(parse_name_email("Bob <bob@example.com").is_none());
    let c = parse_name_email("A <b> <c@d>").unwrap();
    assert_eq!((c.name.as_str(), c.email.as_str()), ("A <b>", "c@d"));
}

#[test]
fn extensions_map_to_taxonomy_leaves() {
    assert_eq!(extension_to_skill_tag("rs"), Some("it/backend/languages#rust"));
    assert_eq!(extension_to_skill_tag("kts"), Some("it/backend/languages#kotlin"));
    assert_eq!(extension_to_skill_tag("h"), Some("it/embedded/firmware#c-embedded"));
    assert_eq!(extension_to_skill_tag("tsx"), Some("it/frontend/fundamentals#typescript"));
    assert_eq!(extension_to_skill_tag("md"), Some("it/docs#technical-writing"));
    assert_eq!(extension_to_skill_tag("RS"), None);
    assert_eq!(extension_to_skill_tag("txt"), None);
}

#[test]
fn identity_is_the_email_without_ascii_case() {
    assert!(same_email("Alice@Example.COM", "alice@example.com"));
    assert!(!same_email("alice@example.com", "alice@example.org"));
    assert!(!same_email("\u{c9}@x", "\u{e9}@x"));
    let a = Contributor { name: "A".into(), email: "a@x".into() };
    let b = Contributor { name: "B".into(), email: "A@X".into() };
    assert!(a.same_person(&b));
}

#[test]
fn a_self_credit_lists_oneself() {
    let log = record("1", "Ann", "ann@x.org", "m\nCo-authored-by: Ann <ANN@x.org>\n", &[]);
    let s = analyze_log(&log);
    assert_eq!(s.len(), 1);
    assert_eq!(s[0].candidate_introductions.len(), 1);
}

#[test]
fn bootstrap_errors_say_what_failed() {
    assert_eq!(BootstrapError::NotAGitRepository.message(), "not a git repository (or git log failed)");
    let e = BootstrapError::GitCommandFailed(std::io::Error::new(std::io::ErrorKind::NotFound, "no git here"));
    assert_eq!(e.message(), "could not run git: no git here");
}

#[test]
fn candidate_tags_are_ranked_by_how_many_touched_files_suggest_them() {
    let log = record("c3", "Alice", "alice@example.com", "more python\n", &["a.py", "b.py"])
        + &record("b2", "Alice", "alice@example.com", "one go file\n", &["main.go", "c.py"])
        + &record("a1", "Alice", "alice@example.com", "rust\n", &["x.rs", "y.rs"]);
    let suggestions = analyze_log(&log);
    assert_eq!(
        suggestions[0].candidate_skill_tags,
        vec![
            "it/backend/languages#python".to_string(),
            "it/backend/languages#rust".to_string(),
            "it/backend/languages#go".to_string(),
        ]
    );
}
