use qw_core::envelope::{KekKind, MasterKey, Wrapping};
use qw_core::unlock::{
    add_secret, drop_tag, enumerate, flag_for_rotation, present_secret, rotate_secret,
    sweep_stale, sweep_stale_at, wrappings_in_range, UnlockError,
};

fn wrap(master: &MasterKey, tag: &str, secret: &[u8]) -> Wrapping {
    Wrapping::seal_secret(tag, secret, master).unwrap()
}

#[test]
fn present_finds_the_wrapping_that_holds_the_secret() {
    let m = MasterKey::random();
    let set = vec![
        wrap(&m, "passphrase", b"first-secret-xx"),
        wrap(&m, "recovery", b"second-secret-yy"),
    ];

    let a = present_secret(&set, b"first-secret-xx").unwrap();
    assert_eq!(a.via, "passphrase");
    assert!(!a.stale);

    let b = present_secret(&set, b"second-secret-yy").unwrap();
    assert_eq!(b.via, "recovery");
}

#[test]
fn the_same_master_comes_back_through_any_wrapping() {
    let m = MasterKey::random();
    let set = vec![
        wrap(&m, "passphrase", b"first-secret-xx"),
        wrap(&m, "recovery", b"second-secret-yy"),
    ];
    let a = present_secret(&set, b"first-secret-xx").unwrap();
    let b = present_secret(&set, b"second-secret-yy").unwrap();
    let blob = a.master.seal(b"ledger", b"acct");
    assert_eq!(b.master.open(&blob, b"acct").unwrap(), b"ledger");
}

#[test]
fn present_wrong_secret_is_no_match() {
    let m = MasterKey::random();
    let set = vec![wrap(&m, "passphrase", b"the-real-secret")];
    assert!(matches!(present_secret(&set, b"not-it"), Err(UnlockError::NoMatch)));
}

#[test]
fn present_prefers_a_fresh_wrapping_over_a_stale_one() {
    let m = MasterKey::random();
    let mut old = wrap(&m, "old-passphrase", b"shared-secret-x");
    old.rotate = true;
    let fresh = wrap(&m, "new-passphrase", b"shared-secret-x");
    let set = vec![old, fresh];

    let u = present_secret(&set, b"shared-secret-x").unwrap();
    assert_eq!(u.via, "new-passphrase");
    assert!(!u.stale);
}

#[test]
fn present_reports_stale_when_only_a_stale_wrapping_matches() {
    let m = MasterKey::random();
    let mut w = wrap(&m, "passphrase", b"the-secret-value");
    w.rotate = true;
    let set = vec![w];

    let u = present_secret(&set, b"the-secret-value").unwrap();
    assert!(u.stale);
    assert_eq!(u.via, "passphrase");
}

#[test]
fn add_secret_appends_and_rejects_a_duplicate_tag() {
    let m = MasterKey::random();
    let mut set = vec![wrap(&m, "passphrase", b"secret-number-one")];

    add_secret(&mut set, &m, "seed", b"twelve words here").unwrap();
    assert_eq!(set.len(), 2);
    assert_eq!(present_secret(&set, b"twelve words here").unwrap().via, "seed");

    assert!(matches!(
        add_secret(&mut set, &m, "seed", b"another"),
        Err(UnlockError::DuplicateTag(t)) if t == "seed"
    ));
}

#[test]
fn drop_tag_removes_but_never_the_last() {
    let m = MasterKey::random();
    let mut set = vec![
        wrap(&m, "passphrase", b"secret-a-aaaaaa"),
        wrap(&m, "seed", b"secret-b-bbbbbb"),
    ];

    drop_tag(&mut set, "seed").unwrap();
    assert_eq!(set.len(), 1);
    assert!(present_secret(&set, b"secret-a-aaaaaa").is_ok());

    assert!(matches!(drop_tag(&mut set, "passphrase"), Err(UnlockError::WouldOrphan)));
    assert!(matches!(
        drop_tag(&mut set, "nope"),
        Err(UnlockError::UnknownTag(t)) if t == "nope"
    ));
}

#[test]
fn rotate_secret_swaps_the_accepted_secret() {
    let m = MasterKey::random();
    let mut set = vec![wrap(&m, "passphrase", b"old-passphrase-v")];

    rotate_secret(&mut set, &m, "passphrase", b"new-passphrase-v").unwrap();
    assert!(matches!(present_secret(&set, b"old-passphrase-v"), Err(UnlockError::NoMatch)));
    assert_eq!(present_secret(&set, b"new-passphrase-v").unwrap().via, "passphrase");

    assert!(matches!(
        rotate_secret(&mut set, &m, "ghost", b"x"),
        Err(UnlockError::UnknownTag(_))
    ));
}

#[test]
fn flag_for_rotation_marks_a_row_and_makes_present_report_it_stale() {
    let m = MasterKey::random();
    let mut set = vec![wrap(&m, "passphrase", b"a-secret-value-x")];
    assert!(!present_secret(&set, b"a-secret-value-x").unwrap().stale);

    flag_for_rotation(&mut set, "passphrase").unwrap();
    assert!(present_secret(&set, b"a-secret-value-x").unwrap().stale);

    assert!(matches!(flag_for_rotation(&mut set, "ghost"), Err(UnlockError::UnknownTag(_))));
}

#[test]
fn sweep_stale_drops_stale_only_when_a_fresh_one_survives() {
    let m = MasterKey::random();
    let mut s1 = wrap(&m, "old-1", b"secret-1-xxxxxx");
    s1.rotate = true;
    let mut s2 = wrap(&m, "old-2", b"secret-2-xxxxxx");
    s2.not_after = Some(0);
    let fresh = wrap(&m, "current", b"secret-3-xxxxxx");
    let mut set = vec![s1, s2, fresh];

    let dropped = sweep_stale(&mut set);
    assert_eq!(dropped.len(), 2);
    assert!(dropped.contains(&"old-1".to_string()));
    assert_eq!(set.len(), 1);
    assert_eq!(set[0].tag, "current");

    let mut only = wrap(&m, "only", b"secret-only-xxx");
    only.rotate = true;
    let mut set2 = vec![only];
    assert!(sweep_stale(&mut set2).is_empty());
    assert_eq!(set2.len(), 1);
}

#[test]
fn enumerate_exposes_metadata_not_key_material() {
    let m = MasterKey::random();
    let mut w = wrap(&m, "passphrase", b"a-secret-string");
    w.rotate = true;
    let info = enumerate(&[w]);

    assert_eq!(info[0].tag, "passphrase");
    assert_eq!(info[0].kind, KekKind::Secret);
    assert!(info[0].rotate && info[0].stale);

    let shown = format!("{:?}", info);
    for leak in ["wrapped", "nonce", "salt", "kdf"] {
        assert!(!shown.contains(leak), "WrappingInfo leaked {leak}");
    }
}

#[test]
fn sweep_at_a_fixed_time_reports_dropped_tags_in_set_order() {
    let m = MasterKey::random();
    let mut a = wrap(&m, "a", b"secret-a-xxxxxx");
    a.not_after = Some(100);
    let b = wrap(&m, "b", b"secret-b-xxxxxx");
    let mut c = wrap(&m, "c", b"secret-c-xxxxxx");
    c.rotate = true;
    let mut set = vec![a, b, c];
    let dropped = sweep_stale_at(&mut set, 100);
    assert_eq!(dropped, vec!["a".to_string(), "c".to_string()]);
    assert_eq!(set.len(), 1);
    assert_eq!(set[0].tag, "b");
}

#[test]
fn a_wrapping_expires_at_not_after_not_before() {
    let m = MasterKey::random();
    let mut a = wrap(&m, "a", b"secret-a-xxxxxx");
    a.not_after = Some(100);
    let keep = wrap(&m, "b", b"secret-b-xxxxxx");
    let mut set = vec![a, keep];
    assert!(sweep_stale_at(&mut set, 99).is_empty());
    assert_eq!(set.len(), 2);
}

#[test]
fn rows_with_parallelism_past_the_kdf_range_are_caught_before_use() {
    let m = MasterKey::random();
    let mut set = vec![wrap(&m, "passphrase", b"first-secret-xx"), wrap(&m, "recovery", b"second-secret-yy")];
    assert!(wrappings_in_range(&set));
    set[1].kdf.p_cost = u32::MAX;
    assert!(!wrappings_in_range(&set));
    assert!(wrappings_in_range(&[]));
}

#[test]
fn enumerate_judges_every_row_at_one_reading() {
    let m = MasterKey::random();
    let mut set = vec![wrap(&m, "passphrase", b"first-secret-xx"), wrap(&m, "recovery", b"second-secret-yy")];
    set[1].not_after = Some(0);
    let rows = enumerate(&set);
    assert!(!rows[0].stale);
    assert!(rows[1].stale);
}
