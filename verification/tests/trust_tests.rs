use declconf::config::Config;
use declconf::engine::approve;
use declconf::hashes::Hashes;

fn s(x: &str) -> String {
    x.to_string()
}

#[test]
fn unknown_source_is_not_trusted() {
    let h = Hashes::new();
    assert!(!h.is_hashed("/a/b.toml", "wrap = true"));
}

#[test]
fn approved_source_is_trusted_until_it_changes() {
    let mut h = Hashes::new();
    h.add_hash(s("/a/b.toml"), "wrap = true");
    assert!(h.is_hashed("/a/b.toml", "wrap = true"));
    // one changed byte reverts the source to unknown
    assert!(!h.is_hashed("/a/b.toml", "wrap = trux"));
    // another path is unaffected
    assert!(!h.is_hashed("/a/c.toml", "wrap = true"));
}

#[test]
fn reapproval_overwrites_the_recorded_digest() {
    let mut h = Hashes::new();
    h.add_hash(s("/a/b.toml"), "old");
    h.add_hash(s("/a/b.toml"), "new");
    assert!(!h.is_hashed("/a/b.toml", "old"));
    assert!(h.is_hashed("/a/b.toml", "new"));
    assert_eq!(h.entries().len(), 1);
}

#[test]
fn approve_then_classify_returns_trusted() {
    let mut h = Hashes::new();
    approve(&mut h, vec![(s("/p/one"), s("alpha")), (s("/p/two"), s("beta"))]);
    assert!(h.is_hashed("/p/one", "alpha"));
    assert!(h.is_hashed("/p/two", "beta"));
    assert!(!h.is_hashed("/p/one", "beta"));
}

#[test]
fn ledger_round_trips_through_its_entries() {
    let mut h = Hashes::new();
    h.add_hash(s("/a"), "x");
    h.add_hash(s("/b"), "y");
    let entries = h.entries().clone();
    let restored = Hashes::from_entries(entries);
    assert!(restored.is_hashed("/a", "x"));
    assert!(restored.is_hashed("/b", "y"));
    assert!(!restored.is_hashed("/a", "y"));
}

#[test]
fn unhashed_partitions_by_trust_in_arrival_order() {
    let mut h = Hashes::new();
    h.add_hash(s("/trusted.toml"), "keep = true");
    let files = vec![
        (s("/trusted.toml"), s("keep = true"), Config::new()),
        (s("/new.toml"), s("fresh"), Config::new()),
        (s("/changed.toml"), s("v2"), Config::new()),
    ];
    let (unknown, known) = h.unhashed(files);
    assert_eq!(unknown, vec![s("/new.toml"), s("/changed.toml")]);
    assert_eq!(known.len(), 1);
}

#[test]
fn digests_are_content_not_path_bound() {
    let mut h = Hashes::new();
    h.add_hash(s("/a"), "same content");
    h.add_hash(s("/b"), "same content");
    assert!(h.is_hashed("/a", "same content"));
    assert!(h.is_hashed("/b", "same content"));
}
