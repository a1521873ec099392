//! Keys of runs, and when a stored run is used again.

use rlx_eda::cache::{Artifact, Cache, CacheMode, HashMemo, LibContent, LibFile, RunPlan};

fn lib(path: &str, content: &str) -> LibFile {
    LibFile { path: path.into(), content: LibContent::Bytes(content.as_bytes().to_vec()) }
}

#[test]
fn sha_is_stable_for_same_inputs() {
    let s1 = Cache::compute_sha("Vdd vdd 0 1.8\n", &vec![]);
    let s2 = Cache::compute_sha("Vdd vdd 0 1.8\n", &vec![]);
    assert_eq!(s1, s2);
    assert_eq!(s1.len(), 64);
}

#[test]
fn sha_changes_with_deck() {
    let s1 = Cache::compute_sha("Vdd vdd 0 1.8\n", &vec![]);
    let s2 = Cache::compute_sha("Vdd vdd 0 3.3\n", &vec![]);
    assert_ne!(s1, s2);
}

#[test]
fn sha_changes_with_lib_content() {
    let sa = Cache::compute_sha("deck", &vec![lib("/t/a.lib", "version-1-content")]);
    let sb = Cache::compute_sha("deck", &vec![lib("/t/b.lib", "completely-different-content")]);
    assert_ne!(sa, sb);
    // The content alone changes the key too, and so does its absence.
    let sc = Cache::compute_sha("deck", &vec![lib("/t/a.lib", "completely-different-content")]);
    assert_ne!(sa, sc);
    let gone = LibFile { path: "/t/a.lib".into(), content: LibContent::Missing };
    assert_ne!(sa, Cache::compute_sha("deck", &vec![gone]));
}

#[test]
fn sha_survives_path_move_with_same_content() {
    let text = ".lib tt\nM1 d g s b nmos\n.endl tt";
    let sa = Cache::compute_sha("deck", &vec![lib("/t/vendor_a/sky130.lib.spice", text)]);
    let sb = Cache::compute_sha("deck", &vec![lib("/t/vendor_b/sky130.lib.spice", text)]);
    // The same file name and the same content: the same key.
    assert_eq!(sa, sb);
}

#[test]
fn key_is_the_digest_of_the_bytes() {
    // The digest of nothing, and of three letters.
    assert_eq!(
        rlx_eda::cache::digest_key(&vec![]),
        "e3b0c44298fc1c149afbf4c8996fb92427ae41e4649b934ca495991b7852b855"
    );
    assert_eq!(
        rlx_eda::cache::digest_key(&b"abc".to_vec()),
        "ba7816bf8f01cfea414140de5dae2223b00361a396177a9cb410ff61f20015ad"
    );
}

#[test]
fn store_and_load_roundtrip() {
    let cache = Cache::new("/t/cache", CacheMode::Auto);
    let sha = Cache::compute_sha("hello", &vec![]);
    let entry = cache.entry(&sha);
    let stored = cache.store(false);
    assert!(stored.contains(&Artifact::Stdout));
    assert!(!stored.contains(&Artifact::Raw));
    assert!(entry.path_of(Artifact::Stdout).starts_with("/t/cache/"));
    assert!(entry.path_of(Artifact::Stdout).contains(&sha));
    assert!(cache.can_reuse(true));
    assert!(!cache.can_reuse(false));
    assert!(matches!(cache.plan(&sha, true), RunPlan::Reuse));
    assert!(matches!(cache.plan(&sha, false), RunPlan::Simulate));
}

#[test]
fn force_mode_skips_reuse() {
    let cache = Cache::new("/t/cache", CacheMode::Force);
    assert!(!cache.store(false).is_empty());
    assert!(!cache.can_reuse(true));
}

#[test]
fn off_mode_does_not_write() {
    let cache = Cache::new("/t/cache", CacheMode::Off);
    assert!(cache.store(true).is_empty());
    assert!(!cache.can_reuse(true));
}

#[test]
fn reuse_only_mode_refuses_to_simulate() {
    let cache = Cache::new("/t/cache", CacheMode::ReuseOnly);
    match cache.plan("abc", false) {
        RunPlan::Refuse(e) => assert_eq!(e.message(), "ReuseOnly mode: no cache entry for sha abc"),
        other => panic!("wrong plan: {other:?}"),
    }
}

#[test]
fn digests_are_remembered_until_a_file_changes() {
    let mut memo = HashMemo::new();
    memo.remember("/t/a.lib", 7, "aa");
    assert_eq!(memo.lookup("/t/a.lib", 7).as_deref(), Some("aa"));
    assert_eq!(memo.lookup("/t/a.lib", 8), None);
    assert_eq!(memo.lookup("/t/b.lib", 7), None);
}

#[test]
fn keys_are_hexadecimal() {
    let files = vec![lib("/t/a.lib", "x"), LibFile { path: "..".into(), content: LibContent::Unreadable }];
    let key = Cache::compute_sha("deck", &files);
    assert_eq!(key.len(), 64);
    assert!(key.chars().all(|c| c.is_ascii_digit() || ('a'..='f').contains(&c)), "{key}");
}

#[test]
fn every_content_takes_part_in_the_key() {
    let of = |a: &str, b: &str| Cache::compute_sha("deck", &vec![lib("/t/a.lib", a), lib("/t/b.lib", b)]);
    let keys = [of("x", "y"), of("y", "x"), of("x", "x"), of("x", "")];
    for i in 0..keys.len() {
        for j in 0..i {
            assert_ne!(keys[i], keys[j]);
        }
    }
    let gone = |content| Cache::compute_sha("deck", &vec![LibFile { path: "/t/a.lib".into(), content }]);
    assert_ne!(gone(LibContent::Missing), gone(LibContent::Unreadable));
}
