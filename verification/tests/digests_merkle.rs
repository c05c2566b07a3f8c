use markup_diff::cache::DigestCache;
use markup_diff::digests::{digest, HashKind};
use markup_diff::merkle::{build_merkle_tree, extract_merkle_hashes, merkle_tree_hash};
use markup_diff::pipeline::{hash_chunks, PerformanceConfig};

fn strings(v: &[&str]) -> Vec<String> {
    v.iter().map(|s| s.to_string()).collect()
}

fn is_hex(s: &str) -> bool {
    !s.is_empty() && s.chars().all(|c| c.is_ascii_hexdigit() && !c.is_ascii_uppercase())
}

#[test]
fn digest_is_pure_per_kind() {
    for kind in [HashKind::Fast, HashKind::Cryptographic] {
        let a = digest("some chunk", kind);
        let b = digest("some chunk", kind);
        assert_eq!(a, b);
        assert_ne!(digest("some chunk", kind), digest("other chunk", kind));
    }
}

#[test]
fn digest_is_hex_and_not_the_input() {
    for kind in [HashKind::Fast, HashKind::Cryptographic] {
        let d = digest("abcdef", kind);
        assert_ne!(d, "abcdef");
        assert!(is_hex(&d));
    }
    assert_ne!(digest("x", HashKind::Fast), digest("x", HashKind::Cryptographic));
}

#[test]
fn cryptographic_digest_matches_known_value() {
    // SHA-256 of the empty string
    assert_eq!(
        digest("", HashKind::Cryptographic),
        "e3b0c44298fc1c149afbf4c8996fb92427ae41e4649b934ca495991b7852b855"
    );
    assert_eq!(digest("", HashKind::Cryptographic).len(), 64);
}

#[test]
fn fast_digest_matches_known_value() {
    // XXH3-64 of the empty string, written as {:x} writes a u64
    assert_eq!(digest("", HashKind::Fast), "2d06800538d394c2");
}

#[test]
fn cache_returns_exactly_the_uncached_digest() {
    let mut cache = DigestCache::new();
    assert_eq!(cache.len(), 0);
    for kind in [HashKind::Fast, HashKind::Cryptographic] {
        let direct = digest("payload", kind);
        let first = cache.digest_cached("payload", kind);
        let second = cache.digest_cached("payload", kind);
        assert_eq!(first, direct);
        assert_eq!(second, direct);
    }
    // one entry per (content, kind) pair
    assert_eq!(cache.len(), 2);
}

#[test]
fn cache_flushes_whole_once_past_the_threshold() {
    let mut cache = DigestCache::new();
    // distinct chunks fill the table one entry each
    for i in 0..10001u32 {
        cache.digest_cached(&format!("{i}"), HashKind::Fast);
    }
    assert_eq!(cache.len(), 10001);
    // the next insert finds the table past its threshold and clears it whole
    let d = cache.digest_cached("one more", HashKind::Fast);
    assert_eq!(cache.len(), 1);
    assert_eq!(d, digest("one more", HashKind::Fast));
}

#[test]
fn parallel_and_sequential_hashing_agree() {
    let chunks = strings(&["one", "two", "three", "one"]);
    let mut cache = DigestCache::new();
    let par = PerformanceConfig { use_parallel_hashing: true, hash_kind: HashKind::Fast };
    let seq = PerformanceConfig { use_parallel_hashing: false, hash_kind: HashKind::Fast };
    let a = hash_chunks(&chunks, &par, &mut cache);
    let b = hash_chunks(&chunks, &seq, &mut cache);
    assert_eq!(a, b);
    assert_eq!(a.len(), 4);
    assert_eq!(a[0], a[3]);
    assert_eq!(a[0], digest("one", HashKind::Fast));
}

#[test]
fn merkle_tree_of_nothing_is_empty() {
    let mut cache = DigestCache::new();
    assert!(build_merkle_tree(&Vec::new(), HashKind::Fast, &mut cache).is_none());
    assert_eq!(merkle_tree_hash(&Vec::new(), HashKind::Fast, &mut cache), Vec::<String>::new());
}

#[test]
fn merkle_leaves_are_the_chunk_digests_in_order() {
    let chunks = strings(&["a", "b", "c", "d", "e"]);
    let mut cache = DigestCache::new();
    let tree = build_merkle_tree(&chunks, HashKind::Fast, &mut cache).unwrap();
    let leaves = extract_merkle_hashes(&tree);
    let expected: Vec<String> = chunks.iter().map(|c| digest(c, HashKind::Fast)).collect();
    assert_eq!(leaves, expected);
}

#[test]
fn merkle_tree_hash_equals_flat_hashing() {
    let chunks = strings(&["alpha", "beta", "gamma"]);
    let mut cache = DigestCache::new();
    let via_tree = merkle_tree_hash(&chunks, HashKind::Fast, &mut cache);
    let config = PerformanceConfig { use_parallel_hashing: false, hash_kind: HashKind::Fast };
    let flat = hash_chunks(&chunks, &config, &mut cache);
    assert_eq!(via_tree, flat);
}

#[test]
fn merkle_root_combines_child_hashes() {
    // two chunks: the root hashes the two leaf digests joined
    let chunks = strings(&["left", "right"]);
    let mut cache = DigestCache::new();
    let tree = build_merkle_tree(&chunks, HashKind::Fast, &mut cache).unwrap();
    let dl = digest("left", HashKind::Fast);
    let dr = digest("right", HashKind::Fast);
    let joined = format!("{}{}", dl, dr);
    assert_eq!(*tree.hash(), digest(&joined, HashKind::Fast));
}

#[test]
fn merkle_promotes_a_trailing_node_unchanged() {
    // three chunks: the second level holds (h01, promoted h2); the root
    // hashes h01 with h2 itself
    let chunks = strings(&["a", "b", "c"]);
    let mut cache = DigestCache::new();
    let tree = build_merkle_tree(&chunks, HashKind::Fast, &mut cache).unwrap();
    let h0 = digest("a", HashKind::Fast);
    let h1 = digest("b", HashKind::Fast);
    let h2 = digest("c", HashKind::Fast);
    let h01 = digest(&format!("{}{}", h0, h1), HashKind::Fast);
    let root = digest(&format!("{}{}", h01, h2), HashKind::Fast);
    assert_eq!(*tree.hash(), root);
}
