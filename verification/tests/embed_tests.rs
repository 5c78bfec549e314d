use memstore::clock::now_millis;
use memstore::clock::now_secs;
use memstore::embed::embed_counts;
use memstore::embed::fnv1a_hash;
use memstore::text::tokenize;
use memstore::VECTOR_DIM;

/// An independently written FNV-1a, to check the verified one against.
fn fnv1a_reference(bytes: &[u8]) -> u64 {
    let mut h: u64 = 0xcbf29ce484222325;
    for b in bytes {
        h ^= *b as u64;
        h = h.wrapping_mul(0x100000001b3);
    }
    h
}

#[test]
fn fnv1a_matches_reference() {
    for s in ["", "a", "hello", "hello world", "caf\u{00e9}", "\u{4e16}\u{754c}", "0123456789"] {
        assert_eq!(fnv1a_hash(s), fnv1a_reference(s.as_bytes()), "mismatch for {s:?}");
    }
}

#[test]
fn fnv1a_of_empty_is_the_offset_basis() {
    assert_eq!(fnv1a_hash(""), 0xcbf29ce484222325);
}

#[test]
fn fnv1a_known_vectors() {
    assert_eq!(fnv1a_hash("a"), 0xaf63dc4c8601ec8c);
    assert_eq!(fnv1a_hash("foobar"), 0x85944171f73967e8);
}

#[test]
fn embed_counts_has_fixed_dimension() {
    for s in ["", "hello", "a b c d e f g", "!!!"] {
        assert_eq!(embed_counts(s).len(), VECTOR_DIM);
    }
}

#[test]
fn embed_counts_is_reproducible() {
    let text = "the quick brown fox jumps over the lazy dog";
    assert_eq!(embed_counts(text), embed_counts(text));
}

#[test]
fn embed_counts_sums_to_token_count() {
    for s in ["", "hello", "hello hello", "one two three, four!"] {
        let total: usize = embed_counts(s).iter().sum();
        assert_eq!(total, tokenize(s).len(), "mismatch for {s:?}");
    }
}

#[test]
fn embed_counts_buckets_by_hash() {
    let idx = (fnv1a_hash("hello") % VECTOR_DIM as u64) as usize;
    let counts = embed_counts("hello HELLO world");
    assert!(counts[idx] >= 2);
    let widx = (fnv1a_hash("world") % VECTOR_DIM as u64) as usize;
    assert!(counts[widx] >= 1);
}

#[test]
fn empty_text_gives_the_zero_vector() {
    assert!(embed_counts("").iter().all(|c| *c == 0));
    assert!(embed_counts(" .,;! ").iter().all(|c| *c == 0));
}

#[test]
fn nonempty_text_gives_a_nonzero_vector() {
    // The norm of such a vector is positive, so the scaled embedding has
    // unit length.
    assert!(embed_counts("hello").iter().any(|c| *c > 0));
}

#[test]
fn clock_readings_are_plausible() {
    let s = now_secs();
    let m = now_millis();
    assert!(s > 0);
    assert!(m > 0);
    let diff = (m / 1000) as i64 - s;
    assert!((-2..=2).contains(&diff));
}
