//! The hashed bag-of-words embedding, up to its integer core.
//!
//! A text is tokenized, every token is hashed with FNV-1a, and each hash
//! picks one of the `VECTOR_DIM` buckets, whose count rises by one.  The
//! floating-point step — scaling the counts to unit length — happens
//! outside the library; the counts below determine it completely, so the
//! embedding is a function of the text alone.

use vstd::prelude::*;

use vstd::string::StringSliceAdditionalSpecFns;
use vstd::utf8::encode_utf8;
use crate::text::tokenize;
use crate::text::tokens_of;

verus! {

/// One step of FNV-1a: fold one byte into the hash.
pub open spec fn fnv1a_step(h: u64, b: u8) -> u64 {
    ((((h ^ (b as u64)) as nat) * 0x100000001b3) % 0x1_0000_0000_0000_0000) as u64
}

/// The 64-bit FNV-1a hash of a byte sequence: offset basis
/// `0xcbf29ce484222325`, prime `0x100000001b3`, multiplication wrapping.
pub open spec fn fnv1a_seq(bytes: Seq<u8>) -> u64
    decreases bytes.len(),
{
    if bytes.len() == 0 {
        0xcbf29ce484222325u64
    } else {
        fnv1a_step(fnv1a_seq(bytes.drop_last()), bytes.last())
    }
}

/// Hashes the UTF-8 bytes of a string with 64-bit FNV-1a.
pub fn fnv1a_hash(input: &str) -> (r: u64)
    ensures
        r == fnv1a_seq(input.spec_bytes()),
{
    let bytes = input.as_bytes();
    let mut h: u64 = 0xcbf29ce484222325;
    let mut i: usize = 0;
    while i < bytes.len()
        invariant
            i <= bytes@.len(),
            bytes@ == input.spec_bytes(),
            h == fnv1a_seq(bytes@.take(i as int)),
        decreases bytes@.len() - i,
    {
        let b = bytes[i];
        let ghost h0 = h;
        h = (h ^ (b as u64)).wrapping_mul(0x100000001b3);
        proof {
            assert(bytes@.take(i + 1).drop_last() =~= bytes@.take(i as int));
            assert(bytes@.take(i + 1).last() == bytes@[i as int]);
            assert(h == fnv1a_step(h0, b));
        }
        i = i + 1;
    }
    proof {
        assert(bytes@.take(bytes@.len() as int) =~= bytes@);
    }
    h
}

/// The bucket a token lands in: its hash, reduced to the dimension.
pub open spec fn token_bucket(t: Seq<char>) -> int {
    fnv1a_seq(encode_utf8(t)) as int % 256
}

/// How many of the tokens land in bucket `j`.
pub open spec fn count_bucket(tokens: Seq<Seq<char>>, j: int) -> int {
    tokens.filter(|t: Seq<char>| token_bucket(t) == j).len() as int
}

proof fn lemma_count_bucket_push(ts: Seq<Seq<char>>, t: Seq<char>, j: int)
    ensures
        count_bucket(ts.push(t), j) == count_bucket(ts, j) + if token_bucket(t) == j {
            1int
        } else {
            0int
        },
{
    reveal(Seq::filter);
    assert(ts.push(t).drop_last() =~= ts);
    assert(ts.push(t).last() == t);
}

proof fn lemma_count_bucket_le(ts: Seq<Seq<char>>, j: int)
    ensures
        0 <= count_bucket(ts, j) <= ts.len(),
{
    ts.lemma_filter_len(|t: Seq<char>| token_bucket(t) == j);
}

/// The bucket counts of a text: a vector of 256 counts, one per bucket,
/// each the number of tokens hashing there.  Two equal texts give equal
/// counts, so the embedding derived from them is reproducible.
pub fn embed_counts(text: &str) -> (r: Vec<usize>)
    ensures
        r@.len() == 256,
        forall|j: int| 0 <= j < 256 ==> r@[j] == count_bucket(tokens_of(text@), j),
{
    let tokens = tokenize(text);
    let ghost toks = tokens@.map_values(|t: String| t@);
    let ntok = tokens.len();
    proof {
        assert(toks.len() == ntok as int);
    }
    let mut counts: Vec<usize> = Vec::new();
    while counts.len() < 256
        invariant
            counts@.len() <= 256,
            forall|j: int| 0 <= j < counts@.len() ==> counts@[j] == 0,
        decreases 256 - counts.len(),
    {
        counts.push(0);
    }
    proof {
        reveal(Seq::filter);
        assert(toks.take(0) =~= Seq::<Seq<char>>::empty());
        assert(forall|j: int| 0 <= j < 256 ==> count_bucket(toks.take(0), j) == 0);
    }
    let mut i: usize = 0;
    while i < ntok
        invariant
            i <= ntok,
            toks == tokens@.map_values(|t: String| t@),
            toks.len() == ntok as int,
            counts@.len() == 256,
            forall|j: int| 0 <= j < 256 ==> counts@[j] == count_bucket(toks.take(i as int), j),
        decreases ntok - i,
    {
        let h = fnv1a_hash(tokens[i].as_str());
        let idx = (h % 256) as usize;
        proof {
            assert(toks[i as int] == tokens@[i as int]@);
            assert(idx as int == token_bucket(toks[i as int]));
            assert(toks.take(i + 1) =~= toks.take(i as int).push(toks[i as int]));
            lemma_count_bucket_le(toks.take(i as int), idx as int);
        }
        let c = counts[idx];
        counts.set(idx, c + 1);
        proof {
            assert forall|j: int|
                0 <= j < 256 implies counts@[j] == count_bucket(toks.take(i + 1), j) by {
                lemma_count_bucket_push(toks.take(i as int), toks[i as int], j);
            }
        }
        i = i + 1;
    }
    proof {
        assert(toks.take(toks.len() as int) =~= toks);
    }
    counts
}

/// Embedding is pure: the contract of `embed_counts` pins every bucket,
/// so any two results for the same text are identical, and the scaled
/// vectors derived from them are bit-identical too.
pub proof fn lemma_embed_reproducible(text: Seq<char>, r1: Seq<usize>, r2: Seq<usize>)
    requires
        r1.len() == 256,
        r2.len() == 256,
        forall|j: int| 0 <= j < 256 ==> r1[j] == count_bucket(tokens_of(text), j),
        forall|j: int| 0 <= j < 256 ==> r2[j] == count_bucket(tokens_of(text), j),
    ensures
        r1 == r2,
{
    assert(r1 =~= r2);
}

} // verus!
