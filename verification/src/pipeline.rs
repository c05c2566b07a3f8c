//! The comparison pipeline: raw markup is tokenized, chunked and hashed,
//! and two documents' digests are compared as sets, optionally through
//! the hash tree and optionally alongside a line-level diff. The
//! performance configuration — parallel or sequential digesting, and the
//! hash kind — is an explicit value threaded through the entry points,
//! and never changes a result, only how it is computed.

use vstd::prelude::*;
use rayon::prelude::IntoParallelRefIterator;
use rayon::prelude::ParallelIterator;
use crate::cache::DigestCache;
use crate::chunking::{chunk, chunk_spec, lemma_chunk_count_le};
use crate::digests::{digest, digest_spec, digests_spec, HashKind};
use crate::linediff::{line_diff, line_diff_spec, LineDiffEntry};
use crate::merkle::merkle_tree_hash;
use crate::setdiff::{diff, diff_reports, DiffResult};
use crate::token::{tokenize, tokenize_spec, lemma_tokens_from_count, Token};

verus! {

/// How the pipeline runs: whether chunk digesting is spread over a
/// worker pool, and which hash kind produces digests. Neither choice
/// affects any result.
#[derive(Clone, Copy, PartialEq, Eq, Structural, Debug)]
pub struct PerformanceConfig {
    pub use_parallel_hashing: bool,
    pub hash_kind: HashKind,
}

impl Default for PerformanceConfig {
    /// Parallel digesting with the fast hash.
    fn default() -> (r: Self)
        ensures
            r.use_parallel_hashing == true,
            r.hash_kind == HashKind::Fast,
    {
        PerformanceConfig { use_parallel_hashing: true, hash_kind: HashKind::Fast }
    }
}

/// Relies on `rayon`'s `par_iter` / `map` / `collect`: an indexed
/// parallel map collects into a vector in the source's order, each
/// element the closure's result — here the library's own `digest`, so
/// every element is pinned by `digest_spec`.
#[verifier::external_body]
fn par_digests(chunks: &Vec<String>, kind: HashKind) -> (r: Vec<String>)
    ensures
        r@.len() == chunks@.len(),
        forall|i: int| 0 <= i < r@.len() ==> (#[trigger] r@[i])@ == digest_spec(chunks@[i]@, kind),
{
    chunks.par_iter().map(|c| digest(c.as_str(), kind)).collect()
}

/// The digests of a chunk sequence, in order: chunk digesting is
/// embarrassingly parallel, so the work may be spread over a worker pool
/// — with the same result, since every digest is a pure function of its
/// chunk.
pub fn hash_chunks(chunks: &Vec<String>, config: &PerformanceConfig, cache: &mut DigestCache) -> (r:
    Vec<String>)
    requires
        old(cache).wf(),
    ensures
        final(cache).wf(),
        r.deep_view() == digests_spec(chunks.deep_view(), config.hash_kind),
{
    let ghost ds = digests_spec(chunks.deep_view(), config.hash_kind);
    if config.use_parallel_hashing {
        let r = par_digests(chunks, config.hash_kind);
        proof {
            assert(r.deep_view() =~= ds) by {
                assert(forall|i: int|
                    0 <= i < r@.len() ==> (#[trigger] chunks.deep_view()[i]) == chunks@[i]@);
            }
        }
        r
    } else {
        let n = chunks.len();
        let mut r: Vec<String> = Vec::new();
        let mut i: usize = 0;
        proof {
            assert(r.deep_view() =~= ds.take(0));
        }
        while i < n
            invariant
                0 <= i <= n,
                n == chunks@.len(),
                cache.wf(),
                ds == digests_spec(chunks.deep_view(), config.hash_kind),
                ds.len() == n,
                r.deep_view() == ds.take(i as int),
            decreases n - i,
        {
            let d = cache.digest_cached(chunks[i].as_str(), config.hash_kind);
            let ghost old_dv = r.deep_view();
            r.push(d);
            proof {
                assert(chunks.deep_view()[i as int] == chunks@[i as int]@);
                assert(r.deep_view() =~= old_dv.push(ds[i as int]));
                assert(ds.take(i + 1) =~= ds.take(i as int).push(ds[i as int]));
            }
            i = i + 1;
        }
        proof {
            assert(ds.take(n as int) =~= ds);
        }
        r
    }
}

/// Flat hashing: the digest sequence of the chunks, with no tree around
/// it.
pub fn merkle_lite_hash(chunks: &Vec<String>, config: &PerformanceConfig, cache: &mut DigestCache)
    -> (r: Vec<String>)
    requires
        old(cache).wf(),
    ensures
        final(cache).wf(),
        r.deep_view() == digests_spec(chunks.deep_view(), config.hash_kind),
{
    hash_chunks(chunks, config, cache)
}

/// The tokens and chunk strings of one markup document.
pub fn normalize_markup(markup: &str, chunk_size: usize) -> (r: (Vec<String>, Vec<Token>))
    requires
        markup@.len() < usize::MAX,
    ensures
        r.1.deep_view() == tokenize_spec(markup@),
        r.0.deep_view() == chunk_spec(tokenize_spec(markup@), chunk_size as int),
        r.0@.len() <= markup@.len(),
{
    let tokens = tokenize(markup);
    let chunks = chunk(&tokens, chunk_size);
    proof {
        lemma_tokens_from_count(markup@, 0);
        let k: int = if chunk_size < 1 {
            1
        } else {
            chunk_size as int
        };
        lemma_chunk_count_le(
            tokens.deep_view().map_values(|t: crate::token::TokenModel| crate::token::label_of(t)),
            k,
        );
    }
    (chunks, tokens)
}

/// The chunk digests of one markup document: tokenize, chunk, then hash.
pub fn document_digests(markup: &str, chunk_size: usize, config: &PerformanceConfig, cache:
    &mut DigestCache) -> (r: Vec<String>)
    requires
        old(cache).wf(),
        markup@.len() < usize::MAX,
    ensures
        final(cache).wf(),
        r.deep_view() == digests_spec(
            chunk_spec(tokenize_spec(markup@), chunk_size as int),
            config.hash_kind,
        ),
        r@.len() <= markup@.len(),
{
    let (chunks, _tokens) = normalize_markup(markup, chunk_size);
    let r = hash_chunks(&chunks, config, cache);
    proof {
        assert(r@.len() == r.deep_view().len());
        assert(chunks@.len() == chunks.deep_view().len());
    }
    r
}

/// Compares two already-chunked documents, hashing either flat or
/// through the hash tree. Both methods yield the same digests, so the
/// report is the same set comparison either way.
pub fn compare_with_method(chunks_a: &Vec<String>, chunks_b: &Vec<String>, use_merkle_tree: bool,
    config: &PerformanceConfig, cache: &mut DigestCache) -> (r: DiffResult)
    requires
        old(cache).wf(),
        chunks_a@.len() + chunks_b@.len() <= usize::MAX,
    ensures
        final(cache).wf(),
        diff_reports(
            r,
            digests_spec(chunks_a.deep_view(), config.hash_kind),
            digests_spec(chunks_b.deep_view(), config.hash_kind),
        ),
{
    let hashes_a = if use_merkle_tree {
        merkle_tree_hash(chunks_a, config.hash_kind, cache)
    } else {
        hash_chunks(chunks_a, config, cache)
    };
    let hashes_b = if use_merkle_tree {
        merkle_tree_hash(chunks_b, config.hash_kind, cache)
    } else {
        hash_chunks(chunks_b, config, cache)
    };
    proof {
        assert(hashes_a@.len() == hashes_a.deep_view().len());
        assert(chunks_a@.len() == chunks_a.deep_view().len());
        assert(hashes_b@.len() == hashes_b.deep_view().len());
        assert(chunks_b@.len() == chunks_b.deep_view().len());
    }
    diff(&hashes_a, &hashes_b)
}

/// Compares two raw markup documents end to end, and reconstructs the
/// line-level changes between their token sequences.
pub fn compare_with_line_diffs(content_a: &str, content_b: &str, chunk_size: usize,
    use_merkle_tree: bool, config: &PerformanceConfig, cache: &mut DigestCache) -> (r: (
    DiffResult,
    Vec<LineDiffEntry>,
))
    requires
        old(cache).wf(),
        content_a@.len() + content_b@.len() < usize::MAX,
    ensures
        final(cache).wf(),
        diff_reports(
            r.0,
            digests_spec(
                chunk_spec(tokenize_spec(content_a@), chunk_size as int),
                config.hash_kind,
            ),
            digests_spec(
                chunk_spec(tokenize_spec(content_b@), chunk_size as int),
                config.hash_kind,
            ),
        ),
        r.1.deep_view() == line_diff_spec(tokenize_spec(content_a@), tokenize_spec(content_b@)),
{
    let (chunks_a, tokens_a) = normalize_markup(content_a, chunk_size);
    let (chunks_b, tokens_b) = normalize_markup(content_b, chunk_size);
    let report = compare_with_method(&chunks_a, &chunks_b, use_merkle_tree, config, cache);
    let line_diffs = line_diff(&tokens_a, &tokens_b);
    (report, line_diffs)
}

} // verus!
