//! The hash cache: a memoization table keyed by exact chunk content and
//! hash kind. It is an optimization only — a cached digest is always the
//! digest the hash function would produce, so calls through the cache
//! return exactly what uncached calls return, only faster. Once the table
//! grows past a fixed threshold it is cleared whole.

use vstd::prelude::*;
use crate::digests::{digest, digest_spec, HashKind};

verus! {

/// The number of stored digests above which the table is flushed.
pub const CACHE_LIMIT: usize = 10000;

/// A memoization table for chunk digests. Every stored entry's digest is
/// the digest of its exact key, so a lookup can never return a stale or
/// foreign value.
pub struct DigestCache {
    entries: Vec<(HashKind, String, String)>,
}

impl DigestCache {
    /// Every stored digest belongs to its key, and the table never grows
    /// more than one entry past the flush threshold.
    pub closed spec fn wf(self) -> bool {
        &&& forall|k: int|
            0 <= k < self.entries@.len() ==> (#[trigger] self.entries@[k]).2@ == digest_spec(
                self.entries@[k].1@,
                self.entries@[k].0,
            )
        &&& self.entries@.len() <= CACHE_LIMIT + 1
    }

    /// An empty cache.
    pub fn new() -> (r: DigestCache)
        ensures
            r.wf(),
            r.spec_len() == 0,
    {
        DigestCache { entries: Vec::new() }
    }

    /// How many digests are stored.
    pub fn len(&self) -> (r: usize)
        ensures
            r as int == self.spec_len(),
    {
        self.entries.len()
    }

    /// The spec-level number of stored digests.
    pub closed spec fn spec_len(self) -> int {
        self.entries@.len() as int
    }

    /// The digest of `chunk` under `kind`, answered from the table when
    /// the exact content and kind are stored, and computed and stored
    /// otherwise. The result is exactly what the uncached `digest`
    /// returns: caching never changes an answer.
    ///
    /// The stored count is pinned too: a lookup hit leaves the table as
    /// it was; a miss stores one more entry, except that a table already
    /// past the flush threshold is first cleared whole, leaving exactly
    /// the one fresh entry.
    pub fn digest_cached(&mut self, chunk: &str, kind: HashKind) -> (r: String)
        requires
            old(self).wf(),
        ensures
            final(self).wf(),
            r@ == digest_spec(chunk@, kind),
            1 <= final(self).spec_len() <= CACHE_LIMIT + 1,
            final(self).spec_len() == old(self).spec_len() || (old(self).spec_len()
                <= CACHE_LIMIT as int && final(self).spec_len() == old(self).spec_len() + 1) || (
            old(self).spec_len() > CACHE_LIMIT as int && final(self).spec_len() == 1),
    {
        let key = String::from_str(chunk);
        let n = self.entries.len();
        let mut k: usize = 0;
        while k < n
            invariant
                0 <= k <= n,
                n == self.entries@.len(),
                key@ == chunk@,
                *self == *old(self),
                self.wf(),
            decreases n - k,
        {
            if self.entries[k].0 == kind && self.entries[k].1 == key {
                proof {
                    assert(self.entries@[k as int].0 == kind);
                    assert(self.entries@[k as int].1@ == chunk@);
                    assert(self.entries@[k as int].2@ == digest_spec(
                        self.entries@[k as int].1@,
                        self.entries@[k as int].0,
                    ));
                }
                return self.entries[k].2.clone();
            }
            k = k + 1;
        }
        let d = digest(chunk, kind);
        if self.entries.len() > CACHE_LIMIT {
            self.entries.clear();
        }
        let stored = d.clone();
        let ghost before = self.entries@;
        self.entries.push((kind, key, stored));
        proof {
            assert(forall|j: int|
                0 <= j < before.len() ==> self.entries@[j] == before[j]);
        }
        d
    }
}

} // verus!
