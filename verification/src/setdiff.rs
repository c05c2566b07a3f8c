//! The set-diff engine: two ordered digest sequences are reduced to their
//! distinct sets and compared. The measure is distinct-content divergence
//! — order and multiplicity do not matter — as the share of the union
//! that lies in exactly one of the two sets.

use vstd::prelude::*;
use vstd::seq_lib::*;
use vstd::set_lib::*;

verus! {

broadcast use vstd::set::group_set_axioms, vstd::seq_lib::seq_to_set_is_finite;

/// The distinct digests of a digest sequence.
pub open spec fn set_of(ds: Seq<Seq<char>>) -> Set<Seq<char>> {
    ds.to_set()
}

/// The digests in exactly one of the two sets.
pub open spec fn sym_diff(a: Set<Seq<char>>, b: Set<Seq<char>>) -> Set<Seq<char>> {
    a.difference(b).union(b.difference(a))
}

/// What `diff` reports of two digest collections: the distinct counts of
/// each side, of the union, of the intersection, and of the symmetric
/// difference. `total == common + different` always holds, so
/// `different <= total`.
#[derive(Clone, Copy, PartialEq, Eq, Structural, Debug)]
pub struct DiffResult {
    pub total_distinct_a: usize,
    pub total_distinct_b: usize,
    pub total: usize,
    pub common: usize,
    pub different: usize,
}

/// The percentage of the union that differs, rounded down; zero when both
/// sides are empty.
pub open spec fn percent_spec(d: DiffResult) -> int {
    if d.total == 0 {
        0
    } else {
        100 * (d.different as int) / (d.total as int)
    }
}

impl DiffResult {
    /// The counts agree with one another.
    pub open spec fn wf(self) -> bool {
        self.total == self.common + self.different
    }

    /// The whole-number percentage of distinct content that differs:
    /// `100 * different / total`, rounded down, and 0 when the union is
    /// empty. Always at most 100, and exactly 100 when nothing is shared
    /// and something is present.
    pub fn percent_different(&self) -> (r: u64)
        requires
            self.wf(),
        ensures
            r as int == percent_spec(*self),
            r <= 100,
            self.different == 0 ==> r == 0,
            self.different == self.total && self.total > 0 ==> r == 100,
    {
        if self.total == 0 {
            0
        } else {
            let num: u128 = 100u128 * (self.different as u128);
            let q: u128 = num / (self.total as u128);
            proof {
                assert(100 * (self.different as int) / (self.total as int) <= 100)
                    by (nonlinear_arith)
                    requires
                        0 < self.total as int,
                        self.different as int <= self.total as int,
                ;
                assert(100 * (self.different as int) / (self.total as int) >= 0)
                    by (nonlinear_arith)
                    requires
                        0 < self.total as int,
                        0 <= self.different as int,
                ;
                if self.different == self.total {
                    assert(100 * (self.total as int) / (self.total as int) == 100)
                        by (nonlinear_arith)
                        requires
                            0 < self.total as int,
                    ;
                }
                if self.different == 0 {
                    assert(100 * 0int / (self.total as int) == 0) by (nonlinear_arith)
                        requires
                            0 < self.total as int,
                    ;
                }
            }
            q as u64
        }
    }
}

/// Exact inclusion-exclusion over two finite sets: the union's size, and
/// the symmetric difference's size, in terms of the two sizes and the
/// intersection's.
pub proof fn lemma_card_inclusion_exclusion<A>(a: Set<A>, b: Set<A>)
    requires
        a.finite(),
        b.finite(),
    ensures
        a.union(b).len() == a.len() + b.len() - a.intersect(b).len(),
        a.difference(b).union(b.difference(a)).len() == a.len() + b.len() - 2 * a.intersect(
            b,
        ).len(),
        a.intersect(b).len() <= a.len(),
        a.intersect(b).len() <= b.len(),
    decreases a.len(),
{
    lemma_len_intersect::<A>(a, b);
    assert(a.intersect(b) =~= b.intersect(a));
    lemma_len_intersect::<A>(b, a);
    if a.is_empty() {
        assert(a.union(b) =~= b);
        assert(a.intersect(b) =~= Set::<A>::empty());
        assert(a.difference(b) =~= Set::<A>::empty());
        assert(b.difference(a) =~= b);
        assert(a.difference(b).union(b.difference(a)) =~= b);
    } else {
        let x = a.choose();
        assert(a.contains(x));
        let a2 = a.remove(x);
        lemma_card_inclusion_exclusion(a2, b);
        if b.contains(x) {
            assert(a.union(b) =~= a2.union(b));
            assert(a.intersect(b) =~= a2.intersect(b).insert(x));
            assert(!a2.intersect(b).contains(x));
            assert(a.difference(b) =~= a2.difference(b));
            assert(b.difference(a) =~= b.difference(a2).remove(x));
            assert(b.difference(a2).contains(x));
            assert(a.difference(b).union(b.difference(a)) =~= a2.difference(b).union(
                b.difference(a2),
            ).remove(x));
            assert(a2.difference(b).union(b.difference(a2)).contains(x));
        } else {
            assert(a.union(b) =~= a2.union(b).insert(x));
            assert(!a2.union(b).contains(x));
            assert(a.intersect(b) =~= a2.intersect(b));
            assert(a.difference(b) =~= a2.difference(b).insert(x));
            assert(!a2.difference(b).contains(x));
            assert(b.difference(a) =~= b.difference(a2));
            assert(a.difference(b).union(b.difference(a)) =~= a2.difference(b).union(
                b.difference(a2),
            ).insert(x));
            assert(!a2.difference(b).union(b.difference(a2)).contains(x));
        }
    }
}

/// Pushing an element onto a sequence inserts it into the distinct set.
proof fn lemma_to_set_push<A>(s: Seq<A>, x: A)
    ensures
        s.push(x).to_set() == s.to_set().insert(x),
{
    assert forall|e: A| s.push(x).to_set().contains(e) implies s.to_set().insert(x).contains(
        e,
    ) by {
        let k = choose|k: int| 0 <= k < s.push(x).len() && s.push(x)[k] == e;
        if k < s.len() {
            assert(s[k] == e);
        }
    }
    assert forall|e: A| s.to_set().insert(x).contains(e) implies s.push(x).to_set().contains(
        e,
    ) by {
        if e == x {
            assert(s.push(x)[s.len() as int] == e);
        } else {
            let k = choose|k: int| 0 <= k < s.len() && s[k] == e;
            assert(s.push(x)[k] == e);
        }
    }
    assert(s.push(x).to_set() =~= s.to_set().insert(x));
}

/// Whether `x`'s characters appear among the strings of `v`.
pub(crate) fn contains_str(v: &Vec<String>, x: &String) -> (b: bool)
    ensures
        b == v.deep_view().to_set().contains(x@),
{
    let n = v.len();
    let mut i: usize = 0;
    while i < n
        invariant
            0 <= i <= n,
            n == v@.len(),
            forall|k: int| 0 <= k < i ==> v.deep_view()[k] != x@,
        decreases n - i,
    {
        if v[i] == *x {
            proof {
                assert(v.deep_view()[i as int] == x@);
                assert(v.deep_view().contains(x@));
            }
            return true;
        }
        i = i + 1;
    }
    proof {
        if v.deep_view().to_set().contains(x@) {
            let k = choose|k: int| 0 <= k < v.deep_view().len() && v.deep_view()[k] == x@;
            assert(false);
        }
    }
    false
}

/// The distinct strings of `v`, in first-appearance order.
fn distinct(v: &Vec<String>) -> (r: Vec<String>)
    ensures
        r.deep_view().to_set() == v.deep_view().to_set(),
        r.deep_view().no_duplicates(),
        r@.len() <= v@.len(),
{
    let n = v.len();
    let mut r: Vec<String> = Vec::new();
    let mut i: usize = 0;
    proof {
        assert(r.deep_view() =~= Seq::<Seq<char>>::empty());
        assert(v.deep_view().take(0) =~= Seq::<Seq<char>>::empty());
    }
    while i < n
        invariant
            0 <= i <= n,
            n == v@.len(),
            v.deep_view().len() == n,
            r.deep_view().to_set() == v.deep_view().take(i as int).to_set(),
            r.deep_view().no_duplicates(),
            r@.len() <= i,
        decreases n - i,
    {
        let ghost pre = v.deep_view().take(i as int);
        let ghost x = v.deep_view()[i as int];
        proof {
            assert(v.deep_view().take(i + 1) =~= pre.push(x));
            lemma_to_set_push(pre, x);
        }
        let present = contains_str(&r, &v[i]);
        proof {
            assert(v@[i as int]@ == x);
        }
        if !present {
            let ghost old_dv = r.deep_view();
            let c = v[i].clone();
            r.push(c);
            proof {
                assert(r.deep_view() =~= old_dv.push(x));
                lemma_to_set_push(old_dv, x);
                assert(forall|k: int| 0 <= k < old_dv.len() ==> old_dv[k] != x);
            }
        } else {
            proof {
                assert(pre.to_set().insert(x) =~= pre.to_set());
            }
        }
        i = i + 1;
    }
    proof {
        assert(v.deep_view().take(n as int) =~= v.deep_view());
    }
    r
}

/// `r` reports exactly the set comparison of digest sequences `a` and
/// `b`.
pub open spec fn diff_reports(r: DiffResult, a: Seq<Seq<char>>, b: Seq<Seq<char>>) -> bool {
    &&& r.total_distinct_a == set_of(a).len()
    &&& r.total_distinct_b == set_of(b).len()
    &&& r.total == set_of(a).union(set_of(b)).len()
    &&& r.common == set_of(a).intersect(set_of(b)).len()
    &&& r.different == sym_diff(set_of(a), set_of(b)).len()
    &&& r.wf()
}

/// Compares two digest collections as sets of distinct digests.
///
/// Every reported count is pinned: the two distinct counts, the union
/// count, the shared count, and the symmetric-difference count, from
/// which the percentage follows. Repeated digests collapse; order plays
/// no role.
pub fn diff(hashes_a: &Vec<String>, hashes_b: &Vec<String>) -> (r: DiffResult)
    requires
        hashes_a@.len() + hashes_b@.len() <= usize::MAX,
    ensures
        diff_reports(r, hashes_a.deep_view(), hashes_b.deep_view()),
{
    let da = distinct(hashes_a);
    let db = distinct(hashes_b);
    let ghost sa = set_of(hashes_a.deep_view());
    let ghost sb = set_of(hashes_b.deep_view());
    proof {
        da.deep_view().unique_seq_to_set();
        db.deep_view().unique_seq_to_set();
        lemma_card_inclusion_exclusion(sa, sb);
    }
    let ta = da.len();
    let tb = db.len();
    let n = da.len();
    let mut common: usize = 0;
    let mut i: usize = 0;
    proof {
        assert(da.deep_view().take(0) =~= Seq::<Seq<char>>::empty());
        assert(da.deep_view().take(0).to_set() =~= Set::<Seq<char>>::empty());
        assert(Set::<Seq<char>>::empty().intersect(sb) =~= Set::<Seq<char>>::empty());
    }
    while i < n
        invariant
            0 <= i <= n,
            n == da@.len(),
            da.deep_view().len() == n,
            da.deep_view().to_set() == sa,
            db.deep_view().to_set() == sb,
            da.deep_view().no_duplicates(),
            common as int == da.deep_view().take(i as int).to_set().intersect(sb).len(),
            common <= i,
        decreases n - i,
    {
        let ghost pre = da.deep_view().take(i as int);
        let ghost x = da.deep_view()[i as int];
        proof {
            assert(da.deep_view().take(i + 1) =~= pre.push(x));
            lemma_to_set_push(pre, x);
            if pre.to_set().contains(x) {
                let k = choose|k: int| 0 <= k < pre.len() && pre[k] == x;
                assert(da.deep_view()[k] == x);
                assert(false);
            }
        }
        let hit = contains_str(&db, &da[i]);
        proof {
            assert(da@[i as int]@ == x);
            let s = pre.to_set();
            if hit {
                assert(s.insert(x).intersect(sb) =~= s.intersect(sb).insert(x));
                assert(!s.intersect(sb).contains(x));
                lemma_len_intersect::<Seq<char>>(s.insert(x), sb);
            } else {
                assert(s.insert(x).intersect(sb) =~= s.intersect(sb));
            }
        }
        if hit {
            common = common + 1;
        }
        i = i + 1;
    }
    proof {
        assert(da.deep_view().take(n as int) =~= da.deep_view());
        assert(sa.intersect(sb).len() <= ta);
        assert(sa.intersect(sb).len() <= tb);
    }
    let total = ta + tb - common;
    let different = (ta - common) + (tb - common);
    DiffResult { total_distinct_a: ta, total_distinct_b: tb, total, common, different }
}

/// Symmetry: swapping the two collections leaves every reported count of
/// the comparison unchanged apart from the two sides trading places, so
/// the percent different is the same in both directions.
pub proof fn lemma_diff_symmetric(a: Seq<Seq<char>>, b: Seq<Seq<char>>)
    ensures
        set_of(a).union(set_of(b)).len() == set_of(b).union(set_of(a)).len(),
        set_of(a).intersect(set_of(b)).len() == set_of(b).intersect(set_of(a)).len(),
        sym_diff(set_of(a), set_of(b)).len() == sym_diff(set_of(b), set_of(a)).len(),
{
    assert(set_of(a).union(set_of(b)) =~= set_of(b).union(set_of(a)));
    assert(set_of(a).intersect(set_of(b)) =~= set_of(b).intersect(set_of(a)));
    assert(sym_diff(set_of(a), set_of(b)) =~= sym_diff(set_of(b), set_of(a)));
}

/// Identity: a collection compared with itself has nothing different, so
/// its percent different is zero.
pub proof fn lemma_diff_identity(a: Seq<Seq<char>>)
    ensures
        sym_diff(set_of(a), set_of(a)).len() == 0,
        set_of(a).union(set_of(a)).len() == set_of(a).len(),
        set_of(a).intersect(set_of(a)).len() == set_of(a).len(),
{
    assert(sym_diff(set_of(a), set_of(a)) =~= Set::<Seq<char>>::empty());
    assert(set_of(a).union(set_of(a)) =~= set_of(a));
    assert(set_of(a).intersect(set_of(a)) =~= set_of(a));
}

/// Full divergence: when the two collections share no digest and both are
/// non-empty, everything in the union differs, so the percent different
/// is exactly one hundred.
pub proof fn lemma_diff_full_divergence(a: Seq<Seq<char>>, b: Seq<Seq<char>>)
    requires
        set_of(a).intersect(set_of(b)) == Set::<Seq<char>>::empty(),
    ensures
        sym_diff(set_of(a), set_of(b)).len() == set_of(a).union(set_of(b)).len(),
        a.len() > 0 ==> set_of(a).union(set_of(b)).len() > 0,
{
    lemma_card_inclusion_exclusion(set_of(a), set_of(b));
    if a.len() > 0 {
        assert(set_of(a).contains(a[0]));
        assert(set_of(a).union(set_of(b)).contains(a[0]));
        if set_of(a).union(set_of(b)).len() == 0 {
            set_of(a).union(set_of(b)).lemma_len0_is_empty();
            assert(false);
        }
    }
}

} // verus!
