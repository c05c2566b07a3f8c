//! The Merkle aggregator: ordered chunk digests become the leaves of a
//! binary hash tree, built strictly bottom-up. At each level adjacent
//! nodes pair left-to-right into a parent hashing the concatenation of
//! their hashes; a trailing unpaired node is promoted unchanged. Leaf
//! extraction walks depth-first, left before right, and recovers the
//! ordered digests exactly, which makes the tree behaviorally equivalent
//! to flat hashing.

use vstd::prelude::*;
use crate::cache::DigestCache;
use crate::digests::{digest_spec, digests_spec, HashKind};

verus! {

/// A node of the binary hash tree: a leaf holding one digest, or an
/// internal node holding the digest of its children's joined hashes — or
/// its left child's hash unchanged when it has no right child.
pub enum MerkleNode {
    Leaf { hash: String },
    Internal { hash: String, left: Box<MerkleNode>, right: Option<Box<MerkleNode>> },
}

/// The mathematical image of a `MerkleNode`.
#[verifier::ext_equal]
pub enum MerkleModel {
    Leaf { hash: Seq<char> },
    Internal { hash: Seq<char>, left: Box<MerkleModel>, right: Option<Box<MerkleModel>> },
}

/// The model of a node, hash strings replaced by their character
/// sequences.
pub open spec fn model_of(n: MerkleNode) -> MerkleModel
    decreases n,
{
    match n {
        MerkleNode::Leaf { hash } => MerkleModel::Leaf { hash: hash@ },
        MerkleNode::Internal { hash, left, right } => MerkleModel::Internal {
            hash: hash@,
            left: Box::new(model_of(*left)),
            right: match right {
                Option::Some(r) => Option::Some(Box::new(model_of(*r))),
                Option::None => Option::None,
            },
        },
    }
}

impl View for MerkleNode {
    type V = MerkleModel;

    open spec fn view(&self) -> MerkleModel {
        model_of(*self)
    }
}

impl DeepView for MerkleNode {
    type V = MerkleModel;

    open spec fn deep_view(&self) -> MerkleModel {
        model_of(*self)
    }
}

/// The hash at a node's root.
pub open spec fn model_hash(m: MerkleModel) -> Seq<char> {
    match m {
        MerkleModel::Leaf { hash } => hash,
        MerkleModel::Internal { hash, .. } => hash,
    }
}

/// The leaf hashes under a node, left to right.
pub open spec fn leaves_of(m: MerkleModel) -> Seq<Seq<char>>
    decreases m,
{
    match m {
        MerkleModel::Leaf { hash } => seq![hash],
        MerkleModel::Internal { hash, left, right } => leaves_of(*left) + match right {
            Option::Some(r) => leaves_of(*r),
            Option::None => Seq::empty(),
        },
    }
}

/// Hash consistency of a tree: each internal node's hash is the digest of
/// its children's joined hashes, or its left child's hash unchanged when
/// the right child is missing.
pub open spec fn model_wf(m: MerkleModel, kind: HashKind) -> bool
    decreases m,
{
    match m {
        MerkleModel::Leaf { hash } => true,
        MerkleModel::Internal { hash, left, right } => match right {
            Option::Some(r) => hash == digest_spec(model_hash(*left) + model_hash(*r), kind)
                && model_wf(*left, kind) && model_wf(*r, kind),
            Option::None => hash == model_hash(*left) && model_wf(*left, kind),
        },
    }
}

/// One bottom-up round: adjacent nodes pair left-to-right; a trailing
/// unpaired node is promoted, keeping its hash, as an internal node with
/// no right child.
pub open spec fn combine_level(ns: Seq<MerkleModel>, kind: HashKind) -> Seq<MerkleModel>
    decreases ns.len(),
{
    if ns.len() == 0 {
        Seq::empty()
    } else if ns.len() == 1 {
        seq![
            MerkleModel::Internal {
                hash: model_hash(ns[0]),
                left: Box::new(ns[0]),
                right: Option::None,
            },
        ]
    } else {
        seq![
            MerkleModel::Internal {
                hash: digest_spec(model_hash(ns[0]) + model_hash(ns[1]), kind),
                left: Box::new(ns[0]),
                right: Option::Some(Box::new(ns[1])),
            },
        ] + combine_level(ns.skip(2), kind)
    }
}

/// Each round leaves half as many nodes, rounding up.
pub proof fn lemma_combine_level_len(ns: Seq<MerkleModel>, kind: HashKind)
    ensures
        combine_level(ns, kind).len() == (ns.len() + 1) / 2,
    decreases ns.len(),
{
    if ns.len() >= 2 {
        lemma_combine_level_len(ns.skip(2), kind);
    }
}

/// Rounds repeat until a single root remains.
pub open spec fn build_up(ns: Seq<MerkleModel>, kind: HashKind) -> MerkleModel
    decreases ns.len() when ns.len() >= 1 via build_up_decreases
{
    if ns.len() == 1 {
        ns[0]
    } else {
        build_up(combine_level(ns, kind), kind)
    }
}

#[via_fn]
proof fn build_up_decreases(ns: Seq<MerkleModel>, kind: HashKind) {
    if ns.len() >= 2 {
        lemma_combine_level_len(ns, kind);
    }
}

/// The leaf models of a digest sequence.
pub open spec fn leaf_models(digests: Seq<Seq<char>>) -> Seq<MerkleModel> {
    digests.map_values(|d: Seq<char>| MerkleModel::Leaf { hash: d })
}

/// The tree that bottom-up construction assigns to a non-empty ordered
/// digest sequence.
pub open spec fn merkle_spec(digests: Seq<Seq<char>>, kind: HashKind) -> MerkleModel {
    build_up(leaf_models(digests), kind)
}

/// The leaves under a sequence of nodes, in order.
pub open spec fn leaves_concat(ns: Seq<MerkleModel>) -> Seq<Seq<char>>
    decreases ns.len(),
{
    if ns.len() == 0 {
        Seq::empty()
    } else {
        leaves_of(ns[0]) + leaves_concat(ns.drop_first())
    }
}

/// A round of pairing reorders no leaf and loses none.
pub proof fn lemma_combine_level_leaves(ns: Seq<MerkleModel>, kind: HashKind)
    ensures
        leaves_concat(combine_level(ns, kind)) == leaves_concat(ns),
    decreases ns.len(),
{
    let c = combine_level(ns, kind);
    reveal_with_fuel(leaves_concat, 3);
    if ns.len() == 0 {
    } else if ns.len() == 1 {
        assert(c.drop_first() =~= Seq::<MerkleModel>::empty());
        assert(leaves_of(c[0]) =~= leaves_of(ns[0]) + Seq::<Seq<char>>::empty());
        assert(leaves_concat(c) =~= leaves_of(ns[0]));
        assert(ns.drop_first() =~= Seq::<MerkleModel>::empty());
        assert(leaves_concat(ns) =~= leaves_of(ns[0]));
    } else {
        lemma_combine_level_leaves(ns.skip(2), kind);
        let rest = combine_level(ns.skip(2), kind);
        assert(c.drop_first() =~= rest);
        assert(leaves_concat(c) == leaves_of(c[0]) + leaves_concat(rest));
        assert(ns.drop_first().drop_first() =~= ns.skip(2));
        assert(ns.drop_first()[0] == ns[1]);
        assert(leaves_concat(ns) == leaves_of(ns[0]) + (leaves_of(ns[1]) + leaves_concat(
            ns.skip(2),
        )));
        assert(leaves_of(c[0]) == leaves_of(ns[0]) + leaves_of(ns[1]));
        assert((leaves_of(ns[0]) + leaves_of(ns[1])) + leaves_concat(ns.skip(2)) =~= leaves_of(
            ns[0],
        ) + (leaves_of(ns[1]) + leaves_concat(ns.skip(2))));
    }
}

/// Building up from any non-empty node row keeps exactly that row's
/// leaves.
pub proof fn lemma_build_up_leaves(ns: Seq<MerkleModel>, kind: HashKind)
    requires
        ns.len() >= 1,
    ensures
        leaves_of(build_up(ns, kind)) == leaves_concat(ns),
    decreases ns.len(),
{
    if ns.len() == 1 {
        reveal_with_fuel(leaves_concat, 3);
        assert(ns.drop_first() =~= Seq::<MerkleModel>::empty());
        assert(leaves_concat(ns) =~= leaves_of(ns[0]));
    } else {
        lemma_combine_level_len(ns, kind);
        lemma_build_up_leaves(combine_level(ns, kind), kind);
        lemma_combine_level_leaves(ns, kind);
    }
}

/// Merkle leaf equivalence: the leaves extracted from the tree over a
/// non-empty digest sequence are exactly that sequence — in order, and
/// hence also as a set.
pub proof fn lemma_merkle_leaves(digests: Seq<Seq<char>>, kind: HashKind)
    requires
        digests.len() >= 1,
    ensures
        leaves_of(merkle_spec(digests, kind)) == digests,
        leaves_of(merkle_spec(digests, kind)).to_set() == digests.to_set(),
{
    lemma_leaf_models_leaves(digests);
    lemma_build_up_leaves(leaf_models(digests), kind);
}

/// The leaves under a row of fresh leaf nodes are the digests themselves.
proof fn lemma_leaf_models_leaves(digests: Seq<Seq<char>>)
    ensures
        leaves_concat(leaf_models(digests)) == digests,
    decreases digests.len(),
{
    let ms = leaf_models(digests);
    reveal_with_fuel(leaves_concat, 3);
    if digests.len() == 0 {
        assert(leaves_concat(ms) =~= digests);
    } else {
        lemma_leaf_models_leaves(digests.drop_first());
        assert(ms.drop_first() =~= leaf_models(digests.drop_first()));
        assert(ms[0] == MerkleModel::Leaf { hash: digests[0] });
        assert(leaves_of(ms[0]) =~= seq![digests[0]]);
        assert(seq![digests[0]] + digests.drop_first() =~= digests);
    }
}

/// All nodes of a row stay hash-consistent through a round of pairing.
proof fn lemma_combine_level_wf(ns: Seq<MerkleModel>, kind: HashKind)
    requires
        forall|k: int| 0 <= k < ns.len() ==> model_wf(#[trigger] ns[k], kind),
    ensures
        forall|k: int|
            0 <= k < combine_level(ns, kind).len() ==> model_wf(
                #[trigger] combine_level(ns, kind)[k],
                kind,
            ),
    decreases ns.len(),
{
    let c = combine_level(ns, kind);
    if ns.len() == 0 {
    } else if ns.len() == 1 {
        assert(model_wf(c[0], kind));
    } else {
        assert(forall|k: int| 0 <= k < ns.skip(2).len() ==> model_wf(#[trigger] ns.skip(2)[k], kind));
        lemma_combine_level_wf(ns.skip(2), kind);
        let rest = combine_level(ns.skip(2), kind);
        assert(model_wf(c[0], kind));
        assert(forall|k: int| 1 <= k < c.len() ==> c[k] == rest[k - 1]);
    }
}

/// The built tree is hash-consistent: every internal node's hash is the
/// digest of its children's joined hashes (or an unchanged promotion).
pub proof fn lemma_merkle_wf(digests: Seq<Seq<char>>, kind: HashKind)
    requires
        digests.len() >= 1,
    ensures
        model_wf(merkle_spec(digests, kind), kind),
{
    assert(forall|k: int|
        0 <= k < leaf_models(digests).len() ==> model_wf(#[trigger] leaf_models(digests)[k], kind));
    lemma_build_up_wf(leaf_models(digests), kind);
}

proof fn lemma_build_up_wf(ns: Seq<MerkleModel>, kind: HashKind)
    requires
        ns.len() >= 1,
        forall|k: int| 0 <= k < ns.len() ==> model_wf(#[trigger] ns[k], kind),
    ensures
        model_wf(build_up(ns, kind), kind),
    decreases ns.len(),
{
    if ns.len() == 1 {
    } else {
        lemma_combine_level_len(ns, kind);
        lemma_combine_level_wf(ns, kind);
        lemma_build_up_wf(combine_level(ns, kind), kind);
    }
}

/// The height of a node: the longest child chain below it.
pub open spec fn height_of(m: MerkleModel) -> nat
    decreases m,
{
    match m {
        MerkleModel::Leaf { hash } => 0,
        MerkleModel::Internal { hash, left, right } => 1 + match right {
            Option::Some(r) => if height_of(*r) > height_of(*left) {
                height_of(*r)
            } else {
                height_of(*left)
            },
            Option::None => height_of(*left),
        },
    }
}

/// The ceiling of the base-two logarithm, by repeated halving upward.
pub open spec fn clog2(n: nat) -> nat
    decreases n,
{
    if n <= 1 {
        0
    } else {
        1 + clog2(((n + 1) / 2) as nat)
    }
}

/// `clog2` deserves its name: `2^clog2(n)` reaches `n`, and no smaller
/// exponent does.
pub proof fn lemma_clog2_is_ceil_log2(n: nat)
    requires
        n >= 1,
    ensures
        vstd::arithmetic::power2::pow2(clog2(n)) >= n,
        forall|k: nat| vstd::arithmetic::power2::pow2(k) >= n ==> clog2(n) <= k,
    decreases n,
{
    broadcast use vstd::arithmetic::power2::lemma_pow2_unfold, vstd::arithmetic::power2::lemma_pow2_pos;

    if n <= 1 {
    } else {
        let m = ((n + 1) / 2) as nat;
        assert(1 <= m < n);
        lemma_clog2_is_ceil_log2(m);
        assert(vstd::arithmetic::power2::pow2(clog2(n)) == 2 * vstd::arithmetic::power2::pow2(
            clog2(m),
        ));
        assert(2 * m >= n);
        assert forall|k: nat| vstd::arithmetic::power2::pow2(k) >= n implies clog2(n) <= k by {
            if k == 0 {
                vstd::arithmetic::power2::lemma2_to64();
                assert(vstd::arithmetic::power2::pow2(0) == 1);
            } else {
                let p = vstd::arithmetic::power2::pow2((k - 1) as nat);
                assert(vstd::arithmetic::power2::pow2(k) == 2 * p);
                assert(2 * p >= n);
                assert(p >= m);
                assert(vstd::arithmetic::power2::pow2((k - 1) as nat) >= m);
                assert(clog2(m) <= k - 1);
            }
        }
    }
}

/// A round of pairing raises every node's height by exactly one.
proof fn lemma_combine_level_height(ns: Seq<MerkleModel>, kind: HashKind, h: nat)
    requires
        forall|k: int| 0 <= k < ns.len() ==> height_of(#[trigger] ns[k]) == h,
    ensures
        forall|k: int|
            0 <= k < combine_level(ns, kind).len() ==> height_of(
                #[trigger] combine_level(ns, kind)[k],
            ) == h + 1,
    decreases ns.len(),
{
    let c = combine_level(ns, kind);
    if ns.len() == 0 {
    } else if ns.len() == 1 {
        assert(height_of(c[0]) == h + 1);
    } else {
        assert(forall|k: int|
            0 <= k < ns.skip(2).len() ==> height_of(#[trigger] ns.skip(2)[k]) == h);
        lemma_combine_level_height(ns.skip(2), kind, h);
        let rest = combine_level(ns.skip(2), kind);
        assert(height_of(c[0]) == h + 1);
        assert(forall|k: int| 1 <= k < c.len() ==> c[k] == rest[k - 1]);
    }
}

proof fn lemma_build_up_height(ns: Seq<MerkleModel>, kind: HashKind, h: nat)
    requires
        ns.len() >= 1,
        forall|k: int| 0 <= k < ns.len() ==> height_of(#[trigger] ns[k]) == h,
    ensures
        height_of(build_up(ns, kind)) == h + clog2(ns.len()),
    decreases ns.len(),
{
    if ns.len() == 1 {
    } else {
        lemma_combine_level_len(ns, kind);
        lemma_combine_level_height(ns, kind, h);
        lemma_build_up_height(combine_level(ns, kind), kind, (h + 1) as nat);
    }
}

/// The tree over `n` digests has height exactly the ceiling of
/// `log2(n)`: leaves sit at depth zero and each pairing round adds one
/// level until a single root remains.
pub proof fn lemma_merkle_height(digests: Seq<Seq<char>>, kind: HashKind)
    requires
        digests.len() >= 1,
    ensures
        height_of(merkle_spec(digests, kind)) == clog2(digests.len()),
{
    assert(forall|k: int|
        0 <= k < leaf_models(digests).len() ==> height_of(#[trigger] leaf_models(digests)[k])
            == 0);
    lemma_build_up_height(leaf_models(digests), kind, 0);
}

impl MerkleNode {
    /// The hash at this node's root.
    pub fn hash(&self) -> (r: &String)
        ensures
            r@ == model_hash(self@),
    {
        match self {
            MerkleNode::Leaf { hash } => hash,
            MerkleNode::Internal { hash, .. } => hash,
        }
    }
}

/// Builds the binary hash tree over the digests of the given chunks,
/// bottom-up, level by level. Zero chunks yield no tree; otherwise the
/// result is exactly the tree that `merkle_spec` assigns to the chunk
/// digests.
pub fn build_merkle_tree(chunks: &Vec<String>, kind: HashKind, cache: &mut DigestCache) -> (r:
    Option<MerkleNode>)
    requires
        old(cache).wf(),
    ensures
        final(cache).wf(),
        r is None <==> chunks@.len() == 0,
        r matches Some(t) ==> t@ == merkle_spec(digests_spec(chunks.deep_view(), kind), kind),
{
    let ghost ds = digests_spec(chunks.deep_view(), kind);
    if chunks.len() == 0 {
        return None;
    }
    let n = chunks.len();
    let mut nodes: Vec<MerkleNode> = Vec::new();
    let mut i: usize = 0;
    proof {
        assert(nodes.deep_view() =~= leaf_models(ds).take(0));
    }
    while i < n
        invariant
            0 <= i <= n,
            n == chunks@.len(),
            ds == digests_spec(chunks.deep_view(), kind),
            cache.wf(),
            nodes.deep_view() == leaf_models(ds).take(i as int),
        decreases n - i,
    {
        let d = cache.digest_cached(chunks[i].as_str(), kind);
        let ghost old_dv = nodes.deep_view();
        nodes.push(MerkleNode::Leaf { hash: d });
        proof {
            assert(chunks.deep_view()[i as int] == chunks@[i as int]@);
            assert(leaf_models(ds)[i as int] == MerkleModel::Leaf { hash: ds[i as int] });
            assert(nodes.deep_view() =~= old_dv.push(MerkleModel::Leaf { hash: d@ }));
            assert(leaf_models(ds).take(i + 1) =~= leaf_models(ds).take(i as int).push(
                leaf_models(ds)[i as int],
            ));
        }
        i = i + 1;
    }
    proof {
        assert(leaf_models(ds).take(n as int) =~= leaf_models(ds));
        assert(leaf_models(ds).len() == n);
    }
    while nodes.len() > 1
        invariant
            1 <= nodes@.len(),
            cache.wf(),
            ds == digests_spec(chunks.deep_view(), kind),
            build_up(nodes.deep_view(), kind) == merkle_spec(ds, kind),
        decreases nodes@.len(),
    {
        let ghost level = nodes.deep_view();
        let mut next: Vec<MerkleNode> = Vec::new();
        proof {
            assert(next.deep_view() =~= Seq::<MerkleModel>::empty());
            assert(Seq::<MerkleModel>::empty() + combine_level(level, kind) =~= combine_level(
                level,
                kind,
            ));
        }
        while nodes.len() > 0
            invariant
                cache.wf(),
                combine_level(level, kind) == next.deep_view() + combine_level(
                    nodes.deep_view(),
                    kind,
                ),
            decreases nodes@.len(),
        {
            let ghost cur = nodes.deep_view();
            let ghost next_before = next.deep_view();
            if nodes.len() >= 2 {
                let a = nodes.remove(0);
                let b = nodes.remove(0);
                proof {
                    assert(a@ == cur[0]);
                    assert(b@ == cur.remove(0)[0]);
                    assert(cur.remove(0)[0] == cur[1]);
                    assert(nodes.deep_view() =~= cur.skip(2));
                }
                let mut combined = a.hash().clone();
                combined.append(b.hash().as_str());
                let h = cache.digest_cached(combined.as_str(), kind);
                let node = MerkleNode::Internal {
                    hash: h,
                    left: Box::new(a),
                    right: Some(Box::new(b)),
                };
                proof {
                    assert(node@ == combine_level(cur, kind)[0]);
                }
                next.push(node);
                proof {
                    assert(next.deep_view() =~= next_before.push(combine_level(cur, kind)[0]));
                    assert(combine_level(cur, kind) == seq![combine_level(cur, kind)[0]]
                        + combine_level(cur.skip(2), kind));
                    assert(next_before.push(combine_level(cur, kind)[0]) + combine_level(
                        cur.skip(2),
                        kind,
                    ) =~= next_before + combine_level(cur, kind));
                }
            } else {
                let a = nodes.remove(0);
                proof {
                    assert(a@ == cur[0]);
                    assert(nodes.deep_view() =~= Seq::<MerkleModel>::empty());
                }
                let h = a.hash().clone();
                let node = MerkleNode::Internal { hash: h, left: Box::new(a), right: None };
                proof {
                    assert(combine_level(cur, kind) =~= seq![node@]);
                }
                next.push(node);
                proof {
                    assert(next.deep_view() =~= next_before.push(node@));
                    assert(combine_level(Seq::<MerkleModel>::empty(), kind)
                        =~= Seq::<MerkleModel>::empty());
                    assert(next_before.push(node@) + Seq::<MerkleModel>::empty() =~= next_before
                        + seq![node@]);
                }
            }
        }
        proof {
            assert(nodes.deep_view() =~= Seq::<MerkleModel>::empty());
            assert(combine_level(Seq::<MerkleModel>::empty(), kind)
                =~= Seq::<MerkleModel>::empty());
            assert(next.deep_view() + Seq::<MerkleModel>::empty() =~= next.deep_view());
            assert(next.deep_view() == combine_level(level, kind));
            lemma_combine_level_len(level, kind);
            assert(level.len() >= 2);
            assert(build_up(level, kind) == build_up(combine_level(level, kind), kind));
        }
        nodes = next;
    }
    let ghost dv = nodes.deep_view();
    let root = match nodes.pop() {
        Some(t) => t,
        None => {
            proof {
                assert(false);
            }
            MerkleNode::Leaf { hash: String::new() }
        },
    };
    proof {
        assert(dv.len() == 1);
        assert(root@ == dv[0]);
        assert(build_up(dv, kind) == dv[0]);
    }
    Some(root)
}

/// Walks the tree depth-first, left before right, collecting the leaf
/// digests in their original order.
pub fn extract_merkle_hashes(node: &MerkleNode) -> (r: Vec<String>)
    ensures
        r.deep_view() == leaves_of(node@),
    decreases *node,
{
    match node {
        MerkleNode::Leaf { hash } => {
            let mut r: Vec<String> = Vec::new();
            r.push(hash.clone());
            proof {
                assert(r.deep_view() =~= seq![hash@]);
            }
            r
        },
        MerkleNode::Internal { hash, left, right } => {
            let mut r = extract_merkle_hashes(left);
            match right {
                Some(rt) => {
                    let ghost left_dv = r.deep_view();
                    let mut r2 = extract_merkle_hashes(rt);
                    let ghost right_dv = r2.deep_view();
                    r.append(&mut r2);
                    proof {
                        assert(r.deep_view() =~= left_dv + right_dv);
                    }
                },
                None => {
                    proof {
                        assert(r.deep_view() =~= leaves_of(node@));
                    }
                },
            }
            r
        },
    }
}

/// The ordered chunk digests recovered through the tree: build, then
/// extract the leaves. The result equals flat hashing of the chunks.
pub fn merkle_tree_hash(chunks: &Vec<String>, kind: HashKind, cache: &mut DigestCache) -> (r: Vec<
    String,
>)
    requires
        old(cache).wf(),
    ensures
        final(cache).wf(),
        r.deep_view() == digests_spec(chunks.deep_view(), kind),
{
    let ghost ds = digests_spec(chunks.deep_view(), kind);
    match build_merkle_tree(chunks, kind, cache) {
        Some(tree) => {
            let r = extract_merkle_hashes(&tree);
            proof {
                lemma_merkle_leaves(ds, kind);
            }
            r
        },
        None => {
            let r: Vec<String> = Vec::new();
            proof {
                assert(r.deep_view() =~= ds);
            }
            r
        },
    }
}

} // verus!
