//! The chunker: consecutive tokens are grouped into fixed-size chunks and
//! each group's labels are joined with a `|` delimiter into one hashable
//! chunk string. A chunk size at or below one makes each token its own
//! chunk; the final group may be shorter than the chunk size.

use vstd::prelude::*;
use crate::text::{join, push_char};
use crate::token::{Token, TokenModel, label_of};

verus! {

/// The rendered labels of a token sequence, in order.
pub open spec fn labels_of(ts: Seq<TokenModel>) -> Seq<Seq<char>> {
    ts.map_values(|t: TokenModel| label_of(t))
}

/// The delimiter placed between token labels inside one chunk string.
pub open spec fn chunk_delim() -> Seq<char> {
    seq!['|']
}

/// The consecutive groups of at most `k` labels, in order: all groups hold
/// exactly `k` labels except possibly the last.
pub open spec fn chunk_groups(labels: Seq<Seq<char>>, k: int) -> Seq<Seq<Seq<char>>>
    decreases labels.len() when k >= 1
{
    if labels.len() == 0 {
        Seq::empty()
    } else if labels.len() <= k {
        seq![labels]
    } else {
        seq![labels.take(k)] + chunk_groups(labels.skip(k), k)
    }
}

/// The chunk strings of a label sequence: each group joined with the
/// delimiter.
pub open spec fn chunks_of(labels: Seq<Seq<char>>, k: int) -> Seq<Seq<char>> {
    chunk_groups(labels, k).map_values(|g: Seq<Seq<char>>| join(g, chunk_delim()))
}

/// What `chunk` returns: the chunk strings of the tokens' labels, under
/// the chunk size normalized to at least one.
pub open spec fn chunk_spec(ts: Seq<TokenModel>, size: int) -> Seq<Seq<char>> {
    chunks_of(labels_of(ts), if size < 1 { 1 } else { size })
}

/// Chunk coverage: the groups partition the labels — flattening the
/// groups in order gives back exactly the label sequence, so every token
/// lands in exactly one chunk — and each group holds between 1 and `k`
/// labels.
pub proof fn lemma_chunk_groups_cover(labels: Seq<Seq<char>>, k: int)
    requires
        k >= 1,
    ensures
        chunk_groups(labels, k).flatten() == labels,
        forall|g: int|
            0 <= g < chunk_groups(labels, k).len() ==> 1 <= (#[trigger] chunk_groups(
                labels,
                k,
            )[g]).len() <= k,
    decreases labels.len(),
{
    let gs = chunk_groups(labels, k);
    reveal_with_fuel(Seq::<_>::flatten, 3);
    if labels.len() == 0 {
        assert(gs.flatten() =~= labels);
    } else if labels.len() <= k {
        assert(gs.drop_first() =~= Seq::<Seq<Seq<char>>>::empty());
        assert(gs.first() == labels);
        assert(gs.flatten() =~= labels + Seq::<Seq<char>>::empty());
        assert(gs.flatten() =~= labels);
    } else {
        lemma_chunk_groups_cover(labels.skip(k), k);
        assert(gs.drop_first() =~= chunk_groups(labels.skip(k), k));
        assert(gs.flatten() == labels.take(k) + chunk_groups(labels.skip(k), k).flatten());
        assert(labels.take(k) + labels.skip(k) =~= labels);
    }
}

/// Chunk count: with `n` labels and group size `k`, the number of chunks
/// is the rounding-up of `n / k`.
pub proof fn lemma_chunk_count(labels: Seq<Seq<char>>, k: int)
    requires
        k >= 1,
    ensures
        chunks_of(labels, k).len() == (labels.len() + k - 1) / k,
    decreases labels.len(),
{
    let n = labels.len() as int;
    if n == 0 {
        assert((k - 1) / k == 0) by (nonlinear_arith)
            requires
                k >= 1,
        ;
    } else if n <= k {
        assert(chunk_groups(labels, k).len() == 1);
        assert((n + k - 1) / k == 1) by (nonlinear_arith)
            requires
                1 <= n <= k,
        ;
    } else {
        lemma_chunk_count(labels.skip(k), k);
        assert(chunk_groups(labels, k).len() == 1 + chunk_groups(labels.skip(k), k).len());
        assert(labels.skip(k).len() == n - k);
        assert((n - k + k - 1) / k + 1 == (n + k - 1) / k) by (nonlinear_arith)
            requires
                k >= 1,
                n > k,
        ;
    }
}

/// There are never more chunks than labels.
pub proof fn lemma_chunk_count_le(labels: Seq<Seq<char>>, k: int)
    requires
        k >= 1,
    ensures
        chunks_of(labels, k).len() <= labels.len(),
    decreases labels.len(),
{
    if labels.len() > k {
        lemma_chunk_count_le(labels.skip(k), k);
    }
}

/// Groups consecutive tokens and joins each group's labels with the
/// delimiter. A `chunk_size` at or below one maps each token to its own
/// chunk.
pub fn chunk(tokens: &Vec<Token>, chunk_size: usize) -> (r: Vec<String>)
    ensures
        r.deep_view() == chunk_spec(tokens.deep_view(), chunk_size as int),
{
    let k: usize = if chunk_size < 1 {
        1
    } else {
        chunk_size
    };
    let ghost labels = labels_of(tokens.deep_view());
    let n = tokens.len();
    let mut r: Vec<String> = Vec::new();
    let mut i: usize = 0;
    proof {
        assert(labels.len() == n);
        assert(labels.skip(0) =~= labels);
        assert(r.deep_view() =~= Seq::<Seq<char>>::empty());
        assert(Seq::<Seq<char>>::empty() + chunks_of(labels, k as int) =~= chunks_of(
            labels,
            k as int,
        ));
    }
    while i < n
        invariant
            1 <= k,
            n == tokens@.len(),
            labels == labels_of(tokens.deep_view()),
            labels.len() == n,
            0 <= i <= n,
            chunks_of(labels, k as int) == r.deep_view() + chunks_of(
                labels.skip(i as int),
                k as int,
            ),
        decreases n - i,
    {
        let end: usize = if n - i < k {
            n
        } else {
            i + k
        };
        let mut s = tokens[i].label();
        proof {
            assert(tokens.deep_view()[i as int] == tokens@[i as int]@);
            assert(labels[i as int] == label_of(tokens.deep_view()[i as int]));
            assert(labels.subrange(i as int, i + 1) =~= seq![labels[i as int]]);
            assert(join(labels.subrange(i as int, i + 1), chunk_delim()) == labels[i as int]);
        }
        let mut j: usize = i + 1;
        while j < end
            invariant
                i < j <= end <= n,
                n == tokens@.len(),
                labels == labels_of(tokens.deep_view()),
                labels.len() == n,
                s@ == join(labels.subrange(i as int, j as int), chunk_delim()),
            decreases end - j,
        {
            push_char(&mut s, '|');
            let lbl = tokens[j].label();
            s.append(lbl.as_str());
            proof {
                let pre = labels.subrange(i as int, j as int);
                assert(tokens.deep_view()[j as int] == tokens@[j as int]@);
                assert(labels[j as int] == label_of(tokens.deep_view()[j as int]));
                assert(labels.subrange(i as int, j + 1) =~= pre.push(labels[j as int]));
                crate::text::lemma_join_push(pre, chunk_delim(), labels[j as int]);
                assert(pre.len() >= 1);
                assert(s@ =~= join(pre, chunk_delim()) + chunk_delim() + labels[j as int]);
            }
            j = j + 1;
        }
        let ghost old_dv = r.deep_view();
        r.push(s);
        proof {
            let rest = labels.skip(i as int);
            let ki = k as int;
            assert(rest.len() == n - i);
            if n - i <= ki {
                assert(rest =~= labels.subrange(i as int, end as int));
                assert(chunk_groups(rest, ki) == seq![rest]);
                assert(chunks_of(rest, ki) =~= seq![join(rest, chunk_delim())]);
                assert(labels.skip(end as int) =~= Seq::<Seq<char>>::empty());
                assert(chunks_of(labels.skip(end as int), ki) =~= Seq::<Seq<char>>::empty());
            } else {
                assert(rest.take(ki) =~= labels.subrange(i as int, end as int));
                assert(rest.skip(ki) =~= labels.skip(end as int));
                assert(chunk_groups(rest, ki) == seq![rest.take(ki)] + chunk_groups(
                    labels.skip(end as int),
                    ki,
                ));
                assert(chunks_of(rest, ki) =~= seq![join(rest.take(ki), chunk_delim())]
                    + chunks_of(labels.skip(end as int), ki));
            }
            assert(r.deep_view() =~= old_dv.push(s@));
            assert(old_dv.push(s@) + chunks_of(labels.skip(end as int), ki) =~= old_dv + (seq![s@]
                + chunks_of(labels.skip(end as int), ki)));
        }
        i = end;
    }
    proof {
        assert(labels.skip(n as int) =~= Seq::<Seq<char>>::empty());
        assert(chunks_of(Seq::<Seq<char>>::empty(), k as int) =~= Seq::<Seq<char>>::empty());
        assert(r.deep_view() + Seq::<Seq<char>>::empty() =~= r.deep_view());
    }
    r
}

} // verus!
