//! The line-diff reconstructor: token-level additions and removals mapped
//! back to line ranges with content previews.
//!
//! A token of one side counts as changed when its label is absent from
//! the other side's label set — comparison is by content alone, so a
//! token that merely moved lines is invisible. Changed tokens are sorted
//! by line, grouped into maximal runs of same-or-consecutive line
//! numbers, and each run becomes one entry: a `L{n}` or `L{start}-L{end}`
//! range, and a preview of up to two sampled labels, truncated to one
//! hundred characters and signed `+ ` or `- `. All added entries come
//! first, then all removed ones.

use vstd::prelude::*;
use crate::numfmt::dec_of;
use crate::text::join;
use crate::token::{Token, TokenKind, TokenModel, label_of};

verus! {

/// Whether an entry reports content present only in the new document or
/// only in the old one.
#[derive(Clone, Copy, PartialEq, Eq, Structural, Debug)]
pub enum ChangeKind {
    Added,
    Removed,
}

/// One reported change: a line range, a direction, and a preview of the
/// changed content.
pub struct LineDiffEntry {
    pub line_range: String,
    pub change: ChangeKind,
    pub content_preview: String,
}

/// The mathematical image of a `LineDiffEntry`.
#[verifier::ext_equal]
pub struct LineDiffModel {
    pub line_range: Seq<char>,
    pub change: ChangeKind,
    pub content_preview: Seq<char>,
}

impl View for LineDiffEntry {
    type V = LineDiffModel;

    open spec fn view(&self) -> LineDiffModel {
        LineDiffModel {
            line_range: self.line_range@,
            change: self.change,
            content_preview: self.content_preview@,
        }
    }
}

impl DeepView for LineDiffEntry {
    type V = LineDiffModel;

    open spec fn deep_view(&self) -> LineDiffModel {
        self.view()
    }
}

/// The set of labels present in a token sequence.
pub open spec fn content_set(ts: Seq<TokenModel>) -> Set<Seq<char>> {
    ts.map_values(|t: TokenModel| label_of(t)).to_set()
}

/// The tokens of `ts` whose labels are absent from `other`, as
/// `(line, label)` pairs in document order.
pub open spec fn changed_items(ts: Seq<TokenModel>, other: Set<Seq<char>>) -> Seq<(int, Seq<char>)>
    decreases ts.len(),
{
    if ts.len() == 0 {
        Seq::empty()
    } else {
        let rest = changed_items(ts.drop_last(), other);
        if !other.contains(label_of(ts.last())) {
            rest.push((ts.last().line, label_of(ts.last())))
        } else {
            rest
        }
    }
}

/// Insertion after every entry whose line does not exceed the new one:
/// the stable insertion that `sort_by_line` builds on.
pub open spec fn sorted_insert(s: Seq<(int, Seq<char>)>, x: (int, Seq<char>)) -> Seq<
    (int, Seq<char>),
>
    decreases s.len(),
{
    if s.len() == 0 {
        seq![x]
    } else if x.0 < s[0].0 {
        seq![x] + s
    } else {
        seq![s[0]] + sorted_insert(s.drop_first(), x)
    }
}

/// Stable sort by line number: items are taken left to right, each placed
/// after the already-sorted items of its line.
pub open spec fn sort_by_line(s: Seq<(int, Seq<char>)>) -> Seq<(int, Seq<char>)>
    decreases s.len(),
{
    if s.len() == 0 {
        Seq::empty()
    } else {
        sorted_insert(sort_by_line(s.drop_last()), s.last())
    }
}

/// Nondecreasing line numbers.
pub open spec fn sorted_by_line(s: Seq<(int, Seq<char>)>) -> bool {
    forall|i: int, j: int| 0 <= i < j < s.len() ==> (#[trigger] s[i]).0 <= (#[trigger] s[j]).0
}

/// Whether the item after one with line `prev` continues the same run:
/// it sits on the same line or the very next one.
pub open spec fn run_continues(prev: int, next: int) -> bool {
    next == prev || next == prev + 1
}

/// The length of the maximal run at the front of `items`.
pub open spec fn run_len(items: Seq<(int, Seq<char>)>) -> int
    decreases items.len(),
{
    if items.len() <= 1 {
        items.len() as int
    } else if run_continues(items[0].0, items[1].0) {
        1 + run_len(items.drop_first())
    } else {
        1
    }
}

pub proof fn lemma_run_len_bounds(items: Seq<(int, Seq<char>)>)
    ensures
        items.len() == 0 ==> run_len(items) == 0,
        items.len() >= 1 ==> 1 <= run_len(items) <= items.len(),
    decreases items.len(),
{
    if items.len() > 1 && run_continues(items[0].0, items[1].0) {
        lemma_run_len_bounds(items.drop_first());
    }
}

/// A maximal run's length is pinned by its inside pairs continuing and
/// its boundary pair (when there is one) breaking.
pub proof fn lemma_run_len_exact(items: Seq<(int, Seq<char>)>, r: int)
    requires
        1 <= r <= items.len(),
        forall|t: int| 1 <= t < r ==> run_continues(#[trigger] items[t - 1].0, items[t].0),
        r < items.len() ==> !run_continues(items[r - 1].0, items[r].0),
    ensures
        run_len(items) == r,
    decreases items.len(),
{
    if r == 1 {
        if items.len() > 1 {
            assert(!run_continues(items[0].0, items[1].0));
        }
    } else {
        let d = items.drop_first();
        assert(run_continues(items[0].0, items[1].0)) by {
            assert(run_continues(items[1 - 1].0, items[1].0));
        }
        assert forall|t: int| 1 <= t < r - 1 implies run_continues(
            #[trigger] d[t - 1].0,
            d[t].0,
        ) by {
            assert(d[t - 1] == items[t]);
            assert(d[t] == items[t + 1]);
            assert(run_continues(items[t + 1 - 1].0, items[t + 1].0));
        }
        if r - 1 < d.len() {
            assert(d[r - 2] == items[r - 1] && d[r - 1] == items[r]);
        }
        lemma_run_len_exact(d, r - 1);
    }
}

/// The separator written between sampled labels in a preview.
pub open spec fn sample_sep() -> Seq<char> {
    seq![',', ' ']
}

/// The preview content of a run's samples: at most two are written out;
/// a third sampled item is elided into a count.
pub open spec fn preview_content(samples: Seq<Seq<char>>) -> Seq<char> {
    if samples.len() <= 2 {
        join(samples, sample_sep())
    } else {
        samples[0] + sample_sep() + samples[1] + seq![' ', '.', '.', '.', ' ', '('] + dec_of(
            (samples.len() - 2) as nat,
        ) + seq![' ', 'm', 'o', 'r', 'e', ')']
    }
}

/// A preview is cut off after one hundred characters.
pub open spec fn trunc100(s: Seq<char>) -> Seq<char> {
    if s.len() <= 100 {
        s
    } else {
        s.take(100)
    }
}

/// The `+ ` / `- ` sign that opens a preview.
pub open spec fn sign_of(c: ChangeKind) -> Seq<char> {
    match c {
        ChangeKind::Added => seq!['+', ' '],
        ChangeKind::Removed => seq!['-', ' '],
    }
}

/// `L{n}` for a single line, `L{start}-L{end}` for a longer run.
pub open spec fn range_label(start: int, end: int) -> Seq<char> {
    if start == end {
        seq!['L'] + dec_of(start as nat)
    } else {
        seq!['L'] + dec_of(start as nat) + seq!['-', 'L'] + dec_of(end as nat)
    }
}

/// The entry reported for one non-empty run of items.
pub open spec fn run_entry(pre: Seq<(int, Seq<char>)>, c: ChangeKind) -> LineDiffModel {
    let samples = pre.take(if pre.len() < 3 {
        pre.len() as int
    } else {
        3
    }).map_values(|p: (int, Seq<char>)| p.1);
    LineDiffModel {
        line_range: range_label(pre[0].0, pre.last().0),
        change: c,
        content_preview: sign_of(c) + trunc100(preview_content(samples)),
    }
}

/// The entries of a sorted item sequence: one per maximal run, in order.
pub open spec fn entries_of(items: Seq<(int, Seq<char>)>, c: ChangeKind) -> Seq<LineDiffModel>
    decreases items.len() via entries_of_decreases
{
    if items.len() == 0 {
        Seq::empty()
    } else {
        seq![run_entry(items.take(run_len(items)), c)] + entries_of(
            items.skip(run_len(items)),
            c,
        )
    }
}

#[via_fn]
proof fn entries_of_decreases(items: Seq<(int, Seq<char>)>, c: ChangeKind) {
    lemma_run_len_bounds(items);
}

/// What `line_diff` returns: all added entries in ascending line order,
/// then all removed entries in ascending line order.
pub open spec fn line_diff_spec(a: Seq<TokenModel>, b: Seq<TokenModel>) -> Seq<LineDiffModel> {
    entries_of(sort_by_line(changed_items(b, content_set(a))), ChangeKind::Added) + entries_of(
        sort_by_line(changed_items(a, content_set(b))),
        ChangeKind::Removed,
    )
}

/// Identical token sequences yield an empty line diff: every label of the
/// one side is present on the other, so nothing counts as changed.
pub proof fn lemma_line_diff_identity(t: Seq<TokenModel>)
    ensures
        line_diff_spec(t, t) == Seq::<LineDiffModel>::empty(),
{
    lemma_changed_items_self(t, t);
    assert(line_diff_spec(t, t) =~= Seq::<LineDiffModel>::empty());
}

/// No token of a prefix of `t` is a change against `t`'s own content.
proof fn lemma_changed_items_self(p: Seq<TokenModel>, t: Seq<TokenModel>)
    requires
        p.len() <= t.len(),
        forall|k: int| 0 <= k < p.len() ==> p[k] == t[k],
    ensures
        changed_items(p, content_set(t)) == Seq::<(int, Seq<char>)>::empty(),
    decreases p.len(),
{
    if p.len() > 0 {
        lemma_changed_items_self(p.drop_last(), t);
        let lbls = t.map_values(|tok: TokenModel| label_of(tok));
        assert(p.last() == t[p.len() - 1]);
        assert(lbls[p.len() - 1] == label_of(p.last()));
        assert(lbls.contains(label_of(p.last())));
        assert(content_set(t).contains(label_of(p.last())));
    }
}

/// The mathematical image of a `(line, label)` working item.
pub open spec fn items_model(s: Seq<(usize, String)>) -> Seq<(int, Seq<char>)> {
    s.map_values(|p: (usize, String)| (p.0 as int, p.1@))
}

/// A stable insert lands exactly at the first position whose line exceeds
/// the new item's, and keeps the items sorted.
proof fn lemma_sorted_insert_at(s: Seq<(int, Seq<char>)>, x: (int, Seq<char>), pos: int)
    requires
        sorted_by_line(s),
        0 <= pos <= s.len(),
        forall|k: int| 0 <= k < pos ==> (#[trigger] s[k]).0 <= x.0,
        pos < s.len() ==> s[pos].0 > x.0,
    ensures
        sorted_insert(s, x) == s.insert(pos, x),
        sorted_by_line(s.insert(pos, x)),
    decreases s.len(),
{
    let r = s.insert(pos, x);
    assert forall|i: int, j: int| 0 <= i < j < r.len() implies (#[trigger] r[i]).0 <= (
    #[trigger] r[j]).0 by {
        if i < pos {
            assert(r[i] == s[i]);
        } else if i == pos {
            assert(r[i] == x);
        } else {
            assert(r[i] == s[i - 1]);
        }
        if j < pos {
            assert(r[j] == s[j]);
        } else if j == pos {
            assert(r[j] == x);
        } else {
            assert(r[j] == s[j - 1]);
        }
    }
    if pos == 0 {
        if s.len() == 0 {
            assert(sorted_insert(s, x) =~= s.insert(0, x));
        } else {
            assert(x.0 < s[0].0);
            assert(sorted_insert(s, x) == seq![x] + s);
            assert(seq![x] + s =~= s.insert(0, x));
        }
    } else {
        assert(s[0].0 <= x.0);
        assert(!(x.0 < s[0].0));
        let d = s.drop_first();
        assert(forall|i: int, j: int|
            0 <= i < j < d.len() ==> (#[trigger] d[i]).0 <= (#[trigger] d[j]).0) by {
            assert(forall|k: int| 0 <= k < d.len() ==> d[k] == s[k + 1]);
        }
        assert(forall|k: int| 0 <= k < pos - 1 ==> (#[trigger] d[k]).0 <= x.0) by {
            assert(forall|k: int| 0 <= k < d.len() ==> d[k] == s[k + 1]);
        }
        if pos - 1 < d.len() {
            assert(d[pos - 1] == s[pos]);
        }
        lemma_sorted_insert_at(d, x, pos - 1);
        assert(sorted_insert(s, x) == seq![s[0]] + d.insert(pos - 1, x));
        assert(seq![s[0]] + d.insert(pos - 1, x) =~= s.insert(pos, x));
    }
}

/// The rendered labels of a token vector.
fn labels_vec(tokens: &Vec<Token>) -> (r: Vec<String>)
    ensures
        r.deep_view() == tokens.deep_view().map_values(|t: TokenModel| label_of(t)),
{
    let n = tokens.len();
    let ghost lbls = tokens.deep_view().map_values(|t: TokenModel| label_of(t));
    let mut r: Vec<String> = Vec::new();
    let mut i: usize = 0;
    proof {
        assert(r.deep_view() =~= lbls.take(0));
    }
    while i < n
        invariant
            0 <= i <= n,
            n == tokens@.len(),
            lbls == tokens.deep_view().map_values(|t: TokenModel| label_of(t)),
            lbls.len() == n,
            r.deep_view() == lbls.take(i as int),
        decreases n - i,
    {
        let ghost old_dv = r.deep_view();
        let lbl = tokens[i].label();
        r.push(lbl);
        proof {
            assert(tokens.deep_view()[i as int] == tokens@[i as int]@);
            assert(r.deep_view() =~= old_dv.push(lbls[i as int]));
            assert(lbls.take(i + 1) =~= lbls.take(i as int).push(lbls[i as int]));
        }
        i = i + 1;
    }
    proof {
        assert(lbls.take(n as int) =~= lbls);
    }
    r
}

/// The `(line, label)` items of `ts` whose labels are absent from
/// `other`, in document order.
fn changed_vec(ts: &Vec<Token>, other: &Vec<String>) -> (r: Vec<(usize, String)>)
    ensures
        items_model(r@) == changed_items(ts.deep_view(), other.deep_view().to_set()),
{
    let ghost oset = other.deep_view().to_set();
    let n = ts.len();
    let mut r: Vec<(usize, String)> = Vec::new();
    let mut i: usize = 0;
    proof {
        assert(ts.deep_view().take(0) =~= Seq::<TokenModel>::empty());
        assert(items_model(r@) =~= Seq::<(int, Seq<char>)>::empty());
    }
    while i < n
        invariant
            0 <= i <= n,
            n == ts@.len(),
            ts.deep_view().len() == n,
            oset == other.deep_view().to_set(),
            items_model(r@) == changed_items(ts.deep_view().take(i as int), oset),
        decreases n - i,
    {
        let ghost pre = ts.deep_view().take(i as int);
        let ghost tm = ts.deep_view()[i as int];
        proof {
            assert(ts.deep_view().take(i + 1) =~= pre.push(tm));
            assert(pre.push(tm).drop_last() =~= pre);
        }
        let lbl = ts[i].label();
        proof {
            assert(ts.deep_view()[i as int] == ts@[i as int]@);
            assert(lbl@ == label_of(tm));
        }
        let present = crate::setdiff::contains_str(other, &lbl);
        if !present {
            let ghost old_model = items_model(r@);
            let line = ts[i].line;
            r.push((line, lbl));
            proof {
                assert(items_model(r@) =~= old_model.push((tm.line, label_of(tm))));
            }
        }
        i = i + 1;
    }
    proof {
        assert(ts.deep_view().take(n as int) =~= ts.deep_view());
    }
    r
}

/// Insertion sort by line number, stable for items on the same line.
fn sort_items(items: &Vec<(usize, String)>) -> (r: Vec<(usize, String)>)
    ensures
        items_model(r@) == sort_by_line(items_model(items@)),
        sorted_by_line(items_model(r@)),
{
    let ghost full = items_model(items@);
    let n = items.len();
    let mut r: Vec<(usize, String)> = Vec::new();
    let mut i: usize = 0;
    proof {
        assert(full.take(0) =~= Seq::<(int, Seq<char>)>::empty());
        assert(items_model(r@) =~= Seq::<(int, Seq<char>)>::empty());
    }
    while i < n
        invariant
            0 <= i <= n,
            n == items@.len(),
            full == items_model(items@),
            full.len() == n,
            items_model(r@) == sort_by_line(full.take(i as int)),
            sorted_by_line(items_model(r@)),
        decreases n - i,
    {
        let ghost sorted_model = items_model(r@);
        let ghost x = full[i as int];
        let x_line = items[i].0;
        let x_lbl = items[i].1.clone();
        proof {
            assert(x == (items@[i as int].0 as int, items@[i as int].1@));
            assert(x_line as int == x.0 && x_lbl@ == x.1);
        }
        let m = r.len();
        let mut pos: usize = 0;
        while pos < m && r[pos].0 <= x_line
            invariant
                0 <= pos <= m,
                m == r@.len(),
                sorted_model == items_model(r@),
                x_line as int == x.0,
                forall|k: int| 0 <= k < pos ==> (#[trigger] sorted_model[k]).0 <= x.0,
            decreases m - pos,
        {
            proof {
                assert(sorted_model[pos as int] == (r@[pos as int].0 as int, r@[pos as int].1@));
            }
            pos = pos + 1;
        }
        proof {
            if pos < m {
                assert(sorted_model[pos as int] == (r@[pos as int].0 as int, r@[pos as int].1@));
                assert(sorted_model[pos as int].0 > x.0);
            }
            lemma_sorted_insert_at(sorted_model, x, pos as int);
        }
        r.insert(pos, (x_line, x_lbl));
        proof {
            assert(items_model(r@) =~= sorted_model.insert(pos as int, x));
            assert(full.take(i + 1) =~= full.take(i as int).push(x));
            assert(full.take(i as int).push(x).drop_last() =~= full.take(i as int));
        }
        i = i + 1;
    }
    proof {
        assert(full.take(n as int) =~= full);
    }
    r
}

/// `s` cut off after one hundred characters.
fn trunc100_string(s: &String) -> (r: String)
    ensures
        r@ == trunc100(s@),
{
    let len = s.as_str().unicode_len();
    if len <= 100 {
        s.clone()
    } else {
        let sub = s.as_str().substring_char(0, 100);
        proof {
            assert(s@.subrange(0, 100) =~= s@.take(100));
        }
        String::from_str(sub)
    }
}

/// One entry per maximal run of same-or-consecutive lines, in order.
fn entries_vec(items: &Vec<(usize, String)>, c: ChangeKind) -> (r: Vec<LineDiffEntry>)
    ensures
        r.deep_view() == entries_of(items_model(items@), c),
{
    let ghost model = items_model(items@);
    let n = items.len();
    let mut r: Vec<LineDiffEntry> = Vec::new();
    let mut i: usize = 0;
    proof {
        assert(model.skip(0) =~= model);
        assert(r.deep_view() =~= Seq::<LineDiffModel>::empty());
        assert(Seq::<LineDiffModel>::empty() + entries_of(model, c) =~= entries_of(model, c));
    }
    while i < n
        invariant
            0 <= i <= n,
            n == items@.len(),
            model == items_model(items@),
            model.len() == n,
            entries_of(model, c) == r.deep_view() + entries_of(model.skip(i as int), c),
        decreases n - i,
    {
        let ghost rest = model.skip(i as int);
        // extend the run while the next line repeats or follows the last
        let mut j: usize = i + 1;
        while j < n && (items[j].0 == items[j - 1].0 || (items[j].0 > items[j - 1].0 && items[j].0
            - items[j - 1].0 == 1))
            invariant
                i < j <= n,
                n == items@.len(),
                model == items_model(items@),
                model.len() == n,
                forall|t: int|
                    i < t < j ==> run_continues((#[trigger] model[t - 1]).0, model[t].0),
            decreases n - j,
        {
            proof {
                assert(model[j as int] == (items@[j as int].0 as int, items@[j as int].1@));
                assert(model[j - 1] == (items@[j - 1].0 as int, items@[j - 1].1@));
            }
            j = j + 1;
        }
        let ghost pre = model.subrange(i as int, j as int);
        proof {
            assert(model[i as int] == (items@[i as int].0 as int, items@[i as int].1@));
            if j < n {
                assert(model[j as int] == (items@[j as int].0 as int, items@[j as int].1@));
                assert(model[j - 1] == (items@[j - 1].0 as int, items@[j - 1].1@));
                assert(!run_continues(model[j - 1].0, model[j as int].0));
            }
            assert(forall|t: int| 0 <= t < rest.len() ==> rest[t] == model[i + t]);
            assert forall|t: int| 1 <= t < j - i implies run_continues(
                (#[trigger] rest[t - 1]).0,
                rest[t].0,
            ) by {
                assert(rest[t - 1] == model[i + t - 1]);
                assert(rest[t] == model[i + t]);
                assert(run_continues(model[i + t - 1].0, model[i + t].0));
            }
            if j < n {
                assert(rest[j - i - 1] == model[j - 1]);
                assert(rest[j - i] == model[j as int]);
            }
            lemma_run_len_exact(rest, j - i);
            assert(rest.take(j - i) =~= pre);
            assert(rest.skip(j - i) =~= model.skip(j as int));
        }
        // the line range of the run
        let start = items[i].0;
        let end = items[j - 1].0;
        let mut range = String::from_str("L");
        let start_dec = crate::numfmt::dec_string(start as u64);
        range.append(start_dec.as_str());
        proof {
            reveal_strlit("L");
            assert(range@ =~= seq!['L'] + dec_of(start as nat));
        }
        if start != end {
            let mid = String::from_str("-L");
            range.append(mid.as_str());
            let end_dec = crate::numfmt::dec_string(end as u64);
            range.append(end_dec.as_str());
            proof {
                reveal_strlit("-L");
                assert(mid@ =~= seq!['-', 'L']);
                assert(range@ =~= seq!['L'] + dec_of(start as nat) + seq!['-', 'L'] + dec_of(
                    end as nat,
                ));
            }
        }
        proof {
            assert(pre[0] == model[i as int]);
            assert(pre.last() == model[j - 1]);
            assert(pre[0].0 == start as int);
            assert(pre.last().0 == end as int);
            assert(range@ == range_label(pre[0].0, pre.last().0));
        }
        // the sampled content of the run
        let m: usize = if j - i < 3 {
            j - i
        } else {
            3
        };
        let ghost samples = pre.take(if pre.len() < 3 {
            pre.len() as int
        } else {
            3
        }).map_values(|p: (int, Seq<char>)| p.1);
        proof {
            assert(samples.len() == m);
            assert(forall|t: int|
                0 <= t < m ==> samples[t] == (#[trigger] pre[t]).1);
            assert(forall|t: int| 0 <= t < m ==> pre[t] == model[i + t]);
            assert(forall|t: int|
                0 <= t < m ==> (#[trigger] model[i + t]).1 == items@[i + t].1@);
        }
        let mut content = items[i].1.clone();
        proof {
            assert(content@ == samples[0]);
        }
        if m >= 2 {
            let sep = String::from_str(", ");
            content.append(sep.as_str());
            content.append(items[i + 1].1.as_str());
            proof {
                reveal_strlit(", ");
                assert(sep@ =~= sample_sep());
                assert(content@ =~= samples[0] + sample_sep() + samples[1]);
            }
        }
        if m == 3 {
            let dots = String::from_str(" ... (");
            content.append(dots.as_str());
            let more_count = crate::numfmt::dec_string((m - 2) as u64);
            content.append(more_count.as_str());
            let closing = String::from_str(" more)");
            content.append(closing.as_str());
            proof {
                reveal_strlit(" ... (");
                reveal_strlit(" more)");
                assert(dots@ =~= seq![' ', '.', '.', '.', ' ', '(']);
                assert(closing@ =~= seq![' ', 'm', 'o', 'r', 'e', ')']);
                assert(content@ =~= samples[0] + sample_sep() + samples[1] + seq![
                    ' ',
                    '.',
                    '.',
                    '.',
                    ' ',
                    '(',
                ] + dec_of(1nat) + seq![' ', 'm', 'o', 'r', 'e', ')']);
                assert(content@ =~= preview_content(samples));
            }
        } else {
            proof {
                if m == 1 {
                    assert(join(samples, sample_sep()) == samples[0]);
                } else {
                    assert(samples.drop_first() =~= seq![samples[1]]);
                    assert(join(seq![samples[1]], sample_sep()) == samples[1]);
                    assert(join(samples, sample_sep()) == samples[0] + sample_sep() + samples[1]);
                }
                assert(content@ =~= preview_content(samples));
            }
        }
        let truncated = trunc100_string(&content);
        let mut preview = match c {
            ChangeKind::Added => {
                let p = String::from_str("+ ");
                proof {
                    reveal_strlit("+ ");
                    assert(p@ =~= seq!['+', ' ']);
                }
                p
            },
            ChangeKind::Removed => {
                let p = String::from_str("- ");
                proof {
                    reveal_strlit("- ");
                    assert(p@ =~= seq!['-', ' ']);
                }
                p
            },
        };
        preview.append(truncated.as_str());
        let entry = LineDiffEntry { line_range: range, change: c, content_preview: preview };
        let ghost old_dv = r.deep_view();
        r.push(entry);
        proof {
            assert(entry@ =~= run_entry(pre, c));
            assert(r.deep_view() =~= old_dv.push(run_entry(pre, c)));
            lemma_run_len_bounds(rest);
            assert(entries_of(rest, c) == seq![run_entry(pre, c)] + entries_of(
                model.skip(j as int),
                c,
            ));
            assert(old_dv.push(run_entry(pre, c)) + entries_of(model.skip(j as int), c)
                =~= old_dv + (seq![run_entry(pre, c)] + entries_of(model.skip(j as int), c)));
        }
        i = j;
    }
    proof {
        assert(model.skip(n as int) =~= Seq::<(int, Seq<char>)>::empty());
        assert(r.deep_view() + Seq::<LineDiffModel>::empty() =~= r.deep_view());
    }
    r
}

/// Reconstructs line-level changes between two token sequences: one entry
/// per maximal run of added lines, then one per maximal run of removed
/// lines, exactly as `line_diff_spec` lays them out.
pub fn line_diff(tokens_a: &Vec<Token>, tokens_b: &Vec<Token>) -> (r: Vec<LineDiffEntry>)
    ensures
        r.deep_view() == line_diff_spec(tokens_a.deep_view(), tokens_b.deep_view()),
{
    let labels_a = labels_vec(tokens_a);
    let labels_b = labels_vec(tokens_b);
    let added_items = changed_vec(tokens_b, &labels_a);
    let removed_items = changed_vec(tokens_a, &labels_b);
    let sorted_added = sort_items(&added_items);
    let sorted_removed = sort_items(&removed_items);
    let mut r = entries_vec(&sorted_added, ChangeKind::Added);
    let ghost added_dv = r.deep_view();
    let mut removed = entries_vec(&sorted_removed, ChangeKind::Removed);
    let ghost removed_dv = removed.deep_view();
    r.append(&mut removed);
    proof {
        assert(r.deep_view() =~= added_dv + removed_dv);
    }
    r
}


// ----------------------------------------------------------------------
// The added-paragraph scenario, checked against the specs themselves:
// between `<div><h1>Hi</h1></div>` and the same document with
// `<p>New</p>` inserted, the line diff is exactly one added entry.
// ----------------------------------------------------------------------


spec fn scenario_tag(content: Seq<char>) -> TokenModel {
    TokenModel { kind: TokenKind::Tag, content: content, line: 1 }
}

spec fn scenario_text(content: Seq<char>) -> TokenModel {
    TokenModel { kind: TokenKind::Text, content: content, line: 1 }
}

spec fn scenario_tokens_a() -> Seq<TokenModel> {
    seq![
        scenario_tag(seq!['<', 'd', 'i', 'v', '>']),
        scenario_tag(seq!['<', 'h', '1', '>']),
        scenario_text(seq!['H', 'i']),
        scenario_tag(seq!['<', '/', 'h', '1', '>']),
        scenario_tag(seq!['<', '/', 'd', 'i', 'v', '>']),
    ]
}

spec fn scenario_tokens_b() -> Seq<TokenModel> {
    seq![
        scenario_tag(seq!['<', 'd', 'i', 'v', '>']),
        scenario_tag(seq!['<', 'h', '1', '>']),
        scenario_text(seq!['H', 'i']),
        scenario_tag(seq!['<', '/', 'h', '1', '>']),
        scenario_tag(seq!['<', 'p', '>']),
        scenario_text(seq!['N', 'e', 'w']),
        scenario_tag(seq!['<', '/', 'p', '>']),
        scenario_tag(seq!['<', '/', 'd', 'i', 'v', '>']),
    ]
}

proof fn scenario_member_facts()
    ensures
        forall|k: int|
            (0 <= k < 4 || k == 7) ==> content_set(scenario_tokens_a()).contains(
                label_of(#[trigger] scenario_tokens_b()[k]),
            ),
        forall|k: int|
            4 <= k < 7 ==> !content_set(scenario_tokens_a()).contains(label_of(#[trigger] scenario_tokens_b()[k])),
        forall|k: int| 0 <= k < 5 ==> content_set(scenario_tokens_b()).contains(label_of(#[trigger] scenario_tokens_a()[k])),
{
    let la = scenario_tokens_a().map_values(|t: TokenModel| label_of(t));
    let lb = scenario_tokens_b().map_values(|t: TokenModel| label_of(t));
    // the shared tokens appear verbatim on both sides
    assert forall|k: int| (0 <= k < 4 || k == 7) implies content_set(scenario_tokens_a()).contains(
        label_of(#[trigger] scenario_tokens_b()[k]),
    ) by {
        if k == 7 {
            assert(la[4] == label_of(scenario_tokens_b()[7]));
            assert(la.contains(label_of(scenario_tokens_b()[7])));
        } else {
            assert(la[k] == label_of(scenario_tokens_b()[k]));
            assert(la.contains(label_of(scenario_tokens_b()[k])));
        }
    }
    assert forall|k: int| 0 <= k < 5 implies content_set(scenario_tokens_b()).contains(
        label_of(#[trigger] scenario_tokens_a()[k]),
    ) by {
        if k == 4 {
            assert(lb[7] == label_of(scenario_tokens_a()[4]));
            assert(lb.contains(label_of(scenario_tokens_a()[4])));
        } else {
            assert(lb[k] == label_of(scenario_tokens_a()[k]));
            assert(lb.contains(label_of(scenario_tokens_a()[k])));
        }
    }
    // the paragraph's three tokens appear nowhere among the first side's
    // labels: the lengths differ, except one pair refuted by a character
    assert(la[0].len() == 9);
    assert(la[1].len() == 8);
    assert(la[2].len() == 7);
    assert(la[3].len() == 9);
    assert(la[4].len() == 10);
    assert forall|k: int| 4 <= k < 7 implies !content_set(scenario_tokens_a()).contains(
        label_of(#[trigger] scenario_tokens_b()[k]),
    ) by {
        let x = label_of(scenario_tokens_b()[k]);
        if k == 4 {
            assert(x.len() == 7);
            assert(la[2][1] == 'E');
            assert(x[1] == 'A');
        } else if k == 5 {
            assert(x.len() == 8);
            assert(la[1][1] == 'A');
            assert(x[1] == 'E');
        } else {
            assert(x.len() == 8);
            assert(la[1][5] == 'h');
            assert(x[5] == '/');
        }
        assert(forall|i: int| 0 <= i < 5 ==> #[trigger] la[i] != x);
        if content_set(scenario_tokens_a()).contains(x) {
            assert(la.contains(x));
            let i = choose|i: int| 0 <= i < la.len() && la[i] == x;
            assert(false);
        }
    }
}

proof fn scenario_changed_eval()
    ensures
        changed_items(scenario_tokens_b(), content_set(scenario_tokens_a())) == seq![
            (1int, label_of(scenario_tokens_b()[4])),
            (1int, label_of(scenario_tokens_b()[5])),
            (1int, label_of(scenario_tokens_b()[6])),
        ],
        changed_items(scenario_tokens_a(), content_set(scenario_tokens_b())) == Seq::<(int, Seq<char>)>::empty(),
{
    scenario_member_facts();
    let aset = content_set(scenario_tokens_a());
    let bset = content_set(scenario_tokens_b());
    let tb = scenario_tokens_b();
    let ta = scenario_tokens_a();
    let none: Seq<(int, Seq<char>)> = Seq::empty();
    // walk B's tokens from the back: the first four and the last are
    // shared, the paragraph's three are new
    assert(changed_items(tb.take(0), aset) =~= none);
    assert(tb.take(1).drop_last() =~= tb.take(0) && tb.take(1).last() == tb[0]);
    assert(changed_items(tb.take(1), aset) =~= none);
    assert(tb.take(2).drop_last() =~= tb.take(1) && tb.take(2).last() == tb[1]);
    assert(changed_items(tb.take(2), aset) =~= none);
    assert(tb.take(3).drop_last() =~= tb.take(2) && tb.take(3).last() == tb[2]);
    assert(changed_items(tb.take(3), aset) =~= none);
    assert(tb.take(4).drop_last() =~= tb.take(3) && tb.take(4).last() == tb[3]);
    assert(changed_items(tb.take(4), aset) =~= none);
    assert(tb.take(5).drop_last() =~= tb.take(4) && tb.take(5).last() == tb[4]);
    assert(tb[4].line == 1);
    assert(changed_items(tb.take(5), aset) =~= seq![(1int, label_of(tb[4]))]);
    assert(tb.take(6).drop_last() =~= tb.take(5) && tb.take(6).last() == tb[5]);
    assert(tb[5].line == 1);
    assert(changed_items(tb.take(6), aset) =~= seq![
        (1int, label_of(tb[4])),
        (1int, label_of(tb[5])),
    ]);
    assert(tb.take(7).drop_last() =~= tb.take(6) && tb.take(7).last() == tb[6]);
    assert(tb[6].line == 1);
    assert(changed_items(tb.take(7), aset) =~= seq![
        (1int, label_of(tb[4])),
        (1int, label_of(tb[5])),
        (1int, label_of(tb[6])),
    ]);
    assert(tb.take(8).drop_last() =~= tb.take(7) && tb.take(8).last() == tb[7]);
    assert(changed_items(tb.take(8), aset) =~= seq![
        (1int, label_of(tb[4])),
        (1int, label_of(tb[5])),
        (1int, label_of(tb[6])),
    ]);
    assert(tb.take(8) =~= tb);
    // every token of A is still present in B
    assert(changed_items(ta.take(0), bset) =~= none);
    assert(ta.take(1).drop_last() =~= ta.take(0) && ta.take(1).last() == ta[0]);
    assert(changed_items(ta.take(1), bset) =~= none);
    assert(ta.take(2).drop_last() =~= ta.take(1) && ta.take(2).last() == ta[1]);
    assert(changed_items(ta.take(2), bset) =~= none);
    assert(ta.take(3).drop_last() =~= ta.take(2) && ta.take(3).last() == ta[2]);
    assert(changed_items(ta.take(3), bset) =~= none);
    assert(ta.take(4).drop_last() =~= ta.take(3) && ta.take(4).last() == ta[3]);
    assert(changed_items(ta.take(4), bset) =~= none);
    assert(ta.take(5).drop_last() =~= ta.take(4) && ta.take(5).last() == ta[4]);
    assert(changed_items(ta.take(5), bset) =~= none);
    assert(ta.take(5) =~= ta);
}

proof fn scenario_sort_entries_eval()
    ensures
        entries_of(
            sort_by_line(changed_items(scenario_tokens_b(), content_set(scenario_tokens_a()))),
            ChangeKind::Added,
        ) == seq![added_paragraph_entry()],
        entries_of(
            sort_by_line(changed_items(scenario_tokens_a(), content_set(scenario_tokens_b()))),
            ChangeKind::Removed,
        ) == Seq::<LineDiffModel>::empty(),
{
    scenario_changed_eval();
    let item4 = (1int, label_of(scenario_tokens_b()[4]));
    let item5 = (1int, label_of(scenario_tokens_b()[5]));
    let item6 = (1int, label_of(scenario_tokens_b()[6]));
    let none: Seq<(int, Seq<char>)> = Seq::empty();
    let c1 = seq![item4];
    let c2 = seq![item4, item5];
    let c3 = seq![item4, item5, item6];
    // the items are already in sorted order: all on line one
    assert(sort_by_line(none) =~= none);
    assert(c1.drop_last() =~= none && c1.last() == item4);
    assert(sorted_insert(none, item4) =~= c1);
    assert(sort_by_line(c1) =~= c1);
    assert(c2.drop_last() =~= c1 && c2.last() == item5);
    assert(c1.drop_first() =~= none);
    assert(sorted_insert(none, item5) =~= seq![item5]);
    assert(sorted_insert(c1, item5) =~= seq![c1[0]] + seq![item5]);
    assert(sort_by_line(c2) =~= c2);
    assert(c3.drop_last() =~= c2 && c3.last() == item6);
    assert(c2.drop_first() =~= seq![item5]);
    assert(seq![item5].drop_first() =~= none);
    assert(sorted_insert(none, item6) =~= seq![item6]);
    assert(sorted_insert(seq![item5], item6) =~= seq![item5] + seq![item6]);
    assert(sorted_insert(c2, item6) =~= seq![c2[0]] + (seq![item5] + seq![item6]));
    assert(sort_by_line(c3) =~= c3);
    // one maximal run covering all three items
    assert(c3.drop_first() =~= seq![item5, item6]);
    assert(seq![item5, item6].drop_first() =~= seq![item6]);
    assert(run_len(seq![item6]) == 1);
    assert(run_len(seq![item5, item6]) == 2);
    assert(run_len(c3) == 3);
    // the run's entry: range of line one, and the three sampled labels
    let samples = c3.take(3).map_values(|p: (int, Seq<char>)| p.1);
    assert(samples =~= seq![item4.1, item5.1, item6.1]);
    reveal_with_fuel(crate::numfmt::dec_of, 2);
    assert(range_label(1, 1) =~= seq!['L', '1']);
    let pc = preview_content(samples);
    assert(pc =~= seq![
        'T', 'A', 'G', ':', '<', 'p', '>', ',', ' ', 'T', 'E', 'X', 'T', ':', 'N', 'e', 'w',
        ' ', '.', '.', '.', ' ', '(', '1', ' ', 'm', 'o', 'r', 'e', ')',
    ]);
    assert(pc.len() == 30);
    assert(trunc100(pc) == pc);
    assert(run_entry(c3, ChangeKind::Added) =~~= added_paragraph_entry());
    // a single run, then nothing
    assert(c3.take(3) =~= c3);
    assert(c3.skip(3) =~= none);
    assert(entries_of(none, ChangeKind::Added) =~= Seq::<LineDiffModel>::empty());
    assert(entries_of(c3, ChangeKind::Added) =~= seq![run_entry(c3, ChangeKind::Added)]
        + Seq::<LineDiffModel>::empty());
    assert(entries_of(c3, ChangeKind::Added) =~= seq![added_paragraph_entry()]);
    assert(entries_of(none, ChangeKind::Removed) =~= Seq::<LineDiffModel>::empty());
}

/// The one entry the scenario reports: line one, added, previewing the
/// paragraph's three new tokens.
pub open spec fn added_paragraph_entry() -> LineDiffModel {
    LineDiffModel {
        line_range: seq!['L', '1'],
        change: ChangeKind::Added,
        content_preview: seq![
            '+', ' ', 'T', 'A', 'G', ':', '<', 'p', '>', ',', ' ', 'T', 'E', 'X', 'T', ':',
            'N', 'e', 'w', ' ', '.', '.', '.', ' ', '(', '1', ' ', 'm', 'o', 'r', 'e', ')',
        ],
    }
}

/// The scenario's first markup document.
pub open spec fn added_paragraph_markup_a() -> Seq<char> {
    seq![
        '<', 'd', 'i', 'v', '>', '<', 'h', '1', '>', 'H', 'i', '<', '/', 'h', '1', '>', '<',
        '/', 'd', 'i', 'v', '>',
    ]
}

/// The scenario's second markup document: the first with a new paragraph.
pub open spec fn added_paragraph_markup_b() -> Seq<char> {
    seq![
        '<', 'd', 'i', 'v', '>', '<', 'h', '1', '>', 'H', 'i', '<', '/', 'h', '1', '>', '<',
        'p', '>', 'N', 'e', 'w', '<', '/', 'p', '>', '<', '/', 'd', 'i', 'v', '>',
    ]
}

#[verifier::rlimit(100)]
proof fn scenario_tokenize_a()
    ensures
        crate::token::tokenize_spec(added_paragraph_markup_a()) == scenario_tokens_a(),
{
    reveal_with_fuel(crate::token::find_from, 10);
    reveal_with_fuel(crate::token::next_tag, 3);
    reveal_with_fuel(crate::token::tokens_from, 7);
    reveal_with_fuel(crate::text::trim_left, 5);
    reveal_with_fuel(crate::text::trim_right, 5);
    reveal_with_fuel(crate::text::word_len, 9);
    reveal_with_fuel(crate::text::words, 4);
    reveal_with_fuel(crate::text::join, 4);
    reveal_with_fuel(crate::text::text_start, 4);
    assert(forall|k: int| 0 <= k < added_paragraph_markup_a().len() ==> #[trigger] added_paragraph_markup_a()[k] != '\n');
    crate::token::lemma_no_newlines_line_one(added_paragraph_markup_a());
    assert(crate::token::tokenize_spec(added_paragraph_markup_a()) =~~= scenario_tokens_a());
}

#[verifier::rlimit(100)]
proof fn scenario_tokenize_b()
    ensures
        crate::token::tokenize_spec(added_paragraph_markup_b()) == scenario_tokens_b(),
{
    reveal_with_fuel(crate::token::find_from, 10);
    reveal_with_fuel(crate::token::next_tag, 3);
    reveal_with_fuel(crate::token::tokens_from, 9);
    reveal_with_fuel(crate::text::trim_left, 5);
    reveal_with_fuel(crate::text::trim_right, 5);
    reveal_with_fuel(crate::text::word_len, 9);
    reveal_with_fuel(crate::text::words, 4);
    reveal_with_fuel(crate::text::join, 4);
    reveal_with_fuel(crate::text::text_start, 4);
    assert(forall|k: int| 0 <= k < added_paragraph_markup_b().len() ==> #[trigger] added_paragraph_markup_b()[k] != '\n');
    crate::token::lemma_no_newlines_line_one(added_paragraph_markup_b());
    assert(crate::token::tokenize_spec(added_paragraph_markup_b()) =~~= scenario_tokens_b());
}

/// The added-paragraph scenario, checked end to end against the specs
/// themselves: tokenizing the first markup yields five tokens, the
/// second eight, and their line diff is exactly one added entry on line
/// one whose preview opens with the new paragraph tag.
pub proof fn lemma_added_paragraph_scenario()
    ensures
        "<div><h1>Hi</h1></div>"@ == added_paragraph_markup_a(),
        "<div><h1>Hi</h1><p>New</p></div>"@ == added_paragraph_markup_b(),
        crate::token::tokenize_spec(added_paragraph_markup_a()).len() == 5,
        crate::token::tokenize_spec(added_paragraph_markup_b()).len() == 8,
        line_diff_spec(
            crate::token::tokenize_spec(added_paragraph_markup_a()),
            crate::token::tokenize_spec(added_paragraph_markup_b()),
        ) == seq![added_paragraph_entry()],
{
    reveal_strlit("<div><h1>Hi</h1></div>");
    reveal_strlit("<div><h1>Hi</h1><p>New</p></div>");
    assert("<div><h1>Hi</h1></div>"@ =~= added_paragraph_markup_a());
    assert("<div><h1>Hi</h1><p>New</p></div>"@ =~= added_paragraph_markup_b());
    scenario_tokenize_a();
    scenario_tokenize_b();
    scenario_sort_entries_eval();
    assert(seq![added_paragraph_entry()] + Seq::<LineDiffModel>::empty() =~= seq![
        added_paragraph_entry(),
    ]);
}

} // verus!
