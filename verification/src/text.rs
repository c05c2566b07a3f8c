//! Character classification and the sequence-level text operations that the
//! tokenizer builds on: whitespace trimming, splitting into words, and
//! joining pieces with a separator.

use vstd::prelude::*;

verus! {

/// The Unicode `White_Space` code points, the set that `str::trim` and
/// `str::split_whitespace` go by.
pub open spec fn is_space(c: char) -> bool {
    let n = c as u32;
    ||| n == 0x20
    ||| (0x09 <= n && n <= 0x0D)
    ||| n == 0x85
    ||| n == 0xA0
    ||| n == 0x1680
    ||| (0x2000 <= n && n <= 0x200A)
    ||| n == 0x2028
    ||| n == 0x2029
    ||| n == 0x202F
    ||| n == 0x205F
    ||| n == 0x3000
}

/// Executable mirror of `is_space`.
pub(crate) fn is_space_char(c: char) -> (r: bool)
    ensures
        r == is_space(c),
{
    let n = c as u32;
    n == 0x20 || (0x09 <= n && n <= 0x0D) || n == 0x85 || n == 0xA0 || n == 0x1680
        || (0x2000 <= n && n <= 0x200A) || n == 0x2028 || n == 0x2029 || n == 0x202F
        || n == 0x205F || n == 0x3000
}

/// `s` with its leading whitespace removed.
pub open spec fn trim_left(s: Seq<char>) -> Seq<char>
    decreases s.len(),
{
    if s.len() == 0 {
        s
    } else if is_space(s[0]) {
        trim_left(s.drop_first())
    } else {
        s
    }
}

/// `s` with its trailing whitespace removed.
pub open spec fn trim_right(s: Seq<char>) -> Seq<char>
    decreases s.len(),
{
    if s.len() == 0 {
        s
    } else if is_space(s[s.len() - 1]) {
        trim_right(s.drop_last())
    } else {
        s
    }
}

/// `s` with whitespace removed from both ends.
pub open spec fn trim(s: Seq<char>) -> Seq<char> {
    trim_right(trim_left(s))
}

/// Trimming never lengthens a sequence.
pub proof fn lemma_trim_le(s: Seq<char>)
    ensures
        trim(s).len() <= s.len(),
{
    lemma_trim_left_le(s);
    lemma_trim_right_le(trim_left(s));
}

proof fn lemma_trim_left_le(s: Seq<char>)
    ensures
        trim_left(s).len() <= s.len(),
    decreases s.len(),
{
    if s.len() > 0 && is_space(s[0]) {
        lemma_trim_left_le(s.drop_first());
    }
}

proof fn lemma_trim_right_le(s: Seq<char>)
    ensures
        trim_right(s).len() <= s.len(),
    decreases s.len(),
{
    if s.len() > 0 && is_space(s[s.len() - 1]) {
        lemma_trim_right_le(s.drop_last());
    }
}

/// The first non-whitespace position in `s[from..to]`, or `to` when the
/// whole stretch is whitespace: where trimmed text actually starts.
pub open spec fn text_start(s: Seq<char>, from: int, to: int) -> int
    decreases to - from when 0 <= from <= to <= s.len()
{
    if from >= to {
        to
    } else if is_space(s[from]) {
        text_start(s, from + 1, to)
    } else {
        from
    }
}

pub proof fn lemma_text_start(s: Seq<char>, from: int, to: int)
    requires
        0 <= from <= to <= s.len(),
    ensures
        from <= text_start(s, from, to) <= to,
        text_start(s, from, to) < to ==> !is_space(s[text_start(s, from, to)]),
        forall|k: int| from <= k < text_start(s, from, to) ==> is_space(s[k]),
    decreases to - from,
{
    if from < to && is_space(s[from]) {
        lemma_text_start(s, from + 1, to);
    }
}

/// Length of the run of non-whitespace characters at the front of `s`.
pub open spec fn word_len(s: Seq<char>) -> int
    decreases s.len(),
{
    if s.len() == 0 {
        0
    } else if is_space(s[0]) {
        0
    } else {
        1 + word_len(s.drop_first())
    }
}

pub proof fn lemma_word_len_bounds(s: Seq<char>)
    ensures
        0 <= word_len(s) <= s.len(),
        forall|k: int| 0 <= k < word_len(s) ==> !is_space(s[k]),
        word_len(s) < s.len() ==> is_space(s[word_len(s)]),
        s.len() > 0 && !is_space(s[0]) ==> word_len(s) >= 1,
    decreases s.len(),
{
    if s.len() > 0 && !is_space(s[0]) {
        let t = s.drop_first();
        lemma_word_len_bounds(t);
        assert(word_len(s) == 1 + word_len(t));
        assert forall|k: int| 0 <= k < word_len(s) implies !is_space(s[k]) by {
            if k >= 1 {
                assert(s[k] == t[k - 1]);
            }
        }
        if word_len(s) < s.len() {
            assert(s[word_len(s)] == t[word_len(t)]);
        }
    }
}

/// The maximal non-whitespace runs of `s`, in order.
pub open spec fn words(s: Seq<char>) -> Seq<Seq<char>>
    decreases s.len(),
    via words_decreases
{
    if s.len() == 0 {
        Seq::empty()
    } else if is_space(s[0]) {
        words(s.drop_first())
    } else {
        seq![s.take(word_len(s))] + words(s.skip(word_len(s)))
    }
}

#[via_fn]
proof fn words_decreases(s: Seq<char>) {
    if s.len() > 0 && !is_space(s[0]) {
        lemma_word_len_bounds(s);
    }
}

/// The pieces of `ws` concatenated with `sep` between neighbours.
pub open spec fn join(ws: Seq<Seq<char>>, sep: Seq<char>) -> Seq<char>
    decreases ws.len(),
{
    if ws.len() == 0 {
        Seq::empty()
    } else if ws.len() == 1 {
        ws[0]
    } else {
        ws[0] + sep + join(ws.drop_first(), sep)
    }
}

/// `join` distributes over adding one more piece at the end.
pub proof fn lemma_join_push(ws: Seq<Seq<char>>, sep: Seq<char>, w: Seq<char>)
    ensures
        join(ws.push(w), sep) == if ws.len() == 0 {
            w
        } else {
            join(ws, sep) + sep + w
        },
    decreases ws.len(),
{
    let pushed = ws.push(w);
    if ws.len() == 0 {
        assert(pushed.len() == 1);
        assert(join(pushed, sep) == pushed[0]);
        assert(pushed[0] == w);
    } else if ws.len() == 1 {
        assert(pushed.drop_first() =~= ws.drop_first().push(w));
        lemma_join_push(ws.drop_first(), sep, w);
        assert(join(pushed, sep) == pushed[0] + sep + join(pushed.drop_first(), sep));
        assert(pushed[0] == ws[0]);
        assert(ws.drop_first().len() == 0);
        assert(join(pushed.drop_first(), sep) == w);
        assert(join(ws, sep) == ws[0]);
    } else {
        assert(pushed.drop_first() =~= ws.drop_first().push(w));
        lemma_join_push(ws.drop_first(), sep, w);
        assert(join(pushed, sep) == pushed[0] + sep + join(pushed.drop_first(), sep));
        assert(join(ws, sep) + sep + w == ws[0] + sep + (join(ws.drop_first(), sep) + sep + w))
            by {
            assert((ws[0] + sep + join(ws.drop_first(), sep)) + sep + w =~= ws[0] + sep + (join(
                ws.drop_first(),
                sep,
            ) + sep + w));
        }
    }
}

/// Whitespace collapsing: the words of `s` joined by single spaces.
/// This is what normalizing a tag's interior does.
pub open spec fn collapse_ws(s: Seq<char>) -> Seq<char> {
    join(words(s), seq![' '])
}

/// The characters of `s`, as a vector.
pub(crate) fn chars_of(s: &str) -> (r: Vec<char>)
    ensures
        r@ == s@,
{
    let n = s.unicode_len();
    let mut r: Vec<char> = Vec::new();
    let mut i: usize = 0;
    while i < n
        invariant
            n == s@.len(),
            0 <= i <= n,
            r@ == s@.take(i as int),
        decreases n - i,
    {
        let c = s.get_char(i);
        r.push(c);
        assert(s@.take(i + 1) =~= s@.take(i as int).push(s@[i as int]));
        i = i + 1;
    }
    assert(s@.take(n as int) =~= s@);
    r
}

/// Relies on `String::push`: appends one character at the end.
#[verifier::external_body]
pub(crate) fn push_char(s: &mut String, c: char)
    ensures
        final(s)@ == old(s)@.push(c),
{
    s.push(c)
}

/// A `String` holding exactly the characters of `v`.
pub(crate) fn string_of_chars(v: &[char]) -> (r: String)
    ensures
        r@ == v@,
{
    let mut r = String::new();
    let n = v.len();
    let mut i: usize = 0;
    while i < n
        invariant
            n == v@.len(),
            0 <= i <= n,
            r@ == v@.take(i as int),
        decreases n - i,
    {
        push_char(&mut r, v[i]);
        assert(v@.take(i + 1) =~= v@.take(i as int).push(v@[i as int]));
        i = i + 1;
    }
    assert(v@.take(n as int) =~= v@);
    r
}

/// The words of `v`, each as its own vector, mirroring `words`.
pub(crate) fn words_of(v: &Vec<char>) -> (r: Vec<Vec<char>>)
    ensures
        r.deep_view() == words(v@),
{
    let n = v.len();
    let mut r: Vec<Vec<char>> = Vec::new();
    let mut i: usize = 0;
    proof {
        assert(v@.skip(0) =~= v@);
        assert(r.deep_view() =~= Seq::<Seq<char>>::empty());
        assert(Seq::<Seq<char>>::empty() + words(v@) =~= words(v@));
    }
    while i < n
        invariant
            n == v@.len(),
            0 <= i <= n,
            words(v@) == r.deep_view() + words(v@.skip(i as int)),
        decreases n - i,
    {
        if is_space_char(v[i]) {
            proof {
                assert(v@.skip(i as int)[0] == v@[i as int]);
                assert(v@.skip(i as int).drop_first() =~= v@.skip(i + 1));
            }
            i = i + 1;
        } else {
            let ghost rest = v@.skip(i as int);
            proof {
                lemma_word_len_bounds(rest);
            }
            let mut j: usize = i;
            let mut w: Vec<char> = Vec::new();
            while j < n && !is_space_char(v[j])
                invariant
                    n == v@.len(),
                    i <= j <= n,
                    rest == v@.skip(i as int),
                    w@ == rest.take(j - i),
                    forall|k: int| 0 <= k < j - i ==> !is_space(rest[k]),
                decreases n - j,
            {
                w.push(v[j]);
                assert(rest.take(j - i + 1) =~= rest.take(j - i).push(rest[j - i]));
                j = j + 1;
            }
            proof {
                // j - i is exactly the word length of the remainder
                let wl = word_len(rest);
                lemma_word_len_bounds(rest);
                assert(rest[0] == v@[i as int]);
                if j < n {
                    assert(is_space(rest[j - i]));
                }
                if j - i < wl {
                    assert(!is_space(rest[j - i]));
                    assert(false);
                }
                if wl < j - i {
                    assert(!is_space(rest[wl]));
                    assert(false);
                }
                assert(j - i == wl);
                assert(words(rest) == seq![rest.take(wl)] + words(rest.skip(wl)));
                assert(rest.skip(wl) =~= v@.skip(j as int));
                assert(w@ == rest.take(wl));
                assert(r.deep_view().push(w@) =~= r.deep_view() + seq![rest.take(wl)]);
                assert((r.deep_view() + seq![rest.take(wl)]) + words(v@.skip(j as int))
                    =~= r.deep_view() + (seq![rest.take(wl)] + words(v@.skip(j as int))));
            }
            let ghost old_dv = r.deep_view();
            r.push(w);
            proof {
                assert(w.deep_view() =~= w@);
                assert(r.deep_view() =~= old_dv.push(w.deep_view()));
            }
            i = j;
        }
    }
    proof {
        assert(v@.skip(n as int) =~= Seq::<char>::empty());
        assert(words(v@.skip(n as int)) =~= Seq::<Seq<char>>::empty());
        assert(r.deep_view() + words(v@.skip(n as int)) =~= r.deep_view());
    }
    r
}

/// The pieces joined by a single-character separator, mirroring `join`.
pub(crate) fn join_chars(ws: &Vec<Vec<char>>, sep: char) -> (r: Vec<char>)
    ensures
        r@ == join(ws.deep_view(), seq![sep]),
{
    let n = ws.len();
    let mut r: Vec<char> = Vec::new();
    let mut k: usize = 0;
    while k < n
        invariant
            n == ws@.len(),
            0 <= k <= n,
            ws.deep_view().len() == n,
            r@ == join(ws.deep_view().take(k as int), seq![sep]),
        decreases n - k,
    {
        if k > 0 {
            r.push(sep);
        }
        let mut t: usize = 0;
        let m = ws[k].len();
        let ghost mid = r@;
        while t < m
            invariant
                0 <= t <= m,
                k < n,
                n == ws@.len(),
                ws.deep_view().len() == n,
                m == ws@[k as int]@.len(),
                r@ == mid + ws@[k as int]@.take(t as int),
            decreases m - t,
        {
            let c = ws[k][t];
            r.push(c);
            assert(ws@[k as int]@.take(t + 1) =~= ws@[k as int]@.take(t as int).push(
                ws@[k as int]@[t as int],
            ));
            t = t + 1;
        }
        proof {
            let dv = ws.deep_view();
            assert(ws@[k as int]@.take(m as int) =~= dv[k as int]);
            assert(dv.take(k + 1) =~= dv.take(k as int).push(dv[k as int]));
            lemma_join_push(dv.take(k as int), seq![sep], dv[k as int]);
            if k == 0 {
                assert(r@ =~= join(dv.take(k + 1), seq![sep]));
            } else {
                assert(mid =~= join(dv.take(k as int), seq![sep]).push(sep));
                assert(r@ =~= join(dv.take(k as int), seq![sep]) + seq![sep] + dv[k as int]);
            }
        }
        k = k + 1;
    }
    proof {
        assert(ws.deep_view().take(n as int) =~= ws.deep_view());
    }
    r
}

} // verus!
