//! The tokenizer: a raw markup string becomes an ordered sequence of
//! normalized Tag / Text tokens, each carrying the 1-based line number of
//! its position in the source.
//!
//! A tag is a maximal `<`...`>` run with at least one non-`>` character
//! between the brackets; everything between tag matches is text, trimmed,
//! and dropped when whitespace-only. No nesting or semantic validation is
//! done: bytes that fail to match as a tag pass through as text.

use vstd::prelude::*;
use crate::text::{
    chars_of, collapse_ws, is_space_char, lemma_text_start, text_start, trim, trim_left,
    trim_right, words_of, join_chars, string_of_chars,
};

verus! {

/// Whether a token came from a bracketed tag run or from text between tags.
#[derive(Clone, Copy, PartialEq, Eq, Structural, Debug)]
pub enum TokenKind {
    Tag,
    Text,
}

/// One lexical unit of the markup: its kind, its normalized content, and
/// the 1-based source line it starts on.
#[derive(Debug)]
pub struct Token {
    pub kind: TokenKind,
    pub content: String,
    pub line: usize,
}

/// The mathematical image of a `Token`.
#[verifier::ext_equal]
pub struct TokenModel {
    pub kind: TokenKind,
    pub content: Seq<char>,
    pub line: int,
}

impl View for Token {
    type V = TokenModel;

    open spec fn view(&self) -> TokenModel {
        TokenModel { kind: self.kind, content: self.content@, line: self.line as int }
    }
}

impl DeepView for Token {
    type V = TokenModel;

    open spec fn deep_view(&self) -> TokenModel {
        self.view()
    }
}

/// The smallest index at or after `from` holding `c`, or the length of `s`
/// when no such index exists.
pub open spec fn find_from(s: Seq<char>, from: int, c: char) -> int
    decreases s.len() - from when 0 <= from <= s.len()
{
    if from >= s.len() {
        s.len() as int
    } else if s[from] == c {
        from
    } else {
        find_from(s, from + 1, c)
    }
}

pub proof fn lemma_find_from(s: Seq<char>, from: int, c: char)
    requires
        0 <= from <= s.len(),
    ensures
        from <= find_from(s, from, c) <= s.len(),
        find_from(s, from, c) < s.len() ==> s[find_from(s, from, c)] == c,
        forall|k: int| from <= k < find_from(s, from, c) ==> s[k] != c,
    decreases s.len() - from,
{
    if from < s.len() && s[from] != c {
        lemma_find_from(s, from + 1, c);
    }
}

/// The next tag match at or after `p`: `Some((i, j))` when the match spans
/// `s[i ..= j]`, with `s[i] == '<'`, `s[j] == '>'`, at least one character
/// between them, and no `'>'` before `j`. A `<` immediately followed by
/// `>` matches nothing and scanning continues after it.
pub open spec fn next_tag(s: Seq<char>, p: int) -> Option<(int, int)>
    decreases s.len() - p when 0 <= p <= s.len() via next_tag_decreases
{
    let i = find_from(s, p, '<');
    if i >= s.len() {
        None
    } else {
        let j = find_from(s, i + 1, '>');
        if j >= s.len() {
            None
        } else if j == i + 1 {
            next_tag(s, i + 2)
        } else {
            Some((i, j))
        }
    }
}

#[via_fn]
proof fn next_tag_decreases(s: Seq<char>, p: int) {
    if 0 <= p <= s.len() {
        lemma_find_from(s, p, '<');
        let i = find_from(s, p, '<');
        if i < s.len() {
            lemma_find_from(s, i + 1, '>');
        }
    }
}

pub proof fn lemma_next_tag(s: Seq<char>, p: int)
    requires
        0 <= p <= s.len(),
    ensures
        next_tag(s, p) matches Some(m) ==> {
            &&& p <= m.0
            &&& m.0 + 2 <= m.1 < s.len()
            &&& s[m.0] == '<'
            &&& s[m.1] == '>'
        },
    decreases s.len() - p,
{
    lemma_find_from(s, p, '<');
    let i = find_from(s, p, '<');
    if i < s.len() {
        lemma_find_from(s, i + 1, '>');
        let j = find_from(s, i + 1, '>');
        if j < s.len() && j == i + 1 {
            lemma_next_tag(s, i + 2);
        }
    }
}

/// Number of newline characters in `s`.
pub open spec fn count_nl(s: Seq<char>) -> int
    decreases s.len(),
{
    if s.len() == 0 {
        0
    } else {
        count_nl(s.drop_last()) + if s.last() == '\n' {
            1int
        } else {
            0int
        }
    }
}

pub proof fn lemma_count_nl_nonneg(s: Seq<char>)
    ensures
        0 <= count_nl(s) <= s.len(),
    decreases s.len(),
{
    if s.len() > 0 {
        lemma_count_nl_nonneg(s.drop_last());
    }
}

/// The 1-based line number of position `pos` of `s`: one more than the
/// number of newline characters strictly before `pos`.
pub open spec fn line_of(s: Seq<char>, pos: int) -> int {
    if pos <= s.len() {
        1 + count_nl(s.take(pos))
    } else {
        1 + count_nl(s)
    }
}

/// A string without newlines sits wholly on line one.
pub proof fn lemma_no_newlines_line_one(s: Seq<char>)
    requires
        forall|k: int| 0 <= k < s.len() ==> s[k] != '\n',
    ensures
        forall|m: int| 0 <= m <= s.len() ==> #[trigger] line_of(s, m) == 1,
{
    assert forall|m: int| 0 <= m <= s.len() implies #[trigger] line_of(s, m) == 1 by {
        let t = s.take(m);
        assert(forall|k: int| 0 <= k < t.len() ==> t[k] == s[k]);
        lemma_count_nl_zero(t);
    }
}

proof fn lemma_count_nl_zero(s: Seq<char>)
    requires
        forall|k: int| 0 <= k < s.len() ==> s[k] != '\n',
    ensures
        count_nl(s) == 0,
    decreases s.len(),
{
    if s.len() > 0 {
        let t = s.drop_last();
        assert(forall|k: int| 0 <= k < t.len() ==> t[k] == s[k]);
        lemma_count_nl_zero(t);
    }
}

/// The token sequence of the part of `s` that starts at `p`: text before
/// the next tag match (trimmed, kept only when non-empty, on the line of
/// its own first character), then the tag itself with its interior
/// whitespace collapsed on the line of its opening bracket, then the
/// rest; with no further match, the trimmed tail as text, again on the
/// line where the trimmed text starts.
pub open spec fn tokens_from(s: Seq<char>, p: int) -> Seq<TokenModel>
    decreases s.len() - p when 0 <= p <= s.len() via tokens_from_decreases
{
    match next_tag(s, p) {
        Option::None => {
            let tail = trim(s.skip(p));
            if tail.len() == 0 {
                Seq::empty()
            } else {
                seq![
                    TokenModel {
                        kind: TokenKind::Text,
                        content: tail,
                        line: line_of(s, text_start(s, p, s.len() as int)),
                    },
                ]
            }
        },
        Option::Some(m) => {
            let pre = trim(s.subrange(p, m.0));
            let tag = TokenModel {
                kind: TokenKind::Tag,
                content: collapse_ws(s.subrange(m.0, m.1 + 1)),
                line: line_of(s, m.0),
            };
            let rest = tokens_from(s, m.1 + 1);
            if pre.len() == 0 {
                seq![tag] + rest
            } else {
                seq![
                    TokenModel {
                        kind: TokenKind::Text,
                        content: pre,
                        line: line_of(s, text_start(s, p, m.0)),
                    },
                    tag,
                ] + rest
            }
        },
    }
}

#[via_fn]
proof fn tokens_from_decreases(s: Seq<char>, p: int) {
    if 0 <= p <= s.len() {
        lemma_next_tag(s, p);
    }
}

/// The ordered tokens of a markup string.
pub open spec fn tokenize_spec(s: Seq<char>) -> Seq<TokenModel> {
    tokens_from(s, 0)
}

/// The positions of the newline characters of `s`, in increasing order.
pub open spec fn nl_list(s: Seq<char>) -> Seq<int>
    decreases s.len(),
{
    if s.len() == 0 {
        Seq::empty()
    } else {
        nl_list(s.drop_last()) + if s.last() == '\n' {
            seq![s.len() - 1]
        } else {
            Seq::empty()
        }
    }
}

/// For a sorted list, the number of entries below `m`: the length of the
/// maximal prefix of entries below `m`.
pub open spec fn count_below(l: Seq<int>, m: int) -> int
    decreases l.len(),
{
    if l.len() == 0 {
        0
    } else if l[0] < m {
        1 + count_below(l.drop_first(), m)
    } else {
        0
    }
}

pub proof fn lemma_nl_list(s: Seq<char>)
    ensures
        nl_list(s).len() == count_nl(s),
        forall|k: int| 0 <= k < nl_list(s).len() ==> 0 <= #[trigger] nl_list(s)[k] < s.len(),
        forall|a: int, b: int|
            0 <= a < b < nl_list(s).len() ==> #[trigger] nl_list(s)[a] < #[trigger] nl_list(s)[b],
    decreases s.len(),
{
    if s.len() > 0 {
        let t = s.drop_last();
        lemma_nl_list(t);
        if s.last() == '\n' {
            assert(nl_list(s) =~= nl_list(t).push(s.len() - 1));
        } else {
            assert(nl_list(s) =~= nl_list(t));
        }
    }
}

proof fn lemma_count_below_push(l: Seq<int>, x: int, m: int)
    requires
        forall|k: int| 0 <= k < l.len() ==> l[k] < x,
    ensures
        count_below(l.push(x), m) == count_below(l, m) + if x < m {
            1int
        } else {
            0int
        },
    decreases l.len(),
{
    reveal_with_fuel(count_below, 3);
    if l.len() == 0 {
        assert(l.push(x)[0] == x);
        assert(l.push(x).drop_first() =~= Seq::<int>::empty());
        if x < m {
            assert(count_below(l.push(x), m) == 1);
        } else {
            assert(count_below(l.push(x), m) == 0);
        }
    } else {
        assert(l.push(x)[0] == l[0]);
        if l[0] < m {
            let d = l.drop_first();
            assert(forall|k: int| 0 <= k < d.len() ==> #[trigger] d[k] == l[k + 1]);
            assert(l.push(x).drop_first() =~= d.push(x));
            lemma_count_below_push(d, x, m);
            assert(count_below(l.push(x), m) == 1 + count_below(d.push(x), m));
            assert(count_below(l, m) == 1 + count_below(d, m));
        } else {
            // the head already reaches m, and x is larger still
            assert(x > l[0]);
            assert(count_below(l.push(x), m) == 0);
            assert(count_below(l, m) == 0);
        }
    }
}

/// Counting newlines in a prefix of `s` is counting newline positions
/// below the prefix length.
proof fn lemma_count_nl_take(s: Seq<char>, m: int)
    requires
        0 <= m,
    ensures
        count_below(nl_list(s), m) == if m <= s.len() {
            count_nl(s.take(m))
        } else {
            count_nl(s)
        },
    decreases s.len(),
{
    lemma_nl_list(s);
    if s.len() == 0 {
    } else {
        let t = s.drop_last();
        lemma_count_nl_take(t, m);
        lemma_nl_list(t);
        if s.last() == '\n' {
            assert(nl_list(s) =~= nl_list(t).push(s.len() - 1));
            lemma_count_below_push(nl_list(t), s.len() - 1, m);
        } else {
            assert(nl_list(s) =~= nl_list(t));
        }
        if m <= s.len() - 1 {
            assert(s.take(m) =~= t.take(m));
        } else {
            // the prefix covers all of s
            assert(s.take(s.len() as int) =~= s);
            assert(count_below(nl_list(t), m) == count_nl(t));
        }
    }
}

/// For a sorted list, a split point with everything below `m` on its left
/// and nothing below `m` on its right is the count of entries below `m`.
proof fn lemma_count_below_split(l: Seq<int>, m: int, r: int)
    requires
        forall|a: int, b: int| 0 <= a < b < l.len() ==> l[a] < l[b],
        0 <= r <= l.len(),
        forall|k: int| 0 <= k < r ==> l[k] < m,
        forall|k: int| r <= k < l.len() ==> l[k] >= m,
    ensures
        count_below(l, m) == r,
    decreases l.len(),
{
    if l.len() == 0 {
    } else if r == 0 {
        assert(l[0] >= m);
    } else {
        assert(l[0] < m);
        let d = l.drop_first();
        assert(forall|a: int, b: int| 0 <= a < b < d.len() ==> d[a] < d[b]);
        assert(forall|k: int| 0 <= k < r - 1 ==> d[k] < m);
        assert(forall|k: int| r - 1 <= k < d.len() ==> d[k] >= m);
        lemma_count_below_split(d, m, r - 1);
    }
}

/// The characters `v[a..b]`, as their own vector.
fn subvec(v: &Vec<char>, a: usize, b: usize) -> (r: Vec<char>)
    requires
        a <= b <= v@.len(),
    ensures
        r@ == v@.subrange(a as int, b as int),
{
    let mut r: Vec<char> = Vec::new();
    let mut k: usize = a;
    while k < b
        invariant
            a <= k <= b <= v@.len(),
            r@ == v@.subrange(a as int, k as int),
        decreases b - k,
    {
        r.push(v[k]);
        assert(v@.subrange(a as int, k + 1) =~= v@.subrange(a as int, k as int).push(
            v@[k as int],
        ));
        k = k + 1;
    }
    r
}

/// Scans for the first occurrence of `c` at or after `from`.
fn find_char(v: &Vec<char>, from: usize, c: char) -> (r: usize)
    requires
        from <= v@.len(),
    ensures
        r as int == find_from(v@, from as int, c),
        from <= r <= v@.len(),
{
    let n = v.len();
    let mut i: usize = from;
    while i < n && v[i] != c
        invariant
            from <= i <= n,
            n == v@.len(),
            find_from(v@, from as int, c) == find_from(v@, i as int, c),
        decreases n - i,
    {
        i = i + 1;
    }
    proof {
        lemma_find_from(v@, i as int, c);
    }
    i
}

/// `w` with whitespace removed from both ends.
fn trim_vec(w: &Vec<char>) -> (r: Vec<char>)
    ensures
        r@ == trim(w@),
{
    let n = w.len();
    let mut a: usize = 0;
    proof {
        assert(w@.skip(0) =~= w@);
    }
    while a < n && is_space_char(w[a])
        invariant
            0 <= a <= n,
            n == w@.len(),
            trim_left(w@) == trim_left(w@.skip(a as int)),
        decreases n - a,
    {
        proof {
            assert(w@.skip(a as int)[0] == w@[a as int]);
            assert(w@.skip(a as int).drop_first() =~= w@.skip(a + 1));
        }
        a = a + 1;
    }
    if a == n {
        proof {
            assert(w@.skip(n as int) =~= Seq::<char>::empty());
            assert(trim(w@) =~= Seq::<char>::empty());
        }
        Vec::new()
    } else {
        proof {
            assert(w@.skip(a as int)[0] == w@[a as int]);
            assert(trim_left(w@) == w@.skip(a as int));
        }
        let ghost left = w@.skip(a as int);
        let mut b: usize = n;
        proof {
            assert(left.take(n - a) =~= left);
        }
        while b > a && is_space_char(w[b - 1])
            invariant
                a <= b <= n,
                n == w@.len(),
                a < n,
                left == w@.skip(a as int),
                trim_right(left) == trim_right(left.take(b - a)),
            decreases b,
        {
            proof {
                let t = left.take(b - a);
                if b - a > 0 {
                    assert(t.last() == w@[b - 1]);
                    assert(t.drop_last() =~= left.take(b - 1 - a));
                }
            }
            b = b - 1;
        }
        proof {
            if b > a {
                let t = left.take(b - a);
                assert(t.last() == w@[b - 1]);
                assert(trim_right(t) == t);
            } else {
                // b == a: impossible to stop here with w[a] non-space,
                // but the empty prefix is its own trim either way
                assert(left.take(0) =~= Seq::<char>::empty());
            }
            assert(left.take(b - a) =~= w@.subrange(a as int, b as int));
        }
        subvec(w, a, b)
    }
}

/// The interior whitespace of `w` collapsed: its words joined by single
/// spaces.
fn collapse_vec(w: &Vec<char>) -> (r: Vec<char>)
    ensures
        r@ == collapse_ws(w@),
{
    let ws = words_of(w);
    join_chars(&ws, ' ')
}

/// The newline positions of `v`, in increasing order.
fn newline_offsets(v: &Vec<char>) -> (nl: Vec<usize>)
    ensures
        nl@.map_values(|x: usize| x as int) == nl_list(v@),
{
    let n = v.len();
    let mut nl: Vec<usize> = Vec::new();
    let mut i: usize = 0;
    proof {
        assert(v@.take(0) =~= Seq::<char>::empty());
        assert(nl@.map_values(|x: usize| x as int) =~= nl_list(v@.take(0)));
    }
    while i < n
        invariant
            0 <= i <= n,
            n == v@.len(),
            nl@.map_values(|x: usize| x as int) == nl_list(v@.take(i as int)),
        decreases n - i,
    {
        proof {
            let t = v@.take(i + 1);
            assert(t.drop_last() =~= v@.take(i as int));
            assert(t.last() == v@[i as int]);
        }
        if v[i] == '\n' {
            nl.push(i);
            proof {
                assert(nl@.map_values(|x: usize| x as int) =~= nl_list(v@.take(i as int)).push(
                    i as int,
                ));
                assert(nl_list(v@.take(i + 1)) =~= nl_list(v@.take(i as int)).push(i as int));
            }
        } else {
            proof {
                assert(nl_list(v@.take(i + 1)) =~= nl_list(v@.take(i as int)));
            }
        }
        i = i + 1;
    }
    proof {
        assert(v@.take(n as int) =~= v@);
    }
    nl
}

/// Binary search over the sorted newline positions: how many lie below `m`.
fn count_below_search(nl: &Vec<usize>, m: usize) -> (r: usize)
    requires
        forall|a: int, b: int| 0 <= a < b < nl@.len() ==> nl@[a] < nl@[b],
    ensures
        r <= nl@.len(),
        r as int == count_below(nl@.map_values(|x: usize| x as int), m as int),
{
    let mut lo: usize = 0;
    let mut hi: usize = nl.len();
    while lo < hi
        invariant
            0 <= lo <= hi <= nl@.len(),
            forall|k: int| 0 <= k < lo ==> nl@[k] < m,
            forall|k: int| hi <= k < nl@.len() ==> nl@[k] >= m,
            forall|a: int, b: int| 0 <= a < b < nl@.len() ==> nl@[a] < nl@[b],
        decreases hi - lo,
    {
        let mid = lo + (hi - lo) / 2;
        let ghost mi = mid as int;
        if nl[mid] < m {
            proof {
                assert forall|k: int| 0 <= k < mi + 1 implies nl@[k] < m by {
                    if k < mi {
                        assert(nl@[k] < nl@[mi]);
                    }
                }
            }
            lo = mid + 1;
        } else {
            proof {
                assert forall|k: int| mi <= k < nl@.len() implies nl@[k] >= m by {
                    if k > mi {
                        assert(nl@[mi] < nl@[k]);
                    }
                }
            }
            hi = mid;
        }
    }
    proof {
        let l = nl@.map_values(|x: usize| x as int);
        assert(forall|k: int| 0 <= k < l.len() ==> l[k] == nl@[k] as int);
        lemma_count_below_split(l, m as int, lo as int);
    }
    lo
}

/// Resolves a source position to its 1-based line number through the
/// precomputed newline positions.
fn line_at(nl: &Vec<usize>, pos: usize, Ghost(s): Ghost<Seq<char>>) -> (r: usize)
    requires
        nl@.map_values(|x: usize| x as int) == nl_list(s),
        s.len() < usize::MAX,
        pos <= s.len(),
    ensures
        r as int == line_of(s, pos as int),
        r >= 1,
{
    proof {
        lemma_nl_list(s);
        lemma_count_nl_nonneg(s);
        assert(forall|k: int| 0 <= k < nl@.len() ==> nl@[k] as int == nl_list(s)[k]);
        assert forall|a: int, b: int| 0 <= a < b < nl@.len() implies nl@[a] < nl@[b] by {
            assert(nl@[a] as int == nl_list(s)[a]);
            assert(nl@[b] as int == nl_list(s)[b]);
        }
        lemma_count_nl_take(s, pos as int);
        lemma_count_nl_nonneg(s.take(pos as int));
    }
    let c = count_below_search(nl, pos);
    c + 1
}

/// Scans `v[from..to]` for the first non-whitespace character.
fn first_nonspace_idx(v: &Vec<char>, from: usize, to: usize) -> (r: usize)
    requires
        from <= to <= v@.len(),
    ensures
        r as int == text_start(v@, from as int, to as int),
        from <= r <= to,
{
    let mut i: usize = from;
    while i < to && is_space_char(v[i])
        invariant
            from <= i <= to <= v@.len(),
            text_start(v@, from as int, to as int) == text_start(v@, i as int, to as int),
        decreases to - i,
    {
        i = i + 1;
    }
    i
}

/// The prefix that marks tag tokens in a token's rendered label.
pub open spec fn tag_prefix() -> Seq<char> {
    seq!['T', 'A', 'G', ':']
}

/// The prefix that marks text tokens in a token's rendered label.
pub open spec fn text_prefix() -> Seq<char> {
    seq!['T', 'E', 'X', 'T', ':']
}

/// A token's label: its kind's prefix followed by its content. Two tokens
/// have equal labels exactly when they agree in kind and content.
pub open spec fn label_of(t: TokenModel) -> Seq<char> {
    match t.kind {
        TokenKind::Tag => tag_prefix() + t.content,
        TokenKind::Text => text_prefix() + t.content,
    }
}

impl Token {
    /// Renders this token's label, `TAG:`- or `TEXT:`-prefixed.
    pub fn label(&self) -> (r: String)
        ensures
            r@ == label_of(self@),
    {
        let mut s = match self.kind {
            TokenKind::Tag => {
                let s = String::from_str("TAG:");
                proof {
                    reveal_strlit("TAG:");
                    assert(s@ =~= tag_prefix());
                }
                s
            },
            TokenKind::Text => {
                let s = String::from_str("TEXT:");
                proof {
                    reveal_strlit("TEXT:");
                    assert(s@ =~= text_prefix());
                }
                s
            },
        };
        s.append(self.content.as_str());
        s
    }
}

/// Splits a markup string into its ordered sequence of tokens.
///
/// Any byte sequence is tokenizable: bracket runs that fail to match as a
/// tag pass through as text, and nothing is validated.
pub fn tokenize(markup: &str) -> (r: Vec<Token>)
    requires
        markup@.len() < usize::MAX,
    ensures
        r.deep_view() == tokenize_spec(markup@),
{
    let v = chars_of(markup);
    let n = v.len();
    let nl = newline_offsets(&v);
    let mut toks: Vec<Token> = Vec::new();
    let mut p: usize = 0;
    let mut q: usize = 0;
    proof {
        assert(toks.deep_view() =~= Seq::<TokenModel>::empty());
        assert(Seq::<TokenModel>::empty() + tokens_from(v@, 0) =~= tokens_from(v@, 0));
    }
    loop
        invariant_except_break
            tokenize_spec(v@) == toks.deep_view() + tokens_from(v@, p as int),
        invariant
            v@ == markup@,
            n == v@.len(),
            n < usize::MAX,
            nl@.map_values(|x: usize| x as int) == nl_list(v@),
            0 <= p <= q <= n,
            next_tag(v@, p as int) == next_tag(v@, q as int),
        ensures
            tokenize_spec(v@) == toks.deep_view(),
        decreases n - q,
    {
        let i = find_char(&v, q, '<');
        let mut matched = false;
        let mut tag_close: usize = 0;
        if i < n {
            let j = find_char(&v, i + 1, '>');
            if j < n {
                if j == i + 1 {
                    proof {
                        assert(next_tag(v@, q as int) == next_tag(v@, i + 2));
                    }
                    q = i + 2;
                    continue ;
                }
                matched = true;
                tag_close = j;
                proof {
                    assert(next_tag(v@, q as int) == Some((i as int, j as int)));
                }
            }
        }
        if matched {
            let j = tag_close;
            proof {
                lemma_next_tag(v@, p as int);
            }
            let ghost old_dv = toks.deep_view();
            let ghost pre = trim(v@.subrange(p as int, i as int));
            let ghost tag_model = TokenModel {
                kind: TokenKind::Tag,
                content: collapse_ws(v@.subrange(i as int, j + 1)),
                line: line_of(v@, i as int),
            };
            // text between the previous match and this one, on the line
            // where its trimmed content starts
            let seg = subvec(&v, p, i);
            let t = trim_vec(&seg);
            if t.len() > 0 {
                let ts = first_nonspace_idx(&v, p, i);
                let text_line = line_at(&nl, ts, Ghost(v@));
                let content = string_of_chars(t.as_slice());
                toks.push(Token { kind: TokenKind::Text, content, line: text_line });
            }
            // the tag itself, whitespace-collapsed, on its bracket's line
            let tag_line = line_at(&nl, i, Ghost(v@));
            let tagseg = subvec(&v, i, j + 1);
            let coll = collapse_vec(&tagseg);
            let tag_content = string_of_chars(coll.as_slice());
            toks.push(Token { kind: TokenKind::Tag, content: tag_content, line: tag_line });
            proof {
                let text_model = TokenModel {
                    kind: TokenKind::Text,
                    content: pre,
                    line: line_of(v@, text_start(v@, p as int, i as int)),
                };
                if pre.len() == 0 {
                    assert(toks.deep_view() =~= old_dv.push(tag_model));
                    assert(tokens_from(v@, p as int) == seq![tag_model] + tokens_from(v@, j + 1));
                    assert(old_dv.push(tag_model) + tokens_from(v@, j + 1) =~= old_dv + (seq![
                        tag_model,
                    ] + tokens_from(v@, j + 1)));
                } else {
                    assert(toks.deep_view() =~= old_dv.push(text_model).push(tag_model));
                    assert(tokens_from(v@, p as int) == seq![text_model, tag_model] + tokens_from(
                        v@,
                        j + 1,
                    ));
                    assert(old_dv.push(text_model).push(tag_model) + tokens_from(v@, j + 1)
                        =~= old_dv + (seq![text_model, tag_model] + tokens_from(v@, j + 1)));
                }
            }
            p = j + 1;
            q = j + 1;
        } else {
            // no further tag match: the trimmed tail is text
            proof {
                assert(next_tag(v@, q as int) is None);
                assert(v@.subrange(p as int, n as int) =~= v@.skip(p as int));
            }
            let ghost old_dv = toks.deep_view();
            let seg = subvec(&v, p, n);
            let t = trim_vec(&seg);
            if t.len() > 0 {
                let ts = first_nonspace_idx(&v, p, n);
                let line = line_at(&nl, ts, Ghost(v@));
                let content = string_of_chars(t.as_slice());
                toks.push(Token { kind: TokenKind::Text, content, line });
                proof {
                    let tail_model = TokenModel {
                        kind: TokenKind::Text,
                        content: trim(v@.skip(p as int)),
                        line: line_of(v@, text_start(v@, p as int, n as int)),
                    };
                    assert(toks.deep_view() =~= old_dv.push(tail_model));
                    assert(tokens_from(v@, p as int) == seq![tail_model]);
                    assert(old_dv.push(tail_model) =~= old_dv + seq![tail_model]);
                }
            } else {
                proof {
                    assert(tokens_from(v@, p as int) =~= Seq::<TokenModel>::empty());
                    assert(old_dv + Seq::<TokenModel>::empty() =~= old_dv);
                }
            }
            break ;
        }
    }
    toks
}

/// There are never more tokens than characters: a tag match consumes at
/// least three characters for at most two tokens, and a text tail at
/// least one.
pub proof fn lemma_tokens_from_count(s: Seq<char>, p: int)
    requires
        0 <= p <= s.len(),
    ensures
        tokens_from(s, p).len() <= s.len() - p,
    decreases s.len() - p,
{
    lemma_next_tag(s, p);
    match next_tag(s, p) {
        Option::None => {
            let tail = trim(s.skip(p));
            crate::text::lemma_trim_le(s.skip(p));
            if tail.len() > 0 {
                assert(s.len() - p >= 1);
            }
        },
        Option::Some(m) => {
            lemma_tokens_from_count(s, m.1 + 1);
        },
    }
}

/// Every token carries a positive line number, and a whitespace-only run
/// never yields a token: text content is non-empty.
pub proof fn lemma_tokens_from_wf(s: Seq<char>, p: int)
    requires
        0 <= p <= s.len(),
    ensures
        forall|k: int|
            0 <= k < tokens_from(s, p).len() ==> {
                &&& (#[trigger] tokens_from(s, p)[k]).line >= 1
                &&& (tokens_from(s, p)[k].kind == TokenKind::Text ==> tokens_from(
                    s,
                    p,
                )[k].content.len() > 0)
            },
    decreases s.len() - p,
{
    lemma_next_tag(s, p);
    match next_tag(s, p) {
        Option::None => {
            lemma_text_start(s, p, s.len() as int);
            lemma_count_nl_nonneg(s.take(text_start(s, p, s.len() as int)));
        },
        Option::Some(m) => {
            lemma_tokens_from_wf(s, m.1 + 1);
            lemma_text_start(s, p, m.0);
            lemma_count_nl_nonneg(s.take(text_start(s, p, m.0)));
            lemma_count_nl_nonneg(s.take(m.0));
        },
    }
}

} // verus!
