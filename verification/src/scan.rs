//! White space, trimming, lines and tokens of a text.
use crate::text::{find_char, first_index, lemma_first_index, sub_chars};
use vstd::prelude::*;

verus! {

/// The characters that count as white space: those with the Unicode property
/// `White_Space`.
pub open spec fn is_space(c: char) -> bool {
    ('\u{9}' <= c && c <= '\u{d}') || c == ' ' || c == '\u{85}' || c == '\u{a0}' || c
        == '\u{1680}' || ('\u{2000}' <= c && c <= '\u{200a}') || c == '\u{2028}' || c
        == '\u{2029}' || c == '\u{202f}' || c == '\u{205f}' || c == '\u{3000}'
}

/// Whether `c` is white space.
pub fn is_space_char(c: char) -> (r: bool)
    ensures
        r == is_space(c),
{
    let n: u32 = c as u32;
    (0x09 <= n && n <= 0x0d) || n == 0x20 || n == 0x85 || n == 0xa0 || n == 0x1680 || (0x2000 <= n
        && n <= 0x200a) || n == 0x2028 || n == 0x2029 || n == 0x202f || n == 0x205f || n
        == 0x3000
}

/// The number of white-space characters at the start of `s`.
pub open spec fn leading_spaces(s: Seq<char>) -> int
    decreases s.len(),
{
    if s.len() > 0 && is_space(s[0]) {
        1 + leading_spaces(s.drop_first())
    } else {
        0
    }
}

/// The number of white-space characters at the end of `s`.
pub open spec fn trailing_spaces(s: Seq<char>) -> int
    decreases s.len(),
{
    if s.len() > 0 && is_space(s.last()) {
        1 + trailing_spaces(s.drop_last())
    } else {
        0
    }
}

/// `s` without the white space at its start and at its end.
pub open spec fn trimmed(s: Seq<char>) -> Seq<char> {
    let t = s.skip(leading_spaces(s));
    t.take(t.len() - trailing_spaces(t))
}

/// The white space at the start is white space, and what follows it is not.
pub proof fn lemma_leading_spaces(s: Seq<char>)
    ensures
        0 <= leading_spaces(s) <= s.len(),
        forall|i: int| 0 <= i < leading_spaces(s) ==> is_space(s[i]),
        leading_spaces(s) < s.len() ==> !is_space(s[leading_spaces(s)]),
    decreases s.len(),
{
    if s.len() > 0 && is_space(s[0]) {
        let t = s.drop_first();
        lemma_leading_spaces(t);
        assert forall|i: int| 0 <= i < leading_spaces(s) implies is_space(s[i]) by {
            if i > 0 {
                assert(s[i] == t[i - 1]);
            }
        }
    }
}

/// A run of white space at the start that ends before something else, or at
/// the end, is all the white space at the start.
pub proof fn lemma_leading_spaces_is(s: Seq<char>, k: int)
    requires
        0 <= k <= s.len(),
        forall|i: int| 0 <= i < k ==> is_space(s[i]),
        k < s.len() ==> !is_space(s[k]),
    ensures
        leading_spaces(s) == k,
{
    lemma_leading_spaces(s);
    let f = leading_spaces(s);
    if f < k {
        assert(is_space(s[f]));
    } else if f > k {
        assert(is_space(s[k]));
    }
}

/// The white space at the end is white space, and what stands before it is not.
pub proof fn lemma_trailing_spaces(s: Seq<char>)
    ensures
        0 <= trailing_spaces(s) <= s.len(),
        forall|i: int| s.len() - trailing_spaces(s) <= i < s.len() ==> is_space(s[i]),
        trailing_spaces(s) < s.len() ==> !is_space(s[s.len() - trailing_spaces(s) - 1]),
    decreases s.len(),
{
    if s.len() > 0 && is_space(s.last()) {
        let t = s.drop_last();
        lemma_trailing_spaces(t);
        assert forall|i: int| s.len() - trailing_spaces(s) <= i < s.len() implies is_space(
            s[i],
        ) by {
            if i < s.len() - 1 {
                assert(s[i] == t[i]);
            }
        }
    }
}

/// A run of white space at the end that starts behind something else, or at
/// the start, is all the white space at the end.
pub proof fn lemma_trailing_spaces_is(s: Seq<char>, k: int)
    requires
        0 <= k <= s.len(),
        forall|i: int| s.len() - k <= i < s.len() ==> is_space(s[i]),
        k < s.len() ==> !is_space(s[s.len() - k - 1]),
    ensures
        trailing_spaces(s) == k,
{
    lemma_trailing_spaces(s);
    let f = trailing_spaces(s);
    if f < k {
        assert(is_space(s[s.len() - f - 1]));
    } else if f > k {
        assert(is_space(s[s.len() - k - 1]));
    }
}

/// `v` without the white space at its start and at its end.
pub fn trim(v: &Vec<char>) -> (r: Vec<char>)
    ensures
        r@ == trimmed(v@),
{
    let mut i: usize = 0;
    while i < v.len() && is_space_char(v[i])
        invariant
            i <= v.len(),
            forall|j: int| 0 <= j < i ==> is_space(v@[j]),
        decreases v.len() - i,
    {
        i += 1;
    }
    let mut j: usize = v.len();
    while j > i && is_space_char(v[j - 1])
        invariant
            i <= j <= v.len(),
            forall|k: int| j <= k < v.len() ==> is_space(v@[k]),
        decreases j,
    {
        j -= 1;
    }
    proof {
        lemma_leading_spaces_is(v@, i as int);
        let t = v@.skip(i as int);
        assert forall|k: int| t.len() - (v.len() - j) <= k < t.len() implies is_space(t[k]) by {
            assert(t[k] == v@[k + i]);
        }
        if v.len() - j < t.len() {
            assert(t[t.len() - (v.len() - j) - 1] == v@[j - 1]);
        }
        lemma_trailing_spaces_is(t, v.len() - j);
        assert(t.take(t.len() - (v.len() - j)) =~= v@.subrange(i as int, j as int));
    }
    sub_chars(v, i, j)
}

/// A line without the carriage return that may end it.
pub open spec fn strip_cr(line: Seq<char>) -> Seq<char> {
    if line.len() > 0 && line.last() == '\r' {
        line.drop_last()
    } else {
        line
    }
}

/// The lines of `s`. A line ends at a line feed, or at a carriage return followed
/// by a line feed; neither belongs to the line. The last line need not be ended,
/// and an empty rest after the last line feed is no line.
pub open spec fn lines_of(s: Seq<char>) -> Seq<Seq<char>>
    decreases s.len(),
{
    let k = first_index(s, '\n');
    if s.len() == 0 {
        Seq::empty()
    } else if 0 <= k < s.len() {
        seq![strip_cr(s.take(k))] + lines_of(s.skip(k + 1))
    } else {
        seq![s]
    }
}

/// The lines of `v`, as `lines_of` defines them.
pub fn split_lines(v: &Vec<char>) -> (r: Vec<Vec<char>>)
    ensures
        r@.len() == lines_of(v@).len(),
        forall|i: int| 0 <= i < r@.len() ==> (#[trigger] r@[i])@ == lines_of(v@)[i],
{
    let mut r: Vec<Vec<char>> = Vec::new();
    let mut pos: usize = 0;
    assert(v@.skip(0) =~= v@);
    while pos < v.len()
        invariant
            pos <= v.len(),
            lines_of(v@) == Seq::new(r@.len(), |i: int| r@[i]@) + lines_of(v@.skip(pos as int)),
        decreases v.len() - pos,
    {
        let ghost rest = v@.skip(pos as int);
        let ghost before = Seq::new(r@.len(), |i: int| r@[i]@);
        let k = find_char(v, pos, '\n');
        proof {
            lemma_first_index(rest, '\n');
        }
        if k == v.len() {
            let line = sub_chars(v, pos, k);
            assert(line@ == rest);
            r.push(line);
            pos = k;
            proof {
                assert(lines_of(rest) == seq![rest]);
                assert(lines_of(v@.skip(pos as int)) == Seq::<Seq<char>>::empty());
                assert(Seq::new(r@.len(), |i: int| r@[i]@) =~= before + seq![rest]);
            }
        } else {
            let end = if k > pos && v[k - 1] == '\r' {
                k - 1
            } else {
                k
            };
            let line = sub_chars(v, pos, end);
            proof {
                let raw = rest.take(k - pos);
                assert(raw =~= v@.subrange(pos as int, k as int));
                assert(line@ =~= strip_cr(raw));
                assert(rest.skip(k - pos + 1) =~= v@.skip(k + 1));
            }
            r.push(line);
            pos = k + 1;
            proof {
                assert(Seq::new(r@.len(), |i: int| r@[i]@) =~= before + seq![line@]);
            }
        }
    }
    proof {
        let all = Seq::new(r@.len(), |i: int| r@[i]@);
        assert(lines_of(v@.skip(pos as int)) == Seq::<Seq<char>>::empty());
        assert(lines_of(v@) =~= all);
    }
    r
}

/// The maximal runs of characters of `s` that are not white space, in order.
pub open spec fn tokens_of(s: Seq<char>) -> Seq<Seq<char>>
    decreases s.len(),
{
    let lead = leading_spaces(s);
    let rest = s.skip(lead);
    let n = token_len(rest);
    if 0 <= lead < s.len() && 0 < n <= rest.len() {
        seq![rest.take(n)] + tokens_of(rest.skip(n))
    } else {
        Seq::empty()
    }
}

/// The number of characters at the start of `s` that are not white space.
pub open spec fn token_len(s: Seq<char>) -> int
    decreases s.len(),
{
    if s.len() > 0 && !is_space(s[0]) {
        1 + token_len(s.drop_first())
    } else {
        0
    }
}

/// The characters of the token at the start are no white space, and what
/// follows them is.
pub proof fn lemma_token_len(s: Seq<char>)
    ensures
        0 <= token_len(s) <= s.len(),
        forall|i: int| 0 <= i < token_len(s) ==> !is_space(s[i]),
        token_len(s) < s.len() ==> is_space(s[token_len(s)]),
    decreases s.len(),
{
    if s.len() > 0 && !is_space(s[0]) {
        let t = s.drop_first();
        lemma_token_len(t);
        assert forall|i: int| 0 <= i < token_len(s) implies !is_space(s[i]) by {
            if i > 0 {
                assert(s[i] == t[i - 1]);
            }
        }
    }
}

/// A run without white space at the start that ends before white space, or at
/// the end, is the token at the start.
pub proof fn lemma_token_len_is(s: Seq<char>, k: int)
    requires
        0 <= k <= s.len(),
        forall|i: int| 0 <= i < k ==> !is_space(s[i]),
        k < s.len() ==> is_space(s[k]),
    ensures
        token_len(s) == k,
{
    lemma_token_len(s);
    let f = token_len(s);
    if f < k {
        assert(!is_space(s[f]));
    } else if f > k {
        assert(!is_space(s[k]));
    }
}

/// The tokens of `v`, as `tokens_of` defines them.
pub fn split_tokens(v: &Vec<char>) -> (r: Vec<Vec<char>>)
    ensures
        r@.len() == tokens_of(v@).len(),
        forall|i: int| 0 <= i < r@.len() ==> (#[trigger] r@[i])@ == tokens_of(v@)[i],
{
    let mut r: Vec<Vec<char>> = Vec::new();
    let mut pos: usize = 0;
    assert(v@.skip(0) =~= v@);
    while pos < v.len()
        invariant
            pos <= v.len(),
            tokens_of(v@) == Seq::new(r@.len(), |i: int| r@[i]@) + tokens_of(v@.skip(pos as int)),
        decreases v.len() - pos,
    {
        let ghost s = v@.skip(pos as int);
        let ghost before = Seq::new(r@.len(), |i: int| r@[i]@);
        let mut i: usize = pos;
        while i < v.len() && is_space_char(v[i])
            invariant
                pos <= i <= v.len(),
                forall|j: int| pos <= j < i ==> is_space(v@[j]),
            decreases v.len() - i,
        {
            i += 1;
        }
        let mut j: usize = i;
        while j < v.len() && !is_space_char(v[j])
            invariant
                i <= j <= v.len(),
                forall|k: int| i <= k < j ==> !is_space(v@[k]),
            decreases v.len() - j,
        {
            j += 1;
        }
        proof {
            lemma_leading_spaces_is(s, i - pos);
            let rest = s.skip(i - pos);
            assert(rest =~= v@.skip(i as int));
            lemma_token_len_is(rest, j - i);
            assert(rest.take(j - i) =~= v@.subrange(i as int, j as int));
            assert(rest.skip(j - i) =~= v@.skip(j as int));
        }
        if i == v.len() {
            pos = i;
            proof {
                assert(tokens_of(s) == Seq::<Seq<char>>::empty());
                assert(tokens_of(v@.skip(pos as int)) == Seq::<Seq<char>>::empty());
            }
        } else {
            let tok = sub_chars(v, i, j);
            r.push(tok);
            pos = j;
            proof {
                assert(Seq::new(r@.len(), |i: int| r@[i]@) =~= before + seq![tok@]);
            }
        }
    }
    proof {
        let all = Seq::new(r@.len(), |i: int| r@[i]@);
        assert(tokens_of(v@.skip(pos as int)) == Seq::<Seq<char>>::empty());
        assert(tokens_of(v@) =~= all);
    }
    r
}

} // verus!
