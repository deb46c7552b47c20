//! Paths inside the work tree: texts whose segments are separated by `/`.
use crate::order::texts;
use crate::text::{find_char, first_index, lemma_first_index, sub_chars};
use vstd::prelude::*;

verus! {

/// The segments of the path `p`: the texts between its slashes, empty ones left
/// out, so that repeated, leading and trailing slashes do not count.
pub open spec fn segments(p: Seq<char>) -> Seq<Seq<char>>
    decreases p.len(),
{
    let k = first_index(p, '/');
    if p.len() == 0 {
        Seq::empty()
    } else if 0 < k < p.len() {
        seq![p.take(k)] + segments(p.skip(k + 1))
    } else if k == 0 {
        segments(p.skip(1))
    } else {
        seq![p]
    }
}

/// The segments of `p`, as `segments` defines them.
pub fn split_path(p: &Vec<char>) -> (r: Vec<Vec<char>>)
    ensures
        texts(r@) == segments(p@),
{
    let mut r: Vec<Vec<char>> = Vec::new();
    let mut pos: usize = 0;
    assert(p@.skip(0) =~= p@);
    assert(texts(r@) =~= Seq::<Seq<char>>::empty());
    while pos < p.len()
        invariant
            pos <= p.len(),
            segments(p@) == texts(r@) + segments(p@.skip(pos as int)),
        decreases p.len() - pos,
    {
        let ghost rest = p@.skip(pos as int);
        let ghost before = texts(r@);
        let k = find_char(p, pos, '/');
        proof {
            lemma_first_index(rest, '/');
        }
        if k > pos {
            let seg = sub_chars(p, pos, k);
            proof {
                if k < p.len() {
                    assert(rest.take(k - pos) =~= seg@);
                } else {
                    assert(rest =~= seg@);
                }
            }
            r.push(seg);
            assert(texts(r@) =~= before.push(seg@));
        }
        if k < p.len() {
            assert(rest.skip(k - pos + 1) =~= p@.skip(k + 1));
            pos = k + 1;
        } else {
            pos = k;
            assert(segments(p@.skip(pos as int)) =~= Seq::<Seq<char>>::empty());
        }
    }
    assert(segments(p@.skip(pos as int)) =~= Seq::<Seq<char>>::empty());
    assert(texts(r@) + Seq::<Seq<char>>::empty() =~= texts(r@));
    r
}

/// `prefix` and `name` joined into one path: the name alone under an empty
/// prefix, else the prefix, a slash and the name.
pub open spec fn joined(prefix: Seq<char>, name: Seq<char>) -> Seq<char> {
    if prefix.len() == 0 {
        name
    } else {
        prefix + seq!['/'] + name
    }
}

/// `s` with every backslash turned into a slash.
pub open spec fn with_slashes(s: Seq<char>) -> Seq<char> {
    Seq::new(
        s.len(),
        |i: int|
            if s[i] == '\\' {
                '/'
            } else {
                s[i]
            },
    )
}

/// `prefix` and `name` joined into one path.
pub fn join_path(prefix: &Vec<char>, name: &Vec<char>) -> (r: Vec<char>)
    ensures
        r@ == joined(prefix@, name@),
{
    let mut r: Vec<char> = Vec::new();
    if prefix.len() > 0 {
        crate::text::append_chars(&mut r, prefix);
        r.push('/');
    }
    crate::text::append_chars(&mut r, name);
    assert(r@ =~= joined(prefix@, name@));
    r
}

/// `v` with every backslash turned into a slash.
pub fn normalize_separators(v: &Vec<char>) -> (r: Vec<char>)
    ensures
        r@ == with_slashes(v@),
        forall|i: int| 0 <= i < r@.len() ==> r@[i] != '\\',
{
    let mut r: Vec<char> = Vec::new();
    let mut i: usize = 0;
    while i < v.len()
        invariant
            i <= v.len(),
            r@ == with_slashes(v@).take(i as int),
        decreases v.len() - i,
    {
        let c = v[i];
        if c == '\\' {
            r.push('/');
        } else {
            r.push(c);
        }
        assert(r@ =~= with_slashes(v@).take(i + 1));
        i += 1;
    }
    assert(with_slashes(v@).take(i as int) =~= with_slashes(v@));
    r
}

/// The path `path` with every backslash turned into a slash, so that paths
/// read the same whatever the system writes between their segments.
pub fn to_slashes(path: &str) -> (r: String)
    ensures
        r@ == with_slashes(path@),
        forall|i: int| 0 <= i < r@.len() ==> r@[i] != '\\',
{
    crate::text::chars_to_string(&normalize_separators(&crate::text::string_chars(path)))
}

} // verus!
