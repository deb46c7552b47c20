//! Ignore rules: the patterns of the file `.vcsignore`, matched by the `glob`
//! crate.
use crate::error::RepoError;
use crate::paths::{to_slashes, with_slashes};
use crate::scan::{lines_of, split_lines, trim, trimmed};
use crate::text::{append_chars, chars_to_string, names, string_chars, sub_chars};
use glob::Pattern;
use vstd::prelude::*;

verus! {

/// The patterns that decide which paths are left alone: the texts of the
/// patterns, each of which `glob` compiles.
pub struct IgnoreRules {
    patterns: Vec<String>,
}

/// Whether the `glob` crate compiles the pattern: whether `glob::Pattern::new`
/// accepts it.
pub uninterp spec fn glob_compiles(pattern: Seq<char>) -> bool;

/// Whether the `glob` crate finds that the pattern matches the text: what
/// `glob::Pattern::matches` answers for the compiled pattern, and no for a
/// pattern that does not compile.
pub uninterp spec fn glob_matches(pattern: Seq<char>, text: Seq<char>) -> bool;

/// Asks `glob::Pattern::new` whether it accepts the pattern. The answer depends
/// on the pattern alone; what counts as a path separator in it is fixed with
/// the platform that the crate is built for.
#[verifier::external_body]
fn compiles(pattern: &str) -> (r: bool)
    ensures
        r == glob_compiles(pattern@),
{
    Pattern::new(pattern).is_ok()
}

/// Compiles the pattern with `glob::Pattern::new` and asks
/// `glob::Pattern::matches`, which matches with the default options, whether
/// it matches `text`; a pattern that does not compile matches nothing. The
/// answer depends on the pattern and the text alone; what counts as a path
/// separator in them is fixed with the platform that the crate is built for.
#[verifier::external_body]
fn pattern_matches(pattern: &str, text: &str) -> (r: bool)
    ensures
        r == glob_matches(pattern@, text@),
{
    match Pattern::new(pattern) {
        Ok(compiled) => compiled.matches(text),
        Err(_) => false,
    }
}

/// The pattern of a line of the ignore file, in the form that `glob` reads: a
/// pattern that starts with a slash holds from the root, and loses the slash;
/// any other holds at any depth, and gets `**/` in front. A pattern that ends
/// with a slash names a directory, and gets `**` behind.
pub open spec fn normalized_pattern(p: Seq<char>) -> Seq<char> {
    let anchored = if p.len() > 0 && p[0] == '/' {
        p.skip(1)
    } else {
        seq!['*', '*', '/'] + p
    };
    if anchored.len() > 0 && anchored.last() == '/' {
        anchored + seq!['*', '*']
    } else {
        anchored
    }
}

/// The patterns that always hold: the repository's own directory and all in it.
pub open spec fn fixed_patterns() -> Seq<Seq<char>> {
    seq![seq!['.', 'v', 'c', 's', '/', '*', '*'], seq!['.', 'v', 'c', 's']]
}

/// The patterns of the lines `lines`, in their order. A line counts without
/// the white space around it; an empty line and a line that starts with `#`
/// hold no pattern.
pub open spec fn line_patterns(lines: Seq<Seq<char>>) -> Seq<Seq<char>>
    decreases lines.len(),
{
    if lines.len() == 0 {
        Seq::empty()
    } else {
        let t = trimmed(lines.last());
        if t.len() == 0 || t[0] == '#' {
            line_patterns(lines.drop_last())
        } else {
            line_patterns(lines.drop_last()).push(normalized_pattern(t))
        }
    }
}

/// The patterns to compile: the fixed ones, then those of the ignore file if
/// there is one.
pub open spec fn candidates(content: Option<Seq<char>>) -> Seq<Seq<char>> {
    match content {
        Some(text) => fixed_patterns() + line_patterns(lines_of(text)),
        None => fixed_patterns(),
    }
}

/// The pattern of a line of the ignore file, in the form that `glob` reads.
pub fn normalize_pattern(pattern: &str) -> (r: String)
    ensures
        r@ == normalized_pattern(pattern@),
{
    chars_to_string(&normalize_chars(&string_chars(pattern)))
}

/// The pattern `p` in the form that `glob` reads.
fn normalize_chars(p: &Vec<char>) -> (r: Vec<char>)
    ensures
        r@ == normalized_pattern(p@),
{
    let mut r: Vec<char> = Vec::new();
    if p.len() > 0 && p[0] == '/' {
        append_chars(&mut r, &sub_chars(p, 1, p.len()));
        assert(r@ =~= p@.skip(1));
    } else {
        r.push('*');
        r.push('*');
        r.push('/');
        append_chars(&mut r, p);
        assert(r@ =~= seq!['*', '*', '/'] + p@);
    }
    if r.len() > 0 && r[r.len() - 1] == '/' {
        let ghost anchored = r@;
        r.push('*');
        r.push('*');
        assert(r@ =~= anchored + seq!['*', '*']);
    }
    r
}

/// The patterns to compile for an ignore file with the content `content`;
/// `None` stands for no file.
pub fn ignore_candidates(content: Option<&str>) -> (r: Vec<String>)
    ensures
        names(r@) == candidates(
            match content {
                Some(text) => Some(text@),
                None => None,
            },
        ),
{
    let mut r: Vec<String> = Vec::new();
    r.push(chars_to_string(&vec!['.', 'v', 'c', 's', '/', '*', '*']));
    r.push(chars_to_string(&vec!['.', 'v', 'c', 's']));
    assert(names(r@) =~= fixed_patterns());
    let text = match content {
        Some(text) => text,
        None => {
            return r;
        },
    };
    let lines = split_lines(&string_chars(text));
    let ghost all = lines_of(text@);
    let mut i: usize = 0;
    assert(names(r@) =~= fixed_patterns() + line_patterns(all.take(0)));
    while i < lines.len()
        invariant
            i <= lines.len(),
            all == lines_of(text@),
            lines@.len() == all.len(),
            forall|j: int| 0 <= j < lines@.len() ==> (#[trigger] lines@[j])@ == all[j],
            names(r@) == fixed_patterns() + line_patterns(all.take(i as int)),
        decreases lines.len() - i,
    {
        let ghost before = names(r@);
        let ghost part = all.take(i + 1);
        assert(part.drop_last() =~= all.take(i as int));
        assert(part.last() == all[i as int]);
        let t = trim(&lines[i]);
        if t.len() > 0 && t[0] != '#' {
            let pattern = normalize_chars(&t);
            let ghost pv = pattern@;
            r.push(chars_to_string(&pattern));
            assert(names(r@) =~= before.push(pv));
            assert(names(r@) =~= fixed_patterns() + line_patterns(part));
        }
        i += 1;
    }
    assert(all.take(i as int) =~= all);
    r
}

/// The patterns of `sources` for which the answer is yes, in their order;
/// `answers` holds an answer for each pattern in turn, and a pattern without an
/// answer counts as one with the answer no.
pub open spec fn kept(sources: Seq<Seq<char>>, answers: Seq<bool>) -> Seq<Seq<char>>
    decreases sources.len(),
{
    if sources.len() == 0 {
        Seq::empty()
    } else if sources.len() <= answers.len() && answers[sources.len() - 1] {
        kept(sources.drop_last(), answers).push(sources.last())
    } else {
        kept(sources.drop_last(), answers)
    }
}

/// For each pattern in turn, whether `glob` compiles it.
pub open spec fn compile_answers(sources: Seq<Seq<char>>) -> Seq<bool> {
    Seq::new(sources.len(), |i: int| glob_compiles(sources[i]))
}

/// For each pattern in turn, whether `glob` finds that it matches the path
/// `path` with slashes for backslashes, and whether it matches the path as it
/// is.
pub open spec fn match_answers(patterns: Seq<Seq<char>>, path: Seq<char>) -> Seq<(bool, bool)> {
    Seq::new(
        patterns.len(),
        |i: int| (glob_matches(patterns[i], with_slashes(path)), glob_matches(patterns[i], path)),
    )
}

/// Whether the two patterns that always hold are in front of `sources` and
/// have the answer yes.
pub open spec fn fixed_compile(sources: Seq<Seq<char>>, answers: Seq<bool>) -> bool {
    sources.len() >= 2 && answers.len() >= 2 && answers[0] && answers[1]
}

/// Whether one of the answers is yes.
pub open spec fn any_yes(answers: Seq<(bool, bool)>) -> bool {
    exists|i: int| 0 <= i < answers.len() && ((#[trigger] answers[i]).0 || answers[i].1)
}

/// Whether a path is to be left alone, from the answers that the patterns gave
/// for it: each pattern was asked about the path with slashes for backslashes
/// and about the path as it is, and one yes is enough.
pub fn ignored(answers: &Vec<(bool, bool)>) -> (r: bool)
    ensures
        r == any_yes(answers@),
{
    let mut i: usize = 0;
    while i < answers.len()
        invariant
            i <= answers.len(),
            forall|j: int| 0 <= j < i ==> !(#[trigger] answers@[j]).0 && !answers@[j].1,
        decreases answers.len() - i,
    {
        if answers[i].0 || answers[i].1 {
            return true;
        }
        i += 1;
    }
    false
}

impl IgnoreRules {
    /// The patterns that the rules hold.
    pub closed spec fn patterns(&self) -> Seq<Seq<char>> {
        names(self.patterns@)
    }

    /// The rules made of the candidates that compile. `sources` holds the
    /// candidates, `answers` for each in turn whether it compiles; a candidate
    /// without an answer counts as one that does not. The first two candidates
    /// are the patterns that always hold: it is an error if one of them does
    /// not compile. Any other that does not compile is left out.
    pub fn from_compiled(sources: &Vec<String>, answers: &Vec<bool>) -> (r: Result<
        IgnoreRules,
        RepoError,
    >)
        ensures
            r is Ok <==> fixed_compile(names(sources@), answers@),
            r matches Ok(rules) ==> rules.patterns() == kept(names(sources@), answers@),
            r matches Err(e) ==> e == RepoError::InvalidPattern,
    {
        if sources.len() < 2 || answers.len() < 2 || !answers[0] || !answers[1] {
            return Err(RepoError::InvalidPattern);
        }
        let ghost all = names(sources@);
        let mut patterns: Vec<String> = Vec::new();
        let mut i: usize = 0;
        assert(names(patterns@) =~= kept(all.take(0), answers@));
        while i < sources.len()
            invariant
                i <= sources.len(),
                all == names(sources@),
                names(patterns@) == kept(all.take(i as int), answers@),
            decreases sources.len() - i,
        {
            let ghost before = names(patterns@);
            let ghost part = all.take(i + 1);
            assert(part.drop_last() =~= all.take(i as int));
            assert(part.last() == all[i as int]);
            if i < answers.len() && answers[i] {
                patterns.push(sources[i].clone());
                assert(names(patterns@) =~= before.push(all[i as int]));
            }
            i += 1;
        }
        assert(all.take(i as int) =~= all);
        Ok(IgnoreRules { patterns })
    }

    /// Loads the rules for an ignore file with the content `content`; `None`
    /// stands for no file. The rules hold the patterns of `ignore_candidates`
    /// that `glob` compiles, in their order. It is an error if `glob` refuses
    /// one of the two patterns that always hold.
    pub fn load(content: Option<&str>) -> (r: Result<IgnoreRules, RepoError>)
        ensures
            r is Ok <==> glob_compiles(fixed_patterns()[0]) && glob_compiles(fixed_patterns()[1]),
            r matches Ok(rules) ==> rules.patterns() == kept(
                candidates(opt_text(content)),
                compile_answers(candidates(opt_text(content))),
            ),
            r matches Err(e) ==> e == RepoError::InvalidPattern,
    {
        let sources = ignore_candidates(content);
        let ghost all = names(sources@);
        let mut answers: Vec<bool> = Vec::new();
        let mut i: usize = 0;
        while i < sources.len()
            invariant
                i <= sources.len(),
                all == names(sources@),
                answers@ == compile_answers(all).take(i as int),
            decreases sources.len() - i,
        {
            let answer = compiles(sources[i].as_str());
            answers.push(answer);
            assert(answers@ =~= compile_answers(all).take(i + 1));
            i += 1;
        }
        proof {
            assert(compile_answers(all).take(i as int) =~= compile_answers(all));
            assert(all.len() >= 2 && all[0] == fixed_patterns()[0] && all[1]
                == fixed_patterns()[1]) by {
                let fixed = fixed_patterns();
                assert(fixed.len() == 2);
                match content {
                    Some(text) => {
                        let lines = line_patterns(lines_of(text@));
                        assert((fixed + lines)[0] == fixed[0]);
                        assert((fixed + lines)[1] == fixed[1]);
                    },
                    None => {},
                }
            }
        }
        IgnoreRules::from_compiled(&sources, &answers)
    }

    /// Whether the path `rel_path`, taken from the root of the work tree, is to
    /// be left alone: whether `glob` finds that one of the patterns matches the
    /// path with slashes for backslashes or the path as it is.
    pub fn should_ignore(&self, rel_path: &str) -> (r: bool)
        ensures
            r == any_yes(match_answers(self.patterns(), rel_path@)),
    {
        let normal_path = to_slashes(rel_path);
        let mut answers: Vec<(bool, bool)> = Vec::new();
        let mut i: usize = 0;
        while i < self.patterns.len()
            invariant
                i <= self.patterns.len(),
                normal_path@ == with_slashes(rel_path@),
                answers@ == match_answers(self.patterns(), rel_path@).take(i as int),
            decreases self.patterns.len() - i,
        {
            let pattern = self.patterns[i].as_str();
            let normal = pattern_matches(pattern, normal_path.as_str());
            let raw = pattern_matches(pattern, rel_path);
            answers.push((normal, raw));
            assert(answers@ =~= match_answers(self.patterns(), rel_path@).take(i + 1));
            i += 1;
        }
        assert(match_answers(self.patterns(), rel_path@).take(i as int) =~= match_answers(
            self.patterns(),
            rel_path@,
        ));
        ignored(&answers)
    }
}

/// What an optional text holds.
pub open spec fn opt_text(o: Option<&str>) -> Option<Seq<char>> {
    match o {
        Some(s) => Some(s@),
        None => None,
    }
}

} // verus!
