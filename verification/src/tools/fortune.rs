//! Fortunes: reading them out of a file and keeping those a pattern
//! matches.

use vstd::prelude::*;
use crate::text::{chars_of, slice_eq, string_of};
use crate::tools::cat::{is_whitespace, unicode_whitespace};
use rand::rngs::{StdRng, SysRng};
use rand::seq::IndexedRandom;
use rand::SeedableRng;

verus! {

/// The pieces of `s` between the non-overlapping occurrences of `sep`,
/// found from the left, the current piece starting at `start` and the
/// search at `i`.
pub open spec fn split_from(s: Seq<char>, sep: Seq<char>, start: int, i: int) -> Seq<Seq<char>>
    decreases s.len() - i,
{
    if i < 0 || i + sep.len() > s.len() || sep.len() == 0 {
        seq![s.subrange(start, s.len() as int)]
    } else if s.subrange(i, i + sep.len()) == sep {
        seq![s.subrange(start, i)] + split_from(s, sep, i + sep.len(), i + sep.len())
    } else {
        split_from(s, sep, start, i + 1)
    }
}

/// `s` without whitespace at either end.
pub open spec fn trim_spec(s: Seq<char>) -> Seq<char>
    decreases s.len(),
{
    if s.len() > 0 && unicode_whitespace(s[0]) {
        trim_spec(s.drop_first())
    } else if s.len() > 0 && unicode_whitespace(s.last()) {
        trim_spec(s.drop_last())
    } else {
        s
    }
}

/// The non-empty ones among `ps`, trimmed, in order.
pub open spec fn kept_fortunes(ps: Seq<Seq<char>>) -> Seq<Seq<char>>
    decreases ps.len(),
{
    if ps.len() == 0 {
        Seq::empty()
    } else {
        let rest = kept_fortunes(ps.drop_last());
        let t = trim_spec(ps.last());
        if t.len() > 0 {
            rest.push(t)
        } else {
            rest
        }
    }
}

/// The fortunes of a file: the pieces between lines holding only `%`,
/// trimmed, the empty ones left out.
pub open spec fn fortunes_spec(content: Seq<char>) -> Seq<Seq<char>> {
    kept_fortunes(split_from(content, seq!['\n', '%', '\n'], 0, 0))
}

/// `v[lo..hi]` without whitespace at either end.
fn trim_range(v: &Vec<char>, lo: usize, hi: usize) -> (res: String)
    requires
        lo <= hi <= v@.len(),
    ensures
        res@ == trim_spec(v@.subrange(lo as int, hi as int)),
{
    let mut a = lo;
    let mut b = hi;
    while a < b && is_whitespace(v[a])
        invariant
            lo <= a <= b <= v@.len(),
            b == hi,
            trim_spec(v@.subrange(lo as int, hi as int)) == trim_spec(v@.subrange(a as int, b as int)),
        decreases b - a,
    {
        assert(v@.subrange(a as int, b as int).drop_first() =~= v@.subrange(a + 1, b as int));
        a += 1;
    }
    while a < b && is_whitespace(v[b - 1])
        invariant
            lo <= a <= b <= v@.len(),
            a < b ==> !unicode_whitespace(v@[a as int]),
            trim_spec(v@.subrange(lo as int, hi as int)) == trim_spec(v@.subrange(a as int, b as int)),
        decreases b - a,
    {
        assert(v@.subrange(a as int, b as int).drop_last() =~= v@.subrange(a as int, b - 1));
        assert(v@.subrange(a as int, b as int)[0] == v@[a as int]);
        b -= 1;
    }
    proof {
        let t = v@.subrange(a as int, b as int);
        if t.len() > 0 {
            assert(t[0] == v@[a as int]);
            assert(t.last() == v@[b - 1]);
        }
    }
    string_of(v.as_slice(), a, b)
}

/// Reads the fortunes out of the text of a file.
pub fn split_fortunes(content: &str) -> (res: Vec<String>)
    ensures
        res@.map_values(|f: String| f@) == fortunes_spec(content@),
{
    let cs = chars_of(content);
    let sep: [char; 3] = ['\n', '%', '\n'];
    let ghost sepv = seq!['\n', '%', '\n'];
    assert(sep@ =~= sepv);
    let mut out: Vec<String> = Vec::new();
    let mut start: usize = 0;
    let mut i: usize = 0;
    let ghost done: Seq<Seq<char>> = Seq::empty();
    proof {
        assert(out@.map_values(|f: String| f@) =~= kept_fortunes(done));
    }
    while cs.len() - i >= 3
        invariant
            cs@ == content@,
            sep@ == sepv,
            start <= i <= cs@.len(),
            split_from(cs@, sepv, 0, 0) == done + split_from(cs@, sepv, start as int, i as int),
            out@.map_values(|f: String| f@) == kept_fortunes(done),
        decreases cs.len() - i,
    {
        if slice_eq(cs.as_slice(), i, i + 3, sep.as_slice()) {
            let piece = trim_range(&cs, start, i);
            proof {
                let p = cs@.subrange(start as int, i as int);
                assert(split_from(cs@, sepv, start as int, i as int) == seq![p] + split_from(
                    cs@,
                    sepv,
                    i + 3,
                    i + 3,
                ));
                assert(done + (seq![p] + split_from(cs@, sepv, i + 3, i + 3)) =~= done.push(p)
                    + split_from(cs@, sepv, i + 3, i + 3));
                assert(done.push(p).drop_last() =~= done);
            }
            let ghost before = out@;
            if crate::text::chars_of(piece.as_str()).len() > 0 {
                out.push(piece);
                proof {
                    assert(out@.map_values(|f: String| f@) =~= before.map_values(|f: String| f@).push(
                        out@.last()@,
                    ));
                }
            }
            proof {
                done = done.push(cs@.subrange(start as int, i as int));
            }
            i = i + 3;
            start = i;
        } else {
            i += 1;
        }
    }
    let piece = trim_range(&cs, start, cs.len());
    proof {
        let p = cs@.subrange(start as int, cs@.len() as int);
        assert(split_from(cs@, sepv, start as int, i as int) == seq![p]);
        assert(done + seq![p] =~= done.push(p));
        assert(done.push(p).drop_last() =~= done);
    }
    let ghost before = out@;
    if crate::text::chars_of(piece.as_str()).len() > 0 {
        out.push(piece);
        proof {
            assert(out@.map_values(|f: String| f@) =~= before.map_values(|f: String| f@).push(
                out@.last()@,
            ));
        }
    }
    out
}

/// The regular expression type of the regex library.
#[verifier::external_type_specification]
#[verifier::external_body]
pub struct ExRegex(regex::Regex);

/// Whether `pattern` is a regular expression the regex library accepts,
/// case-insensitive when `ignore_case`.
pub uninterp spec fn regex_valid(pattern: Seq<char>, ignore_case: bool) -> bool;

/// Whether the regular expression `pattern` matches somewhere in `text`.
pub uninterp spec fn regex_matches(pattern: Seq<char>, ignore_case: bool, text: Seq<char>) -> bool;

/// A compiled search pattern and the text it was compiled from.
pub struct FortunePattern {
    re: regex::Regex,
    source: String,
    ignore_case: bool,
}

impl FortunePattern {
    pub closed spec fn source(&self) -> Seq<char> {
        self.source@
    }

    pub closed spec fn ignore_case(&self) -> bool {
        self.ignore_case
    }
}

/// Compiles `pattern`.
/// Trusted: wraps regex's `RegexBuilder::new`, `case_insensitive` and
/// `build`; whether a pattern compiles is named by `regex_valid`, and the
/// result keeps the pattern's text and case setting.
#[verifier::external_body]
fn compile(pattern: &str, ignore_case: bool) -> (res: Option<FortunePattern>)
    ensures
        res is Some <==> regex_valid(pattern@, ignore_case),
        res matches Some(p) ==> p.source() == pattern@ && p.ignore_case() == ignore_case,
{
    regex::RegexBuilder::new(pattern).case_insensitive(ignore_case).build().ok().map(
        |re| FortunePattern { re, source: pattern.to_owned(), ignore_case },
    )
}

/// Whether the pattern matches in `text`.
/// Trusted: wraps regex's `Regex::is_match`; the result is named by
/// `regex_matches` of the pattern's text.
#[verifier::external_body]
fn is_match(p: &FortunePattern, text: &str) -> (res: bool)
    ensures
        res == regex_matches(p.source(), p.ignore_case(), text@),
{
    p.re.is_match(text)
}

/// The fortunes the pattern matches, in order.
pub open spec fn matching(fs: Seq<Seq<char>>, pattern: Seq<char>, ignore_case: bool) -> Seq<Seq<char>>
    decreases fs.len(),
{
    if fs.len() == 0 {
        Seq::empty()
    } else {
        let rest = matching(fs.drop_last(), pattern, ignore_case);
        if regex_matches(pattern, ignore_case, fs.last()) {
            rest.push(fs.last())
        } else {
            rest
        }
    }
}

/// Keeps the fortunes `pattern` matches; `None` when the pattern does not
/// compile.
pub fn filter_fortunes(fortunes: &Vec<String>, pattern: &str, ignore_case: bool) -> (res: Option<
    Vec<String>,
>)
    ensures
        res is Some <==> regex_valid(pattern@, ignore_case),
        res matches Some(v) ==> v@.map_values(|f: String| f@) == matching(
            fortunes@.map_values(|f: String| f@),
            pattern@,
            ignore_case,
        ),
{
    let p = match compile(pattern, ignore_case) {
        Some(p) => p,
        None => {
            return None;
        },
    };
    let ghost fs = fortunes@.map_values(|f: String| f@);
    let mut out: Vec<String> = Vec::new();
    let mut i: usize = 0;
    assert(fs.subrange(0, 0) =~= Seq::<Seq<char>>::empty());
    assert(out@.map_values(|f: String| f@) =~= Seq::<Seq<char>>::empty());
    while i < fortunes.len()
        invariant
            i <= fortunes@.len(),
            fs == fortunes@.map_values(|f: String| f@),
            p.source() == pattern@,
            p.ignore_case() == ignore_case,
            out@.map_values(|f: String| f@) == matching(fs.subrange(0, i as int), pattern@, ignore_case),
        decreases fortunes.len() - i,
    {
        assert(fs.subrange(0, i + 1).drop_last() =~= fs.subrange(0, i as int));
        assert(fs.subrange(0, i + 1).last() == fortunes@[i as int]@);
        let ghost before = out@;
        if is_match(&p, fortunes[i].as_str()) {
            out.push(fortunes[i].clone());
            assert(out@.map_values(|f: String| f@) =~= before.map_values(|f: String| f@).push(
                fortunes@[i as int]@,
            ));
        }
        i += 1;
    }
    assert(fs.subrange(0, fortunes@.len() as int) =~= fs);
    Some(out)
}


/// `s` is one of the fortunes.
pub open spec fn one_of(fortunes: Seq<String>, s: Seq<char>) -> bool {
    fortunes.map_values(|f: String| f@).contains(s)
}

/// A fortune drawn with a generator seeded from `seed`.
/// Trusted: wraps rand's `StdRng::seed_from_u64` and
/// `IndexedRandom::choose`; by rand's source, `choose` gives nothing for an
/// empty slice and otherwise the element at a drawn index below the
/// length. Which element that is, the contract leaves open.
#[verifier::external_body]
fn choose_seeded(fortunes: &Vec<String>, seed: u64) -> (res: Option<String>)
    ensures
        res is Some <==> fortunes@.len() > 0,
        res matches Some(s) ==> one_of(fortunes@, s@),
{
    fortunes.as_slice().choose(&mut StdRng::seed_from_u64(seed)).cloned()
}

/// A fortune drawn with a generator seeded from the system's random
/// source; `None` when that source fails.
/// Trusted: wraps rand's `StdRng::try_from_rng` on `SysRng` and
/// `IndexedRandom::choose`, as `choose_seeded` says; whether the system's
/// source fails is left open.
#[verifier::external_body]
fn choose_system(fortunes: &Vec<String>) -> (res: Option<Option<String>>)
    ensures
        res matches Some(r) ==> (r is Some <==> fortunes@.len() > 0),
        res matches Some(Some(s)) ==> one_of(fortunes@, s@),
{
    match StdRng::try_from_rng(&mut SysRng) {
        Ok(mut rng) => Some(fortunes.as_slice().choose(&mut rng).cloned()),
        Err(_) => None,
    }
}

/// Draws one of the fortunes, with a generator seeded from `seed` or, with
/// no seed, from the system's random source. The outer `None` says that
/// the system's source failed, which a seed rules out; inside, a fortune is
/// drawn exactly when there is one.
pub fn pick_fortune(fortunes: &Vec<String>, seed: Option<u64>) -> (res: Option<Option<String>>)
    ensures
        seed is Some ==> res is Some,
        res matches Some(r) ==> (r is Some <==> fortunes@.len() > 0),
        res matches Some(Some(s)) ==> one_of(fortunes@, s@),
{
    match seed {
        Some(s) => Some(choose_seeded(fortunes, s)),
        None => choose_system(fortunes),
    }
}

} // verus!
