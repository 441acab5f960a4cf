//! Comparing two sorted lists of lines, in three columns: lines only in
//! the first, lines only in the second, lines in both.

use vstd::prelude::*;
use crate::text::{append_str, chars_of};

verus! {

/// Code-point order of two texts from position `i` on: `-1`, `0` or `1`.
pub open spec fn text_order_from(a: Seq<char>, b: Seq<char>, i: int) -> int
    decreases a.len() - i,
{
    if i >= a.len() {
        if i >= b.len() {
            0
        } else {
            -1
        }
    } else if i >= b.len() {
        1
    } else if (a[i] as u32) < (b[i] as u32) {
        -1
    } else if (a[i] as u32) > (b[i] as u32) {
        1
    } else {
        text_order_from(a, b, i + 1)
    }
}

/// The order of two texts, as `String`'s `Ord` has it.
pub open spec fn text_order(a: Seq<char>, b: Seq<char>) -> int {
    text_order_from(a, b, 0)
}

/// Compares two texts.
pub fn compare_text(a: &str, b: &str) -> (res: i8)
    ensures
        res as int == text_order(a@, b@),
{
    let va = chars_of(a);
    let vb = chars_of(b);
    let mut i: usize = 0;
    while i < va.len() && i < vb.len()
        invariant
            va@ == a@,
            vb@ == b@,
            i <= va@.len(),
            i <= vb@.len(),
            text_order_from(a@, b@, 0) == text_order_from(a@, b@, i as int),
        decreases va.len() - i,
    {
        if (va[i] as u32) < (vb[i] as u32) {
            return -1;
        }
        if (va[i] as u32) > (vb[i] as u32) {
            return 1;
        }
        i += 1;
    }
    if i < vb.len() {
        -1
    } else if i < va.len() {
        1
    } else {
        0
    }
}

pub open spec fn texts(v: Seq<String>) -> Seq<Seq<char>> {
    v.map_values(|s: String| s@)
}

/// Sorted: no text comes after a larger one.
pub open spec fn sorted_texts(v: Seq<Seq<char>>) -> bool {
    forall|i: int, j: int| 0 <= i < j < v.len() ==> text_order(v[i], v[j]) <= 0
}

/// Sorts lines.
/// Trusted: wraps `slice::sort_unstable` on `String`s; std documents that
/// it sorts the slice in place, keeping its elements, by `String`'s order.
#[verifier::external_body]
fn sort_lines(v: &mut Vec<String>)
    ensures
        texts(final(v)@).to_multiset() == texts(old(v)@).to_multiset(),
        sorted_texts(texts(final(v)@)),
{
    v.sort_unstable();
}

/// Unicode lower-casing of a text, as `str::to_lowercase` defines it.
pub uninterp spec fn unicode_lowercase(s: Seq<char>) -> Seq<char>;

pub open spec fn ascii_lower(c: char) -> char {
    if 'A' <= c && c <= 'Z' {
        ((c as u32) + 32) as char
    } else {
        c
    }
}

/// The lower-cased text.
/// Trusted: wraps `str::to_lowercase`. The result is named by
/// `unicode_lowercase`; for an all-ASCII text std documents the plain ASCII
/// mapping, which the contract states.
#[verifier::external_body]
fn to_lowercase(s: &str) -> (res: String)
    ensures
        res@ == unicode_lowercase(s@),
        (forall|i: int| 0 <= i < s@.len() ==> (s@[i] as u32) < 128) ==> res@ == s@.map_values(
            |c: char| ascii_lower(c),
        ),
{
    s.to_lowercase()
}

/// The lines of a file, lower-cased when `ignore_case`, sorted.
pub fn sort_file(lines: Vec<String>, ignore_case: bool) -> (res: Vec<String>)
    ensures
        sorted_texts(texts(res@)),
        !ignore_case ==> texts(res@).to_multiset() == texts(lines@).to_multiset(),
        ignore_case ==> texts(res@).to_multiset() == texts(lines@).map_values(
            |s: Seq<char>| unicode_lowercase(s),
        ).to_multiset(),
{
    let mut file: Vec<String> = Vec::new();
    let mut i: usize = 0;
    while i < lines.len()
        invariant
            i <= lines@.len(),
            !ignore_case ==> texts(file@) == texts(lines@.subrange(0, i as int)),
            ignore_case ==> texts(file@) == texts(lines@.subrange(0, i as int)).map_values(
                |s: Seq<char>| unicode_lowercase(s),
            ),
        decreases lines.len() - i,
    {
        let ghost before = file@;
        if ignore_case {
            let l = to_lowercase(lines[i].as_str());
            file.push(l);
            proof {
                assert(texts(file@) =~= texts(lines@.subrange(0, i + 1)).map_values(
                    |s: Seq<char>| unicode_lowercase(s),
                )) by {
                    assert(file@ == before.push(file@.last()));
                    assert(texts(before.push(file@.last())) =~= texts(before).push(file@.last()@));
                    assert(texts(lines@.subrange(0, i + 1)) =~= texts(lines@.subrange(0, i as int)).push(
                        lines@[i as int]@,
                    ));
                }
            }
        } else {
            let l = lines[i].clone();
            file.push(l);
            proof {
                assert(texts(file@) =~= texts(lines@.subrange(0, i + 1))) by {
                    assert(file@ == before.push(file@.last()));
                    assert(texts(before.push(file@.last())) =~= texts(before).push(file@.last()@));
                    assert(texts(lines@.subrange(0, i + 1)) =~= texts(lines@.subrange(0, i as int)).push(
                        lines@[i as int]@,
                    ));
                }
            }
        }
        i += 1;
    }
    assert(lines@.subrange(0, lines@.len() as int) =~= lines@);
    sort_lines(&mut file);
    file
}

/// The lines `comm` prints, from positions `i` and `j` of the two sorted
/// files on: a line only in the first in column one, only in the second
/// after one delimiter (`d1`), in both after two (`d1` and `d2`); an
/// omitted column prints nothing and gives no delimiter.
pub open spec fn comm_spec(
    f1: Seq<Seq<char>>,
    f2: Seq<Seq<char>>,
    i: int,
    j: int,
    omit1: bool,
    omit2: bool,
    omit3: bool,
    d1: Seq<char>,
    d2: Seq<char>,
) -> Seq<Seq<char>>
    decreases f1.len() - i + f2.len() - j,
{
    if 0 <= i < f1.len() && 0 <= j < f2.len() {
        let c = text_order(f1[i], f2[j]);
        if c < 0 {
            (if !omit1 {
                seq![f1[i]]
            } else {
                Seq::empty()
            }) + comm_spec(f1, f2, i + 1, j, omit1, omit2, omit3, d1, d2)
        } else if c == 0 {
            (if !omit3 {
                seq![d1 + d2 + f1[i]]
            } else {
                Seq::empty()
            }) + comm_spec(f1, f2, i + 1, j + 1, omit1, omit2, omit3, d1, d2)
        } else {
            (if !omit2 {
                seq![d1 + f2[j]]
            } else {
                Seq::empty()
            }) + comm_spec(f1, f2, i, j + 1, omit1, omit2, omit3, d1, d2)
        }
    } else {
        (if !omit1 && 0 <= i < f1.len() {
            f1.subrange(i, f1.len() as int)
        } else {
            Seq::empty()
        }) + (if !omit2 && 0 <= j < f2.len() {
            f2.subrange(j, f2.len() as int).map_values(|l: Seq<char>| d1 + l)
        } else {
            Seq::empty()
        })
    }
}

fn push_text(out: &mut Vec<String>, parts: (&str, &str, &str)) -> (res: ())
    ensures
        texts(final(out)@) == texts(old(out)@).push(parts.0@ + parts.1@ + parts.2@),
{
    let mut s = String::new();
    append_str(&mut s, parts.0);
    append_str(&mut s, parts.1);
    append_str(&mut s, parts.2);
    let ghost before = out@;
    out.push(s);
    assert(texts(out@) =~= texts(before).push(parts.0@ + parts.1@ + parts.2@));
}

/// The lines `comm` prints for two sorted files; `delimiter` separates the
/// columns.
pub fn comm_lines(
    file1: &Vec<String>,
    file2: &Vec<String>,
    omit_col1: bool,
    omit_col2: bool,
    omit_col3: bool,
    delimiter: &str,
) -> (res: Vec<String>)
    ensures
        texts(res@) == comm_spec(
            texts(file1@),
            texts(file2@),
            0,
            0,
            omit_col1,
            omit_col2,
            omit_col3,
            if omit_col1 {
                Seq::<char>::empty()
            } else {
                delimiter@
            },
            if omit_col2 {
                Seq::<char>::empty()
            } else {
                delimiter@
            },
        ),
{
    let ghost f1 = texts(file1@);
    let ghost f2 = texts(file2@);
    let d1: &str = if omit_col1 {
        ""
    } else {
        delimiter
    };
    let d2: &str = if omit_col2 {
        ""
    } else {
        delimiter
    };
    proof {
        reveal_strlit("");
        assert(""@ =~= Seq::<char>::empty());
    }
    let ghost full = comm_spec(f1, f2, 0, 0, omit_col1, omit_col2, omit_col3, d1@, d2@);
    let mut out: Vec<String> = Vec::new();
    let mut i: usize = 0;
    let mut j: usize = 0;
    assert(texts(out@) + comm_spec(f1, f2, 0, 0, omit_col1, omit_col2, omit_col3, d1@, d2@)
        =~= full);
    while i < file1.len() && j < file2.len()
        invariant
            f1 == texts(file1@),
            f2 == texts(file2@),
            ""@ == Seq::<char>::empty(),
            i <= file1@.len(),
            j <= file2@.len(),
            full == texts(out@) + comm_spec(
                f1,
                f2,
                i as int,
                j as int,
                omit_col1,
                omit_col2,
                omit_col3,
                d1@,
                d2@,
            ),
        decreases file1.len() - i + file2.len() - j,
    {
        let ghost rest_before = comm_spec(
            f1,
            f2,
            i as int,
            j as int,
            omit_col1,
            omit_col2,
            omit_col3,
            d1@,
            d2@,
        );
        let ghost out_before = texts(out@);
        let c = compare_text(file1[i].as_str(), file2[j].as_str());
        if c < 0 {
            if !omit_col1 {
                push_text(&mut out, ("", "", file1[i].as_str()));
            }
            i += 1;
        } else if c == 0 {
            if !omit_col3 {
                push_text(&mut out, (d1, d2, file1[i].as_str()));
            }
            i += 1;
            j += 1;
        } else {
            if !omit_col2 {
                push_text(&mut out, (d1, "", file2[j].as_str()));
            }
            j += 1;
        }
        proof {
            assert(full =~= texts(out@) + comm_spec(
                f1,
                f2,
                i as int,
                j as int,
                omit_col1,
                omit_col2,
                omit_col3,
                d1@,
                d2@,
            ));
        }
    }
    let ghost mid = texts(out@);
    if !omit_col1 && i < file1.len() {
        let mut k = i;
        while k < file1.len()
            invariant
                f1 == texts(file1@),
                ""@ == Seq::<char>::empty(),
                i <= k <= file1@.len(),
                texts(out@) == mid + f1.subrange(i as int, k as int),
            decreases file1.len() - k,
        {
            push_text(&mut out, ("", "", file1[k].as_str()));
            k += 1;
            assert(texts(out@) =~= mid + f1.subrange(i as int, k as int));
        }
    }
    let ghost mid2 = texts(out@);
    if !omit_col2 && j < file2.len() {
        let mut k = j;
        while k < file2.len()
            invariant
                f2 == texts(file2@),
                ""@ == Seq::<char>::empty(),
                j <= k <= file2@.len(),
                texts(out@) == mid2 + f2.subrange(j as int, k as int).map_values(
                    |l: Seq<char>| d1@ + l,
                ),
            decreases file2.len() - k,
        {
            push_text(&mut out, (d1, "", file2[k].as_str()));
            k += 1;
            assert(texts(out@) =~= mid2 + f2.subrange(j as int, k as int).map_values(
                |l: Seq<char>| d1@ + l,
            ));
        }
    }
    proof {
        assert(full =~= texts(out@));
    }
    out
}

} // verus!
