//! Byte-string keys and their lexicographic order.

use vstd::prelude::*;

verus! {

/// Lexicographic comparison of `a` and `b` from position `i` on:
/// `-1` if `a` sorts first, `0` if the rests are equal, `1` otherwise.
pub open spec fn lex_from(a: Seq<u8>, b: Seq<u8>, i: int) -> int
    decreases a.len() - i,
{
    if i >= a.len() {
        if i >= b.len() {
            0
        } else {
            -1
        }
    } else if i >= b.len() {
        1
    } else if a[i] < b[i] {
        -1
    } else if a[i] > b[i] {
        1
    } else {
        lex_from(a, b, i + 1)
    }
}

/// Lexicographic comparison of two byte strings.
pub open spec fn lex_order(a: Seq<u8>, b: Seq<u8>) -> int {
    lex_from(a, b, 0)
}

/// Strings that agree on `[0, i)` compare equal from `i` on exactly when
/// they are equal.
pub proof fn lemma_lex_from_zero(a: Seq<u8>, b: Seq<u8>, i: int)
    requires
        0 <= i <= a.len(),
        i <= b.len(),
        a.subrange(0, i) == b.subrange(0, i),
    ensures
        lex_from(a, b, i) == 0 <==> a == b,
    decreases a.len() - i,
{
    if i < a.len() && i < b.len() && a[i] == b[i] {
        assert(a.subrange(0, i + 1) =~= a.subrange(0, i).push(a[i]));
        assert(b.subrange(0, i + 1) =~= b.subrange(0, i).push(b[i]));
        lemma_lex_from_zero(a, b, i + 1);
    } else if i == a.len() && i == b.len() {
        assert(a =~= a.subrange(0, i));
        assert(b =~= b.subrange(0, i));
    } else if i < a.len() && i < b.len() {
        assert(a[i] != b[i]);
        assert(a != b) by {
            if a == b {
                assert(a[i] == b[i]);
            }
        }
    } else {
        assert(a.len() != b.len());
    }
}

/// Equal strings compare equal.
pub proof fn lemma_lex_eq(a: Seq<u8>, b: Seq<u8>)
    ensures
        lex_order(a, b) == 0 <==> a == b,
{
    assert(a.subrange(0, 0) =~= b.subrange(0, 0));
    lemma_lex_from_zero(a, b, 0);
}

/// Compares two keys lexicographically.
pub fn compare_keys(a: &[u8], b: &[u8]) -> (res: i8)
    ensures
        res as int == lex_order(a@, b@),
{
    let mut i: usize = 0;
    while i < a.len() && i < b.len()
        invariant
            i <= a@.len(),
            i <= b@.len(),
            lex_from(a@, b@, 0) == lex_from(a@, b@, i as int),
        decreases a.len() - i,
    {
        if a[i] < b[i] {
            return -1;
        }
        if a[i] > b[i] {
            return 1;
        }
        i += 1;
    }
    if i < b.len() {
        -1
    } else if i < a.len() {
        1
    } else {
        0
    }
}

/// Whether two keys are equal.
pub fn keys_equal(a: &[u8], b: &[u8]) -> (res: bool)
    ensures
        res <==> a@ == b@,
{
    proof {
        lemma_lex_eq(a@, b@);
    }
    compare_keys(a, b) == 0
}

} // verus!
