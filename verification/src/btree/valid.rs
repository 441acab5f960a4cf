//! Well-formed trees: every node's keys are sorted and lie within the range
//! its parent gives it, and no page appears twice. Lookups in such a tree
//! are sorted along every key's descent, and insertion keeps a tree well
//! formed.

use vstd::prelude::*;
use crate::btree::insert::{first_keys, leaf_put, lemma_lookup_bounds, lookup_le};
use crate::btree::keys::{lemma_lex_eq, lex_from, lex_order};
use crate::btree::node::{BNODE_LEAF, BNODE_NODE, PAGE_SIZE, btype_of, nbytes_of, nkeys_of, node_ok, node_view};
use crate::btree::readback::{
    key_at, lemma_flatten_piece, lemma_key_at_lookup, lemma_offset_mono, lemma_offset_same, offset, path_sorted,
};
use crate::btree::node::{BNode, NodeView};
use crate::btree::split::{piece_keys, piece_ptrs, piece_vals};
use crate::btree::split::node_bounded;
use crate::btree::tree::{child_ptr, insert_path_ok, path_ok, path_ptrs, search_from};

verus! {

// ------------------------------------------------------------------------
// The order of keys
// ------------------------------------------------------------------------

/// Swapping the two strings turns the comparison around.
pub proof fn lemma_lex_from_flip(a: Seq<u8>, b: Seq<u8>, i: int)
    requires
        0 <= i,
    ensures
        lex_from(a, b, i) == -lex_from(b, a, i),
    decreases a.len() - i,
{
    if i < a.len() && i < b.len() && a[i] == b[i] {
        lemma_lex_from_flip(a, b, i + 1);
    }
}

/// Swapping the two keys turns the comparison around.
pub proof fn lemma_lex_flip(a: Seq<u8>, b: Seq<u8>)
    ensures
        lex_order(a, b) == -lex_order(b, a),
{
    lemma_lex_from_flip(a, b, 0);
}

proof fn lemma_lex_from_trans(a: Seq<u8>, b: Seq<u8>, c: Seq<u8>, i: int)
    requires
        0 <= i,
        lex_from(a, b, i) < 0,
        lex_from(b, c, i) < 0,
    ensures
        lex_from(a, c, i) < 0,
    decreases a.len() - i,
{
    if i < a.len() && i < b.len() && i < c.len() && a[i] == b[i] && b[i] == c[i] {
        lemma_lex_from_trans(a, b, c, i + 1);
    }
}

/// The strict order of keys is transitive.
pub proof fn lemma_lex_trans(a: Seq<u8>, b: Seq<u8>, c: Seq<u8>)
    requires
        lex_order(a, b) < 0,
        lex_order(b, c) < 0,
    ensures
        lex_order(a, c) < 0,
{
    lemma_lex_from_trans(a, b, c, 0);
}

/// `a <= b < c`, or `a < b <= c`, gives `a < c`.
pub proof fn lemma_lex_trans_le(a: Seq<u8>, b: Seq<u8>, c: Seq<u8>)
    requires
        lex_order(a, b) <= 0,
        lex_order(b, c) <= 0,
        lex_order(a, b) < 0 || lex_order(b, c) < 0,
    ensures
        lex_order(a, c) < 0,
{
    lemma_lex_eq(a, b);
    lemma_lex_eq(b, c);
    if lex_order(a, b) < 0 && lex_order(b, c) < 0 {
        lemma_lex_trans(a, b, c);
    }
}

/// The empty key sorts before every other key.
pub proof fn lemma_empty_first(k: Seq<u8>)
    requires
        k.len() >= 1,
    ensures
        lex_order(Seq::<u8>::empty(), k) < 0,
{
}

/// Every key sorts at or after the empty key.
pub proof fn lemma_empty_le(k: Seq<u8>)
    ensures
        lex_order(Seq::<u8>::empty(), k) <= 0,
{
}

// ------------------------------------------------------------------------
// Sorted keys and ranges
// ------------------------------------------------------------------------

/// The keys are in strictly increasing order.
pub open spec fn sorted_keys(ks: Seq<Seq<u8>>) -> bool {
    forall|a: int, b: int| 0 <= a < b < ks.len() ==> lex_order(#[trigger] ks[a], #[trigger] ks[b]) < 0
}

/// `k` sorts below the upper bound `hi`, if there is one.
pub open spec fn below_bound(k: Seq<u8>, hi: Option<Seq<u8>>) -> bool {
    match hi {
        Some(h) => lex_order(k, h) < 0,
        None => true,
    }
}

/// `k` lies in the range from `lo` (included) to `hi` (excluded).
pub open spec fn in_range(k: Seq<u8>, lo: Seq<u8>, hi: Option<Seq<u8>>) -> bool {
    lex_order(lo, k) <= 0 && below_bound(k, hi)
}

/// The upper bound of entry `j` among `ks` in a node bounded by `hi`: the
/// next key, or `hi` for the last entry.
pub open spec fn bound_after(ks: Seq<Seq<u8>>, j: int, hi: Option<Seq<u8>>) -> Option<Seq<u8>> {
    if j + 1 < ks.len() {
        Some(ks[j + 1])
    } else {
        hi
    }
}

/// In sorted keys starting at or below `key`, the position where `key`
/// belongs, which a lookup lands on.
pub proof fn lemma_sorted_lookup(ks: Seq<Seq<u8>>, key: Seq<u8>) -> (p: int)
    requires
        ks.len() >= 1,
        sorted_keys(ks),
        lex_order(ks[0], key) <= 0,
    ensures
        key_at(ks, key, p),
        lookup_le(ks, key) == p,
    decreases ks.len(),
{
    let n = ks.len() as int;
    if n == 1 {
        lemma_key_at_lookup(ks, key, 0);
        0
    } else if lex_order(ks[n - 1], key) <= 0 {
        assert forall|i: int| 0 <= i < n - 1 implies lex_order(#[trigger] ks[i], key) < 0 by {
            lemma_lex_trans_le(ks[i], ks[n - 1], key);
        }
        lemma_key_at_lookup(ks, key, n - 1);
        n - 1
    } else {
        let front = ks.drop_last();
        assert forall|a: int, b: int| 0 <= a < b < front.len() implies lex_order(
            #[trigger] front[a],
            #[trigger] front[b],
        ) < 0 by {
            assert(front[a] == ks[a] && front[b] == ks[b]);
        }
        assert(front[0] == ks[0]);
        let p = lemma_sorted_lookup(front, key);
        assert forall|i: int| p < i < n implies lex_order(#[trigger] ks[i], key) > 0 by {
            if i < n - 1 {
                assert(front[i] == ks[i]);
            }
        }
        assert forall|i: int| 0 <= i < p implies lex_order(#[trigger] ks[i], key) < 0 by {
            assert(front[i] == ks[i]);
        }
        assert(front[p] == ks[p]);
        lemma_key_at_lookup(ks, key, p);
        p
    }
}


// ------------------------------------------------------------------------
// Well-formed subtrees
// ------------------------------------------------------------------------

/// Page `q` is somewhere below `d`, going down at most `fuel` levels.
pub open spec fn below(pages: Map<u64, Seq<u8>>, d: Seq<u8>, fuel: nat, q: u64) -> bool
    decreases fuel,
{
    btype_of(d) == BNODE_NODE && fuel > 0 && exists|j: int|
        #![trigger node_view(d).ptrs[j]]
        0 <= j < nkeys_of(d) && (node_view(d).ptrs[j] == q || below(
            pages,
            pages[node_view(d).ptrs[j]],
            (fuel - 1) as nat,
            q,
        ))
}

/// Page `q` is the child at entry `j` of the internal node `d`, or below it.
pub open spec fn in_kid(pages: Map<u64, Seq<u8>>, d: Seq<u8>, fuel: nat, j: int, q: u64) -> bool {
    node_view(d).ptrs[j] == q || (fuel > 0 && below(
        pages,
        pages[node_view(d).ptrs[j]],
        (fuel - 1) as nat,
        q,
    ))
}

/// What a node itself must be in a well-formed tree, where it covers the
/// keys from `lo` (its first key) up to `hi`: well laid out, of a known
/// type, with keys and values of allowed sizes, keys strictly increasing
/// and below `hi`.
pub open spec fn node_shape(d: Seq<u8>, lo: Seq<u8>, hi: Option<Seq<u8>>) -> bool {
    let v = node_view(d);
    &&& node_ok(d)
    &&& nkeys_of(d) >= 1
    &&& node_bounded(d)
    &&& (btype_of(d) == BNODE_LEAF || btype_of(d) == BNODE_NODE)
    &&& v.keys[0] == lo
    &&& sorted_keys(v.keys)
    &&& below_bound(v.keys[nkeys_of(d) - 1], hi)
}

/// A well-formed subtree, except that its top node may be larger than a
/// page: each child is held, is a well-formed subtree for the range its
/// entry gives it, does not appear below itself, and no page is shared
/// between two children.
pub open spec fn shape_ok(pages: Map<u64, Seq<u8>>, d: Seq<u8>, lo: Seq<u8>, hi: Option<Seq<u8>>, fuel: nat) -> bool
    decreases fuel, 0nat,
{
    let v = node_view(d);
    &&& node_shape(d, lo, hi)
    &&& btype_of(d) == BNODE_NODE ==> {
        &&& fuel > 0
        &&& forall|j: int|
            0 <= j < nkeys_of(d) ==> {
                &&& pages.dom().contains(#[trigger] v.ptrs[j])
                &&& tree_ok(pages, pages[v.ptrs[j]], v.keys[j], bound_after(v.keys, j, hi), (fuel - 1) as nat)
                &&& !below(pages, pages[v.ptrs[j]], (fuel - 1) as nat, v.ptrs[j])
            }
        &&& forall|j1: int, j2: int, q: u64|
            0 <= j1 < j2 < nkeys_of(d) ==> !(#[trigger] in_kid(pages, d, fuel, j1, q) && #[trigger] in_kid(
                pages,
                d,
                fuel,
                j2,
                q,
            ))
    }
}

/// A well-formed subtree whose top node fits a page.
pub open spec fn tree_ok(pages: Map<u64, Seq<u8>>, d: Seq<u8>, lo: Seq<u8>, hi: Option<Seq<u8>>, fuel: nat) -> bool
    decreases fuel, 1nat,
{
    shape_ok(pages, d, lo, hi, fuel) && nbytes_of(d) <= PAGE_SIZE
}


/// In a well-formed subtree, the descent for a key in its range reaches a
/// leaf through nodes sorted around the key, fits the bounds an insertion
/// needs, and visits only pages below the top.
pub proof fn lemma_tree_descent(
    pages: Map<u64, Seq<u8>>,
    d: Seq<u8>,
    lo: Seq<u8>,
    hi: Option<Seq<u8>>,
    fuel: nat,
    key: Seq<u8>,
)
    requires
        tree_ok(pages, d, lo, hi, fuel),
        in_range(key, lo, hi),
    ensures
        path_ok(pages, d, key, fuel),
        path_sorted(pages, d, key, fuel),
        insert_path_ok(pages, d, key, fuel),
        forall|q: u64| #[trigger] path_ptrs(pages, d, key, fuel).contains(q) ==> below(pages, d, fuel, q),
    decreases fuel,
{
    let v = node_view(d);
    let n = nkeys_of(d);
    assert(v.keys.len() == n);
    let p = lemma_sorted_lookup(v.keys, key);
    if btype_of(d) == BNODE_NODE {
        let c = v.ptrs[p];
        assert(child_ptr(d, key) == c);
        let b = bound_after(v.keys, p, hi);
        if p + 1 < n {
            assert(lex_order(v.keys[p + 1], key) > 0);
            lemma_lex_flip(v.keys[p + 1], key);
        }
        assert(in_range(key, v.keys[p], b));
        lemma_tree_descent(pages, pages[c], v.keys[p], b, (fuel - 1) as nat, key);
        assert(!below(pages, pages[c], (fuel - 1) as nat, c));
        assert forall|q: u64| #[trigger] path_ptrs(pages, d, key, fuel).contains(q) implies below(
            pages,
            d,
            fuel,
            q,
        ) by {
            if q != c {
                assert(path_ptrs(pages, pages[c], key, (fuel - 1) as nat).contains(q));
            }
            lemma_below_intro(pages, d, fuel, p, q);
        }
    }
}


pub proof fn lemma_below_intro(pages: Map<u64, Seq<u8>>, d: Seq<u8>, fuel: nat, j: int, q: u64)
    requires
        btype_of(d) == BNODE_NODE,
        fuel > 0,
        0 <= j < nkeys_of(d),
        in_kid(pages, d, fuel, j, q),
    ensures
        below(pages, d, fuel, q),
{
    assert(node_view(d).ptrs[j] == node_view(d).ptrs[j]);
}

/// A page below an internal node is below one of its children, or is one.
pub proof fn lemma_below_elim(pages: Map<u64, Seq<u8>>, d: Seq<u8>, fuel: nat, q: u64) -> (j: int)
    requires
        below(pages, d, fuel, q),
    ensures
        btype_of(d) == BNODE_NODE,
        fuel > 0,
        0 <= j < nkeys_of(d),
        in_kid(pages, d, fuel, j, q),
{
    choose|j: int|
        #![trigger node_view(d).ptrs[j]]
        0 <= j < nkeys_of(d) && (node_view(d).ptrs[j] == q || below(
            pages,
            pages[node_view(d).ptrs[j]],
            (fuel - 1) as nat,
            q,
        ))
}


/// A well-formed subtree depends only on the pages below its top: other
/// pages that keep those keep it, and the same pages are below it.
pub proof fn lemma_shape_frame(
    p1: Map<u64, Seq<u8>>,
    p2: Map<u64, Seq<u8>>,
    d: Seq<u8>,
    lo: Seq<u8>,
    hi: Option<Seq<u8>>,
    fuel: nat,
)
    requires
        shape_ok(p1, d, lo, hi, fuel),
        forall|q: u64|
            #![trigger p2.dom().contains(q)]
            #![trigger below(p1, d, fuel, q)]
            below(p1, d, fuel, q) ==> p2.dom().contains(q) && p2[q] == p1[q],
    ensures
        shape_ok(p2, d, lo, hi, fuel),
        forall|q: u64| #[trigger] below(p2, d, fuel, q) == below(p1, d, fuel, q),
    decreases fuel,
{
    let v = node_view(d);
    let n = nkeys_of(d);
    if btype_of(d) == BNODE_NODE {
        let f1 = (fuel - 1) as nat;
        assert forall|j: int| 0 <= j < n implies {
            &&& p2.dom().contains(#[trigger] v.ptrs[j])
            &&& p2[v.ptrs[j]] == p1[v.ptrs[j]]
            &&& tree_ok(p2, p2[v.ptrs[j]], v.keys[j], bound_after(v.keys, j, hi), f1)
            &&& forall|q: u64| #[trigger] below(p2, p2[v.ptrs[j]], f1, q) == below(p1, p1[v.ptrs[j]], f1, q)
        } by {
            let c = v.ptrs[j];
            assert(in_kid(p1, d, fuel, j, c));
            lemma_below_intro(p1, d, fuel, j, c);
            assert forall|q: u64|
                #![trigger p2.dom().contains(q)]
                #![trigger below(p1, p1[c], f1, q)]
                below(p1, p1[c], f1, q) implies p2.dom().contains(q) && p2[q] == p1[q] by {
                assert(in_kid(p1, d, fuel, j, q));
                lemma_below_intro(p1, d, fuel, j, q);
            }
            assert(p2.dom().contains(c) && p2[c] == p1[c]);
            assert(tree_ok(p1, p1[c], v.keys[j], bound_after(v.keys, j, hi), f1));
            lemma_shape_frame(p1, p2, p1[c], v.keys[j], bound_after(v.keys, j, hi), f1);
            assert(tree_ok(p2, p2[c], v.keys[j], bound_after(v.keys, j, hi), f1));
        }
        assert forall|j: int, q: u64| 0 <= j < n implies #[trigger] in_kid(p2, d, fuel, j, q)
            == in_kid(p1, d, fuel, j, q) by {
            assert(p2[v.ptrs[j]] == p1[v.ptrs[j]]);
            assert(below(p2, p2[v.ptrs[j]], f1, q) == below(p1, p1[v.ptrs[j]], f1, q));
        }
        assert forall|q: u64| #[trigger] below(p2, d, fuel, q) == below(p1, d, fuel, q) by {
            if below(p1, d, fuel, q) {
                let j = lemma_below_elim(p1, d, fuel, q);
                assert(in_kid(p2, d, fuel, j, q) == in_kid(p1, d, fuel, j, q));
                lemma_below_intro(p2, d, fuel, j, q);
            }
            if below(p2, d, fuel, q) {
                let j = lemma_below_elim(p2, d, fuel, q);
                assert(in_kid(p2, d, fuel, j, q) == in_kid(p1, d, fuel, j, q));
                lemma_below_intro(p1, d, fuel, j, q);
            }
        }
        assert forall|j: int| 0 <= j < n implies !below(p2, p2[#[trigger] v.ptrs[j]], f1, v.ptrs[j]) by {
            assert(below(p2, p2[v.ptrs[j]], f1, v.ptrs[j]) == below(p1, p1[v.ptrs[j]], f1, v.ptrs[j]));
        }
        assert forall|j1: int, j2: int, q: u64| 0 <= j1 < j2 < n implies !(#[trigger] in_kid(
            p2,
            d,
            fuel,
            j1,
            q,
        ) && #[trigger] in_kid(p2, d, fuel, j2, q)) by {
            assert(in_kid(p2, d, fuel, j1, q) == in_kid(p1, d, fuel, j1, q));
            assert(in_kid(p2, d, fuel, j2, q) == in_kid(p1, d, fuel, j2, q));
        }
    }
}


/// The pages below a well-formed subtree are held.
pub proof fn lemma_below_held(pages: Map<u64, Seq<u8>>, d: Seq<u8>, lo: Seq<u8>, hi: Option<Seq<u8>>, fuel: nat)
    requires
        shape_ok(pages, d, lo, hi, fuel),
    ensures
        forall|q: u64| #[trigger] below(pages, d, fuel, q) ==> pages.dom().contains(q),
    decreases fuel,
{
    let v = node_view(d);
    assert forall|q: u64| #[trigger] below(pages, d, fuel, q) implies pages.dom().contains(q) by {
        let j = lemma_below_elim(pages, d, fuel, q);
        let c = v.ptrs[j];
        assert(pages.dom().contains(c));
        if c != q {
            lemma_below_held(pages, pages[c], v.keys[j], bound_after(v.keys, j, hi), (fuel - 1) as nat);
        }
    }
}

/// Keys strictly between `a` and `b` put into sorted keys there keep them
/// sorted: the keys before position `i`, then `mid`, then the keys from
/// position `k` on, where everything before sorts below all of `mid` and
/// all of `mid` below everything after.
pub proof fn lemma_sorted_splice(ks: Seq<Seq<u8>>, mid: Seq<Seq<u8>>, i: int, k: int)
    requires
        sorted_keys(ks),
        sorted_keys(mid),
        0 <= i <= k <= ks.len(),
        mid.len() >= 1,
        i > 0 ==> lex_order(ks[i - 1], mid[0]) < 0,
        k < ks.len() ==> lex_order(mid[mid.len() - 1], ks[k]) < 0,
    ensures
        sorted_keys(ks.subrange(0, i) + mid + ks.subrange(k, ks.len() as int)),
{
    let w = ks.subrange(0, i) + mid + ks.subrange(k, ks.len() as int);
    let m = mid.len() as int;
    assert forall|a: int, b: int| 0 <= a < b < w.len() implies lex_order(#[trigger] w[a], #[trigger] w[b]) < 0 by {
        if b < i {
            assert(w[a] == ks[a] && w[b] == ks[b]);
        } else if b < i + m {
            assert(w[b] == mid[b - i]);
            if a < i {
                assert(w[a] == ks[a]);
                if a < i - 1 {
                    lemma_lex_trans(ks[a], ks[i - 1], mid[0]);
                }
                if b - i > 0 {
                    lemma_lex_trans(ks[a], mid[0], mid[b - i]);
                }
            } else {
                assert(w[a] == mid[a - i]);
            }
        } else {
            assert(w[b] == ks[b - i - m + k]);
            let x = b - i - m + k;
            if a < i {
                assert(w[a] == ks[a]);
                assert(a < x);
            } else if a < i + m {
                assert(w[a] == mid[a - i]);
                if a - i < m - 1 {
                    lemma_lex_trans(mid[a - i], mid[m - 1], ks[k]);
                }
                if x > k {
                    lemma_lex_trans(mid[a - i], ks[k], ks[x]);
                }
            } else {
                assert(w[a] == ks[a - i - m + k]);
            }
        }
    }
}


/// A node holding entries `[s, e)` of a well-formed node `c`, and fitting a
/// page, is a well-formed subtree for the range from its first key up to
/// the key after its last entry in `c` (or `c`'s bound); the pages below
/// it are those below its entries in `c`.
pub proof fn lemma_piece_ok(
    pages: Map<u64, Seq<u8>>,
    c: Seq<u8>,
    lo: Seq<u8>,
    hi: Option<Seq<u8>>,
    fuel: nat,
    d: Seq<u8>,
    s: int,
    e: int,
)
    requires
        shape_ok(pages, c, lo, hi, fuel),
        node_ok(d),
        btype_of(d) == btype_of(c),
        0 <= s < e <= nkeys_of(c),
        node_view(d).keys == node_view(c).keys.subrange(s, e),
        node_view(d).ptrs == node_view(c).ptrs.subrange(s, e),
        node_view(d).vals == node_view(c).vals.subrange(s, e),
        nbytes_of(d) <= PAGE_SIZE,
    ensures
        tree_ok(pages, d, node_view(c).keys[s], bound_after(node_view(c).keys, e - 1, hi), fuel),
        forall|q: u64|
            #[trigger] below(pages, d, fuel, q) <==> btype_of(c) == BNODE_NODE && exists|j: int|
                s <= j < e && #[trigger] in_kid(pages, c, fuel, j, q),
{
    let vc = node_view(c);
    let vd = node_view(d);
    let nc = nkeys_of(c);
    let nd = nkeys_of(d);
    let b = bound_after(vc.keys, e - 1, hi);
    assert(vd.keys.len() == nd);
    assert(nd == e - s);
    assert forall|a: int, x: int| 0 <= a < x < vd.keys.len() implies lex_order(
        #[trigger] vd.keys[a],
        #[trigger] vd.keys[x],
    ) < 0 by {
        assert(vd.keys[a] == vc.keys[s + a] && vd.keys[x] == vc.keys[s + x]);
    }
    assert(vd.keys[nd - 1] == vc.keys[e - 1]);
    if e < nc {
        assert(lex_order(vc.keys[e - 1], vc.keys[e]) < 0);
    }
    assert(node_bounded(d)) by {
        assert forall|a: int| 0 <= a < vd.keys.len() implies (#[trigger] vd.keys[a]).len()
            <= crate::btree::node::BTREE_MAX_KEY_SIZE by {
            assert(vd.keys[a] == vc.keys[s + a]);
        }
        assert forall|a: int| 0 <= a < vd.vals.len() implies (#[trigger] vd.vals[a]).len()
            <= crate::btree::node::BTREE_MAX_VAL_SIZE by {
            assert(vd.vals[a] == vc.vals[s + a]);
        }
    }
    assert(node_shape(d, vc.keys[s], b));
    if btype_of(d) == BNODE_NODE {
        assert forall|a: int, q: u64| 0 <= a < nd implies #[trigger] in_kid(pages, d, fuel, a, q)
            == in_kid(pages, c, fuel, s + a, q) by {
            assert(vd.ptrs[a] == vc.ptrs[s + a]);
        }
        assert forall|a: int| 0 <= a < nd implies {
            &&& pages.dom().contains(#[trigger] vd.ptrs[a])
            &&& tree_ok(pages, pages[vd.ptrs[a]], vd.keys[a], bound_after(vd.keys, a, b), (fuel - 1) as nat)
            &&& !below(pages, pages[vd.ptrs[a]], (fuel - 1) as nat, vd.ptrs[a])
        } by {
            assert(vd.ptrs[a] == vc.ptrs[s + a]);
            assert(vd.keys[a] == vc.keys[s + a]);
            assert(pages.dom().contains(vc.ptrs[s + a]));
            if a + 1 < nd {
                assert(vd.keys[a + 1] == vc.keys[s + a + 1]);
            }
            assert(bound_after(vd.keys, a, b) == bound_after(vc.keys, s + a, hi));
        }
        assert forall|a1: int, a2: int, q: u64| 0 <= a1 < a2 < nd implies !(#[trigger] in_kid(
            pages,
            d,
            fuel,
            a1,
            q,
        ) && #[trigger] in_kid(pages, d, fuel, a2, q)) by {
            assert(in_kid(pages, d, fuel, a1, q) == in_kid(pages, c, fuel, s + a1, q));
            assert(in_kid(pages, d, fuel, a2, q) == in_kid(pages, c, fuel, s + a2, q));
        }
    }
    assert forall|q: u64| #[trigger] below(pages, d, fuel, q) <==> btype_of(c) == BNODE_NODE && exists|j: int|
        s <= j < e && #[trigger] in_kid(pages, c, fuel, j, q) by {
        if below(pages, d, fuel, q) {
            let a = lemma_below_elim(pages, d, fuel, q);
            assert(in_kid(pages, d, fuel, a, q) == in_kid(pages, c, fuel, s + a, q));
            assert(in_kid(pages, c, fuel, s + a, q));
        }
        if btype_of(c) == BNODE_NODE && exists|j: int| s <= j < e && #[trigger] in_kid(pages, c, fuel, j, q) {
            let j = choose|j: int| s <= j < e && #[trigger] in_kid(pages, c, fuel, j, q);
            assert(in_kid(pages, d, fuel, j - s, q) == in_kid(pages, c, fuel, j, q));
            lemma_below_intro(pages, d, fuel, j - s, q);
        }
    }
}


/// Putting a key of a leaf's range into the leaf keeps it well formed.
pub proof fn lemma_leaf_put_ok(
    d: Seq<u8>,
    res: Seq<u8>,
    key: Seq<u8>,
    val: Seq<u8>,
    lo: Seq<u8>,
    hi: Option<Seq<u8>>,
)
    requires
        node_shape(d, lo, hi),
        btype_of(d) == BNODE_LEAF,
        in_range(key, lo, hi),
        node_ok(res),
        btype_of(res) == BNODE_LEAF,
        nkeys_of(res) >= 1,
        node_bounded(res),
        node_view(res) == leaf_put(node_view(d), key, val),
    ensures
        node_shape(res, lo, hi),
{
    let v = node_view(d);
    let w = node_view(res);
    let n = nkeys_of(d);
    assert(v.keys.len() == n);
    assert(w.keys.len() == nkeys_of(res));
    let p = lemma_sorted_lookup(v.keys, key);
    lemma_lex_eq(v.keys[p], key);
    if v.keys[p] == key {
        assert(w.keys =~= v.keys);
    } else {
        if p + 1 < n {
            lemma_lex_flip(v.keys[p + 1], key);
        }
        assert(sorted_keys(seq![key]));
        lemma_sorted_splice(v.keys, seq![key], p + 1, p + 1);
        assert(w.keys =~= v.keys.subrange(0, p + 1) + seq![key] + v.keys.subrange(p + 1, n));
        assert(w.keys[0] == v.keys[0]);
        if p + 1 < n {
            assert(w.keys[nkeys_of(res) - 1] == v.keys[n - 1]);
        } else {
            assert(w.keys[nkeys_of(res) - 1] == key);
        }
    }
}


/// The next piece starts where one ends.
pub proof fn lemma_offset_step<A>(ps: Seq<Seq<A>>, t: int)
    requires
        0 <= t < ps.len(),
    ensures
        offset(ps, t + 1) == offset(ps, t) + ps[t].len(),
    decreases t,
{
    let df = ps.drop_first();
    assert(offset(ps, t + 1) == ps[0].len() + offset(df, t));
    if t > 0 {
        lemma_offset_step(df, t - 1);
        assert(df[t - 1] == ps[t]);
        assert(offset(ps, t) == ps[0].len() + offset(df, t - 1));
    } else {
        assert(offset(df, 0) == 0);
    }
}

/// Where piece `t` of a node split into `ks` lies in it: its entries are
/// those of `c` from its offset on, the next piece starts right after it,
/// and the last one ends with `c`.
pub proof fn lemma_piece_at(ks: Seq<BNode>, c: Seq<u8>, t: int)
    requires
        0 <= t < ks.len(),
        piece_keys(ks).flatten() == node_view(c).keys,
        piece_ptrs(ks).flatten() == node_view(c).ptrs,
        piece_vals(ks).flatten() == node_view(c).vals,
        forall|k: int| 0 <= k < ks.len() ==> node_ok(#[trigger] ks[k]@) && nkeys_of(ks[k]@) >= 1,
    ensures
        0 <= offset(piece_keys(ks), t),
        offset(piece_keys(ks), t) + nkeys_of(ks[t]@) <= nkeys_of(c),
        node_view(ks[t]@).keys == node_view(c).keys.subrange(
            offset(piece_keys(ks), t),
            offset(piece_keys(ks), t) + nkeys_of(ks[t]@),
        ),
        node_view(ks[t]@).ptrs == node_view(c).ptrs.subrange(
            offset(piece_keys(ks), t),
            offset(piece_keys(ks), t) + nkeys_of(ks[t]@),
        ),
        node_view(ks[t]@).vals == node_view(c).vals.subrange(
            offset(piece_keys(ks), t),
            offset(piece_keys(ks), t) + nkeys_of(ks[t]@),
        ),
        t == 0 ==> offset(piece_keys(ks), t) == 0,
        t + 1 < ks.len() ==> offset(piece_keys(ks), t + 1) == offset(piece_keys(ks), t) + nkeys_of(
            ks[t]@,
        ),
        t + 1 == ks.len() ==> offset(piece_keys(ks), t) + nkeys_of(ks[t]@) == nkeys_of(c),
{
    let pk = piece_keys(ks);
    let pp = piece_ptrs(ks);
    let pv = piece_vals(ks);
    assert forall|k: int| 0 <= k < pk.len() implies #[trigger] pk[k].len() >= 1 by {
        assert(pk[k] == node_view(ks[k]@).keys);
    }
    assert forall|k: int| 0 <= k < pk.len() implies (#[trigger] pk[k]).len() == pp[k].len() by {
        assert(pk[k] == node_view(ks[k]@).keys);
        assert(pp[k] == node_view(ks[k]@).ptrs);
    }
    assert forall|k: int| 0 <= k < pk.len() implies (#[trigger] pk[k]).len() == pv[k].len() by {
        assert(pk[k] == node_view(ks[k]@).keys);
        assert(pv[k] == node_view(ks[k]@).vals);
    }
    lemma_offset_same(pk, pp, t);
    lemma_offset_same(pk, pv, t);
    lemma_flatten_piece(pk, t);
    lemma_flatten_piece(pp, t);
    lemma_flatten_piece(pv, t);
    assert(pk[t] == node_view(ks[t]@).keys);
    assert(pp[t] == node_view(ks[t]@).ptrs);
    assert(pv[t] == node_view(ks[t]@).vals);
    assert(node_view(c).keys.len() == nkeys_of(c));
    assert(node_view(ks[t]@).keys.len() == nkeys_of(ks[t]@));
    lemma_offset_step(pk, t);
    lemma_offset_mono(pk, t + 1, ks.len() as int);
}


// ------------------------------------------------------------------------
// Insertion keeps a tree well formed
// ------------------------------------------------------------------------

/// What inserting below `node` gives in a well-formed tree, the pages being
/// `p1` before and `p2` after: `res` is well formed for `node`'s range
/// (its top node may be larger than a page), the pages not below `node`
/// are kept, and every page below `res` was below `node` or was not held.
pub open spec fn grown_ok(
    p1: Map<u64, Seq<u8>>,
    p2: Map<u64, Seq<u8>>,
    node: Seq<u8>,
    res: Seq<u8>,
    hi: Option<Seq<u8>>,
    fuel: nat,
) -> bool {
    &&& shape_ok(p2, res, node_view(node).keys[0], hi, fuel)
    &&& forall|q: u64|
        #![trigger p2.dom().contains(q)]
        #![trigger p1.dom().contains(q)]
        p1.dom().contains(q) && !below(p1, node, fuel, q) ==> p2.dom().contains(q) && p2[q] == p1[q]
    &&& forall|q: u64| #[trigger] below(p2, res, fuel, q) ==> below(p1, node, fuel, q) || !p1.dom().contains(q)
}

/// The facts about the child being replaced that the rest of the proof
/// needs, and the old children kept beside it.
proof fn lemma_kept_kid(
    p0: Map<u64, Seq<u8>>,
    p1: Map<u64, Seq<u8>>,
    p2: Map<u64, Seq<u8>>,
    p3: Map<u64, Seq<u8>>,
    node: Seq<u8>,
    i: int,
    c: Seq<u8>,
    hi: Option<Seq<u8>>,
    fuel: nat,
    j: int,
)
    requires
        tree_ok(p0, node, node_view(node).keys[0], hi, fuel),
        btype_of(node) == BNODE_NODE,
        0 <= i < nkeys_of(node),
        0 <= j < nkeys_of(node),
        j != i,
        p1 == p0.remove(node_view(node).ptrs[i]),
        forall|q: u64| #[trigger] below(p1, p0[node_view(node).ptrs[i]], (fuel - 1) as nat, q) == below(
            p0,
            p0[node_view(node).ptrs[i]],
            (fuel - 1) as nat,
            q,
        ),
        grown_ok(p1, p2, p0[node_view(node).ptrs[i]], c, bound_after(node_view(node).keys, i, hi), (fuel - 1) as nat),
        forall|q: u64|
            #![trigger p2.dom().contains(q)]
            #![trigger p3.dom().contains(q)]
            p2.dom().contains(q) ==> p3.dom().contains(q) && p3[q] == p2[q],
    ensures
        forall|q: u64|
            #[trigger] in_kid(p0, node, fuel, j, q) ==> {
                &&& p0.dom().contains(q)
                &&& p1.dom().contains(q)
                &&& p2.dom().contains(q)
                &&& p3.dom().contains(q)
                &&& p3[q] == p0[q]
                &&& !below(p0, p0[node_view(node).ptrs[i]], (fuel - 1) as nat, q)
            },
        p3.dom().contains(node_view(node).ptrs[j]),
        p3[node_view(node).ptrs[j]] == p0[node_view(node).ptrs[j]],
        tree_ok(
            p3,
            p3[node_view(node).ptrs[j]],
            node_view(node).keys[j],
            bound_after(node_view(node).keys, j, hi),
            (fuel - 1) as nat,
        ),
        forall|q: u64| #[trigger] below(p3, p3[node_view(node).ptrs[j]], (fuel - 1) as nat, q) == below(
            p0,
            p0[node_view(node).ptrs[j]],
            (fuel - 1) as nat,
            q,
        ),
        !below(p3, p3[node_view(node).ptrs[j]], (fuel - 1) as nat, node_view(node).ptrs[j]),
{
    let v = node_view(node);
    let f1 = (fuel - 1) as nat;
    let kp = v.ptrs[i];
    let kn = p0[kp];
    let pj = v.ptrs[j];
    let lo_j = v.keys[j];
    let b_j = bound_after(v.keys, j, hi);
    assert(p0.dom().contains(pj));
    assert(tree_ok(p0, p0[pj], lo_j, b_j, f1));
    assert(tree_ok(p0, kn, v.keys[i], bound_after(v.keys, i, hi), f1));
    lemma_below_held(p0, p0[pj], lo_j, b_j, f1);
    assert forall|q: u64| #[trigger] in_kid(p0, node, fuel, j, q) implies {
        &&& p0.dom().contains(q)
        &&& p1.dom().contains(q)
        &&& p2.dom().contains(q)
        &&& p3.dom().contains(q)
        &&& p3[q] == p0[q]
        &&& !below(p0, kn, f1, q)
    } by {
        assert(in_kid(p0, node, fuel, i, kp));
        if q == kp {
            if j < i {
                assert(!(in_kid(p0, node, fuel, j, q) && in_kid(p0, node, fuel, i, q)));
            } else {
                assert(!(in_kid(p0, node, fuel, i, q) && in_kid(p0, node, fuel, j, q)));
            }
        }
        if below(p0, kn, f1, q) {
            assert(in_kid(p0, node, fuel, i, q));
            if j < i {
                assert(!(in_kid(p0, node, fuel, j, q) && in_kid(p0, node, fuel, i, q)));
            } else {
                assert(!(in_kid(p0, node, fuel, i, q) && in_kid(p0, node, fuel, j, q)));
            }
        }
        assert(p0.dom().contains(q));
        assert(q != kp);
        assert(p1.dom().contains(q));
        assert(p1[q] == p0[q]);
        assert(!below(p1, kn, f1, q));
        assert(grown_ok(p1, p2, kn, c, bound_after(v.keys, i, hi), f1));
        assert(p1.dom().contains(q) && !below(p1, kn, f1, q) ==> p2.dom().contains(q) && p2[q] == p1[q]);
        assert(p2.dom().contains(q) && p2[q] == p1[q]);
        assert(p3.dom().contains(q) && p3[q] == p2[q]);
    }
    assert(in_kid(p0, node, fuel, j, pj));
    assert forall|q: u64|
        #![trigger p3.dom().contains(q)]
        #![trigger below(p0, p0[pj], f1, q)]
        below(p0, p0[pj], f1, q) implies p3.dom().contains(q) && p3[q] == p0[q] by {
        assert(in_kid(p0, node, fuel, j, q));
    }
    lemma_shape_frame(p0, p3, p0[pj], lo_j, b_j, f1);
    assert(!below(p0, p0[pj], f1, pj));
}


/// A piece of the new child, stored in a new page: a well-formed subtree
/// for its range, whose pages below are those below its entries in the
/// child, all held before it was stored.
pub proof fn lemma_kept_piece(
    p2: Map<u64, Seq<u8>>,
    p3: Map<u64, Seq<u8>>,
    c: Seq<u8>,
    lo: Seq<u8>,
    b: Option<Seq<u8>>,
    f1: nat,
    ks: Seq<BNode>,
    t: int,
    qt: u64,
)
    requires
        shape_ok(p2, c, lo, b, f1),
        0 <= t < ks.len(),
        piece_keys(ks).flatten() == node_view(c).keys,
        piece_ptrs(ks).flatten() == node_view(c).ptrs,
        piece_vals(ks).flatten() == node_view(c).vals,
        forall|k: int|
            0 <= k < ks.len() ==> node_ok(#[trigger] ks[k]@) && nkeys_of(ks[k]@) >= 1 && nbytes_of(
                ks[k]@,
            ) <= PAGE_SIZE && btype_of(ks[k]@) == btype_of(c),
        forall|q: u64|
            #![trigger p2.dom().contains(q)]
            #![trigger p3.dom().contains(q)]
            p2.dom().contains(q) ==> p3.dom().contains(q) && p3[q] == p2[q],
        !p2.dom().contains(qt),
        p3.dom().contains(qt),
        p3[qt] == ks[t]@,
    ensures
        tree_ok(
            p3,
            p3[qt],
            node_view(c).keys[offset(piece_keys(ks), t)],
            bound_after(node_view(c).keys, offset(piece_keys(ks), t) + nkeys_of(ks[t]@) - 1, b),
            f1,
        ),
        forall|q: u64|
            #[trigger] below(p3, p3[qt], f1, q) <==> btype_of(c) == BNODE_NODE && exists|jc: int|
                offset(piece_keys(ks), t) <= jc < offset(piece_keys(ks), t) + nkeys_of(ks[t]@)
                    && #[trigger] in_kid(p2, c, f1, jc, q),
        forall|q: u64| #[trigger] below(p3, p3[qt], f1, q) ==> p2.dom().contains(q),
        !below(p3, p3[qt], f1, qt),
{
    let st = offset(piece_keys(ks), t);
    let et = st + nkeys_of(ks[t]@);
    let d = ks[t]@;
    lemma_piece_at(ks, c, t);
    lemma_piece_ok(p2, c, lo, b, f1, d, st, et);
    let lo_t = node_view(c).keys[st];
    let b_t = bound_after(node_view(c).keys, et - 1, b);
    lemma_below_held(p2, d, lo_t, b_t, f1);
    assert forall|q: u64|
        #![trigger p3.dom().contains(q)]
        #![trigger below(p2, d, f1, q)]
        below(p2, d, f1, q) implies p3.dom().contains(q) && p3[q] == p2[q] by {
        assert(p2.dom().contains(q));
    }
    lemma_shape_frame(p2, p3, d, lo_t, b_t, f1);
    assert forall|q: u64| #[trigger] below(p3, p3[qt], f1, q) implies p2.dom().contains(q) by {
        assert(below(p2, d, f1, q));
    }
}


/// The facts about the new node that the proof that it is well formed
/// needs: it is the old node with the child at `i` replaced by the pieces
/// `ks` of the new child `c`, stored in new pages, distinct from each
/// other.
pub open spec fn replaced(
    p2: Map<u64, Seq<u8>>,
    p3: Map<u64, Seq<u8>>,
    node: Seq<u8>,
    i: int,
    c: Seq<u8>,
    ks: Seq<BNode>,
    w: Seq<u8>,
) -> bool {
    let v = node_view(node);
    let n = nkeys_of(node);
    let m = ks.len() as int;
    let wv = node_view(w);
    &&& m >= 1
    &&& piece_keys(ks).flatten() == node_view(c).keys
    &&& piece_ptrs(ks).flatten() == node_view(c).ptrs
    &&& piece_vals(ks).flatten() == node_view(c).vals
    &&& forall|k: int|
        0 <= k < m ==> node_ok(#[trigger] ks[k]@) && nkeys_of(ks[k]@) >= 1 && nbytes_of(ks[k]@)
            <= PAGE_SIZE && btype_of(ks[k]@) == btype_of(c)
    &&& node_ok(w)
    &&& btype_of(w) == BNODE_NODE
    &&& node_bounded(w)
    &&& nkeys_of(w) == n + m - 1
    &&& wv.keys == v.keys.subrange(0, i) + first_keys(ks) + v.keys.subrange(i + 1, n)
    &&& wv.ptrs.subrange(0, i) == v.ptrs.subrange(0, i)
    &&& wv.ptrs.subrange(i + m, n + m - 1) == v.ptrs.subrange(i + 1, n)
    &&& forall|t: int|
        0 <= t < m ==> !p2.dom().contains(#[trigger] wv.ptrs[i + t]) && p3.dom().contains(
            wv.ptrs[i + t],
        ) && p3[wv.ptrs[i + t]] == ks[t]@
    &&& forall|t1: int, t2: int| 0 <= t1 < t2 < m ==> #[trigger] wv.ptrs[i + t1] != #[trigger] wv.ptrs[i + t2]
    &&& forall|q: u64|
        #![trigger p2.dom().contains(q)]
        #![trigger p3.dom().contains(q)]
        p2.dom().contains(q) ==> p3.dom().contains(q) && p3[q] == p2[q]
}


/// The first keys of the pieces are the keys of the child at the pieces'
/// offsets, increasing from the child's first key, all below the child's
/// bound.
proof fn lemma_first_keys_sorted(c: Seq<u8>, lo: Seq<u8>, b: Option<Seq<u8>>, ks: Seq<BNode>)
    requires
        node_shape(c, lo, b),
        ks.len() >= 1,
        piece_keys(ks).flatten() == node_view(c).keys,
        piece_ptrs(ks).flatten() == node_view(c).ptrs,
        piece_vals(ks).flatten() == node_view(c).vals,
        forall|k: int| 0 <= k < ks.len() ==> node_ok(#[trigger] ks[k]@) && nkeys_of(ks[k]@) >= 1,
    ensures
        forall|t: int|
            0 <= t < ks.len() ==> #[trigger] first_keys(ks)[t] == node_view(c).keys[offset(
                piece_keys(ks),
                t,
            )],
        sorted_keys(first_keys(ks)),
        first_keys(ks)[0] == lo,
        below_bound(first_keys(ks)[ks.len() - 1], b),
{
    let fk = first_keys(ks);
    let pk = piece_keys(ks);
    let ck = node_view(c).keys;
    let m = ks.len() as int;
    assert(ck.len() == nkeys_of(c));
    assert forall|t: int| 0 <= t < m implies #[trigger] fk[t] == ck[offset(pk, t)] by {
        lemma_piece_at(ks, c, t);
        assert(node_view(ks[t]@).keys[0] == ck.subrange(offset(pk, t), offset(pk, t) + nkeys_of(ks[t]@))[0]);
    }
    assert forall|t: int| 0 <= t < pk.len() implies #[trigger] pk[t].len() >= 1 by {
        assert(pk[t] == node_view(ks[t]@).keys);
        assert(node_view(ks[t]@).keys.len() == nkeys_of(ks[t]@));
    }
    assert forall|a: int, x: int| 0 <= a < x < fk.len() implies lex_order(#[trigger] fk[a], #[trigger] fk[x]) < 0 by {
        lemma_offset_mono(pk, a, x);
        lemma_piece_at(ks, c, x);
        lemma_piece_at(ks, c, a);
    }
    lemma_piece_at(ks, c, 0);
    lemma_piece_at(ks, c, m - 1);
    let last = offset(pk, m - 1);
    if last < nkeys_of(c) - 1 {
        assert(lex_order(ck[last], ck[nkeys_of(c) - 1]) < 0);
        match b {
            Some(h) => {
                lemma_lex_trans(ck[last], ck[nkeys_of(c) - 1], h);
            },
            None => {},
        }
    }
}


/// Replacing the child at `i` of a well-formed node by the pieces of what
/// inserting below that child gave keeps the node well formed.
#[verifier::spinoff_prover]
#[verifier::rlimit(60)]
pub proof fn lemma_replace_ok(
    p0: Map<u64, Seq<u8>>,
    p1: Map<u64, Seq<u8>>,
    p2: Map<u64, Seq<u8>>,
    p3: Map<u64, Seq<u8>>,
    node: Seq<u8>,
    i: int,
    c: Seq<u8>,
    ks: Seq<BNode>,
    w: Seq<u8>,
    hi: Option<Seq<u8>>,
    fuel: nat,
)
    requires
        tree_ok(p0, node, node_view(node).keys[0], hi, fuel),
        btype_of(node) == BNODE_NODE,
        0 <= i < nkeys_of(node),
        p1 == p0.remove(node_view(node).ptrs[i]),
        forall|q: u64| #[trigger] below(p1, p0[node_view(node).ptrs[i]], (fuel - 1) as nat, q) == below(
            p0,
            p0[node_view(node).ptrs[i]],
            (fuel - 1) as nat,
            q,
        ),
        grown_ok(p1, p2, p0[node_view(node).ptrs[i]], c, bound_after(node_view(node).keys, i, hi), (fuel - 1) as nat),
        replaced(p2, p3, node, i, c, ks, w),
    ensures
        grown_ok(p0, p3, node, w, hi, fuel),
{
    let v = node_view(node);
    let n = nkeys_of(node);
    let f1 = (fuel - 1) as nat;
    let kp = v.ptrs[i];
    let kn = p0[kp];
    let b = bound_after(v.keys, i, hi);
    let m = ks.len() as int;
    let fk = first_keys(ks);
    let pk = piece_keys(ks);
    let wv = node_view(w);
    let nw = n + m - 1;
    let lo = v.keys[0];
    let ck = node_view(c).keys;
    assert(v.keys.len() == n && v.ptrs.len() == n);
    assert(wv.keys.len() == nw && wv.ptrs.len() == nw);
    assert(p0.dom().contains(kp));
    assert(tree_ok(p0, kn, v.keys[i], b, f1));
    assert(shape_ok(p2, c, v.keys[i], b, f1));
    assert(ck.len() == nkeys_of(c));
    lemma_first_keys_sorted(c, v.keys[i], b, ks);
    // Where the entries of the new node come from.
    assert forall|j: int| 0 <= j < i implies #[trigger] wv.ptrs[j] == v.ptrs[j] && wv.keys[j] == v.keys[j] by {
        assert(wv.ptrs.subrange(0, i)[j] == v.ptrs.subrange(0, i)[j]);
    }
    assert forall|j: int| i + m <= j < nw implies #[trigger] wv.ptrs[j] == v.ptrs[j - m + 1] && wv.keys[j]
        == v.keys[j - m + 1] by {
        assert(wv.ptrs.subrange(i + m, nw)[j - i - m] == v.ptrs.subrange(i + 1, n)[j - i - m]);
    }
    assert forall|t: int| 0 <= t < m implies #[trigger] wv.keys[i + t] == fk[t] by {}
    // The keys.
    if i > 0 {
        assert(lex_order(v.keys[i - 1], v.keys[i]) < 0);
    }
    if i + 1 < n {
        assert(b == Some(v.keys[i + 1]));
    }
    lemma_sorted_splice(v.keys, fk, i, i + 1);
    assert(wv.keys == v.keys.subrange(0, i) + fk + v.keys.subrange(i + 1, n));
    assert(wv.keys[0] == lo);
    assert(below_bound(wv.keys[nw - 1], hi)) by {
        if i + 1 < n {
            assert(wv.keys[nw - 1] == v.keys[n - 1]);
        } else {
            assert(wv.keys[nw - 1] == fk[m - 1]);
        }
    }
    assert(node_shape(w, lo, hi));
    // The children.
    assert forall|j: int| 0 <= j < nw implies {
        &&& p3.dom().contains(#[trigger] wv.ptrs[j])
        &&& tree_ok(p3, p3[wv.ptrs[j]], wv.keys[j], bound_after(wv.keys, j, hi), f1)
        &&& !below(p3, p3[wv.ptrs[j]], f1, wv.ptrs[j])
    } by {
        if j < i {
            lemma_kept_kid(p0, p1, p2, p3, node, i, c, hi, fuel, j);
            assert(bound_after(wv.keys, j, hi) == bound_after(v.keys, j, hi));
        } else if j >= i + m {
            lemma_kept_kid(p0, p1, p2, p3, node, i, c, hi, fuel, j - m + 1);
            if j + 1 < nw {
                assert(wv.keys[j + 1] == v.keys[j - m + 2]);
            }
            assert(bound_after(wv.keys, j, hi) == bound_after(v.keys, j - m + 1, hi));
        } else {
            let t = j - i;
            assert(!p2.dom().contains(wv.ptrs[i + t]) && p3.dom().contains(wv.ptrs[i + t])
                && p3[wv.ptrs[i + t]] == ks[t]@);
            lemma_kept_piece(p2, p3, c, v.keys[i], b, f1, ks, t, wv.ptrs[j]);
            lemma_piece_at(ks, c, t);
            if t + 1 < m {
                lemma_piece_at(ks, c, t + 1);
                assert(wv.keys[j + 1] == fk[t + 1]);
            } else if i + 1 < n {
                assert(wv.keys[j + 1] == v.keys[i + 1]);
            }
            assert(bound_after(wv.keys, j, hi) == bound_after(ck, offset(pk, t) + nkeys_of(ks[t]@) - 1, b));
        }
    }
    // No page is below two children.
    assert forall|j1: int, j2: int, q: u64| 0 <= j1 < j2 < nw implies !(#[trigger] in_kid(
        p3,
        w,
        fuel,
        j1,
        q,
    ) && #[trigger] in_kid(p3, w, fuel, j2, q)) by {
        lemma_disjoint_kids(p0, p1, p2, p3, node, i, c, ks, w, hi, fuel, j1, j2, q);
    }
    assert(shape_ok(p3, w, lo, hi, fuel));
    // The pages kept, and where the pages below the new node come from.
    assert(in_kid(p0, node, fuel, i, kp));
    lemma_below_intro(p0, node, fuel, i, kp);
    assert forall|q: u64|
        #![trigger p3.dom().contains(q)]
        #![trigger p0.dom().contains(q)]
        p0.dom().contains(q) && !below(p0, node, fuel, q) implies p3.dom().contains(q) && p3[q] == p0[q] by {
        if below(p0, kn, f1, q) {
            assert(in_kid(p0, node, fuel, i, q));
            lemma_below_intro(p0, node, fuel, i, q);
        }
        assert(p1.dom().contains(q) && p1[q] == p0[q]);
        assert(!below(p1, kn, f1, q));
        assert(p2.dom().contains(q) && p2[q] == p1[q]);
        assert(p3.dom().contains(q) && p3[q] == p2[q]);
    }
    assert forall|q: u64| #[trigger] below(p3, w, fuel, q) implies below(p0, node, fuel, q)
        || !p0.dom().contains(q) by {
        let j = lemma_below_elim(p3, w, fuel, q);
        lemma_new_kid_origin(p0, p1, p2, p3, node, i, c, ks, w, hi, fuel, j, q);
        if j < i {
            lemma_below_intro(p0, node, fuel, j, q);
        } else if j >= i + m {
            lemma_below_intro(p0, node, fuel, j - m + 1, q);
        } else if p0.dom().contains(q) {
            let in_kn = below(p1, kn, f1, q) || q == kp;
            if !in_kn {
                assert(p1.dom().contains(q));
                assert(p2.dom().contains(q));
                assert(below(p2, c, f1, q));
                assert(below(p1, kn, f1, q) || !p1.dom().contains(q));
            }
            assert(in_kid(p0, node, fuel, i, q));
            lemma_below_intro(p0, node, fuel, i, q);
        }
    }
}


/// Where a page below a child of the new node comes from: below an old
/// child kept, or the new page of a piece or below that piece's entries
/// in the new child.
proof fn lemma_new_kid_origin(
    p0: Map<u64, Seq<u8>>,
    p1: Map<u64, Seq<u8>>,
    p2: Map<u64, Seq<u8>>,
    p3: Map<u64, Seq<u8>>,
    node: Seq<u8>,
    i: int,
    c: Seq<u8>,
    ks: Seq<BNode>,
    w: Seq<u8>,
    hi: Option<Seq<u8>>,
    fuel: nat,
    j: int,
    q: u64,
)
    requires
        tree_ok(p0, node, node_view(node).keys[0], hi, fuel),
        btype_of(node) == BNODE_NODE,
        0 <= i < nkeys_of(node),
        p1 == p0.remove(node_view(node).ptrs[i]),
        forall|q: u64| #[trigger] below(p1, p0[node_view(node).ptrs[i]], (fuel - 1) as nat, q) == below(
            p0,
            p0[node_view(node).ptrs[i]],
            (fuel - 1) as nat,
            q,
        ),
        grown_ok(p1, p2, p0[node_view(node).ptrs[i]], c, bound_after(node_view(node).keys, i, hi), (fuel - 1) as nat),
        replaced(p2, p3, node, i, c, ks, w),
        0 <= j < nkeys_of(w),
        in_kid(p3, w, fuel, j, q),
    ensures
        j < i ==> in_kid(p0, node, fuel, j, q),
        j >= i + ks.len() ==> in_kid(p0, node, fuel, j - ks.len() + 1, q),
        i <= j < i + ks.len() ==> {
            ||| (q == node_view(w).ptrs[j] && !p2.dom().contains(q))
            ||| (p2.dom().contains(q) && below(p2, c, (fuel - 1) as nat, q) && btype_of(c) == BNODE_NODE
                && exists|jc: int|
                offset(piece_keys(ks), j - i) <= jc < offset(piece_keys(ks), j - i) + nkeys_of(
                    ks[j - i]@,
                ) && #[trigger] in_kid(p2, c, (fuel - 1) as nat, jc, q))
        },
{
    let v = node_view(node);
    let n = nkeys_of(node);
    let f1 = (fuel - 1) as nat;
    let m = ks.len() as int;
    let wv = node_view(w);
    let nw = n + m - 1;
    let b = bound_after(v.keys, i, hi);
    assert(v.ptrs.len() == n && wv.ptrs.len() == nw);
    assert(tree_ok(p0, p0[v.ptrs[i]], v.keys[i], b, f1));
    assert(shape_ok(p2, c, v.keys[i], b, f1));
    if j < i {
        assert(wv.ptrs.subrange(0, i)[j] == v.ptrs.subrange(0, i)[j]);
        lemma_kept_kid(p0, p1, p2, p3, node, i, c, hi, fuel, j);
    } else if j >= i + m {
        assert(wv.ptrs.subrange(i + m, nw)[j - i - m] == v.ptrs.subrange(i + 1, n)[j - i - m]);
        lemma_kept_kid(p0, p1, p2, p3, node, i, c, hi, fuel, j - m + 1);
    } else {
        let t = j - i;
        assert(!p2.dom().contains(wv.ptrs[i + t]) && p3.dom().contains(wv.ptrs[i + t]) && p3[wv.ptrs[i
            + t]] == ks[t]@);
        lemma_kept_piece(p2, p3, c, v.keys[i], b, f1, ks, t, wv.ptrs[j]);
        if q != wv.ptrs[j] {
            assert(below(p3, p3[wv.ptrs[j]], f1, q));
            let jc = choose|jc: int|
                offset(piece_keys(ks), t) <= jc < offset(piece_keys(ks), t) + nkeys_of(ks[t]@)
                    && #[trigger] in_kid(p2, c, f1, jc, q);
            lemma_piece_at(ks, c, t);
            lemma_below_intro(p2, c, f1, jc, q);
        }
    }
}

/// No page is below two children of the new node.
proof fn lemma_disjoint_kids(
    p0: Map<u64, Seq<u8>>,
    p1: Map<u64, Seq<u8>>,
    p2: Map<u64, Seq<u8>>,
    p3: Map<u64, Seq<u8>>,
    node: Seq<u8>,
    i: int,
    c: Seq<u8>,
    ks: Seq<BNode>,
    w: Seq<u8>,
    hi: Option<Seq<u8>>,
    fuel: nat,
    j1: int,
    j2: int,
    q: u64,
)
    requires
        tree_ok(p0, node, node_view(node).keys[0], hi, fuel),
        btype_of(node) == BNODE_NODE,
        0 <= i < nkeys_of(node),
        p1 == p0.remove(node_view(node).ptrs[i]),
        forall|q: u64| #[trigger] below(p1, p0[node_view(node).ptrs[i]], (fuel - 1) as nat, q) == below(
            p0,
            p0[node_view(node).ptrs[i]],
            (fuel - 1) as nat,
            q,
        ),
        grown_ok(p1, p2, p0[node_view(node).ptrs[i]], c, bound_after(node_view(node).keys, i, hi), (fuel - 1) as nat),
        replaced(p2, p3, node, i, c, ks, w),
        0 <= j1 < j2 < nkeys_of(w),
    ensures
        !(in_kid(p3, w, fuel, j1, q) && in_kid(p3, w, fuel, j2, q)),
{
    if in_kid(p3, w, fuel, j1, q) && in_kid(p3, w, fuel, j2, q) {
        lemma_disjoint_kids_both(p0, p1, p2, p3, node, i, c, ks, w, hi, fuel, j1, j2, q);
    }
}

/// Two children of the new node that a page is below are one.
proof fn lemma_disjoint_kids_both(
    p0: Map<u64, Seq<u8>>,
    p1: Map<u64, Seq<u8>>,
    p2: Map<u64, Seq<u8>>,
    p3: Map<u64, Seq<u8>>,
    node: Seq<u8>,
    i: int,
    c: Seq<u8>,
    ks: Seq<BNode>,
    w: Seq<u8>,
    hi: Option<Seq<u8>>,
    fuel: nat,
    j1: int,
    j2: int,
    q: u64,
)
    requires
        tree_ok(p0, node, node_view(node).keys[0], hi, fuel),
        btype_of(node) == BNODE_NODE,
        0 <= i < nkeys_of(node),
        p1 == p0.remove(node_view(node).ptrs[i]),
        forall|q: u64| #[trigger] below(p1, p0[node_view(node).ptrs[i]], (fuel - 1) as nat, q) == below(
            p0,
            p0[node_view(node).ptrs[i]],
            (fuel - 1) as nat,
            q,
        ),
        grown_ok(p1, p2, p0[node_view(node).ptrs[i]], c, bound_after(node_view(node).keys, i, hi), (fuel - 1) as nat),
        replaced(p2, p3, node, i, c, ks, w),
        0 <= j1 <= j2 < nkeys_of(w),
        in_kid(p3, w, fuel, j1, q),
        in_kid(p3, w, fuel, j2, q),
    ensures
        j1 == j2,
{
    if j1 != j2 {
        let v = node_view(node);
        let n = nkeys_of(node);
        let f1 = (fuel - 1) as nat;
        let m = ks.len() as int;
        let kp = v.ptrs[i];
        let kn = p0[kp];
        let b = bound_after(v.keys, i, hi);
        let wv = node_view(w);
        lemma_new_kid_origin(p0, p1, p2, p3, node, i, c, ks, w, hi, fuel, j1, q);
        lemma_new_kid_origin(p0, p1, p2, p3, node, i, c, ks, w, hi, fuel, j2, q);
        let old1 = j1 < i || j1 >= i + m;
        let old2 = j2 < i || j2 >= i + m;
        let jj1 = if j1 < i { j1 } else { j1 - m + 1 };
        let jj2 = if j2 < i { j2 } else { j2 - m + 1 };
        if old1 {
            lemma_kept_kid(p0, p1, p2, p3, node, i, c, hi, fuel, jj1);
        }
        if old2 {
            lemma_kept_kid(p0, p1, p2, p3, node, i, c, hi, fuel, jj2);
        }
        if old1 && old2 {
            assert(jj1 < jj2);
            assert(!(in_kid(p0, node, fuel, jj1, q) && in_kid(p0, node, fuel, jj2, q)));
        } else if old1 || old2 {
            // One old child, one piece: the page is held and kept, so it is
            // neither new nor below the child that was replaced.
            assert(p1.dom().contains(q));
            assert(p2.dom().contains(q));
            assert(!below(p0, kn, f1, q));
            assert(grown_ok(p1, p2, kn, c, b, f1));
            if below(p2, c, f1, q) {
                assert(below(p1, kn, f1, q) || !p1.dom().contains(q));
            }
        } else {
            let t1 = j1 - i;
            let t2 = j2 - i;
            if q == wv.ptrs[j1] && !p2.dom().contains(q) {
                if q == wv.ptrs[j2] {
                    assert(wv.ptrs[i + t1] != wv.ptrs[i + t2]);
                }
            } else if q == wv.ptrs[j2] && !p2.dom().contains(q) {
            } else {
                let pk = piece_keys(ks);
                let jc1 = choose|jc: int|
                    offset(pk, t1) <= jc < offset(pk, t1) + nkeys_of(ks[t1]@) && #[trigger] in_kid(p2, c, f1, jc, q);
                let jc2 = choose|jc: int|
                    offset(pk, t2) <= jc < offset(pk, t2) + nkeys_of(ks[t2]@) && #[trigger] in_kid(p2, c, f1, jc, q);
                lemma_piece_at(ks, c, t1);
                lemma_piece_at(ks, c, t2);
                assert forall|k: int| 0 <= k < pk.len() implies #[trigger] pk[k].len() >= 1 by {
                    assert(pk[k] == node_view(ks[k]@).keys);
                    assert(node_view(ks[k]@).keys.len() == nkeys_of(ks[k]@));
                }
                lemma_offset_mono(pk, t1, t2);
                assert(pk[t1] == node_view(ks[t1]@).keys);
                assert(jc1 < jc2);
                assert(tree_ok(p0, kn, v.keys[i], b, f1));
                assert(shape_ok(p2, c, v.keys[i], b, f1));
                assert(!(in_kid(p2, c, f1, jc1, q) && in_kid(p2, c, f1, jc2, q)));
            }
        }
    }
}


/// A new root over the pieces of what inserting below the old root gave,
/// each stored in a new page, is a well-formed tree one level higher.
pub proof fn lemma_new_root_ok(
    p2: Map<u64, Seq<u8>>,
    p3: Map<u64, Seq<u8>>,
    c: Seq<u8>,
    ks: Seq<BNode>,
    r: Seq<u8>,
    fuel: nat,
)
    requires
        shape_ok(p2, c, Seq::<u8>::empty(), None, fuel),
        ks.len() >= 1,
        piece_keys(ks).flatten() == node_view(c).keys,
        piece_ptrs(ks).flatten() == node_view(c).ptrs,
        piece_vals(ks).flatten() == node_view(c).vals,
        forall|k: int|
            0 <= k < ks.len() ==> node_ok(#[trigger] ks[k]@) && nkeys_of(ks[k]@) >= 1 && nbytes_of(
                ks[k]@,
            ) <= PAGE_SIZE && btype_of(ks[k]@) == btype_of(c),
        node_ok(r),
        btype_of(r) == BNODE_NODE,
        nkeys_of(r) == ks.len(),
        node_bounded(r),
        nbytes_of(r) <= PAGE_SIZE,
        node_view(r).keys == first_keys(ks),
        forall|t: int|
            0 <= t < ks.len() ==> !p2.dom().contains(#[trigger] node_view(r).ptrs[t]) && p3.dom().contains(
                node_view(r).ptrs[t],
            ) && p3[node_view(r).ptrs[t]] == ks[t]@,
        forall|t1: int, t2: int|
            0 <= t1 < t2 < ks.len() ==> #[trigger] node_view(r).ptrs[t1] != #[trigger] node_view(r).ptrs[t2],
        forall|q: u64|
            #![trigger p2.dom().contains(q)]
            #![trigger p3.dom().contains(q)]
            p2.dom().contains(q) ==> p3.dom().contains(q) && p3[q] == p2[q],
    ensures
        tree_ok(p3, r, Seq::<u8>::empty(), None, fuel + 1),
        forall|q: u64| #[trigger] below(p3, r, fuel + 1, q) ==> p3.dom().contains(q),
{
    let m = ks.len() as int;
    let rv = node_view(r);
    let fk = first_keys(ks);
    let pk = piece_keys(ks);
    let ck = node_view(c).keys;
    let f = fuel;
    assert(rv.keys.len() == m && rv.ptrs.len() == m);
    lemma_first_keys_sorted(c, Seq::<u8>::empty(), None, ks);
    assert(node_shape(r, Seq::<u8>::empty(), None));
    assert forall|t: int| 0 <= t < m implies {
        &&& p3.dom().contains(#[trigger] rv.ptrs[t])
        &&& tree_ok(p3, p3[rv.ptrs[t]], rv.keys[t], bound_after(rv.keys, t, None), f)
        &&& !below(p3, p3[rv.ptrs[t]], f, rv.ptrs[t])
    } by {
        lemma_kept_piece(p2, p3, c, Seq::<u8>::empty(), None, f, ks, t, rv.ptrs[t]);
        lemma_piece_at(ks, c, t);
        if t + 1 < m {
            lemma_piece_at(ks, c, t + 1);
        }
        assert(bound_after(rv.keys, t, None) == bound_after(ck, offset(pk, t) + nkeys_of(ks[t]@) - 1, None::<Seq<u8>>));
    }
    assert forall|t1: int, t2: int, q: u64| 0 <= t1 < t2 < m implies !(#[trigger] in_kid(
        p3,
        r,
        f + 1,
        t1,
        q,
    ) && #[trigger] in_kid(p3, r, f + 1, t2, q)) by {
        if in_kid(p3, r, f + 1, t1, q) && in_kid(p3, r, f + 1, t2, q) {
            lemma_kept_piece(p2, p3, c, Seq::<u8>::empty(), None, f, ks, t1, rv.ptrs[t1]);
            lemma_kept_piece(p2, p3, c, Seq::<u8>::empty(), None, f, ks, t2, rv.ptrs[t2]);
            if q == rv.ptrs[t1] {
                if q != rv.ptrs[t2] {
                    assert(p2.dom().contains(q));
                }
            } else if q == rv.ptrs[t2] {
                assert(p2.dom().contains(q));
            } else {
                let jc1 = choose|jc: int|
                    offset(pk, t1) <= jc < offset(pk, t1) + nkeys_of(ks[t1]@) && #[trigger] in_kid(
                        p2,
                        c,
                        f,
                        jc,
                        q,
                    );
                let jc2 = choose|jc: int|
                    offset(pk, t2) <= jc < offset(pk, t2) + nkeys_of(ks[t2]@) && #[trigger] in_kid(
                        p2,
                        c,
                        f,
                        jc,
                        q,
                    );
                lemma_piece_at(ks, c, t1);
                lemma_piece_at(ks, c, t2);
                assert forall|k: int| 0 <= k < pk.len() implies #[trigger] pk[k].len() >= 1 by {
                    assert(pk[k] == node_view(ks[k]@).keys);
                    assert(node_view(ks[k]@).keys.len() == nkeys_of(ks[k]@));
                }
                lemma_offset_mono(pk, t1, t2);
                assert(pk[t1] == node_view(ks[t1]@).keys);
                assert(jc1 < jc2);
                assert(!(in_kid(p2, c, f, jc1, q) && in_kid(p2, c, f, jc2, q)));
            }
        }
    }
    assert(tree_ok(p3, r, Seq::<u8>::empty(), None, f + 1));
    assert forall|q: u64| #[trigger] below(p3, r, f + 1, q) implies p3.dom().contains(q) by {
        let t = lemma_below_elim(p3, r, f + 1, q);
        lemma_kept_piece(p2, p3, c, Seq::<u8>::empty(), None, f, ks, t, rv.ptrs[t]);
        if q != rv.ptrs[t] {
            assert(p2.dom().contains(q));
        }
    }
}


// ------------------------------------------------------------------------
// Insertion leaves the other keys alone
// ------------------------------------------------------------------------

/// A lookup in a well-formed subtree depends only on the pages below it.
pub proof fn lemma_search_frame(
    p1: Map<u64, Seq<u8>>,
    p2: Map<u64, Seq<u8>>,
    d: Seq<u8>,
    lo: Seq<u8>,
    hi: Option<Seq<u8>>,
    fuel: nat,
    k: Seq<u8>,
)
    requires
        shape_ok(p1, d, lo, hi, fuel),
        forall|q: u64|
            #![trigger p2.dom().contains(q)]
            #![trigger below(p1, d, fuel, q)]
            below(p1, d, fuel, q) ==> p2.dom().contains(q) && p2[q] == p1[q],
    ensures
        search_from(p2, d, k, fuel) == search_from(p1, d, k, fuel),
    decreases fuel,
{
    let v = node_view(d);
    if btype_of(d) == BNODE_NODE {
        assert(v.keys.len() == nkeys_of(d));
        lemma_lookup_bounds(v.keys, k);
        let j = lookup_le(v.keys, k);
        let c = v.ptrs[j];
        assert(in_kid(p1, d, fuel, j, c));
        lemma_below_intro(p1, d, fuel, j, c);
        let f1 = (fuel - 1) as nat;
        assert(tree_ok(p1, p1[c], v.keys[j], bound_after(v.keys, j, hi), f1));
        assert forall|q: u64|
            #![trigger p2.dom().contains(q)]
            #![trigger below(p1, p1[c], f1, q)]
            below(p1, p1[c], f1, q) implies p2.dom().contains(q) && p2[q] == p1[q] by {
            assert(in_kid(p1, d, fuel, j, q));
            lemma_below_intro(p1, d, fuel, j, q);
        }
        lemma_search_frame(p1, p2, p1[c], v.keys[j], bound_after(v.keys, j, hi), f1, k);
    }
}

/// In sorted keys, the position where `k` belongs is the one whose key is
/// at most `k` and whose next key, if any, is above it.
pub proof fn lemma_lookup_at(ks: Seq<Seq<u8>>, k: Seq<u8>, j: int)
    requires
        ks.len() >= 1,
        sorted_keys(ks),
        0 <= j < ks.len(),
        lex_order(ks[j], k) <= 0,
        j + 1 < ks.len() ==> lex_order(ks[j + 1], k) > 0,
    ensures
        lookup_le(ks, k) == j,
        key_at(ks, k, j),
{
    assert(lex_order(ks[0], k) <= 0) by {
        if j > 0 {
            lemma_lex_trans_le(ks[0], ks[j], k);
        }
    }
    let p = lemma_sorted_lookup(ks, k);
    if p < j {
        assert(lex_order(ks[j], k) > 0);
    } else if p > j {
        assert(lex_order(ks[j + 1], k) <= 0) by {
            if p > j + 1 {
                lemma_lex_trans_le(ks[j + 1], ks[p], k);
            }
        }
    }
}

/// A lookup in a sorted leaf finds a value exactly when the leaf holds the
/// key, and then the value held with it.
pub proof fn lemma_leaf_search(
    pages: Map<u64, Seq<u8>>,
    d: Seq<u8>,
    lo: Seq<u8>,
    hi: Option<Seq<u8>>,
    fuel: nat,
    k: Seq<u8>,
)
    requires
        node_shape(d, lo, hi),
        btype_of(d) == BNODE_LEAF,
        lex_order(lo, k) <= 0,
    ensures
        search_from(pages, d, k, fuel) is Some ==> exists|i: int|
            0 <= i < nkeys_of(d) && #[trigger] node_view(d).keys[i] == k,
        forall|i: int|
            0 <= i < nkeys_of(d) && #[trigger] node_view(d).keys[i] == k ==> search_from(pages, d, k, fuel)
                == Some(node_view(d).vals[i]),
{
    let v = node_view(d);
    assert(v.keys.len() == nkeys_of(d) && v.vals.len() == nkeys_of(d));
    let p = lemma_sorted_lookup(v.keys, k);
    assert forall|i: int| 0 <= i < nkeys_of(d) && #[trigger] v.keys[i] == k implies search_from(
        pages,
        d,
        k,
        fuel,
    ) == Some(v.vals[i]) by {
        lemma_lex_eq(v.keys[i], k);
        if i < p {
            assert(lex_order(v.keys[i], k) < 0);
        } else if i > p {
            assert(lex_order(v.keys[i], k) > 0);
        }
    }
}

/// Where entry `i` of a leaf goes when `key` is put in it.
pub open spec fn put_index(v: NodeView, key: Seq<u8>, i: int) -> int {
    let p = lookup_le(v.keys, key);
    if v.keys[p] == key || i <= p {
        i
    } else {
        i + 1
    }
}

/// Which entry of the leaf entry `c` held before `key` was put in.
pub open spec fn put_back(v: NodeView, key: Seq<u8>, c: int) -> int {
    let p = lookup_le(v.keys, key);
    if v.keys[p] == key || c <= p {
        c
    } else {
        c - 1
    }
}

/// Putting `key` into a sorted leaf keeps every other key with its value,
/// and adds no other key.
pub proof fn lemma_leaf_put_others(v: NodeView, key: Seq<u8>, val: Seq<u8>, k: Seq<u8>, lo: Seq<u8>)
    requires
        v.keys.len() >= 1,
        v.keys.len() == v.vals.len(),
        sorted_keys(v.keys),
        v.keys[0] == lo,
        lex_order(lo, key) <= 0,
        k != key,
    ensures
        forall|i: int|
            0 <= i < v.keys.len() && #[trigger] v.keys[i] == k ==> 0 <= put_index(v, key, i) < leaf_put(
                v,
                key,
                val,
            ).keys.len() && leaf_put(v, key, val).keys[put_index(v, key, i)] == k && leaf_put(
                v,
                key,
                val,
            ).vals[put_index(v, key, i)] == v.vals[i],
        forall|c: int|
            0 <= c < leaf_put(v, key, val).keys.len() && #[trigger] leaf_put(v, key, val).keys[c] == k
                ==> 0 <= put_back(v, key, c) < v.keys.len() && v.keys[put_back(v, key, c)] == k,
{
    let p = lemma_sorted_lookup(v.keys, key);
    let w = leaf_put(v, key, val);
}


// ------------------------------------------------------------------------
// Leaves at one depth
// ------------------------------------------------------------------------

/// Every leaf below `d` lies exactly `h` levels down.
pub open spec fn level_ok(pages: Map<u64, Seq<u8>>, d: Seq<u8>, h: nat) -> bool
    decreases h,
{
    if h == 0 {
        btype_of(d) == BNODE_LEAF
    } else {
        btype_of(d) == BNODE_NODE && forall|j: int|
            0 <= j < nkeys_of(d) ==> pages.dom().contains(#[trigger] node_view(d).ptrs[j]) && level_ok(
                pages,
                pages[node_view(d).ptrs[j]],
                (h - 1) as nat,
            )
    }
}

/// More pages, the held ones kept, keep the depth of a subtree.
pub proof fn lemma_level_grow(p: Map<u64, Seq<u8>>, p2: Map<u64, Seq<u8>>, d: Seq<u8>, h: nat)
    requires
        level_ok(p, d, h),
        forall|q: u64|
            #![trigger p.dom().contains(q)]
            #![trigger p2.dom().contains(q)]
            p.dom().contains(q) ==> p2.dom().contains(q) && p2[q] == p[q],
    ensures
        level_ok(p2, d, h),
    decreases h,
{
    if h > 0 {
        assert forall|j: int| 0 <= j < nkeys_of(d) implies p2.dom().contains(
            #[trigger] node_view(d).ptrs[j],
        ) && level_ok(p2, p2[node_view(d).ptrs[j]], (h - 1) as nat) by {
            let q = node_view(d).ptrs[j];
            assert(p.dom().contains(q));
            lemma_level_grow(p, p2, p[q], (h - 1) as nat);
        }
    }
}

/// A well-formed subtree is no deeper than the levels it was checked to.
pub proof fn lemma_level_fuel(p: Map<u64, Seq<u8>>, d: Seq<u8>, lo: Seq<u8>, hi: Option<Seq<u8>>, fuel: nat, h: nat)
    requires
        shape_ok(p, d, lo, hi, fuel),
        level_ok(p, d, h),
    ensures
        h <= fuel,
    decreases h,
{
    if h > 0 {
        let v = node_view(d);
        assert(p.dom().contains(v.ptrs[0]));
        lemma_level_fuel(p, p[v.ptrs[0]], v.keys[0], bound_after(v.keys, 0, hi), (fuel - 1) as nat, (h - 1) as nat);
    }
}

/// The depth of a subtree depends only on the pages below its top.
pub proof fn lemma_level_frame(p: Map<u64, Seq<u8>>, p2: Map<u64, Seq<u8>>, d: Seq<u8>, h: nat, fuel: nat)
    requires
        level_ok(p, d, h),
        h <= fuel,
        forall|q: u64| #[trigger] below(p, d, fuel, q) ==> p2.dom().contains(q) && p2[q] == p[q],
    ensures
        level_ok(p2, d, h),
    decreases h,
{
    if h > 0 {
        assert forall|j: int| 0 <= j < nkeys_of(d) implies p2.dom().contains(
            #[trigger] node_view(d).ptrs[j],
        ) && level_ok(p2, p2[node_view(d).ptrs[j]], (h - 1) as nat) by {
            let q = node_view(d).ptrs[j];
            lemma_below_intro(p, d, fuel, j, q);
            let cd = p[q];
            assert forall|r: u64| #[trigger] below(p, cd, (fuel - 1) as nat, r) implies p2.dom().contains(r)
                && p2[r] == p[r] by {
                lemma_below_intro(p, d, fuel, j, r);
            }
            lemma_level_frame(p, p2, cd, (h - 1) as nat, (fuel - 1) as nat);
        }
    }
}

/// The pieces a node is split into lie as deep as the node.
pub proof fn lemma_level_pieces(p: Map<u64, Seq<u8>>, p3: Map<u64, Seq<u8>>, c: Seq<u8>, ks: Seq<BNode>, h: nat)
    requires
        level_ok(p, c, h),
        ks.len() >= 1,
        piece_keys(ks).flatten() == node_view(c).keys,
        piece_ptrs(ks).flatten() == node_view(c).ptrs,
        piece_vals(ks).flatten() == node_view(c).vals,
        forall|k: int|
            0 <= k < ks.len() ==> node_ok(#[trigger] ks[k]@) && nkeys_of(ks[k]@) >= 1 && btype_of(ks[k]@)
                == btype_of(c),
        forall|q: u64|
            #![trigger p.dom().contains(q)]
            #![trigger p3.dom().contains(q)]
            p.dom().contains(q) ==> p3.dom().contains(q) && p3[q] == p[q],
    ensures
        forall|t: int| 0 <= t < ks.len() ==> level_ok(p3, #[trigger] ks[t]@, h),
{
    assert forall|t: int| 0 <= t < ks.len() implies level_ok(p3, #[trigger] ks[t]@, h) by {
        if h > 0 {
            lemma_piece_at(ks, c, t);
            let o = offset(piece_keys(ks), t);
            let e = ks[t]@;
            assert forall|j: int| 0 <= j < nkeys_of(e) implies p3.dom().contains(
                #[trigger] node_view(e).ptrs[j],
            ) && level_ok(p3, p3[node_view(e).ptrs[j]], (h - 1) as nat) by {
                assert(node_view(e).ptrs[j] == node_view(c).ptrs[o + j]);
                let q = node_view(c).ptrs[o + j];
                assert(p.dom().contains(q));
                lemma_level_grow(p, p3, p[q], (h - 1) as nat);
            }
        }
    }
}

/// Replacing a child by the pieces of what inserting below it gave keeps
/// every leaf of the node at the same depth.
pub proof fn lemma_replace_level(
    p0: Map<u64, Seq<u8>>,
    p1: Map<u64, Seq<u8>>,
    p2: Map<u64, Seq<u8>>,
    p3: Map<u64, Seq<u8>>,
    node: Seq<u8>,
    i: int,
    c: Seq<u8>,
    ks: Seq<BNode>,
    w: Seq<u8>,
    hi: Option<Seq<u8>>,
    fuel: nat,
    h: nat,
)
    requires
        tree_ok(p0, node, node_view(node).keys[0], hi, fuel),
        btype_of(node) == BNODE_NODE,
        0 <= i < nkeys_of(node),
        p1 == p0.remove(node_view(node).ptrs[i]),
        forall|q: u64| #[trigger] below(p1, p0[node_view(node).ptrs[i]], (fuel - 1) as nat, q) == below(
            p0,
            p0[node_view(node).ptrs[i]],
            (fuel - 1) as nat,
            q,
        ),
        grown_ok(p1, p2, p0[node_view(node).ptrs[i]], c, bound_after(node_view(node).keys, i, hi), (fuel - 1) as nat),
        replaced(p2, p3, node, i, c, ks, w),
        level_ok(p0, node, h),
        h >= 1 ==> level_ok(p2, c, (h - 1) as nat),
    ensures
        level_ok(p3, w, h),
{
    let v = node_view(node);
    let wv = node_view(w);
    let n = nkeys_of(node);
    let m = ks.len() as int;
    let f1 = (fuel - 1) as nat;
    assert(h >= 1);
    let h1 = (h - 1) as nat;
    lemma_level_fuel(p0, node, v.keys[0], hi, fuel, h);
    lemma_level_pieces(p2, p3, c, ks, h1);
    assert forall|j: int| 0 <= j < nkeys_of(w) implies p3.dom().contains(#[trigger] wv.ptrs[j]) && level_ok(
        p3,
        p3[wv.ptrs[j]],
        h1,
    ) by {
        if i <= j < i + m {
            assert(wv.ptrs[i + (j - i)] == wv.ptrs[j]);
            assert(level_ok(p3, ks[j - i]@, h1));
        } else {
            let oj = if j < i {
                j
            } else {
                j - m + 1
            };
            if j < i {
                assert(wv.ptrs.subrange(0, i)[j] == v.ptrs.subrange(0, i)[j]);
            } else {
                assert(wv.ptrs.subrange(i + m, n + m - 1)[j - i - m] == v.ptrs.subrange(i + 1, n)[j - i - m]);
            }
            assert(wv.ptrs[j] == v.ptrs[oj]);
            lemma_kept_kid(p0, p1, p2, p3, node, i, c, hi, fuel, oj);
            let q = v.ptrs[oj];
            assert(level_ok(p0, p0[q], h1));
            assert forall|r: u64| #[trigger] below(p0, p0[q], f1, r) implies p3.dom().contains(r) && p3[r]
                == p0[r] by {
                assert(in_kid(p0, node, fuel, oj, r));
            }
            lemma_level_frame(p0, p3, p0[q], h1, f1);
        }
    }
}

/// Lookups below `res`, the pages being `p2`, find for every key of the
/// range other than `key` what they found below `node` in `p1`.
pub open spec fn keeps_others(
    p1: Map<u64, Seq<u8>>,
    p2: Map<u64, Seq<u8>>,
    node: Seq<u8>,
    res: Seq<u8>,
    key: Seq<u8>,
    hi: Option<Seq<u8>>,
    fuel: nat,
) -> bool {
    forall|k: Seq<u8>|
        in_range(k, node_view(node).keys[0], hi) && k != key ==> #[trigger] search_from(p2, res, k, fuel)
            == search_from(p1, node, k, fuel)
}

/// Replacing the child the lookup of `key` lands on by the pieces of what
/// inserting `key` below it gave leaves the lookups of other keys alone.
#[verifier::spinoff_prover]
#[verifier::rlimit(60)]
pub proof fn lemma_replace_others(
    p0: Map<u64, Seq<u8>>,
    p1: Map<u64, Seq<u8>>,
    p2: Map<u64, Seq<u8>>,
    p3: Map<u64, Seq<u8>>,
    node: Seq<u8>,
    i: int,
    c: Seq<u8>,
    ks: Seq<BNode>,
    w: Seq<u8>,
    hi: Option<Seq<u8>>,
    fuel: nat,
    key: Seq<u8>,
    k2: Seq<u8>,
)
    requires
        tree_ok(p0, node, node_view(node).keys[0], hi, fuel),
        btype_of(node) == BNODE_NODE,
        0 <= i < nkeys_of(node),
        p1 == p0.remove(node_view(node).ptrs[i]),
        forall|q: u64| #[trigger] below(p1, p0[node_view(node).ptrs[i]], (fuel - 1) as nat, q) == below(
            p0,
            p0[node_view(node).ptrs[i]],
            (fuel - 1) as nat,
            q,
        ),
        grown_ok(p1, p2, p0[node_view(node).ptrs[i]], c, bound_after(node_view(node).keys, i, hi), (fuel - 1) as nat),
        keeps_others(p1, p2, p0[node_view(node).ptrs[i]], c, key, bound_after(node_view(node).keys, i, hi), (fuel - 1) as nat),
        replaced(p2, p3, node, i, c, ks, w),
        i == lookup_le(node_view(node).keys, key),
        in_range(k2, node_view(node).keys[0], hi),
        k2 != key,
    ensures
        search_from(p3, w, k2, fuel) == search_from(p0, node, k2, fuel),
{
    let v = node_view(node);
    let n = nkeys_of(node);
    let f1 = (fuel - 1) as nat;
    let kp = v.ptrs[i];
    let kn = p0[kp];
    let b = bound_after(v.keys, i, hi);
    let m = ks.len() as int;
    let fk = first_keys(ks);
    let wv = node_view(w);
    let nw = n + m - 1;
    assert(v.keys.len() == n && v.ptrs.len() == n);
    assert(wv.keys.len() == nw && wv.ptrs.len() == nw);
    lemma_replace_ok(p0, p1, p2, p3, node, i, c, ks, w, hi, fuel);
    assert(sorted_keys(wv.keys));
    let j2 = lemma_sorted_lookup(v.keys, k2);
    assert(tree_ok(p0, kn, v.keys[i], b, f1));
    assert(shape_ok(p2, c, v.keys[i], b, f1));
    lemma_first_keys_sorted(c, v.keys[i], b, ks);
    if j2 != i {
        let jw = if j2 < i { j2 } else { j2 + m - 1 };
        if j2 < i {
            assert(wv.ptrs.subrange(0, i)[j2] == v.ptrs.subrange(0, i)[j2]);
            assert(wv.keys[j2] == v.keys[j2]);
            if j2 + 1 < i {
                assert(wv.keys[j2 + 1] == v.keys[j2 + 1]);
            } else {
                assert(wv.keys[j2 + 1] == fk[0]);
            }
        } else {
            assert(wv.ptrs.subrange(i + m, nw)[j2 - i - 1] == v.ptrs.subrange(i + 1, n)[j2 - i - 1]);
            assert(wv.keys[jw] == v.keys[j2]);
            if jw + 1 < nw {
                assert(wv.keys[jw + 1] == v.keys[j2 + 1]);
            }
        }
        assert(wv.ptrs[jw] == v.ptrs[j2]);
        lemma_lookup_at(wv.keys, k2, jw);
        lemma_kept_kid(p0, p1, p2, p3, node, i, c, hi, fuel, j2);
        let pj = v.ptrs[j2];
        assert forall|q: u64|
            #![trigger p3.dom().contains(q)]
            #![trigger below(p0, p0[pj], f1, q)]
            below(p0, p0[pj], f1, q) implies p3.dom().contains(q) && p3[q] == p0[q] by {
            assert(in_kid(p0, node, fuel, j2, q));
        }
        assert(p0.dom().contains(v.ptrs[j2]));
        assert(tree_ok(p0, p0[pj], v.keys[j2], bound_after(v.keys, j2, hi), f1));
        lemma_search_frame(p0, p3, p0[pj], v.keys[j2], bound_after(v.keys, j2, hi), f1, k2);
    } else {
        if i + 1 < n {
            lemma_lex_flip(v.keys[i + 1], k2);
        }
        assert(in_range(k2, v.keys[i], b));
        assert(node_view(kn).keys[0] == v.keys[i]);
        assert(search_from(p2, c, k2, f1) == search_from(p1, kn, k2, f1));
        lemma_below_held(p0, kn, v.keys[i], b, f1);
        assert(!below(p0, kn, f1, kp));
        assert forall|q: u64|
            #![trigger p1.dom().contains(q)]
            #![trigger below(p0, kn, f1, q)]
            below(p0, kn, f1, q) implies p1.dom().contains(q) && p1[q] == p0[q] by {
            assert(q != kp);
        }
        lemma_search_frame(p0, p1, kn, v.keys[i], b, f1, k2);
        let ck = node_view(c).keys;
        assert(ck.len() == nkeys_of(c));
        lemma_sorted_lookup(ck, k2);
        let t = crate::btree::readback::lemma_select_piece(ks, c, k2);
        lemma_piece_at(ks, c, t);
        crate::btree::readback::lemma_replace_key_at(v.keys, fk, k2, i, t);
        lemma_key_at_lookup(wv.keys, k2, i + t);
        assert(!p2.dom().contains(wv.ptrs[i + t]) && p3.dom().contains(wv.ptrs[i + t]) && p3[wv.ptrs[i
            + t]] == ks[t]@);
        let st = offset(piece_keys(ks), t);
        crate::btree::readback::lemma_piece_descent(p3, c, ks[t]@, k2, st, st + nkeys_of(ks[t]@), f1);
        lemma_below_held(p2, c, v.keys[i], b, f1);
        assert forall|q: u64|
            #![trigger p3.dom().contains(q)]
            #![trigger below(p2, c, f1, q)]
            below(p2, c, f1, q) implies p3.dom().contains(q) && p3[q] == p2[q] by {
            assert(p2.dom().contains(q));
        }
        lemma_search_frame(p2, p3, c, v.keys[i], b, f1, k2);
    }
}

} // verus!
