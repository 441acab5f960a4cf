//! Deletion keeps a tree well formed: what deleting a key below a node
//! gives, and how merging and replacing children keep the shape, the depth
//! and every other lookup.

use vstd::prelude::*;
use crate::btree::insert::{lemma_lookup_bounds, lookup_le};
use crate::btree::keys::{lemma_lex_eq, lex_order};
use crate::btree::node::{BNODE_LEAF, BNODE_NODE, PAGE_SIZE, btype_of, nbytes_of, nkeys_of, node_ok, node_view};
use crate::btree::tree::search_from;
use crate::btree::valid::{
    below, below_bound, bound_after, in_kid, in_range, lemma_below_elim, lemma_below_intro, lemma_lex_flip,
    lemma_lex_trans, lemma_lex_trans_le, lemma_lookup_at, lemma_sorted_lookup, level_ok, node_shape, shape_ok,
    sorted_keys, tree_ok, lemma_below_held, lemma_shape_frame, lemma_search_frame, lemma_level_fuel,
    lemma_level_frame, lemma_sorted_splice,
};
use crate::btree::split::node_bounded;

verus! {

/// Upper bound `a` is at most upper bound `b` (`None` being no bound).
pub open spec fn bound_le(a: Option<Seq<u8>>, b: Option<Seq<u8>>) -> bool {
    match (a, b) {
        (_, None) => true,
        (Some(x), Some(y)) => lex_order(x, y) <= 0,
        (None, Some(_)) => false,
    }
}

/// A subtree well formed below an upper bound is well formed below any
/// larger one.
pub proof fn lemma_widen(
    p: Map<u64, Seq<u8>>,
    d: Seq<u8>,
    lo: Seq<u8>,
    h1: Option<Seq<u8>>,
    h2: Option<Seq<u8>>,
    f: nat,
)
    requires
        shape_ok(p, d, lo, h1, f),
        bound_le(h1, h2),
    ensures
        shape_ok(p, d, lo, h2, f),
    decreases f,
{
    let v = node_view(d);
    let n = nkeys_of(d);
    assert(below_bound(v.keys[n - 1], h2)) by {
        match (h1, h2) {
            (Some(x), Some(y)) => {
                lemma_lex_trans_le(v.keys[n - 1], x, y);
            },
            _ => {},
        }
    }
    if btype_of(d) == BNODE_NODE {
        assert forall|j: int| 0 <= j < n implies tree_ok(
            p,
            p[#[trigger] v.ptrs[j]],
            v.keys[j],
            bound_after(v.keys, j, h2),
            (f - 1) as nat,
        ) by {
            assert(tree_ok(p, p[v.ptrs[j]], v.keys[j], bound_after(v.keys, j, h1), (f - 1) as nat));
            if j + 1 == n {
                lemma_widen(p, p[v.ptrs[j]], v.keys[j], h1, h2, (f - 1) as nat);
            }
        }
    }
}

/// In sorted keys, a key below the second one is looked up at the first.
proof fn lemma_lookup_first(ks: Seq<Seq<u8>>, k: Seq<u8>)
    requires
        ks.len() >= 1,
        ks.len() >= 2 ==> lex_order(ks[1], k) > 0,
    ensures
        lookup_le(ks, k) == 0,
{
    assert(crate::btree::insert::lookup_from(ks, k, 1, 0) == 0);
}

/// A lookup of a key below a well-formed subtree's range finds nothing.
pub proof fn lemma_search_low(p: Map<u64, Seq<u8>>, d: Seq<u8>, lo: Seq<u8>, hi: Option<Seq<u8>>, f: nat, k: Seq<u8>)
    requires
        shape_ok(p, d, lo, hi, f),
        lex_order(k, lo) < 0,
    ensures
        search_from(p, d, k, f) is None,
    decreases f,
{
    let v = node_view(d);
    let n = nkeys_of(d);
    assert(v.keys.len() == n);
    if n >= 2 {
        assert(lex_order(v.keys[0], v.keys[1]) < 0);
        lemma_lex_flip(k, lo);
        lemma_lex_trans(k, v.keys[0], v.keys[1]);
        lemma_lex_flip(k, v.keys[1]);
    }
    lemma_lookup_first(v.keys, k);
    lemma_lex_eq(k, lo);
    if btype_of(d) == BNODE_NODE {
        assert(tree_ok(p, p[v.ptrs[0]], v.keys[0], bound_after(v.keys, 0, hi), (f - 1) as nat));
        lemma_search_low(p, p[v.ptrs[0]], v.keys[0], bound_after(v.keys, 0, hi), (f - 1) as nat, k);
    }
}

/// A lookup of a key at or above a well-formed subtree's upper bound finds
/// nothing.
pub proof fn lemma_search_high(p: Map<u64, Seq<u8>>, d: Seq<u8>, lo: Seq<u8>, h: Seq<u8>, f: nat, k: Seq<u8>)
    requires
        shape_ok(p, d, lo, Some(h), f),
        lex_order(h, k) <= 0,
    ensures
        search_from(p, d, k, f) is None,
    decreases f,
{
    let v = node_view(d);
    let n = nkeys_of(d);
    assert(v.keys.len() == n);
    assert(lex_order(v.keys[n - 1], k) < 0) by {
        lemma_lex_trans_le(v.keys[n - 1], h, k);
        lemma_lex_eq(v.keys[n - 1], k);
        if v.keys[n - 1] == k {
            lemma_lex_flip(h, k);
        }
    }
    lemma_lex_flip(v.keys[n - 1], k);
    lemma_lookup_at(v.keys, k, n - 1);
    lemma_lex_eq(v.keys[n - 1], k);
    if btype_of(d) == BNODE_NODE {
        assert(bound_after(v.keys, n - 1, Some(h)) == Some(h));
        lemma_search_high(p, p[v.ptrs[n - 1]], v.keys[n - 1], h, (f - 1) as nat, k);
    }
}

/// A lookup of a key in the range of child `j` goes down to that child.
pub proof fn lemma_search_route(
    p: Map<u64, Seq<u8>>,
    d: Seq<u8>,
    lo: Seq<u8>,
    hi: Option<Seq<u8>>,
    f: nat,
    k: Seq<u8>,
    j: int,
)
    requires
        shape_ok(p, d, lo, hi, f),
        btype_of(d) == BNODE_NODE,
        0 <= j < nkeys_of(d),
        in_range(k, node_view(d).keys[j], bound_after(node_view(d).keys, j, hi)),
    ensures
        search_from(p, d, k, f) == search_from(p, p[node_view(d).ptrs[j]], k, (f - 1) as nat),
{
    let v = node_view(d);
    assert(v.keys.len() == nkeys_of(d));
    if j + 1 < nkeys_of(d) {
        lemma_lex_flip(k, v.keys[j + 1]);
    }
    lemma_lookup_at(v.keys, k, j);
}


/// What deleting `key` below `node` gave, the pages being `p0` before and
/// `p1` after: `res`, of `node`'s type, is empty only where `node` held no
/// other key; else it is a well-formed subtree from its first key (which
/// moved up only where `key` was the first) to `hi`, finds nothing for
/// `key` and for every other key of the range what `node` found. Pages not
/// below `node` are kept, every page below `res` was below `node` or was
/// not held, and the leaves stay at their depth.
pub open spec fn shrunk_ok(
    p0: Map<u64, Seq<u8>>,
    p1: Map<u64, Seq<u8>>,
    node: Seq<u8>,
    res: Seq<u8>,
    key: Seq<u8>,
    hi: Option<Seq<u8>>,
    fuel: nat,
) -> bool {
    let lo = node_view(node).keys[0];
    let r0 = node_view(res).keys[0];
    &&& btype_of(res) == btype_of(node)
    &&& node_ok(res)
    &&& nkeys_of(res) >= 1 ==> {
        &&& shape_ok(p1, res, r0, hi, fuel)
        &&& lex_order(lo, r0) <= 0
        &&& (r0 != lo ==> lo == key)
        &&& search_from(p1, res, key, fuel) is None
        &&& forall|k: Seq<u8>|
            in_range(k, lo, hi) && k != key ==> #[trigger] search_from(p1, res, k, fuel) == search_from(
                p0,
                node,
                k,
                fuel,
            )
    }
    &&& nkeys_of(res) == 0 ==> btype_of(res) == BNODE_LEAF && forall|k: Seq<u8>|
        in_range(k, lo, hi) && k != key ==> #[trigger] search_from(p0, node, k, fuel) is None
    &&& forall|q: u64|
        #![trigger p1.dom().contains(q)]
        #![trigger p0.dom().contains(q)]
        p0.dom().contains(q) && !below(p0, node, fuel, q) ==> p1.dom().contains(q) && p1[q] == p0[q]
    &&& forall|q: u64| #[trigger] below(p1, res, fuel, q) ==> below(p0, node, fuel, q) || !p0.dom().contains(q)
    &&& forall|h: nat| #[trigger] level_ok(p0, node, h) ==> level_ok(p1, res, h)
}

/// Deleting the entry of `key` from a well-formed leaf.
pub proof fn lemma_leaf_shrunk(
    p: Map<u64, Seq<u8>>,
    kn: Seq<u8>,
    u: Seq<u8>,
    key: Seq<u8>,
    hi: Option<Seq<u8>>,
    f: nat,
)
    requires
        tree_ok(p, kn, node_view(kn).keys[0], hi, f),
        btype_of(kn) == BNODE_LEAF,
        node_view(kn).keys[lookup_le(node_view(kn).keys, key)] == key,
        node_ok(u),
        btype_of(u) == BNODE_LEAF,
        nkeys_of(u) == nkeys_of(kn) - 1,
        node_view(u).keys == node_view(kn).keys.remove(lookup_le(node_view(kn).keys, key)),
        node_view(u).vals == node_view(kn).vals.remove(lookup_le(node_view(kn).keys, key)),
    ensures
        shrunk_ok(p, p, kn, u, key, hi, f),
{
    let v = node_view(kn);
    let w = node_view(u);
    let n = nkeys_of(kn);
    let lo = v.keys[0];
    let pi = lookup_le(v.keys, key);
    lemma_lookup_bounds(v.keys, key);
    assert(v.keys.len() == n && v.vals.len() == n);
    assert(w.keys.len() == n - 1 && w.vals.len() == n - 1);
    // Where the entries of the new leaf come from.
    assert forall|x: int| 0 <= x < n - 1 implies #[trigger] w.keys[x] == v.keys[if x < pi { x } else { x + 1 }]
        && w.vals[x] == v.vals[if x < pi { x } else { x + 1 }] by {}
    // No other entry holds `key`.
    assert forall|x: int| 0 <= x < n && x != pi implies #[trigger] v.keys[x] != key by {
        lemma_lex_eq(v.keys[x], key);
        if x < pi {
            assert(lex_order(v.keys[x], v.keys[pi]) < 0);
        } else {
            assert(lex_order(v.keys[pi], v.keys[x]) < 0);
        }
    }
    if n - 1 >= 1 {
        let r0 = w.keys[0];
        assert forall|a: int, b: int| 0 <= a < b < w.keys.len() implies lex_order(
            #[trigger] w.keys[a],
            #[trigger] w.keys[b],
        ) < 0 by {
            assert(w.keys[a] == v.keys[if a < pi { a } else { a + 1 }]);
            assert(w.keys[b] == v.keys[if b < pi { b } else { b + 1 }]);
        }
        assert(lex_order(lo, r0) <= 0) by {
            if pi == 0 {
                assert(r0 == v.keys[1]);
                assert(lex_order(v.keys[0], v.keys[1]) < 0);
            } else {
                assert(r0 == v.keys[0]);
                lemma_lex_eq(lo, lo);
            }
        }
        assert(below_bound(w.keys[n - 2], hi)) by {
            if pi == n - 1 {
                assert(w.keys[n - 2] == v.keys[n - 2]);
                assert(lex_order(v.keys[n - 2], v.keys[n - 1]) < 0);
                match hi {
                    Some(h) => {
                        lemma_lex_trans(v.keys[n - 2], v.keys[n - 1], h);
                    },
                    None => {},
                }
            } else {
                assert(w.keys[n - 2] == v.keys[n - 1]);
            }
        }
        assert(crate::btree::split::node_bounded(u)) by {
            assert forall|x: int| 0 <= x < w.keys.len() implies (#[trigger] w.keys[x]).len()
                <= crate::btree::node::BTREE_MAX_KEY_SIZE by {
                assert(w.keys[x] == v.keys[if x < pi { x } else { x + 1 }]);
            }
            assert forall|x: int| 0 <= x < w.vals.len() implies (#[trigger] w.vals[x]).len()
                <= crate::btree::node::BTREE_MAX_VAL_SIZE by {
                assert(w.vals[x] == v.vals[if x < pi { x } else { x + 1 }]);
            }
        }
        assert(shape_ok(p, u, r0, hi, f));
        lemma_leaf_shrunk_find(p, kn, u, key, hi, f, key);
        assert forall|k: Seq<u8>| in_range(k, lo, hi) && k != key implies #[trigger] search_from(
            p,
            u,
            k,
            f,
        ) == search_from(p, kn, k, f) by {
            lemma_leaf_shrunk_find(p, kn, u, key, hi, f, k);
        }
    } else {
        assert forall|k: Seq<u8>| in_range(k, lo, hi) && k != key implies #[trigger] search_from(
            p,
            kn,
            k,
            f,
        ) is None by {
            crate::btree::valid::lemma_leaf_search(p, kn, lo, hi, f, k);
        }
    }
    assert forall|h: nat| #[trigger] level_ok(p, kn, h) implies level_ok(p, u, h) by {
        assert(h == 0);
    }
}


/// A lookup in the leaf without the entry of `key` finds what the leaf
/// found, but for `key`, which it does not find.
#[verifier::rlimit(60)]
proof fn lemma_leaf_shrunk_find(
    p: Map<u64, Seq<u8>>,
    kn: Seq<u8>,
    u: Seq<u8>,
    key: Seq<u8>,
    hi: Option<Seq<u8>>,
    f: nat,
    k: Seq<u8>,
)
    requires
        tree_ok(p, kn, node_view(kn).keys[0], hi, f),
        btype_of(kn) == BNODE_LEAF,
        node_view(kn).keys[lookup_le(node_view(kn).keys, key)] == key,
        btype_of(u) == BNODE_LEAF,
        nkeys_of(u) == nkeys_of(kn) - 1,
        nkeys_of(u) >= 1,
        node_view(u).keys == node_view(kn).keys.remove(lookup_le(node_view(kn).keys, key)),
        node_view(u).vals == node_view(kn).vals.remove(lookup_le(node_view(kn).keys, key)),
        shape_ok(p, u, node_view(u).keys[0], hi, f),
        k == key || in_range(k, node_view(kn).keys[0], hi),
    ensures
        k == key ==> search_from(p, u, k, f) is None,
        k != key ==> search_from(p, u, k, f) == search_from(p, kn, k, f),
{
    let v = node_view(kn);
    let w = node_view(u);
    let n = nkeys_of(kn);
    let lo = v.keys[0];
    let r0 = w.keys[0];
    let pi = lookup_le(v.keys, key);
    lemma_lookup_bounds(v.keys, key);
    assert(v.keys.len() == n && v.vals.len() == n);
    assert(w.keys.len() == n - 1 && w.vals.len() == n - 1);
    assert forall|x: int| 0 <= x < n - 1 implies #[trigger] w.keys[x] == v.keys[if x < pi { x } else { x + 1 }]
        && w.vals[x] == v.vals[if x < pi { x } else { x + 1 }] by {}
    assert forall|x: int| 0 <= x < n && x != pi implies #[trigger] v.keys[x] != key by {
        lemma_lex_eq(v.keys[x], key);
        if x < pi {
            assert(lex_order(v.keys[x], v.keys[pi]) < 0);
        } else {
            assert(lex_order(v.keys[pi], v.keys[x]) < 0);
        }
    }
    if lex_order(k, r0) < 0 {
        lemma_search_low(p, u, r0, hi, f, k);
        if k != key {
            crate::btree::valid::lemma_leaf_search(p, kn, lo, hi, f, k);
            if search_from(p, kn, k, f) is Some {
                let c = choose|c: int| 0 <= c < n && #[trigger] v.keys[c] == k;
                assert(c != pi);
                if pi == 0 {
                    assert(r0 == v.keys[1]);
                    if c >= 2 {
                        assert(lex_order(v.keys[1], v.keys[c]) < 0);
                        lemma_lex_flip(k, r0);
                    } else {
                        lemma_lex_eq(k, r0);
                    }
                } else {
                    assert(r0 == lo);
                    lemma_lex_flip(k, lo);
                    if c > 0 {
                        assert(lex_order(v.keys[0], v.keys[c]) < 0);
                    }
                    lemma_lex_eq(k, lo);
                }
            }
        }
    } else {
        lemma_lex_flip(k, r0);
        crate::btree::valid::lemma_leaf_search(p, u, r0, hi, f, k);
        if search_from(p, u, k, f) is Some {
            let c = choose|c: int| 0 <= c < nkeys_of(u) && #[trigger] w.keys[c] == k;
            assert(w.keys[c] == v.keys[if c < pi { c } else { c + 1 }]);
        }
        if k != key {
            crate::btree::valid::lemma_leaf_search(p, kn, lo, hi, f, k);
            if search_from(p, kn, k, f) is Some {
                let c = choose|c: int| 0 <= c < n && #[trigger] v.keys[c] == k;
                assert(c != pi);
                let o = if c < pi { c } else { c - 1 };
                assert(w.keys[o] == k);
            }
        }
    }
}


/// Page `q` is below one of the children `s` and (when `r` is 2) `s + 1`
/// of `node`, or is one of them.
pub open spec fn in_cut(p0: Map<u64, Seq<u8>>, node: Seq<u8>, fuel: nat, s: int, r: int, q: u64) -> bool {
    in_kid(p0, node, fuel, s, q) || (r == 2 && in_kid(p0, node, fuel, s + 1, q))
}

/// A child of `node` outside the cut `[s, s + r)` whose pages `pF` keeps
/// stays a well-formed subtree there, with the same pages below it.
proof fn lemma_kept_child(
    p0: Map<u64, Seq<u8>>,
    pF: Map<u64, Seq<u8>>,
    node: Seq<u8>,
    s: int,
    r: int,
    hi: Option<Seq<u8>>,
    fuel: nat,
    j: int,
)
    requires
        tree_ok(p0, node, node_view(node).keys[0], hi, fuel),
        btype_of(node) == BNODE_NODE,
        0 <= s,
        1 <= r <= 2,
        s + r <= nkeys_of(node),
        0 <= j < nkeys_of(node),
        j < s || j >= s + r,
        forall|q: u64|
            #![trigger pF.dom().contains(q)]
            #![trigger p0.dom().contains(q)]
            p0.dom().contains(q) && !in_cut(p0, node, fuel, s, r, q) ==> pF.dom().contains(q) && pF[q]
                == p0[q],
    ensures
        pF.dom().contains(node_view(node).ptrs[j]),
        pF[node_view(node).ptrs[j]] == p0[node_view(node).ptrs[j]],
        tree_ok(
            pF,
            pF[node_view(node).ptrs[j]],
            node_view(node).keys[j],
            bound_after(node_view(node).keys, j, hi),
            (fuel - 1) as nat,
        ),
        forall|q: u64| #[trigger] below(pF, pF[node_view(node).ptrs[j]], (fuel - 1) as nat, q) == below(
            p0,
            p0[node_view(node).ptrs[j]],
            (fuel - 1) as nat,
            q,
        ),
        !below(pF, pF[node_view(node).ptrs[j]], (fuel - 1) as nat, node_view(node).ptrs[j]),
        forall|q: u64| #[trigger] in_kid(p0, node, fuel, j, q) ==> p0.dom().contains(q) && !in_cut(p0, node, fuel, s, r, q),
        forall|h: nat| #[trigger] level_ok(p0, p0[node_view(node).ptrs[j]], h) ==> level_ok(pF, pF[node_view(node).ptrs[j]], h),
        forall|q: u64|
            #![trigger pF.dom().contains(q)]
            #![trigger below(p0, p0[node_view(node).ptrs[j]], (fuel - 1) as nat, q)]
            below(p0, p0[node_view(node).ptrs[j]], (fuel - 1) as nat, q) ==> pF.dom().contains(q) && pF[q] == p0[q],
{
    let v = node_view(node);
    let f1 = (fuel - 1) as nat;
    let pj = v.ptrs[j];
    let bj = bound_after(v.keys, j, hi);
    assert(tree_ok(p0, p0[pj], v.keys[j], bj, f1));
    lemma_below_held(p0, p0[pj], v.keys[j], bj, f1);
    assert forall|q: u64| #[trigger] in_kid(p0, node, fuel, j, q) implies p0.dom().contains(q) && !in_cut(
        p0,
        node,
        fuel,
        s,
        r,
        q,
    ) by {
        if j < s {
            assert(!(in_kid(p0, node, fuel, j, q) && in_kid(p0, node, fuel, s, q)));
            if r == 2 {
                assert(!(in_kid(p0, node, fuel, j, q) && in_kid(p0, node, fuel, s + 1, q)));
            }
        } else {
            assert(!(in_kid(p0, node, fuel, s, q) && in_kid(p0, node, fuel, j, q)));
            if r == 2 {
                assert(!(in_kid(p0, node, fuel, s + 1, q) && in_kid(p0, node, fuel, j, q)));
            }
        }
    }
    assert(in_kid(p0, node, fuel, j, pj));
    assert forall|q: u64|
        #![trigger pF.dom().contains(q)]
        #![trigger below(p0, p0[pj], f1, q)]
        below(p0, p0[pj], f1, q) implies pF.dom().contains(q) && pF[q] == p0[q] by {
        assert(in_kid(p0, node, fuel, j, q));
    }
    lemma_shape_frame(p0, pF, p0[pj], v.keys[j], bj, f1);
    assert(!below(p0, p0[pj], f1, pj));
    assert forall|h: nat| #[trigger] level_ok(p0, p0[pj], h) implies level_ok(pF, pF[pj], h) by {
        lemma_level_fuel(p0, p0[pj], v.keys[j], bj, f1, h);
        lemma_level_frame(p0, pF, p0[pj], h, f1);
    }
}


/// The node `w` is `node` with its children `[s, s + r)` replaced by one
/// child `c`, stored in the new page `qc`: the facts about the pages before
/// (`p0`) and after (`pF`) that make `w` what deleting `key` below `node`
/// gives.
pub open spec fn spliced(
    p0: Map<u64, Seq<u8>>,
    pF: Map<u64, Seq<u8>>,
    node: Seq<u8>,
    w: Seq<u8>,
    c: Seq<u8>,
    qc: u64,
    s: int,
    r: int,
    key: Seq<u8>,
    hi: Option<Seq<u8>>,
    fuel: nat,
) -> bool {
    let v = node_view(node);
    let n = nkeys_of(node);
    let wv = node_view(w);
    let f1 = (fuel - 1) as nat;
    let b = bound_after(v.keys, s + r - 1, hi);
    let c0 = node_view(c).keys[0];
    &&& tree_ok(p0, node, v.keys[0], hi, fuel)
    &&& btype_of(node) == BNODE_NODE
    &&& 0 <= s
    &&& 1 <= r <= 2
    &&& s + r <= n
    &&& node_ok(w)
    &&& btype_of(w) == BNODE_NODE
    &&& nkeys_of(w) == n - r + 1
    &&& wv.keys == v.keys.subrange(0, s).push(c0) + v.keys.subrange(s + r, n)
    &&& wv.ptrs == v.ptrs.subrange(0, s).push(qc) + v.ptrs.subrange(s + r, n)
    &&& wv.vals == v.vals.subrange(0, s).push(Seq::<u8>::empty()) + v.vals.subrange(s + r, n)
    &&& nbytes_of(w) <= PAGE_SIZE
    &&& pF.dom().contains(qc)
    &&& pF[qc] == c
    &&& (!p0.dom().contains(qc) || in_cut(p0, node, fuel, s, r, qc))
    &&& nkeys_of(c) >= 1
    &&& nbytes_of(c) <= PAGE_SIZE
    &&& shape_ok(pF, c, c0, b, f1)
    &&& !below(pF, c, f1, qc)
    &&& lex_order(v.keys[s], c0) <= 0
    &&& (c0 != v.keys[s] ==> v.keys[s] == key)
    &&& in_range(key, v.keys[s], b)
    &&& forall|q: u64|
        #![trigger pF.dom().contains(q)]
        #![trigger p0.dom().contains(q)]
        p0.dom().contains(q) && !in_cut(p0, node, fuel, s, r, q) ==> pF.dom().contains(q) && pF[q] == p0[q]
    &&& forall|q: u64| #[trigger] below(pF, c, f1, q) ==> in_cut(p0, node, fuel, s, r, q) || !p0.dom().contains(q)
    &&& forall|h: nat| #[trigger] level_ok(p0, node, h) ==> level_ok(pF, c, (h - 1) as nat)
    &&& search_from(pF, c, key, f1) is None
    &&& forall|k: Seq<u8>|
        in_range(k, v.keys[s], b) && k != key ==> #[trigger] search_from(pF, c, k, f1) == search_from(
            p0,
            node,
            k,
            fuel,
        )
}

/// Where the entries of the spliced node come from.
proof fn lemma_spliced_entries(
    p0: Map<u64, Seq<u8>>,
    pF: Map<u64, Seq<u8>>,
    node: Seq<u8>,
    w: Seq<u8>,
    c: Seq<u8>,
    qc: u64,
    s: int,
    r: int,
    key: Seq<u8>,
    hi: Option<Seq<u8>>,
    fuel: nat,
)
    requires
        spliced(p0, pF, node, w, c, qc, s, r, key, hi, fuel),
    ensures
        forall|j: int| 0 <= j < s ==> #[trigger] node_view(w).keys[j] == node_view(node).keys[j]
            && node_view(w).ptrs[j] == node_view(node).ptrs[j] && node_view(w).vals[j] == node_view(node).vals[j],
        forall|j: int| s < j < nkeys_of(w) ==> #[trigger] node_view(w).keys[j] == node_view(node).keys[j + r - 1]
            && node_view(w).ptrs[j] == node_view(node).ptrs[j + r - 1] && node_view(w).vals[j] == node_view(
            node,
        ).vals[j + r - 1],
        node_view(w).keys[s] == node_view(c).keys[0],
        node_view(w).ptrs[s] == qc,
        node_view(w).vals[s] == Seq::<u8>::empty(),
        node_view(w).keys.len() == nkeys_of(w),
        node_view(node).keys.len() == nkeys_of(node),
        bound_after(node_view(w).keys, s, hi) == bound_after(node_view(node).keys, s + r - 1, hi),
        forall|j: int| 0 <= j < s - 1 ==> #[trigger] bound_after(node_view(w).keys, j, hi) == bound_after(node_view(node).keys, j, hi),
        forall|j: int| s < j < nkeys_of(w) ==> #[trigger] bound_after(node_view(w).keys, j, hi) == bound_after(node_view(node).keys, j + r - 1, hi),
{
    let v = node_view(node);
    let wv = node_view(w);
    let n = nkeys_of(node);
    assert(v.keys.len() == n && v.ptrs.len() == n && v.vals.len() == n);
    assert(wv.keys.len() == n - r + 1);
    assert forall|j: int| s < j < nkeys_of(w) implies #[trigger] bound_after(wv.keys, j, hi) == bound_after(v.keys, j + r - 1, hi) by {
        if j + 1 < nkeys_of(w) {
            assert(wv.keys[j + 1] == v.keys[j + r]);
        }
    }
    if s + 1 < nkeys_of(w) {
        assert(wv.keys[s + 1] == v.keys[s + r]);
    }
}


/// The spliced node is a well-formed subtree from its first key, and the
/// pages below it were below `node` or not held.
#[verifier::spinoff_prover]
#[verifier::rlimit(100)]
proof fn lemma_spliced_shape(
    p0: Map<u64, Seq<u8>>,
    pF: Map<u64, Seq<u8>>,
    node: Seq<u8>,
    w: Seq<u8>,
    c: Seq<u8>,
    qc: u64,
    s: int,
    r: int,
    key: Seq<u8>,
    hi: Option<Seq<u8>>,
    fuel: nat,
)
    requires
        spliced(p0, pF, node, w, c, qc, s, r, key, hi, fuel),
    ensures
        shape_ok(pF, w, node_view(w).keys[0], hi, fuel),
        forall|q: u64| #[trigger] below(pF, w, fuel, q) ==> below(p0, node, fuel, q) || !p0.dom().contains(q),
        forall|q: u64|
            #![trigger pF.dom().contains(q)]
            #![trigger p0.dom().contains(q)]
            p0.dom().contains(q) && !below(p0, node, fuel, q) ==> pF.dom().contains(q) && pF[q] == p0[q],
{
    let v = node_view(node);
    let wv = node_view(w);
    let n = nkeys_of(node);
    let nw = nkeys_of(w);
    let f1 = (fuel - 1) as nat;
    let c0 = node_view(c).keys[0];
    let b = bound_after(v.keys, s + r - 1, hi);
    lemma_spliced_entries(p0, pF, node, w, c, qc, s, r, key, hi, fuel);
    // The keys.
    let cv = node_view(c);
    assert(cv.keys.len() == nkeys_of(c));
    assert(below_bound(c0, b)) by {
        let m = nkeys_of(c);
        if m > 1 {
            assert(lex_order(cv.keys[0], cv.keys[m - 1]) < 0);
            match b {
                Some(h) => {
                    lemma_lex_trans(c0, cv.keys[m - 1], h);
                },
                None => {},
            }
        }
    }
    assert(sorted_keys(seq![c0]));
    if s > 0 {
        assert(lex_order(v.keys[s - 1], v.keys[s]) < 0);
        lemma_lex_trans_le(v.keys[s - 1], v.keys[s], c0);
        lemma_lex_eq(v.keys[s - 1], c0);
        if v.keys[s - 1] == c0 {
            lemma_lex_flip(v.keys[s - 1], v.keys[s]);
        }
    }
    lemma_sorted_splice(v.keys, seq![c0], s, s + r);
    assert(wv.keys =~= v.keys.subrange(0, s) + seq![c0] + v.keys.subrange(s + r, n));
    assert(below_bound(wv.keys[nw - 1], hi)) by {
        if s + r < n {
            assert(wv.keys[nw - 1] == v.keys[n - 1]);
        } else {
            assert(wv.keys[nw - 1] == c0);
        }
    }
    assert(node_bounded(w)) by {
        assert(node_bounded(node));
        assert(crate::btree::split::node_bounded(c));
        assert forall|x: int| 0 <= x < wv.keys.len() implies (#[trigger] wv.keys[x]).len()
            <= crate::btree::node::BTREE_MAX_KEY_SIZE by {
            if x < s {
            } else if x == s {
                assert(cv.keys[0].len() <= crate::btree::node::BTREE_MAX_KEY_SIZE);
            } else {
                assert(wv.keys[x] == v.keys[x + r - 1]);
            }
        }
        assert forall|x: int| 0 <= x < wv.vals.len() implies (#[trigger] wv.vals[x]).len()
            <= crate::btree::node::BTREE_MAX_VAL_SIZE by {
            if x < s {
            } else if x == s {
            } else {
                assert(wv.vals[x] == v.vals[x + r - 1]);
            }
        }
    }
    assert(node_shape(w, wv.keys[0], hi));
    // The children.
    assert forall|j: int| 0 <= j < nw implies {
        &&& pF.dom().contains(#[trigger] wv.ptrs[j])
        &&& tree_ok(pF, pF[wv.ptrs[j]], wv.keys[j], bound_after(wv.keys, j, hi), f1)
        &&& !below(pF, pF[wv.ptrs[j]], f1, wv.ptrs[j])
    } by {
        if j == s {
        } else {
            let o = if j < s { j } else { j + r - 1 };
            lemma_kept_child(p0, pF, node, s, r, hi, fuel, o);
            if j == s - 1 {
                assert(bound_after(v.keys, j, hi) == Some(v.keys[s]));
                assert(bound_after(wv.keys, j, hi) == Some(c0));
                lemma_widen(pF, pF[wv.ptrs[j]], v.keys[j], Some(v.keys[s]), Some(c0), f1);
            }
        }
    }
    assert forall|j1: int, j2: int, q: u64| 0 <= j1 < j2 < nw implies !(#[trigger] in_kid(pF, w, fuel, j1, q)
        && #[trigger] in_kid(pF, w, fuel, j2, q)) by {
        lemma_spliced_kid(p0, pF, node, w, c, qc, s, r, key, hi, fuel, j1, q);
        lemma_spliced_kid(p0, pF, node, w, c, qc, s, r, key, hi, fuel, j2, q);
        if in_kid(pF, w, fuel, j1, q) && in_kid(pF, w, fuel, j2, q) {
            if j1 != s && j2 != s {
                let o1 = if j1 < s { j1 } else { j1 + r - 1 };
                let o2 = if j2 < s { j2 } else { j2 + r - 1 };
                assert(!(in_kid(p0, node, fuel, o1, q) && in_kid(p0, node, fuel, o2, q)));
            }
        }
    }
    assert(shape_ok(pF, w, wv.keys[0], hi, fuel));
    assert forall|q: u64| #[trigger] below(pF, w, fuel, q) implies below(p0, node, fuel, q) || !p0.dom().contains(q) by {
        let j = lemma_below_elim(pF, w, fuel, q);
        lemma_spliced_kid(p0, pF, node, w, c, qc, s, r, key, hi, fuel, j, q);
        if j != s {
            let o = if j < s { j } else { j + r - 1 };
            lemma_below_intro(p0, node, fuel, o, q);
        } else if p0.dom().contains(q) {
            assert(in_cut(p0, node, fuel, s, r, q));
            if in_kid(p0, node, fuel, s, q) {
                lemma_below_intro(p0, node, fuel, s, q);
            } else {
                lemma_below_intro(p0, node, fuel, s + 1, q);
            }
        }
    }
    assert forall|q: u64|
        #![trigger pF.dom().contains(q)]
        #![trigger p0.dom().contains(q)]
        p0.dom().contains(q) && !below(p0, node, fuel, q) implies pF.dom().contains(q) && pF[q] == p0[q] by {
        if in_kid(p0, node, fuel, s, q) {
            lemma_below_intro(p0, node, fuel, s, q);
        }
        if r == 2 && in_kid(p0, node, fuel, s + 1, q) {
            lemma_below_intro(p0, node, fuel, s + 1, q);
        }
    }
}


/// Which pages lie below a child of the spliced node: below the new child,
/// its page, pages of the cut or pages not held; below a kept child, the
/// pages below the old one, outside the cut.
proof fn lemma_spliced_kid(
    p0: Map<u64, Seq<u8>>,
    pF: Map<u64, Seq<u8>>,
    node: Seq<u8>,
    w: Seq<u8>,
    c: Seq<u8>,
    qc: u64,
    s: int,
    r: int,
    key: Seq<u8>,
    hi: Option<Seq<u8>>,
    fuel: nat,
    j: int,
    q: u64,
)
    requires
        spliced(p0, pF, node, w, c, qc, s, r, key, hi, fuel),
        0 <= j < nkeys_of(w),
    ensures
        j == s && in_kid(pF, w, fuel, j, q) ==> q == qc || in_cut(p0, node, fuel, s, r, q) || !p0.dom().contains(q),
        j != s ==> (in_kid(pF, w, fuel, j, q) <==> in_kid(p0, node, fuel, if j < s { j } else { j + r - 1 }, q)),
        j != s && in_kid(pF, w, fuel, j, q) ==> p0.dom().contains(q) && !in_cut(p0, node, fuel, s, r, q),
{
    lemma_spliced_entries(p0, pF, node, w, c, qc, s, r, key, hi, fuel);
    if j != s {
        let v = node_view(node);
        let wv = node_view(w);
        let o = if j < s { j } else { j + r - 1 };
        lemma_kept_child(p0, pF, node, s, r, hi, fuel, o);
        assert(wv.ptrs[j] == v.ptrs[o]);
        assert(pF[wv.ptrs[j]] == p0[v.ptrs[o]]);
        assert(below(pF, pF[v.ptrs[o]], (fuel - 1) as nat, q) == below(p0, p0[v.ptrs[o]], (fuel - 1) as nat, q));
        assert(in_kid(pF, w, fuel, j, q) == in_kid(p0, node, fuel, o, q));
    }
}


/// A lookup below the spliced node finds what one below `node` found, but
/// for `key`, which it does not find.
#[verifier::rlimit(80)]
proof fn lemma_spliced_find(
    p0: Map<u64, Seq<u8>>,
    pF: Map<u64, Seq<u8>>,
    node: Seq<u8>,
    w: Seq<u8>,
    c: Seq<u8>,
    qc: u64,
    s: int,
    r: int,
    key: Seq<u8>,
    hi: Option<Seq<u8>>,
    fuel: nat,
    k: Seq<u8>,
)
    requires
        spliced(p0, pF, node, w, c, qc, s, r, key, hi, fuel),
        k == key || in_range(k, node_view(node).keys[0], hi),
    ensures
        k == key ==> search_from(pF, w, k, fuel) is None,
        k != key ==> search_from(pF, w, k, fuel) == search_from(p0, node, k, fuel),
{
    let v = node_view(node);
    let wv = node_view(w);
    let n = nkeys_of(node);
    let f1 = (fuel - 1) as nat;
    let c0 = node_view(c).keys[0];
    let b = bound_after(v.keys, s + r - 1, hi);
    let w0 = wv.keys[0];
    lemma_spliced_entries(p0, pF, node, w, c, qc, s, r, key, hi, fuel);
    lemma_spliced_shape(p0, pF, node, w, c, qc, s, r, key, hi, fuel);
    let cv = node_view(c);
    assert(cv.keys.len() == nkeys_of(c));
    assert(below_bound(c0, b)) by {
        let m = nkeys_of(c);
        if m > 1 {
            assert(lex_order(cv.keys[0], cv.keys[m - 1]) < 0);
            match b {
                Some(h) => {
                    lemma_lex_trans(c0, cv.keys[m - 1], h);
                },
                None => {},
            }
        }
    }
    if lex_order(k, w0) < 0 {
        lemma_search_low(pF, w, w0, hi, fuel, k);
        if k != key {
            // Only a first key that moved up leaves room below it.
            assert(s == 0) by {
                if s > 0 {
                    assert(w0 == v.keys[0]);
                    lemma_lex_flip(k, w0);
                }
            }
            assert(in_range(k, v.keys[s], b)) by {
                match b {
                    Some(h) => {
                        lemma_lex_trans(k, c0, h);
                    },
                    None => {},
                }
            }
            lemma_search_low(pF, c, c0, b, f1, k);
        }
    } else if in_range(k, v.keys[s], b) && lex_order(k, c0) >= 0 {
        lemma_lex_flip(k, c0);
        lemma_search_route(pF, w, w0, hi, fuel, k, s);
    } else if in_range(k, v.keys[s], b) {
        // Between the old and the new first key of the new child.
        assert(s > 0) by {
            if s == 0 {
                assert(w0 == c0);
            }
        }
        lemma_kept_child(p0, pF, node, s, r, hi, fuel, s - 1);
        let ch = p0[v.ptrs[s - 1]];
        assert(bound_after(v.keys, s - 1, hi) == Some(v.keys[s]));
        assert(lex_order(v.keys[s - 1], v.keys[s]) < 0);
        lemma_lex_trans_le(v.keys[s - 1], v.keys[s], k);
        assert(in_range(k, wv.keys[s - 1], bound_after(wv.keys, s - 1, hi)));
        lemma_search_route(pF, w, w0, hi, fuel, k, s - 1);
        assert(tree_ok(p0, ch, v.keys[s - 1], Some(v.keys[s]), f1));
        lemma_search_high(pF, ch, v.keys[s - 1], v.keys[s], f1, k);
        if k != key {
            lemma_search_low(pF, c, c0, b, f1, k);
        }
    } else {
        // Outside the cut: a kept child, the same in both nodes.
        assert(k != key);
        lemma_lex_flip(k, w0);
        assert(lex_order(v.keys[0], k) <= 0) by {
            if s == 0 {
                lemma_lex_le_trans(v.keys[0], c0, k);
            } else {
                assert(w0 == v.keys[0]);
            }
        }
        let p = lemma_sorted_lookup(v.keys, k);
        if p + 1 < n {
            lemma_lex_flip(v.keys[p + 1], k);
        }
        assert(in_range(k, v.keys[p], bound_after(v.keys, p, hi)));
        lemma_search_route(p0, node, v.keys[0], hi, fuel, k, p);
        assert(p < s || p >= s + r) by {
            if s <= p < s + r {
                if s < p {
                    assert(lex_order(v.keys[s], v.keys[p]) < 0);
                } else {
                    lemma_lex_eq(v.keys[s], v.keys[p]);
                }
                lemma_lex_le_trans(v.keys[s], v.keys[p], k);
                if p < s + r - 1 {
                    assert(bound_after(v.keys, p, hi) == Some(v.keys[s + 1]));
                    assert(below_bound(v.keys[s + 1], b)) by {
                        if s + 2 < n {
                            assert(lex_order(v.keys[s + 1], v.keys[s + 2]) < 0);
                        }
                    }
                    match b {
                        Some(h) => {
                            lemma_lex_trans(k, v.keys[s + 1], h);
                        },
                        None => {},
                    }
                }
                assert(in_range(k, v.keys[s], b));
            }
        }
        let j = if p < s { p } else { p - r + 1 };
        lemma_kept_child(p0, pF, node, s, r, hi, fuel, p);
        assert(wv.ptrs[j] == v.ptrs[p]);
        assert(wv.keys[j] == v.keys[p]);
        assert(in_range(k, wv.keys[j], bound_after(wv.keys, j, hi))) by {
            if j == s - 1 {
                assert(bound_after(v.keys, p, hi) == Some(v.keys[s]));
                lemma_lex_trans_le(k, v.keys[s], c0);
                lemma_lex_flip(v.keys[s], c0);
            }
        }
        lemma_search_route(pF, w, w0, hi, fuel, k, j);
        let ch = p0[v.ptrs[p]];
        assert(tree_ok(p0, ch, v.keys[p], bound_after(v.keys, p, hi), f1));
        lemma_search_frame(p0, pF, ch, v.keys[p], bound_after(v.keys, p, hi), f1, k);
    }
}


/// The order of keys is transitive.
pub proof fn lemma_lex_le_trans(a: Seq<u8>, b: Seq<u8>, c: Seq<u8>)
    requires
        lex_order(a, b) <= 0,
        lex_order(b, c) <= 0,
    ensures
        lex_order(a, c) <= 0,
{
    lemma_lex_eq(a, b);
    lemma_lex_eq(b, c);
    if lex_order(a, b) < 0 && lex_order(b, c) < 0 {
        lemma_lex_trans(a, b, c);
    }
}


/// The spliced node is what deleting `key` below `node` gives.
pub proof fn lemma_splice(
    p0: Map<u64, Seq<u8>>,
    pF: Map<u64, Seq<u8>>,
    node: Seq<u8>,
    w: Seq<u8>,
    c: Seq<u8>,
    qc: u64,
    s: int,
    r: int,
    key: Seq<u8>,
    hi: Option<Seq<u8>>,
    fuel: nat,
)
    requires
        spliced(p0, pF, node, w, c, qc, s, r, key, hi, fuel),
    ensures
        shrunk_ok(p0, pF, node, w, key, hi, fuel),
        nkeys_of(w) >= 1,
        nbytes_of(w) <= PAGE_SIZE,
{
    let v = node_view(node);
    let wv = node_view(w);
    let f1 = (fuel - 1) as nat;
    lemma_spliced_entries(p0, pF, node, w, c, qc, s, r, key, hi, fuel);
    lemma_spliced_shape(p0, pF, node, w, c, qc, s, r, key, hi, fuel);
    lemma_spliced_find(p0, pF, node, w, c, qc, s, r, key, hi, fuel, key);
    assert forall|k: Seq<u8>| in_range(k, v.keys[0], hi) && k != key implies #[trigger] search_from(
        pF,
        w,
        k,
        fuel,
    ) == search_from(p0, node, k, fuel) by {
        lemma_spliced_find(p0, pF, node, w, c, qc, s, r, key, hi, fuel, k);
    }
    assert(lex_order(v.keys[0], wv.keys[0]) <= 0) by {
        if s > 0 {
            lemma_lex_eq(v.keys[0], v.keys[0]);
        }
    }
    assert forall|h: nat| #[trigger] level_ok(p0, node, h) implies level_ok(pF, w, h) by {
        assert(h >= 1);
        assert(level_ok(pF, c, (h - 1) as nat));
        assert forall|j: int| 0 <= j < nkeys_of(w) implies pF.dom().contains(#[trigger] wv.ptrs[j]) && level_ok(
            pF,
            pF[wv.ptrs[j]],
            (h - 1) as nat,
        ) by {
            if j != s {
                let o = if j < s { j } else { j + r - 1 };
                lemma_kept_child(p0, pF, node, s, r, hi, fuel, o);
                assert(level_ok(p0, p0[v.ptrs[o]], (h - 1) as nat));
            }
        }
    }
}


/// What the recursive deletion below the child of `key` gave, moved from
/// the pages `p1` it left to pages `pF` that keep every page of `p1` but
/// the child's own, adding `qc` (a page not in `p1` but for that one):
/// the new child keeps its shape, finds what the old child found, and lies
/// where the old child lay.
#[verifier::rlimit(60)]
pub proof fn lemma_child_moved(
    p0: Map<u64, Seq<u8>>,
    p1: Map<u64, Seq<u8>>,
    pF: Map<u64, Seq<u8>>,
    node: Seq<u8>,
    u: Seq<u8>,
    key: Seq<u8>,
    hi: Option<Seq<u8>>,
    fuel: nat,
    x: u64,
)
    requires
        tree_ok(p0, node, node_view(node).keys[0], hi, fuel),
        btype_of(node) == BNODE_NODE,
        in_range(key, node_view(node).keys[0], hi),
        shrunk_ok(
            p0,
            p1,
            p0[node_view(node).ptrs[lookup_le(node_view(node).keys, key)]],
            u,
            key,
            bound_after(node_view(node).keys, lookup_le(node_view(node).keys, key), hi),
            (fuel - 1) as nat,
        ),
        nkeys_of(u) >= 1,
        p0.dom().contains(x),
        !in_kid(p0, node, fuel, lookup_le(node_view(node).keys, key), x) || x == node_view(node).ptrs[lookup_le(
            node_view(node).keys,
            key,
        )],
        forall|q: u64|
            #![trigger pF.dom().contains(q)]
            #![trigger p1.dom().contains(q)]
            p1.dom().contains(q) && q != node_view(node).ptrs[lookup_le(node_view(node).keys, key)] && q != x
                ==> pF.dom().contains(q) && pF[q] == p1[q],
    ensures
        ({
            let v = node_view(node);
            let i = lookup_le(v.keys, key);
            let kn = p0[v.ptrs[i]];
            let b = bound_after(v.keys, i, hi);
            let f1 = (fuel - 1) as nat;
            let u0 = node_view(u).keys[0];
            &&& 0 <= i < nkeys_of(node)
            &&& in_range(key, v.keys[i], b)
            &&& shape_ok(pF, u, u0, b, f1)
            &&& lex_order(v.keys[i], u0) <= 0
            &&& (u0 != v.keys[i] ==> v.keys[i] == key)
            &&& forall|q: u64| #[trigger] below(pF, u, f1, q) ==> (in_kid(p0, node, fuel, i, q) && q != v.ptrs[i])
                || !p0.dom().contains(q)
            &&& forall|q: u64| #[trigger] below(pF, u, f1, q) ==> p1.dom().contains(q) && q != v.ptrs[i] && q != x
            &&& forall|h: nat| #[trigger] level_ok(p0, node, h) ==> level_ok(pF, u, (h - 1) as nat)
            &&& search_from(pF, u, key, f1) is None
            &&& forall|k: Seq<u8>|
                in_range(k, v.keys[i], b) && k != key ==> #[trigger] search_from(pF, u, k, f1) == search_from(
                    p0,
                    node,
                    k,
                    fuel,
                )
            &&& forall|q: u64|
                #![trigger pF.dom().contains(q)]
                #![trigger p0.dom().contains(q)]
                p0.dom().contains(q) && !in_kid(p0, node, fuel, i, q) && q != x ==> pF.dom().contains(q) && pF[q]
                    == p0[q]
        }),
{
    let v = node_view(node);
    let n = nkeys_of(node);
    let i = lookup_le(v.keys, key);
    let kp = v.ptrs[i];
    let kn = p0[kp];
    let b = bound_after(v.keys, i, hi);
    let f1 = (fuel - 1) as nat;
    let u0 = node_view(u).keys[0];
    assert(v.keys.len() == n);
    let pi = lemma_sorted_lookup(v.keys, key);
    assert(pi == i);
    if i + 1 < n {
        lemma_lex_flip(v.keys[i + 1], key);
    }
    assert(in_range(key, v.keys[i], b));
    assert(tree_ok(p0, kn, v.keys[i], b, f1));
    assert(!below(p0, kn, f1, kp));
    lemma_below_held(p1, u, u0, b, f1);
    assert forall|q: u64|
        #![trigger pF.dom().contains(q)]
        #![trigger below(p1, u, f1, q)]
        below(p1, u, f1, q) implies pF.dom().contains(q) && pF[q] == p1[q] by {
        assert(q != kp);
        if q == x {
            assert(below(p0, kn, f1, q));
            assert(in_kid(p0, node, fuel, i, q));
        }
    }
    lemma_shape_frame(p1, pF, u, u0, b, f1);
    assert forall|q: u64| #[trigger] below(pF, u, f1, q) implies (in_kid(p0, node, fuel, i, q) && q != kp)
        || !p0.dom().contains(q) by {
        assert(below(p1, u, f1, q));
    }
    assert forall|q: u64| #[trigger] below(pF, u, f1, q) implies p1.dom().contains(q) && q != kp && q != x by {
        assert(below(p1, u, f1, q));
        if q == x {
            assert(below(p0, kn, f1, q));
            assert(in_kid(p0, node, fuel, i, q));
        }
    }
    assert forall|h: nat| #[trigger] level_ok(p0, node, h) implies level_ok(pF, u, (h - 1) as nat) by {
        assert(h >= 1);
        assert(level_ok(p0, kn, (h - 1) as nat));
        assert(level_ok(p1, u, (h - 1) as nat));
        lemma_level_fuel(p1, u, u0, b, f1, (h - 1) as nat);
        lemma_level_frame(p1, pF, u, (h - 1) as nat, f1);
    }
    lemma_search_frame(p1, pF, u, u0, b, f1, key);
    assert forall|k: Seq<u8>| in_range(k, v.keys[i], b) && k != key implies #[trigger] search_from(pF, u, k, f1)
        == search_from(p0, node, k, fuel) by {
        lemma_search_frame(p1, pF, u, u0, b, f1, k);
        lemma_search_route(p0, node, v.keys[0], hi, fuel, k, i);
    }
    assert forall|q: u64|
        #![trigger pF.dom().contains(q)]
        #![trigger p0.dom().contains(q)]
        p0.dom().contains(q) && !in_kid(p0, node, fuel, i, q) && q != x implies pF.dom().contains(q) && pF[q]
            == p0[q] by {
        assert(q != kp);
        if below(p0, kn, f1, q) {
            assert(in_kid(p0, node, fuel, i, q));
        }
        assert(p1.dom().contains(q) && p1[q] == p0[q]);
    }
}


/// Two nodes of one type whose key ranges follow each other, merged into
/// one: `m` holds the entries of `l` and then those of `r`.
pub open spec fn merged_of(m: Seq<u8>, l: Seq<u8>, r: Seq<u8>) -> bool {
    &&& node_ok(m)
    &&& btype_of(m) == btype_of(l)
    &&& btype_of(r) == btype_of(l)
    &&& node_view(m).keys == node_view(l).keys + node_view(r).keys
    &&& node_view(m).ptrs == node_view(l).ptrs + node_view(r).ptrs
    &&& node_view(m).vals == node_view(l).vals + node_view(r).vals
}

/// The merge of two well-formed subtrees whose ranges follow each other at
/// `h` is one for the joined range: the pages below it are those below
/// either, its leaves lie as deep as theirs, and a lookup goes to the
/// part on its side of `h`.
#[verifier::spinoff_prover]
#[verifier::rlimit(100)]
pub proof fn lemma_merged(
    p: Map<u64, Seq<u8>>,
    m: Seq<u8>,
    l: Seq<u8>,
    r: Seq<u8>,
    lo: Seq<u8>,
    h: Seq<u8>,
    hi: Option<Seq<u8>>,
    f: nat,
)
    requires
        merged_of(m, l, r),
        shape_ok(p, l, lo, Some(h), f),
        shape_ok(p, r, node_view(r).keys[0], hi, f),
        lex_order(h, node_view(r).keys[0]) <= 0,
        node_bounded(m),
        forall|q: u64| !(#[trigger] below(p, l, f, q) && below(p, r, f, q)),
    ensures
        shape_ok(p, m, lo, hi, f),
        forall|q: u64| #[trigger] below(p, m, f, q) <==> below(p, l, f, q) || below(p, r, f, q),
        forall|x: nat| level_ok(p, l, x) && level_ok(p, r, x) ==> #[trigger] level_ok(p, m, x),
        forall|k: Seq<u8>| lex_order(k, h) < 0 ==> #[trigger] search_from(p, m, k, f) == search_from(p, l, k, f),
        forall|k: Seq<u8>| lex_order(h, k) <= 0 ==> #[trigger] search_from(p, m, k, f) == search_from(p, r, k, f),
{
    let lv = node_view(l);
    let rv = node_view(r);
    let mv = node_view(m);
    let nl = nkeys_of(l);
    let nr = nkeys_of(r);
    let nm = nkeys_of(m);
    let r0 = rv.keys[0];
    assert(lv.keys.len() == nl && rv.keys.len() == nr && mv.keys.len() == nm);
    assert(nm == nl + nr);
    assert(lex_order(lv.keys[nl - 1], r0) < 0) by {
        lemma_lex_trans_le(lv.keys[nl - 1], h, r0);
    }
    // The keys.
    assert forall|a: int, b: int| 0 <= a < b < nm implies lex_order(#[trigger] mv.keys[a], #[trigger] mv.keys[b]) < 0 by {
        if b < nl {
        } else if a >= nl {
            assert(mv.keys[a] == rv.keys[a - nl] && mv.keys[b] == rv.keys[b - nl]);
        } else {
            assert(mv.keys[a] == lv.keys[a] && mv.keys[b] == rv.keys[b - nl]);
            if a < nl - 1 {
                assert(lex_order(lv.keys[a], lv.keys[nl - 1]) < 0);
                lemma_lex_trans(lv.keys[a], lv.keys[nl - 1], r0);
            }
            if b > nl {
                assert(lex_order(r0, rv.keys[b - nl]) < 0);
                lemma_lex_trans(lv.keys[a], r0, rv.keys[b - nl]);
            }
        }
    }
    assert(mv.keys[nm - 1] == rv.keys[nr - 1]);
    assert(node_shape(m, lo, hi));
    if btype_of(m) == BNODE_NODE {
        let f1 = (f - 1) as nat;
        assert forall|j: int| 0 <= j < nm implies {
            &&& p.dom().contains(#[trigger] mv.ptrs[j])
            &&& tree_ok(p, p[mv.ptrs[j]], mv.keys[j], bound_after(mv.keys, j, hi), f1)
            &&& !below(p, p[mv.ptrs[j]], f1, mv.ptrs[j])
        } by {
            if j < nl {
                assert(mv.ptrs[j] == lv.ptrs[j] && mv.keys[j] == lv.keys[j]);
                if j + 1 < nl {
                    assert(mv.keys[j + 1] == lv.keys[j + 1]);
                } else {
                    assert(mv.keys[j + 1] == r0);
                    assert(tree_ok(p, p[lv.ptrs[j]], lv.keys[j], Some(h), f1));
                    lemma_widen(p, p[lv.ptrs[j]], lv.keys[j], Some(h), Some(r0), f1);
                }
            } else {
                assert(mv.ptrs[j] == rv.ptrs[j - nl] && mv.keys[j] == rv.keys[j - nl]);
                if j + 1 < nm {
                    assert(mv.keys[j + 1] == rv.keys[j + 1 - nl]);
                }
                assert(bound_after(mv.keys, j, hi) == bound_after(rv.keys, j - nl, hi));
            }
        }
        assert forall|j: int, q: u64| 0 <= j < nm implies #[trigger] in_kid(p, m, f, j, q) == (if j < nl {
            in_kid(p, l, f, j, q)
        } else {
            in_kid(p, r, f, j - nl, q)
        }) by {
            if j < nl {
                assert(mv.ptrs[j] == lv.ptrs[j]);
            } else {
                assert(mv.ptrs[j] == rv.ptrs[j - nl]);
            }
        }
        assert forall|j1: int, j2: int, q: u64| 0 <= j1 < j2 < nm implies !(#[trigger] in_kid(p, m, f, j1, q)
            && #[trigger] in_kid(p, m, f, j2, q)) by {
            if in_kid(p, m, f, j1, q) && in_kid(p, m, f, j2, q) {
                if j1 < nl && j2 >= nl {
                    lemma_below_intro(p, l, f, j1, q);
                    lemma_below_intro(p, r, f, j2 - nl, q);
                } else if j2 < nl {
                    assert(!(in_kid(p, l, f, j1, q) && in_kid(p, l, f, j2, q)));
                } else {
                    assert(!(in_kid(p, r, f, j1 - nl, q) && in_kid(p, r, f, j2 - nl, q)));
                }
            }
        }
        assert(shape_ok(p, m, lo, hi, f));
        assert forall|q: u64| #[trigger] below(p, m, f, q) <==> below(p, l, f, q) || below(p, r, f, q) by {
            if below(p, m, f, q) {
                let j = lemma_below_elim(p, m, f, q);
                if j < nl {
                    lemma_below_intro(p, l, f, j, q);
                } else {
                    lemma_below_intro(p, r, f, j - nl, q);
                }
            }
            if below(p, l, f, q) {
                let j = lemma_below_elim(p, l, f, q);
                lemma_below_intro(p, m, f, j, q);
            }
            if below(p, r, f, q) {
                let j = lemma_below_elim(p, r, f, q);
                lemma_below_intro(p, m, f, j + nl, q);
            }
        }
        assert forall|x: nat| level_ok(p, l, x) && level_ok(p, r, x) implies #[trigger] level_ok(p, m, x) by {
            if x > 0 {
                assert forall|j: int| 0 <= j < nm implies p.dom().contains(#[trigger] mv.ptrs[j]) && level_ok(
                    p,
                    p[mv.ptrs[j]],
                    (x - 1) as nat,
                ) by {
                    if j < nl {
                        assert(mv.ptrs[j] == lv.ptrs[j]);
                    } else {
                        assert(mv.ptrs[j] == rv.ptrs[j - nl]);
                    }
                }
            }
        }
    } else {
        assert forall|x: nat| level_ok(p, l, x) && level_ok(p, r, x) implies #[trigger] level_ok(p, m, x) by {}
    }
    assert forall|k: Seq<u8>| lex_order(k, h) < 0 implies #[trigger] search_from(p, m, k, f) == search_from(p, l, k, f) by {
        lemma_merged_find(p, m, l, r, lo, h, hi, f, k);
    }
    assert forall|k: Seq<u8>| lex_order(h, k) <= 0 implies #[trigger] search_from(p, m, k, f) == search_from(p, r, k, f) by {
        lemma_merged_find(p, m, l, r, lo, h, hi, f, k);
    }
}

/// A lookup in the merge goes to the part on its side of `h`.
#[verifier::rlimit(80)]
proof fn lemma_merged_find(
    p: Map<u64, Seq<u8>>,
    m: Seq<u8>,
    l: Seq<u8>,
    r: Seq<u8>,
    lo: Seq<u8>,
    h: Seq<u8>,
    hi: Option<Seq<u8>>,
    f: nat,
    k: Seq<u8>,
)
    requires
        merged_of(m, l, r),
        shape_ok(p, l, lo, Some(h), f),
        shape_ok(p, r, node_view(r).keys[0], hi, f),
        lex_order(h, node_view(r).keys[0]) <= 0,
        sorted_keys(node_view(m).keys),
    ensures
        lex_order(k, h) < 0 ==> search_from(p, m, k, f) == search_from(p, l, k, f),
        lex_order(h, k) <= 0 ==> search_from(p, m, k, f) == search_from(p, r, k, f),
{
    let lv = node_view(l);
    let rv = node_view(r);
    let mv = node_view(m);
    let nl = nkeys_of(l);
    let nr = nkeys_of(r);
    let nm = nkeys_of(m);
    let r0 = rv.keys[0];
    let f1 = (f - 1) as nat;
    assert(lv.keys.len() == nl && rv.keys.len() == nr && mv.keys.len() == nm);
    assert(lv.vals.len() == nl && rv.vals.len() == nr);
    assert(lex_order(lv.keys[nl - 1], r0) < 0) by {
        lemma_lex_trans_le(lv.keys[nl - 1], h, r0);
    }
    lemma_lex_flip(k, h);
    if lex_order(k, lo) < 0 {
        // Below both: the lookup lands on the first entry of each.
        lemma_search_low(p, l, lo, Some(h), f, k);
        lemma_lex_flip(k, lo);
        if nm >= 2 {
            assert(mv.keys[1] == if nl >= 2 { lv.keys[1] } else { r0 });
            if nl >= 2 {
                assert(lex_order(lv.keys[0], lv.keys[1]) < 0);
                lemma_lex_trans(k, lo, lv.keys[1]);
                lemma_lex_flip(k, lv.keys[1]);
            } else {
                lemma_lex_trans(k, lo, r0);
                lemma_lex_flip(k, r0);
            }
        }
        lemma_lookup_first(mv.keys, k);
        lemma_lex_eq(k, lo);
        if btype_of(m) == BNODE_NODE {
            assert(mv.ptrs[0] == lv.ptrs[0]);
            assert(tree_ok(p, p[lv.ptrs[0]], lo, bound_after(lv.keys, 0, Some(h)), f1));
            lemma_search_low(p, p[lv.ptrs[0]], lo, bound_after(lv.keys, 0, Some(h)), f1, k);
        }
        assert(lex_order(k, h) < 0) by {
            assert(lex_order(lo, h) < 0) by {
                if nl > 1 {
                    assert(lex_order(lv.keys[0], lv.keys[nl - 1]) < 0);
                    lemma_lex_trans(lo, lv.keys[nl - 1], h);
                }
            }
            lemma_lex_trans(k, lo, h);
        }
    } else if lex_order(k, h) < 0 {
        lemma_lex_flip(k, lo);
        let j = lemma_sorted_lookup(lv.keys, k);
        if j + 1 < nl {
            lemma_lex_flip(lv.keys[j + 1], k);
        }
        assert(mv.keys[j] == lv.keys[j]);
        assert(j + 1 < nm ==> lex_order(mv.keys[j + 1], k) > 0) by {
            if j + 1 < nl {
                assert(mv.keys[j + 1] == lv.keys[j + 1]);
            } else if j + 1 < nm {
                assert(mv.keys[j + 1] == r0);
                lemma_lex_trans_le(k, h, r0);
                lemma_lex_flip(k, r0);
            }
        }
        lemma_lookup_at(mv.keys, k, j);
        if btype_of(m) == BNODE_NODE {
            assert(mv.ptrs[j] == lv.ptrs[j]);
        } else {
            assert(mv.vals[j] == lv.vals[j]);
        }
    } else if lex_order(k, r0) < 0 {
        // Between `h` and the first key of `r`: neither part holds it.
        lemma_search_low(p, r, r0, hi, f, k);
        lemma_lex_flip(k, h);
        let j = nl - 1;
        assert(lex_order(lv.keys[j], k) < 0) by {
            lemma_lex_trans_le(lv.keys[j], h, k);
        }
        lemma_lex_flip(k, r0);
        assert(mv.keys[j] == lv.keys[j]);
        assert(mv.keys[j + 1] == r0);
        lemma_lookup_at(mv.keys, k, j);
        lemma_lex_eq(lv.keys[j], k);
        if btype_of(m) == BNODE_NODE {
            assert(mv.ptrs[j] == lv.ptrs[j]);
            assert(bound_after(lv.keys, j, Some(h)) == Some(h));
            lemma_search_high(p, p[lv.ptrs[j]], lv.keys[j], h, f1, k);
        }
    } else {
        lemma_lex_flip(k, r0);
        let j = lemma_sorted_lookup(rv.keys, k);
        if j + 1 < nr {
            lemma_lex_flip(rv.keys[j + 1], k);
            assert(mv.keys[nl + j + 1] == rv.keys[j + 1]);
        }
        assert(mv.keys[nl + j] == rv.keys[j]);
        lemma_lookup_at(mv.keys, k, nl + j);
        if btype_of(m) == BNODE_NODE {
            assert(mv.ptrs[nl + j] == rv.ptrs[j]);
        } else {
            assert(mv.vals[nl + j] == rv.vals[j]);
        }
    }
}


/// The entries of `m` are those of `l` then those of `r`, of allowed sizes.
proof fn lemma_merged_bounded(m: Seq<u8>, l: Seq<u8>, r: Seq<u8>)
    requires
        merged_of(m, l, r),
        node_bounded(l),
        nkeys_of(r) == 0 || node_bounded(r),
        node_ok(l),
        node_ok(r),
    ensures
        node_bounded(m),
        nkeys_of(m) == nkeys_of(l) + nkeys_of(r),
{
    let lv = node_view(l);
    let rv = node_view(r);
    let mv = node_view(m);
    assert(lv.keys.len() == nkeys_of(l) && rv.keys.len() == nkeys_of(r) && mv.keys.len() == nkeys_of(m));
    assert forall|x: int| 0 <= x < mv.keys.len() implies (#[trigger] mv.keys[x]).len()
        <= crate::btree::node::BTREE_MAX_KEY_SIZE by {
        if x < nkeys_of(l) {
            assert(mv.keys[x] == lv.keys[x]);
        } else {
            assert(mv.keys[x] == rv.keys[x - nkeys_of(l)]);
        }
    }
    assert forall|x: int| 0 <= x < mv.vals.len() implies (#[trigger] mv.vals[x]).len()
        <= crate::btree::node::BTREE_MAX_VAL_SIZE by {
        if x < nkeys_of(l) {
            assert(mv.vals[x] == lv.vals[x]);
        } else {
            assert(mv.vals[x] == rv.vals[x - nkeys_of(l)]);
        }
    }
}

/// The pages and nodes of a merge of the child of `key` (now `u`) with its
/// neighbour `j` (`i - 1` or `i + 1`), stored in the new page `qm`, the
/// node `w` taking the two children's place.
pub open spec fn merge_setup(
    p0: Map<u64, Seq<u8>>,
    p1: Map<u64, Seq<u8>>,
    pF: Map<u64, Seq<u8>>,
    node: Seq<u8>,
    u: Seq<u8>,
    m: Seq<u8>,
    qm: u64,
    w: Seq<u8>,
    key: Seq<u8>,
    hi: Option<Seq<u8>>,
    fuel: nat,
    j: int,
) -> bool {
    let v = node_view(node);
    let n = nkeys_of(node);
    let i = lookup_le(v.keys, key);
    let kp = v.ptrs[i];
    let sp = v.ptrs[j];
    let s = if j < i { j } else { i };
    &&& tree_ok(p0, node, v.keys[0], hi, fuel)
    &&& btype_of(node) == BNODE_NODE
    &&& in_range(key, v.keys[0], hi)
    &&& exists|h: nat| level_ok(p0, node, h)
    &&& (j == i - 1 || j == i + 1)
    &&& 0 <= j < n
    &&& shrunk_ok(p0, p1, p0[kp], u, key, bound_after(v.keys, i, hi), (fuel - 1) as nat)
    &&& forall|q: u64|
        #![trigger pF.dom().contains(q)]
        #![trigger p1.dom().contains(q)]
        p1.dom().contains(q) && q != kp && q != sp ==> pF.dom().contains(q) && pF[q] == p1[q]
    &&& pF.dom().contains(qm)
    &&& pF[qm] == m
    &&& !p1.dom().contains(qm) || qm == kp || qm == sp
    &&& (if j < i { merged_of(m, p0[sp], u) } else { merged_of(m, u, p0[sp]) })
    &&& nbytes_of(m) <= PAGE_SIZE
    &&& node_ok(w)
    &&& btype_of(w) == BNODE_NODE
    &&& nkeys_of(w) == n - 1
    &&& node_view(w).keys == crate::btree::delete::replace2(v.keys, s, node_view(m).keys[0])
    &&& node_view(w).ptrs == crate::btree::delete::replace2(v.ptrs, s, qm)
    &&& node_view(w).vals == crate::btree::delete::replace2(v.vals, s, Seq::<u8>::empty())
    &&& nbytes_of(w) <= PAGE_SIZE
}


/// The neighbour `j` of the child of `key` keeps its shape, its pages and
/// its depth in the pages after the merge.
proof fn lemma_neighbour_kept(
    p0: Map<u64, Seq<u8>>,
    p1: Map<u64, Seq<u8>>,
    pF: Map<u64, Seq<u8>>,
    node: Seq<u8>,
    u: Seq<u8>,
    m: Seq<u8>,
    qm: u64,
    w: Seq<u8>,
    key: Seq<u8>,
    hi: Option<Seq<u8>>,
    fuel: nat,
    j: int,
)
    requires
        merge_setup(p0, p1, pF, node, u, m, qm, w, key, hi, fuel, j),
    ensures
        ({
            let v = node_view(node);
            let i = lookup_le(v.keys, key);
            let sp = v.ptrs[j];
            let sib = p0[sp];
            let f1 = (fuel - 1) as nat;
            &&& 0 <= i < nkeys_of(node)
            &&& in_range(key, v.keys[i], bound_after(v.keys, i, hi))
            &&& shape_ok(pF, sib, v.keys[j], bound_after(v.keys, j, hi), f1)
            &&& tree_ok(p0, sib, v.keys[j], bound_after(v.keys, j, hi), f1)
            &&& forall|q: u64| #[trigger] below(pF, sib, f1, q) == below(p0, sib, f1, q)
            &&& forall|q: u64| #[trigger] below(p0, sib, f1, q) ==> in_kid(p0, node, fuel, j, q) && p0.dom().contains(q)
                && pF.dom().contains(q) && q != qm && q != sp && q != v.ptrs[i]
            &&& !in_kid(p0, node, fuel, i, sp)
            &&& p0.dom().contains(sp)
            &&& forall|x: nat| #[trigger] level_ok(p0, sib, x) ==> level_ok(pF, sib, x)
            &&& forall|k: Seq<u8>| #[trigger] search_from(pF, sib, k, f1) == search_from(p0, sib, k, f1)
            &&& forall|q: u64| #[trigger] in_kid(p0, node, fuel, j, q) ==> !in_kid(p0, node, fuel, i, q)
        }),
{
    let v = node_view(node);
    let n = nkeys_of(node);
    let i = lookup_le(v.keys, key);
    let kp = v.ptrs[i];
    let kn = p0[kp];
    let sp = v.ptrs[j];
    let sib = p0[sp];
    let f1 = (fuel - 1) as nat;
    let bj = bound_after(v.keys, j, hi);
    assert(v.keys.len() == n);
    let pi = lemma_sorted_lookup(v.keys, key);
    assert(pi == i);
    if i + 1 < n {
        lemma_lex_flip(v.keys[i + 1], key);
    }
    assert forall|q: u64| #[trigger] in_kid(p0, node, fuel, j, q) implies !in_kid(p0, node, fuel, i, q) by {
        if j < i {
            assert(!(in_kid(p0, node, fuel, j, q) && in_kid(p0, node, fuel, i, q)));
        } else {
            assert(!(in_kid(p0, node, fuel, i, q) && in_kid(p0, node, fuel, j, q)));
        }
    }
    assert(in_kid(p0, node, fuel, j, sp));
    assert(tree_ok(p0, sib, v.keys[j], bj, f1));
    assert(tree_ok(p0, kn, v.keys[i], bound_after(v.keys, i, hi), f1));
    lemma_below_held(p0, sib, v.keys[j], bj, f1);
    assert(!below(p0, sib, f1, sp));
    assert forall|q: u64| #[trigger] below(p0, sib, f1, q) implies in_kid(p0, node, fuel, j, q) && p0.dom().contains(q)
        && pF.dom().contains(q) && q != qm && q != sp && q != kp by {
        assert(in_kid(p0, node, fuel, j, q));
        assert(!in_kid(p0, node, fuel, i, q));
        assert(q != kp);
        if below(p0, kn, f1, q) {
            assert(in_kid(p0, node, fuel, i, q));
        }
        assert(p1.dom().contains(q) && p1[q] == p0[q]);
    }
    assert forall|q: u64|
        #![trigger pF.dom().contains(q)]
        #![trigger below(p0, sib, f1, q)]
        below(p0, sib, f1, q) implies pF.dom().contains(q) && pF[q] == p0[q] by {
        assert(!in_kid(p0, node, fuel, i, q));
        if below(p0, kn, f1, q) {
            assert(in_kid(p0, node, fuel, i, q));
        }
        assert(p1.dom().contains(q) && p1[q] == p0[q]);
    }
    lemma_shape_frame(p0, pF, sib, v.keys[j], bj, f1);
    assert forall|x: nat| #[trigger] level_ok(p0, sib, x) implies level_ok(pF, sib, x) by {
        lemma_level_fuel(p0, sib, v.keys[j], bj, f1, x);
        lemma_level_frame(p0, pF, sib, x, f1);
    }
    assert forall|k: Seq<u8>| #[trigger] search_from(pF, sib, k, f1) == search_from(p0, sib, k, f1) by {
        lemma_search_frame(p0, pF, sib, v.keys[j], bj, f1, k);
    }
}


/// Merging the child of `key` into its left neighbour gives a spliced node.
#[verifier::spinoff_prover]
#[verifier::rlimit(100)]
pub proof fn lemma_merge_left(
    p0: Map<u64, Seq<u8>>,
    p1: Map<u64, Seq<u8>>,
    pF: Map<u64, Seq<u8>>,
    node: Seq<u8>,
    u: Seq<u8>,
    m: Seq<u8>,
    qm: u64,
    w: Seq<u8>,
    key: Seq<u8>,
    hi: Option<Seq<u8>>,
    fuel: nat,
)
    requires
        merge_setup(p0, p1, pF, node, u, m, qm, w, key, hi, fuel, lookup_le(node_view(node).keys, key) - 1),
    ensures
        spliced(p0, pF, node, w, m, qm, lookup_le(node_view(node).keys, key) - 1, 2, key, hi, fuel),
{
    let v = node_view(node);
    let n = nkeys_of(node);
    let i = lookup_le(v.keys, key);
    let j = i - 1;
    let kp = v.ptrs[i];
    let kn = p0[kp];
    let sp = v.ptrs[j];
    let sib = p0[sp];
    let f1 = (fuel - 1) as nat;
    let b = bound_after(v.keys, i, hi);
    let h = v.keys[i];
    lemma_neighbour_kept(p0, p1, pF, node, u, m, qm, w, key, hi, fuel, j);
    assert(v.keys.len() == n && v.ptrs.len() == n && v.vals.len() == n);
    assert(bound_after(v.keys, j, hi) == Some(h));
    assert(bound_after(v.keys, j + 1, hi) == b);
    assert(tree_ok(p0, kn, h, b, f1));
    let mv = node_view(m);
    let sv = node_view(sib);
    assert(sv.keys.len() == nkeys_of(sib));
    assert(mv.keys[0] == sv.keys[0]);
    assert(sv.keys[0] == v.keys[j]);
    lemma_lex_eq(v.keys[j], v.keys[j]);
    assert(bound_le(Some(h), b)) by {
        if i + 1 < n {
            assert(lex_order(v.keys[i], v.keys[i + 1]) < 0);
        }
    }
    let hh = choose|x: nat| level_ok(p0, node, x);
    if nkeys_of(u) >= 1 {
        let u0 = node_view(u).keys[0];
        lemma_child_moved(p0, p1, pF, node, u, key, hi, fuel, sp);
        lemma_merged_bounded(m, sib, u);
        assert forall|q: u64| !(#[trigger] below(pF, sib, f1, q) && below(pF, u, f1, q)) by {
            if below(pF, sib, f1, q) && below(pF, u, f1, q) {
                assert(below(p0, sib, f1, q));
            }
        }
        lemma_merged(pF, m, sib, u, v.keys[j], h, b, f1);
        assert(!below(pF, m, f1, qm)) by {
            if below(pF, m, f1, qm) {
                if below(pF, sib, f1, qm) {
                    assert(below(p0, sib, f1, qm));
                }
            }
        }
        assert forall|q: u64| #[trigger] below(pF, m, f1, q) implies in_cut(p0, node, fuel, j, 2, q) || !p0.dom().contains(q) by {
            if below(pF, sib, f1, q) {
                assert(below(p0, sib, f1, q));
            }
        }
        assert forall|x: nat| #[trigger] level_ok(p0, node, x) implies level_ok(pF, m, (x - 1) as nat) by {
            assert(level_ok(p0, sib, (x - 1) as nat));
            assert(level_ok(pF, sib, (x - 1) as nat));
            assert(level_ok(pF, u, (x - 1) as nat));
        }
        lemma_lex_flip(key, h);
        assert(search_from(pF, m, key, f1) == search_from(pF, u, key, f1));
        assert forall|k: Seq<u8>| in_range(k, v.keys[j], b) && k != key implies #[trigger] search_from(pF, m, k, f1)
            == search_from(p0, node, k, fuel) by {
            if lex_order(k, h) < 0 {
                lemma_lex_flip(k, h);
                assert(search_from(pF, m, k, f1) == search_from(pF, sib, k, f1));
                lemma_search_route(p0, node, v.keys[0], hi, fuel, k, j);
            } else {
                lemma_lex_flip(k, h);
                assert(search_from(pF, m, k, f1) == search_from(pF, u, k, f1));
            }
        }
    } else {
        // The child emptied: the merge is the neighbour alone.
        assert(mv.keys =~= sv.keys);
        assert(mv.ptrs =~= sv.ptrs);
        assert(mv.vals =~= sv.vals);
        assert(btype_of(sib) == BNODE_LEAF);
        assert(shape_ok(pF, m, v.keys[j], Some(h), f1));
        lemma_widen(pF, m, v.keys[j], Some(h), b, f1);
        assert(forall|q: u64| !below(pF, m, f1, q));
        assert forall|x: nat| #[trigger] level_ok(p0, node, x) implies level_ok(pF, m, (x - 1) as nat) by {
            assert(level_ok(p0, sib, (x - 1) as nat));
        }
        lemma_lex_flip(key, h);
        lemma_search_high(pF, m, v.keys[j], h, f1, key);
        assert forall|k: Seq<u8>| in_range(k, v.keys[j], b) && k != key implies #[trigger] search_from(pF, m, k, f1)
            == search_from(p0, node, k, fuel) by {
            if lex_order(k, h) < 0 {
                assert(search_from(pF, m, k, f1) == search_from(pF, sib, k, f1));
                lemma_search_route(p0, node, v.keys[0], hi, fuel, k, j);
            } else {
                lemma_lex_flip(k, h);
                lemma_search_high(pF, m, v.keys[j], h, f1, k);
                lemma_search_route(p0, node, v.keys[0], hi, fuel, k, i);
            }
        }
    }
    assert(!p0.dom().contains(qm) || in_cut(p0, node, fuel, j, 2, qm)) by {
        if p0.dom().contains(qm) {
            if qm == kp {
                assert(in_kid(p0, node, fuel, i, qm));
            } else if qm == sp {
                assert(in_kid(p0, node, fuel, j, qm));
            } else {
                assert(!p1.dom().contains(qm));
                assert(below(p0, kn, f1, qm));
                assert(in_kid(p0, node, fuel, i, qm));
            }
        }
    }
    assert forall|q: u64|
        #![trigger pF.dom().contains(q)]
        #![trigger p0.dom().contains(q)]
        p0.dom().contains(q) && !in_cut(p0, node, fuel, j, 2, q) implies pF.dom().contains(q) && pF[q] == p0[q] by {
        assert(q != kp && q != sp);
        if below(p0, kn, f1, q) {
            assert(in_kid(p0, node, fuel, i, q));
        }
        assert(p1.dom().contains(q) && p1[q] == p0[q]);
    }
    assert(node_view(w).keys =~= v.keys.subrange(0, j).push(mv.keys[0]) + v.keys.subrange(j + 2, n));
    assert(node_view(w).ptrs =~= v.ptrs.subrange(0, j).push(qm) + v.ptrs.subrange(j + 2, n));
    assert(node_view(w).vals =~= v.vals.subrange(0, j).push(Seq::<u8>::empty()) + v.vals.subrange(j + 2, n));
    assert(in_range(key, v.keys[j], b)) by {
        assert(lex_order(v.keys[j], v.keys[i]) < 0);
        lemma_lex_le_trans(v.keys[j], v.keys[i], key);
    }
    assert(shape_ok(pF, m, mv.keys[0], b, f1));
    assert(nkeys_of(m) >= 1);
    assert(lex_order(v.keys[j], mv.keys[0]) <= 0);
}


/// Merging the child of `key` with its right neighbour gives a spliced
/// node.
#[verifier::spinoff_prover]
#[verifier::rlimit(100)]
pub proof fn lemma_merge_right(
    p0: Map<u64, Seq<u8>>,
    p1: Map<u64, Seq<u8>>,
    pF: Map<u64, Seq<u8>>,
    node: Seq<u8>,
    u: Seq<u8>,
    m: Seq<u8>,
    qm: u64,
    w: Seq<u8>,
    key: Seq<u8>,
    hi: Option<Seq<u8>>,
    fuel: nat,
)
    requires
        merge_setup(p0, p1, pF, node, u, m, qm, w, key, hi, fuel, lookup_le(node_view(node).keys, key) + 1),
    ensures
        spliced(p0, pF, node, w, m, qm, lookup_le(node_view(node).keys, key), 2, key, hi, fuel),
{
    let v = node_view(node);
    let n = nkeys_of(node);
    let i = lookup_le(v.keys, key);
    let j = i + 1;
    let kp = v.ptrs[i];
    let kn = p0[kp];
    let sp = v.ptrs[j];
    let sib = p0[sp];
    let f1 = (fuel - 1) as nat;
    let h = v.keys[j];
    let bb = bound_after(v.keys, j, hi);
    lemma_neighbour_kept(p0, p1, pF, node, u, m, qm, w, key, hi, fuel, j);
    assert(v.keys.len() == n && v.ptrs.len() == n && v.vals.len() == n);
    assert(bound_after(v.keys, i, hi) == Some(h));
    assert(tree_ok(p0, kn, v.keys[i], Some(h), f1));
    let mv = node_view(m);
    let sv = node_view(sib);
    assert(sv.keys.len() == nkeys_of(sib));
    assert(sv.keys[0] == h);
    assert(lex_order(v.keys[i], h) < 0);
    lemma_lex_eq(h, h);
    if nkeys_of(u) >= 1 {
        let u0 = node_view(u).keys[0];
        lemma_child_moved(p0, p1, pF, node, u, key, hi, fuel, sp);
        lemma_merged_bounded(m, u, sib);
        assert(mv.keys[0] == u0);
        assert forall|q: u64| !(#[trigger] below(pF, u, f1, q) && below(pF, sib, f1, q)) by {
            if below(pF, sib, f1, q) && below(pF, u, f1, q) {
                assert(below(p0, sib, f1, q));
            }
        }
        lemma_merged(pF, m, u, sib, u0, h, bb, f1);
        assert(!below(pF, m, f1, qm)) by {
            if below(pF, m, f1, qm) {
                if below(pF, sib, f1, qm) {
                    assert(below(p0, sib, f1, qm));
                }
            }
        }
        assert forall|q: u64| #[trigger] below(pF, m, f1, q) implies in_cut(p0, node, fuel, i, 2, q) || !p0.dom().contains(q) by {
            if below(pF, sib, f1, q) {
                assert(below(p0, sib, f1, q));
            }
        }
        assert forall|x: nat| #[trigger] level_ok(p0, node, x) implies level_ok(pF, m, (x - 1) as nat) by {
            assert(level_ok(p0, sib, (x - 1) as nat));
            assert(level_ok(pF, sib, (x - 1) as nat));
            assert(level_ok(pF, u, (x - 1) as nat));
        }
        assert(search_from(pF, m, key, f1) == search_from(pF, u, key, f1));
        assert forall|k: Seq<u8>| in_range(k, v.keys[i], bb) && k != key implies #[trigger] search_from(pF, m, k, f1)
            == search_from(p0, node, k, fuel) by {
            if lex_order(k, h) < 0 {
                assert(search_from(pF, m, k, f1) == search_from(pF, u, k, f1));
            } else {
                lemma_lex_flip(k, h);
                assert(search_from(pF, m, k, f1) == search_from(pF, sib, k, f1));
                lemma_search_route(p0, node, v.keys[0], hi, fuel, k, j);
            }
        }
        assert(shape_ok(pF, m, mv.keys[0], bb, f1));
    } else {
        // The child emptied: the merge is the neighbour alone, and the
        // child held `key` alone.
        assert(mv.keys =~= sv.keys);
        assert(mv.ptrs =~= sv.ptrs);
        assert(mv.vals =~= sv.vals);
        assert(btype_of(kn) == BNODE_LEAF);
        assert(btype_of(sib) == BNODE_LEAF);
        assert(shape_ok(pF, m, h, bb, f1));
        assert(forall|q: u64| !below(pF, m, f1, q));
        assert forall|x: nat| #[trigger] level_ok(p0, node, x) implies level_ok(pF, m, (x - 1) as nat) by {
            assert(level_ok(p0, sib, (x - 1) as nat));
        }
        assert(v.keys[i] == key) by {
            let kv = node_view(kn);
            assert(kv.keys.len() == nkeys_of(kn));
            assert(kv.keys[0] == v.keys[i]);
            lemma_lex_eq(v.keys[i], v.keys[i]);
            crate::btree::valid::lemma_leaf_search(p0, kn, v.keys[i], Some(h), f1, v.keys[i]);
            assert(in_range(v.keys[i], v.keys[i], Some(h)));
        }
        lemma_search_low(pF, m, h, bb, f1, key);
        assert forall|k: Seq<u8>| in_range(k, v.keys[i], bb) && k != key implies #[trigger] search_from(pF, m, k, f1)
            == search_from(p0, node, k, fuel) by {
            if lex_order(k, h) < 0 {
                lemma_search_low(pF, m, h, bb, f1, k);
                lemma_search_route(p0, node, v.keys[0], hi, fuel, k, i);
            } else {
                lemma_lex_flip(k, h);
                assert(search_from(pF, m, k, f1) == search_from(pF, sib, k, f1));
                lemma_search_route(p0, node, v.keys[0], hi, fuel, k, j);
            }
        }
    }
    assert(!p0.dom().contains(qm) || in_cut(p0, node, fuel, i, 2, qm)) by {
        if p0.dom().contains(qm) {
            if qm == kp {
                assert(in_kid(p0, node, fuel, i, qm));
            } else if qm == sp {
                assert(in_kid(p0, node, fuel, j, qm));
            } else {
                assert(!p1.dom().contains(qm));
                assert(below(p0, kn, f1, qm));
                assert(in_kid(p0, node, fuel, i, qm));
            }
        }
    }
    assert forall|q: u64|
        #![trigger pF.dom().contains(q)]
        #![trigger p0.dom().contains(q)]
        p0.dom().contains(q) && !in_cut(p0, node, fuel, i, 2, q) implies pF.dom().contains(q) && pF[q] == p0[q] by {
        assert(q != kp && q != sp);
        if below(p0, kn, f1, q) {
            assert(in_kid(p0, node, fuel, i, q));
        }
        assert(p1.dom().contains(q) && p1[q] == p0[q]);
    }
    assert(node_view(w).keys =~= v.keys.subrange(0, i).push(mv.keys[0]) + v.keys.subrange(i + 2, n));
    assert(node_view(w).ptrs =~= v.ptrs.subrange(0, i).push(qm) + v.ptrs.subrange(i + 2, n));
    assert(node_view(w).vals =~= v.vals.subrange(0, i).push(Seq::<u8>::empty()) + v.vals.subrange(i + 2, n));
    assert(nkeys_of(m) >= 1);
    assert(in_range(key, v.keys[i], bb)) by {
        assert(below_bound(h, bb)) by {
            if j + 1 < n {
                assert(lex_order(v.keys[j], v.keys[j + 1]) < 0);
            }
        }
        match bb {
            Some(x) => {
                lemma_lex_trans(key, h, x);
            },
            None => {},
        }
    }
}


/// Putting the child of `key`, now `u`, back in a new page `qu` gives a
/// spliced node.
#[verifier::rlimit(60)]
pub proof fn lemma_keep(
    p0: Map<u64, Seq<u8>>,
    p1: Map<u64, Seq<u8>>,
    pF: Map<u64, Seq<u8>>,
    node: Seq<u8>,
    u: Seq<u8>,
    qu: u64,
    w: Seq<u8>,
    key: Seq<u8>,
    hi: Option<Seq<u8>>,
    fuel: nat,
)
    requires
        tree_ok(p0, node, node_view(node).keys[0], hi, fuel),
        btype_of(node) == BNODE_NODE,
        in_range(key, node_view(node).keys[0], hi),
        shrunk_ok(
            p0,
            p1,
            p0[node_view(node).ptrs[lookup_le(node_view(node).keys, key)]],
            u,
            key,
            bound_after(node_view(node).keys, lookup_le(node_view(node).keys, key), hi),
            (fuel - 1) as nat,
        ),
        nkeys_of(u) >= 1,
        nbytes_of(u) <= PAGE_SIZE,
        forall|q: u64|
            #![trigger pF.dom().contains(q)]
            #![trigger p1.dom().contains(q)]
            p1.dom().contains(q) && q != node_view(node).ptrs[lookup_le(node_view(node).keys, key)]
                ==> pF.dom().contains(q) && pF[q] == p1[q],
        pF.dom().contains(qu),
        pF[qu] == u,
        !p1.dom().contains(qu) || qu == node_view(node).ptrs[lookup_le(node_view(node).keys, key)],
        node_ok(w),
        btype_of(w) == BNODE_NODE,
        nkeys_of(w) == nkeys_of(node),
        node_view(w).keys == node_view(node).keys.update(lookup_le(node_view(node).keys, key), node_view(u).keys[0]),
        node_view(w).ptrs == node_view(node).ptrs.update(lookup_le(node_view(node).keys, key), qu),
        node_view(w).vals == node_view(node).vals.update(lookup_le(node_view(node).keys, key), Seq::<u8>::empty()),
        nbytes_of(w) <= PAGE_SIZE,
    ensures
        spliced(p0, pF, node, w, u, qu, lookup_le(node_view(node).keys, key), 1, key, hi, fuel),
{
    let v = node_view(node);
    let n = nkeys_of(node);
    let i = lookup_le(v.keys, key);
    let kp = v.ptrs[i];
    let kn = p0[kp];
    let f1 = (fuel - 1) as nat;
    let b = bound_after(v.keys, i, hi);
    assert(v.keys.len() == n && v.ptrs.len() == n && v.vals.len() == n);
    lemma_lookup_bounds(v.keys, key);
    assert(p0.dom().contains(kp));
    lemma_child_moved(p0, p1, pF, node, u, key, hi, fuel, kp);
    assert(in_kid(p0, node, fuel, i, kp));
    assert(!below(pF, u, f1, qu)) by {
        if below(pF, u, f1, qu) {
            assert(p1.dom().contains(qu) && qu != kp);
        }
    }
    assert(!p0.dom().contains(qu) || in_cut(p0, node, fuel, i, 1, qu)) by {
        if p0.dom().contains(qu) && qu != kp {
            assert(!p1.dom().contains(qu));
            assert(tree_ok(p0, kn, v.keys[i], b, f1));
            assert(below(p0, kn, f1, qu));
        }
    }
    assert forall|q: u64| #[trigger] below(pF, u, f1, q) implies in_cut(p0, node, fuel, i, 1, q) || !p0.dom().contains(q) by {}
    assert(node_view(w).keys =~= v.keys.subrange(0, i).push(node_view(u).keys[0]) + v.keys.subrange(i + 1, n));
    assert(node_view(w).ptrs =~= v.ptrs.subrange(0, i).push(qu) + v.ptrs.subrange(i + 1, n));
    assert(node_view(w).vals =~= v.vals.subrange(0, i).push(Seq::<u8>::empty()) + v.vals.subrange(i + 1, n));
}


/// In a subtree with all leaves at one depth, the children of a node are
/// all leaves or all internal nodes.
pub proof fn lemma_kids_same_type(p0: Map<u64, Seq<u8>>, node: Seq<u8>, h: nat, a: int, b: int)
    requires
        level_ok(p0, node, h),
        btype_of(node) == BNODE_NODE,
        0 <= a < nkeys_of(node),
        0 <= b < nkeys_of(node),
    ensures
        btype_of(p0[node_view(node).ptrs[a]]) == btype_of(p0[node_view(node).ptrs[b]]),
        level_ok(p0, p0[node_view(node).ptrs[a]], (h - 1) as nat),
{
    assert(h >= 1);
    assert(level_ok(p0, p0[node_view(node).ptrs[a]], (h - 1) as nat));
    assert(level_ok(p0, p0[node_view(node).ptrs[b]], (h - 1) as nat));
}

} // verus!
