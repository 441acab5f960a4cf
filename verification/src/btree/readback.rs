//! What makes a lookup find what an insertion put in: the keys of each
//! node on the way down lie on the right side of the key looked for, and
//! splitting a node keeps that so.

use vstd::prelude::*;
use crate::btree::insert::{first_keys, lookup_le};
use crate::btree::split::{piece_keys, piece_ptrs, piece_vals};
use crate::btree::node::BNode;
use crate::btree::keys::lex_order;
use crate::btree::node::{BNODE_LEAF, BNODE_NODE, btype_of, nkeys_of, node_ok, node_view};
use crate::btree::tree::{child_ptr, insert_path_ok, path_ok, path_ptrs, search_from};

verus! {

/// `key` belongs at position `p` of `keys`: every key before sorts below
/// it, the key at `p` not above it, every key after above it.
pub open spec fn key_at(keys: Seq<Seq<u8>>, key: Seq<u8>, p: int) -> bool {
    &&& 0 <= p < keys.len()
    &&& forall|i: int| 0 <= i < p ==> lex_order(#[trigger] keys[i], key) < 0
    &&& lex_order(keys[p], key) <= 0
    &&& forall|i: int| p < i < keys.len() ==> lex_order(#[trigger] keys[i], key) > 0
}

/// The lookup loop, run on keys where `key` belongs at `p`, from `i` with
/// `found` so far.
proof fn lemma_lookup_from_at(keys: Seq<Seq<u8>>, key: Seq<u8>, p: int, i: int, found: int)
    requires
        key_at(keys, key, p),
        1 <= i <= p + 1,
        found == i - 1,
    ensures
        crate::btree::insert::lookup_from(keys, key, i, found) == p,
    decreases keys.len() - i,
{
    if i < keys.len() {
        if i < p {
            assert(lex_order(keys[i], key) < 0);
            lemma_lookup_from_at(keys, key, p, i + 1, i);
        } else if i == p {
            if lex_order(keys[i], key) < 0 {
                lemma_lookup_from_at(keys, key, p, i + 1, i);
            }
        } else {
            assert(lex_order(keys[i], key) > 0);
        }
    }
}

/// A lookup lands where the key belongs.
pub proof fn lemma_key_at_lookup(keys: Seq<Seq<u8>>, key: Seq<u8>, p: int)
    requires
        key_at(keys, key, p),
    ensures
        lookup_le(keys, key) == p,
{
    if p == 0 {
        if 1 < keys.len() {
            assert(lex_order(keys[1], key) > 0);
        }
    } else {
        lemma_lookup_from_at(keys, key, p, 1, 0);
    }
}

/// Each node on the descent for `key` from `d` has its keys on the right
/// sides of `key`: those before the landing position below it, the rest
/// above it.
pub open spec fn path_sorted(pages: Map<u64, Seq<u8>>, d: Seq<u8>, key: Seq<u8>, fuel: nat) -> bool
    decreases fuel,
{
    &&& key_at(node_view(d).keys, key, lookup_le(node_view(d).keys, key))
    &&& (btype_of(d) == BNODE_NODE && fuel > 0 ==> path_sorted(
        pages,
        pages[child_ptr(d, key)],
        key,
        (fuel - 1) as nat,
    ))
}

/// A descent depends only on the pages it visits: pages that keep those
/// keep it, and what it finds.
pub proof fn lemma_path_frame(
    pages: Map<u64, Seq<u8>>,
    pages2: Map<u64, Seq<u8>>,
    d: Seq<u8>,
    key: Seq<u8>,
    fuel: nat,
)
    requires
        path_ok(pages, d, key, fuel),
        forall|q: u64| pages.dom().contains(q) ==> #[trigger] pages2.dom().contains(q) && pages2[q]
            == pages[q],
    ensures
        path_ok(pages2, d, key, fuel),
        search_from(pages2, d, key, fuel) == search_from(pages, d, key, fuel),
        path_sorted(pages, d, key, fuel) ==> path_sorted(pages2, d, key, fuel),
    decreases fuel,
{
    if btype_of(d) == BNODE_NODE && fuel > 0 {
        let p = child_ptr(d, key);
        assert(pages2.dom().contains(p));
        lemma_path_frame(pages, pages2, pages[p], key, (fuel - 1) as nat);
    }
}

/// Two descents that both reach a leaf find the same.
pub proof fn lemma_path_fuel(pages: Map<u64, Seq<u8>>, d: Seq<u8>, key: Seq<u8>, f1: nat, f2: nat)
    requires
        path_ok(pages, d, key, f1),
        path_ok(pages, d, key, f2),
    ensures
        search_from(pages, d, key, f1) == search_from(pages, d, key, f2),
    decreases f1,
{
    if btype_of(d) == BNODE_NODE {
        lemma_path_fuel(pages, pages[child_ptr(d, key)], key, (f1 - 1) as nat, (f2 - 1) as nat);
    }
}

// ------------------------------------------------------------------------
// Pieces of a split node
// ------------------------------------------------------------------------

/// Where piece `j` starts among the joined pieces.
pub open spec fn offset<A>(ps: Seq<Seq<A>>, j: int) -> int
    decreases j,
{
    if j <= 0 || ps.len() == 0 {
        0
    } else {
        ps[0].len() + offset(ps.drop_first(), j - 1)
    }
}

/// Piece `j` sits at its offset in the joined pieces.
pub proof fn lemma_flatten_piece<A>(ps: Seq<Seq<A>>, j: int)
    requires
        0 <= j < ps.len(),
    ensures
        0 <= offset(ps, j),
        offset(ps, j) + ps[j].len() <= ps.flatten().len(),
        ps.flatten().subrange(offset(ps, j), offset(ps, j) + ps[j].len()) == ps[j],
    decreases j,
{
    let rest = ps.drop_first();
    assert(ps.flatten() == ps[0] + rest.flatten());
    if j == 0 {
        assert(ps.flatten().subrange(0, ps[0].len() as int) =~= ps[0]);
    } else {
        lemma_flatten_piece(rest, j - 1);
        let o = offset(rest, j - 1);
        assert(rest[j - 1] == ps[j]);
        assert(ps.flatten().subrange(ps[0].len() + o, ps[0].len() + o + ps[j].len()) =~= rest.flatten().subrange(
            o,
            o + ps[j].len(),
        ));
    }
}

/// Offsets of non-empty pieces grow with the piece, and every position of
/// the joined pieces lies in exactly one of them.
pub proof fn lemma_offset_mono<A>(ps: Seq<Seq<A>>, j: int, k: int)
    requires
        0 <= j <= k <= ps.len(),
        forall|t: int| 0 <= t < ps.len() ==> #[trigger] ps[t].len() >= 1,
    ensures
        offset(ps, j) + (k - j) <= offset(ps, k),
        j < k ==> offset(ps, j) + ps[j].len() <= offset(ps, k),
        offset(ps, ps.len() as int) == ps.flatten().len(),
    decreases ps.len(),
{
    if ps.len() > 0 {
        let rest = ps.drop_first();
        assert forall|t: int| 0 <= t < rest.len() implies #[trigger] rest[t].len() >= 1 by {
            assert(rest[t] == ps[t + 1]);
        }
        if j == 0 {
            lemma_offset_mono(rest, 0, if k > 0 { k - 1 } else { 0 });
        } else {
            lemma_offset_mono(rest, j - 1, k - 1);
        }
        lemma_offset_mono(rest, 0, rest.len() as int);
        assert(ps.flatten() == ps[0] + rest.flatten());
    }
}

/// The piece that holds position `p` of the joined pieces.
pub proof fn lemma_find_piece<A>(ps: Seq<Seq<A>>, p: int) -> (j: int)
    requires
        0 <= p < ps.flatten().len(),
        forall|t: int| 0 <= t < ps.len() ==> #[trigger] ps[t].len() >= 1,
    ensures
        0 <= j < ps.len(),
        offset(ps, j) <= p < offset(ps, j) + ps[j].len(),
    decreases ps.len(),
{
    let rest = ps.drop_first();
    assert(ps.len() > 0);
    assert(ps.flatten() == ps[0] + rest.flatten());
    if p < ps[0].len() {
        0
    } else {
        assert forall|t: int| 0 <= t < rest.len() implies #[trigger] rest[t].len() >= 1 by {
            assert(rest[t] == ps[t + 1]);
        }
        let j = lemma_find_piece(rest, p - ps[0].len());
        assert(rest[j] == ps[j + 1]);
        j + 1
    }
}

/// A piece holding entries `[s, e)` of `c`, where the key's position in
/// `c` lies, is where the descent continues just as from `c`.
pub proof fn lemma_piece_descent(
    pages: Map<u64, Seq<u8>>,
    c: Seq<u8>,
    d: Seq<u8>,
    key: Seq<u8>,
    s: int,
    e: int,
    f: nat,
)
    requires
        node_ok(d),
        nkeys_of(d) >= 1,
        btype_of(d) == btype_of(c),
        0 <= s,
        e <= node_view(c).keys.len(),
        node_view(d).keys == node_view(c).keys.subrange(s, e),
        node_view(d).ptrs == node_view(c).ptrs.subrange(s, e),
        node_view(d).vals == node_view(c).vals.subrange(s, e),
        key_at(node_view(c).keys, key, lookup_le(node_view(c).keys, key)),
        s <= lookup_le(node_view(c).keys, key) < e,
    ensures
        lookup_le(node_view(d).keys, key) == lookup_le(node_view(c).keys, key) - s,
        key_at(node_view(d).keys, key, lookup_le(node_view(d).keys, key)),
        btype_of(c) == BNODE_NODE ==> child_ptr(d, key) == child_ptr(c, key),
        search_from(pages, d, key, f) == search_from(pages, c, key, f),
        path_ok(pages, c, key, f) ==> path_ok(pages, d, key, f),
        path_sorted(pages, c, key, f) ==> path_sorted(pages, d, key, f),
{
    let kc = node_view(c).keys;
    let kd = node_view(d).keys;
    let pc = lookup_le(kc, key);
    let pd = pc - s;
    assert(key_at(kd, key, pd)) by {
        assert forall|i: int| 0 <= i < pd implies lex_order(#[trigger] kd[i], key) < 0 by {
            assert(kd[i] == kc[s + i]);
        }
        assert(kd[pd] == kc[pc]);
        assert forall|i: int| pd < i < kd.len() implies lex_order(#[trigger] kd[i], key) > 0 by {
            assert(kd[i] == kc[s + i]);
        }
    }
    lemma_key_at_lookup(kd, key, pd);
    assert(node_view(d).ptrs[pd] == node_view(c).ptrs[pc]);
    assert(node_view(d).vals[pd] == node_view(c).vals[pc]);
    assert(kd[pd] == kc[pc]);
}

/// The keys of a node with the entry at `i` replaced by pieces whose first
/// keys are `fk`: where the key belongs among them, it belongs among all.
pub proof fn lemma_replace_key_at(
    v: Seq<Seq<u8>>,
    fk: Seq<Seq<u8>>,
    key: Seq<u8>,
    i: int,
    j: int,
)
    requires
        key_at(v, key, i),
        0 <= j < fk.len(),
        forall|t: int| 0 <= t < j ==> lex_order(#[trigger] fk[t], key) < 0,
        lex_order(fk[j], key) <= 0,
        forall|t: int| j < t < fk.len() ==> lex_order(#[trigger] fk[t], key) > 0,
    ensures
        key_at(v.subrange(0, i) + fk + v.subrange(i + 1, v.len() as int), key, i + j),
{
    let w = v.subrange(0, i) + fk + v.subrange(i + 1, v.len() as int);
    assert forall|t: int| 0 <= t < i + j implies lex_order(#[trigger] w[t], key) < 0 by {
        if t < i {
            assert(w[t] == v[t]);
        } else {
            assert(w[t] == fk[t - i]);
        }
    }
    assert(w[i + j] == fk[j]);
    assert forall|t: int| i + j < t < w.len() implies lex_order(#[trigger] w[t], key) > 0 by {
        if t < i + fk.len() {
            assert(w[t] == fk[t - i]);
        } else {
            assert(w[t] == v[t - fk.len() + 1]);
        }
    }
}

/// Offsets depend only on the lengths of the pieces.
pub proof fn lemma_offset_same<A, B>(a: Seq<Seq<A>>, b: Seq<Seq<B>>, j: int)
    requires
        a.len() == b.len(),
        forall|t: int| 0 <= t < a.len() ==> (#[trigger] a[t]).len() == b[t].len(),
    ensures
        offset(a, j) == offset(b, j),
    decreases j,
{
    if j > 0 && a.len() > 0 {
        assert forall|t: int| 0 <= t < a.drop_first().len() implies (#[trigger] a.drop_first()[t]).len()
            == b.drop_first()[t].len() by {
            assert(a.drop_first()[t] == a[t + 1]);
            assert(b.drop_first()[t] == b[t + 1]);
        }
        lemma_offset_same(a.drop_first(), b.drop_first(), j - 1);
    }
}

/// Among the pieces a node was split into, the one holding the key's
/// position: the pieces before it start below the key, it starts not above
/// it, the ones after start above it; and it holds a run of the node's
/// entries around that position.
pub proof fn lemma_select_piece(ks: Seq<BNode>, c: Seq<u8>, key: Seq<u8>) -> (j: int)
    requires
        node_ok(c),
        key_at(node_view(c).keys, key, lookup_le(node_view(c).keys, key)),
        piece_keys(ks).flatten() == node_view(c).keys,
        piece_ptrs(ks).flatten() == node_view(c).ptrs,
        piece_vals(ks).flatten() == node_view(c).vals,
        forall|k: int|
            0 <= k < ks.len() ==> node_ok(#[trigger] ks[k]@) && nkeys_of(ks[k]@) >= 1,
    ensures
        0 <= j < ks.len(),
        forall|t: int| 0 <= t < j ==> lex_order(#[trigger] first_keys(ks)[t], key) < 0,
        lex_order(first_keys(ks)[j], key) <= 0,
        forall|t: int| j < t < ks.len() ==> lex_order(#[trigger] first_keys(ks)[t], key) > 0,
        0 <= offset(piece_keys(ks), j) <= lookup_le(node_view(c).keys, key) < offset(
            piece_keys(ks),
            j,
        ) + nkeys_of(ks[j]@),
        offset(piece_keys(ks), j) + nkeys_of(ks[j]@) <= node_view(c).keys.len(),
        node_view(ks[j]@).keys == node_view(c).keys.subrange(
            offset(piece_keys(ks), j),
            offset(piece_keys(ks), j) + nkeys_of(ks[j]@),
        ),
        node_view(ks[j]@).ptrs == node_view(c).ptrs.subrange(
            offset(piece_keys(ks), j),
            offset(piece_keys(ks), j) + nkeys_of(ks[j]@),
        ),
        node_view(ks[j]@).vals == node_view(c).vals.subrange(
            offset(piece_keys(ks), j),
            offset(piece_keys(ks), j) + nkeys_of(ks[j]@),
        ),
{
    let pk = piece_keys(ks);
    let pp = piece_ptrs(ks);
    let pv = piece_vals(ks);
    let kc = node_view(c).keys;
    let pc = lookup_le(kc, key);
    assert forall|t: int| 0 <= t < pk.len() implies #[trigger] pk[t].len() >= 1 by {
        assert(pk[t] == node_view(ks[t]@).keys);
    }
    let j = lemma_find_piece(pk, pc);
    assert forall|t: int| 0 <= t < pk.len() implies (#[trigger] pk[t]).len() == pp[t].len() by {
        assert(pk[t] == node_view(ks[t]@).keys);
        assert(pp[t] == node_view(ks[t]@).ptrs);
    }
    assert forall|t: int| 0 <= t < pk.len() implies (#[trigger] pk[t]).len() == pv[t].len() by {
        assert(pk[t] == node_view(ks[t]@).keys);
        assert(pv[t] == node_view(ks[t]@).vals);
    }
    lemma_offset_same(pk, pp, j);
    lemma_offset_same(pk, pv, j);
    lemma_flatten_piece(pk, j);
    lemma_flatten_piece(pp, j);
    lemma_flatten_piece(pv, j);
    assert(pk[j] == node_view(ks[j]@).keys);
    assert(pp[j] == node_view(ks[j]@).ptrs);
    assert(pv[j] == node_view(ks[j]@).vals);
    let fk = first_keys(ks);
    assert forall|t: int| 0 <= t < ks.len() implies #[trigger] fk[t] == kc[offset(pk, t)] by {
        lemma_flatten_piece(pk, t);
        assert(pk[t] == node_view(ks[t]@).keys);
        assert(pk.flatten().subrange(offset(pk, t), offset(pk, t) + pk[t].len())[0] == pk[t][0]);
    }
    assert forall|t: int| 0 <= t < j implies lex_order(#[trigger] fk[t], key) < 0 by {
        lemma_offset_mono(pk, t, j);
        lemma_flatten_piece(pk, t);
        assert(pk[t].len() >= 1);
        assert(0 <= offset(pk, t) < pc);
        assert(fk[t] == kc[offset(pk, t)]);
    }
    assert(fk[j] == kc[offset(pk, j)]);
    assert forall|t: int| j < t < ks.len() implies lex_order(#[trigger] fk[t], key) > 0 by {
        lemma_offset_mono(pk, j, t);
        lemma_offset_mono(pk, t, ks.len() as int);
        lemma_flatten_piece(pk, t);
        assert(fk[t] == kc[offset(pk, t)]);
    }
    j
}

/// The order of the keys along a descent depends only on the pages it
/// visits.
pub proof fn lemma_sorted_path_frame(
    pages: Map<u64, Seq<u8>>,
    pages2: Map<u64, Seq<u8>>,
    d: Seq<u8>,
    key: Seq<u8>,
    fuel: nat,
)
    requires
        insert_path_ok(pages, d, key, fuel),
        path_sorted(pages, d, key, fuel),
        forall|q: u64| #[trigger]
            path_ptrs(pages, d, key, fuel).contains(q) ==> pages2.dom().contains(q) && pages2[q]
                == pages[q],
    ensures
        path_sorted(pages2, d, key, fuel),
    decreases fuel,
{
    if btype_of(d) == BNODE_NODE && fuel > 0 {
        let p = child_ptr(d, key);
        assert(path_ptrs(pages, d, key, fuel).contains(p));
        let below = path_ptrs(pages, pages[p], key, (fuel - 1) as nat);
        assert forall|q: u64| #[trigger] below.contains(q) implies pages2.dom().contains(q)
            && pages2[q] == pages[q] by {
            assert(path_ptrs(pages, d, key, fuel).contains(q));
        }
        lemma_sorted_path_frame(pages, pages2, pages[p], key, (fuel - 1) as nat);
    }
}

/// The descent for `key` from `d` reaches a leaf holding `val` with it.
pub open spec fn finds(pages: Map<u64, Seq<u8>>, d: Seq<u8>, key: Seq<u8>, val: Seq<u8>) -> bool {
    &&& key_at(node_view(d).keys, key, lookup_le(node_view(d).keys, key))
    &&& exists|f: nat|
        path_ok(pages, d, key, f) && path_sorted(pages, d, key, f) && search_from(pages, d, key, f)
            == Some(val)
}

/// Sortedness along a descent does not depend on the fuel it is given,
/// once the descent reaches a leaf.
pub proof fn lemma_sorted_fuel(pages: Map<u64, Seq<u8>>, d: Seq<u8>, key: Seq<u8>, f1: nat, f2: nat)
    requires
        path_ok(pages, d, key, f1),
        path_ok(pages, d, key, f2),
        path_sorted(pages, d, key, f1),
    ensures
        path_sorted(pages, d, key, f2),
    decreases f1,
{
    if btype_of(d) == BNODE_NODE {
        lemma_sorted_fuel(pages, pages[child_ptr(d, key)], key, (f1 - 1) as nat, (f2 - 1) as nat);
    }
}

} // verus!
