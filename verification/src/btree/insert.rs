//! Looking up a key in a node, building leaves with one entry more or
//! changed, and inserting into a tree.

use vstd::prelude::*;
use vstd::bytes::{spec_u16_to_le_bytes, spec_u64_to_le_bytes, lemma_auto_spec_u16_to_from_le_bytes};
use crate::btree::keys::{compare_keys, keys_equal, lemma_lex_eq, lex_order};
use crate::btree::readback::{
    finds, key_at, lemma_key_at_lookup, lemma_path_frame, lemma_piece_descent, lemma_replace_key_at,
    lemma_select_piece, lemma_sorted_path_frame, offset, path_sorted,
};
use crate::btree::valid::{
    keeps_others, lemma_leaf_put_others, lemma_leaf_search, lemma_replace_others, put_back, put_index,
    below, bound_after, grown_ok, in_range, lemma_below_held, lemma_leaf_put_ok, lemma_lex_flip,
    lemma_replace_ok, lemma_shape_frame, lemma_sorted_lookup, replaced, shape_ok, tree_ok, level_ok,
    lemma_level_fuel, lemma_level_frame, lemma_replace_level,
};
use crate::btree::split::{piece_keys, piece_ptrs, piece_vals};
use crate::btree::split::{lemma_bounded_fits, max_kv_size, node_bounded, node_split3};
use crate::btree::tree::{
    BTree, PageStore, child_ptr, insert_path_ok, lemma_insert_path_frame, lemma_path_ptrs_held, path_ok, path_ptrs, search_from,
};
use crate::btree::node::{
    BNode, BNODE_LEAF, BNODE_NODE, BTREE_MAX_KEY_SIZE, BTREE_MAX_VAL_SIZE, NodeView, PAGE_SIZE, lemma_view_from_entries, nbytes_of, node_view, btype_of, entry_eq, entry_same, key_of, klen_of, kv_ok, kv_record, kvpos_of,
    lemma_kvpos_mono, lemma_write_keeps_entry, lemma_write_keeps_off, lemma_written_outside,
    nkeys_of, node_ok, off_of, off_pos, prefix_ok, ptr_of, val_of, vlen_of, written,
};

verus! {

/// Entry fields that decide the layout of entry `j` agree in `a` and `b`.
pub open spec fn layout_same(a: Seq<u8>, b: Seq<u8>, j: int) -> bool {
    &&& off_of(a, j) == off_of(b, j)
    &&& kvpos_of(a, j) == kvpos_of(b, j)
    &&& klen_of(a, j) == klen_of(b, j)
    &&& vlen_of(a, j) == vlen_of(b, j)
    &&& entry_same(a, b, j)
}

/// A consistent prefix stays consistent when its entries' layout and the
/// offset of the entry after it are unchanged.
proof fn lemma_prefix_kept(a: Seq<u8>, b: Seq<u8>, k: int)
    requires
        prefix_ok(a, k),
        a.len() == b.len(),
        nkeys_of(a) == nkeys_of(b),
        forall|j: int| 0 <= j < k ==> #[trigger] layout_same(a, b, j),
        off_of(a, k) == off_of(b, k),
    ensures
        prefix_ok(b, k),
{
    assert forall|j: int| 0 <= j < k implies #[trigger] kv_ok(b, j) by {
        assert(kv_ok(a, j));
        assert(layout_same(a, b, j));
        if j + 1 < k {
            assert(layout_same(a, b, j + 1));
        }
    }
}

/// Writing `w` at `p`, beyond the entries `[0, k)` and outside the header,
/// the pointer slots `[0, k)` and the offset slots `[1, k]`, keeps them.
proof fn lemma_write_keeps_prefix(d: Seq<u8>, p: int, w: Seq<u8>, k: int)
    requires
        prefix_ok(d, k),
        k < nkeys_of(d),
        p + w.len() <= d.len(),
        (4 + 8 * k <= p && p + w.len() <= 4 + 8 * nkeys_of(d)) || (off_pos(nkeys_of(d), k + 1)
            <= p && p + w.len() <= off_pos(nkeys_of(d), k + 1) + 2) || kvpos_of(d, k) <= p,
    ensures
        forall|j: int| 0 <= j < k ==> #[trigger] layout_same(d, written(d, p, w), j),
        off_of(written(d, p, w), k) == off_of(d, k),
        kvpos_of(written(d, p, w), k) == kvpos_of(d, k),
        nkeys_of(written(d, p, w)) == nkeys_of(d),
        btype_of(written(d, p, w)) == btype_of(d),
        written(d, p, w).len() == d.len(),
        prefix_ok(written(d, p, w), k),
{
    let n = nkeys_of(d);
    assert forall|j: int| 0 <= j < k implies #[trigger] layout_same(d, written(d, p, w), j) by {
        lemma_kvpos_mono(d, k, j, k);
        lemma_write_keeps_entry(d, p, w, j);
    }
    lemma_write_keeps_off(d, p, w, k);
    lemma_prefix_kept(d, written(d, p, w), k);
}

/// Writes entry `idx` (pointer, key, value) right after the entries before it.
pub(crate) fn node_append_kv(new: &mut BNode, idx: u16, ptr: u64, key: &[u8], val: &[u8])
    requires
        prefix_ok(old(new)@, idx as int),
        idx < nkeys_of(old(new)@),
        kvpos_of(old(new)@, idx as int) + 4 + key@.len() + val@.len() <= old(new)@.len(),
        old(new)@.len() <= u16::MAX,
    ensures
        final(new)@.len() == old(new)@.len(),
        nkeys_of(final(new)@) == nkeys_of(old(new)@),
        btype_of(final(new)@) == btype_of(old(new)@),
        prefix_ok(final(new)@, idx + 1),
        forall|j: int| 0 <= j < idx ==> #[trigger] layout_same(old(new)@, final(new)@, j),
        ptr_of(final(new)@, idx as int) == ptr,
        key_of(final(new)@, idx as int) == key@,
        val_of(final(new)@, idx as int) == val@,
        kvpos_of(final(new)@, idx + 1) == kvpos_of(old(new)@, idx as int) + 4 + key@.len()
            + val@.len(),
{
    let ghost d0 = new@;
    let ghost n = nkeys_of(d0);
    proof {
        lemma_auto_spec_u16_to_from_le_bytes();
        vstd::bytes::lemma_auto_spec_u64_to_from_le_bytes();
    }
    new.set_ptr(idx, ptr);
    let ghost d1 = new@;
    proof {
        lemma_write_keeps_prefix(d0, 4 + 8 * idx, spec_u64_to_le_bytes(ptr), idx as int);
    }
    let pos = new.kv_pos(idx);
    new.write_kv(pos, key, val);
    let ghost d2 = new@;
    proof {
        lemma_write_keeps_prefix(d1, pos as int, kv_record(key@, val@), idx as int);
        lemma_written_outside(d1, pos as int, kv_record(key@, val@), 4 + 8 * idx, 4 + 8 * idx + 8);
        assert(ptr_of(d2, idx as int) == ptr);
        assert(kvpos_of(d2, idx as int) == pos);
        assert(key_of(d2, idx as int) == key@);
        assert(val_of(d2, idx as int) == val@);
    }
    let off = new.get_offset(idx) + 4 + key.len() as u16 + val.len() as u16;
    new.set_offset(idx + 1, off);
    proof {
        let d3 = new@;
        let w = spec_u16_to_le_bytes(off);
        let p = off_pos(n, idx + 1);
        lemma_write_keeps_prefix(d2, p, w, idx as int);
        lemma_write_keeps_entry(d2, p, w, idx as int);
        assert forall|j: int| 0 <= j < idx implies #[trigger] layout_same(d0, d3, j) by {
            assert(layout_same(d0, d1, j));
            assert(layout_same(d1, d2, j));
            assert(layout_same(d2, d3, j));
        }
        assert(kv_ok(d3, idx as int));
    }
}

/// Copies entries `[src_old, src_old + n)` of `old` to positions
/// `[dst_new, dst_new + n)` of `new`, right after the entries before them.
pub(crate) fn node_append_range(new: &mut BNode, src: &BNode, dst_new: u16, src_old: u16, n: u16)
    requires
        node_ok(src@),
        prefix_ok(old(new)@, dst_new as int),
        src_old + n <= nkeys_of(src@),
        dst_new + n <= nkeys_of(old(new)@),
        kvpos_of(old(new)@, dst_new as int) + kvpos_of(src@, src_old + n) - kvpos_of(
            src@,
            src_old as int,
        ) <= old(new)@.len(),
        old(new)@.len() <= u16::MAX,
    ensures
        final(new)@.len() == old(new)@.len(),
        nkeys_of(final(new)@) == nkeys_of(old(new)@),
        btype_of(final(new)@) == btype_of(old(new)@),
        prefix_ok(final(new)@, dst_new + n),
        forall|j: int| 0 <= j < dst_new ==> #[trigger] layout_same(old(new)@, final(new)@, j),
        forall|i: int|
            0 <= i < n ==> #[trigger] entry_eq(final(new)@, dst_new + i, src@, src_old + i),
        kvpos_of(final(new)@, dst_new + n) == kvpos_of(old(new)@, dst_new as int) + kvpos_of(
            src@,
            src_old + n,
        ) - kvpos_of(src@, src_old as int),
{
    let ghost d0 = new@;
    let mut i: u16 = 0;
    while i < n
        invariant
            node_ok(src@),
            src_old + n <= nkeys_of(src@),
            dst_new + n <= nkeys_of(d0),
            kvpos_of(d0, dst_new as int) + kvpos_of(src@, src_old + n) - kvpos_of(
                src@,
                src_old as int,
            ) <= d0.len(),
            d0.len() <= u16::MAX,
            i <= n,
            new@.len() == d0.len(),
            nkeys_of(new@) == nkeys_of(d0),
            btype_of(new@) == btype_of(d0),
            prefix_ok(new@, dst_new + i),
            forall|j: int| 0 <= j < dst_new ==> #[trigger] layout_same(d0, new@, j),
            forall|k: int| 0 <= k < i ==> #[trigger] entry_eq(new@, dst_new + k, src@, src_old + k),
            kvpos_of(new@, dst_new + i) == kvpos_of(d0, dst_new as int) + kvpos_of(
                src@,
                src_old + i,
            ) - kvpos_of(src@, src_old as int),
        decreases n - i,
    {
        proof {
            lemma_kvpos_mono(src@, nkeys_of(src@), src_old as int, src_old + i);
            lemma_kvpos_mono(src@, nkeys_of(src@), src_old + i, src_old + i + 1);
            lemma_kvpos_mono(src@, nkeys_of(src@), src_old + i + 1, src_old + n);
            lemma_kvpos_mono(src@, nkeys_of(src@), src_old + n, nkeys_of(src@));
            assert(kv_ok(src@, src_old + i));
        }
        let ghost before = new@;
        let p = src.get_ptr(src_old + i);
        let k = src.get_key(src_old + i);
        let v = src.get_val(src_old + i);
        assert(k@.len() == klen_of(src@, src_old + i));
        assert(v@.len() == vlen_of(src@, src_old + i));
        node_append_kv(new, dst_new + i, p, k, v);
        proof {
            assert forall|j: int| 0 <= j < dst_new implies #[trigger] layout_same(d0, new@, j) by {
                assert(layout_same(d0, before, j));
                assert(layout_same(before, new@, dst_new * 0 + j));
            }
            assert forall|kk: int| 0 <= kk < i + 1 implies #[trigger] entry_eq(
                new@,
                dst_new + kk,
                src@,
                src_old + kk,
            ) by {
                if kk < i {
                    assert(entry_eq(before, dst_new + kk, src@, src_old + kk));
                    assert(layout_same(before, new@, dst_new + kk));
                }
            }
        }
        i += 1;
    }
}

/// `r` is where a lookup of `key` among `keys` lands: the last position in
/// `[1, ..]` reached before a key not below `key`, whose key is not above
/// `key`, or 0.
pub open spec fn is_lookup_le(keys: Seq<Seq<u8>>, key: Seq<u8>, r: int) -> bool {
    &&& 0 <= r
    &&& (keys.len() == 0 ==> r == 0)
    &&& (keys.len() > 0 ==> r < keys.len())
    &&& forall|j: int| 1 <= j < r ==> lex_order(#[trigger] keys[j], key) < 0
    &&& (1 <= r ==> lex_order(keys[r], key) <= 0)
    &&& ((r == 0 || lex_order(keys[r], key) < 0) && r + 1 < keys.len() ==> lex_order(
        keys[r + 1],
        key,
    ) > 0)
}

/// The lookup loop from position `i` on, having found `found` so far.
pub open spec fn lookup_from(keys: Seq<Seq<u8>>, key: Seq<u8>, i: int, found: int) -> int
    decreases keys.len() - i,
{
    if i < 1 || i >= keys.len() {
        found
    } else {
        let c = lex_order(keys[i], key);
        let f = if c <= 0 {
            i
        } else {
            found
        };
        if c >= 0 {
            f
        } else {
            lookup_from(keys, key, i + 1, f)
        }
    }
}

proof fn lemma_lookup_from_bounds(keys: Seq<Seq<u8>>, key: Seq<u8>, i: int, found: int)
    requires
        1 <= i <= keys.len(),
        0 <= found < i,
    ensures
        0 <= lookup_from(keys, key, i, found) < keys.len(),
    decreases keys.len() - i,
{
    if i < keys.len() {
        let c = lex_order(keys[i], key);
        let f = if c <= 0 {
            i
        } else {
            found
        };
        if c < 0 {
            lemma_lookup_from_bounds(keys, key, i + 1, f);
        }
    }
}

/// A lookup among at least one key lands on one of them.
pub proof fn lemma_lookup_bounds(keys: Seq<Seq<u8>>, key: Seq<u8>)
    requires
        keys.len() >= 1,
    ensures
        0 <= lookup_le(keys, key) < keys.len(),
{
    lemma_lookup_from_bounds(keys, key, 1, 0);
}

/// Where a lookup of `key` among `keys` lands.
pub open spec fn lookup_le(keys: Seq<Seq<u8>>, key: Seq<u8>) -> int {
    lookup_from(keys, key, 1, 0)
}

/// Finds the position of the last key that is at most `key`, scanning from
/// the second entry (the first entry's key is the node's lower bound).
pub fn node_lookup_le(node: &BNode, key: &[u8]) -> (res: u16)
    requires
        node_ok(node@),
    ensures
        is_lookup_le(node_view(node@).keys, key@, res as int),
        res as int == lookup_le(node_view(node@).keys, key@),
{
    let ghost keys = node_view(node@).keys;
    let nkeys = node.nkeys();
    let mut found: u16 = 0;
    let mut done = false;
    let mut i: u16 = 1;
    while i < nkeys && !done
        invariant
            node_ok(node@),
            keys == node_view(node@).keys,
            nkeys as int == keys.len(),
            1 <= i,
            i <= nkeys || i == 1,
            found < i,
            !done ==> found + 1 == i,
            !done ==> forall|j: int| 1 <= j < i ==> lex_order(#[trigger] keys[j], key@) < 0,
            done ==> is_lookup_le(keys, key@, found as int),
            !done ==> lookup_le(keys, key@) == lookup_from(keys, key@, i as int, found as int),
            done ==> found as int == lookup_le(keys, key@),
        decreases nkeys - i,
    {
        let c = compare_keys(node.get_key(i), key);
        assert(keys[i as int] == key_of(node@, i as int));
        if c <= 0 {
            found = i;
        }
        if c >= 0 {
            done = true;
        }
        i += 1;
    }
    proof {
        if !done && found >= 1 {
            assert(lex_order(keys[found as int], key@) < 0);
        }
    }
    found
}

/// `new` becomes the leaf `src` with the entry (`key`, `val`) inserted at
/// position `idx`.
#[verifier::spinoff_prover]
pub fn leaf_insert(new: &mut BNode, src: &BNode, idx: u16, key: &[u8], val: &[u8])
    requires
        node_ok(src@),
        idx <= nkeys_of(src@),
        4 <= old(new)@.len() <= u16::MAX,
        nbytes_of(src@) + 14 + key@.len() + val@.len() <= old(new)@.len(),
    ensures
        final(new)@.len() == old(new)@.len(),
        node_ok(final(new)@),
        node_view(final(new)@) == (NodeView {
            btype: BNODE_LEAF as int,
            ptrs: node_view(src@).ptrs.insert(idx as int, 0u64),
            keys: node_view(src@).keys.insert(idx as int, key@),
            vals: node_view(src@).vals.insert(idx as int, val@),
        }),
        nbytes_of(final(new)@) == nbytes_of(src@) + 14 + key@.len() + val@.len(),
{
    let n = src.nkeys();
    proof {
        lemma_kvpos_mono(src@, n as int, 0, idx as int);
        lemma_kvpos_mono(src@, n as int, idx as int, n as int);
    }
    new.set_header(BNODE_LEAF, n + 1);
    let ghost d0 = new@;
    node_append_range(new, src, 0, 0, idx);
    let ghost d1 = new@;
    node_append_kv(new, idx, 0, key, val);
    let ghost d2 = new@;
    node_append_range(new, src, idx + 1, idx, n - idx);
    let ghost d3 = new@;
    proof {
        let v = node_view(src@);
        let e = NodeView {
            btype: BNODE_LEAF as int,
            ptrs: v.ptrs.insert(idx as int, 0u64),
            keys: v.keys.insert(idx as int, key@),
            vals: v.vals.insert(idx as int, val@),
        };
        assert forall|i: int| 0 <= i < n + 1 implies #[trigger] ptr_of(d3, i) == e.ptrs[i]
            && key_of(d3, i) == e.keys[i] && val_of(d3, i) == e.vals[i] by {
            if i < idx {
                assert(entry_eq(d1, 0 + i, src@, 0 + i));
                assert(layout_same(d1, d2, i));
                assert(layout_same(d2, d3, i));
            } else if i == idx {
                assert(layout_same(d2, d3, idx as int));
            } else {
                assert(entry_eq(d3, idx + 1 + (i - idx - 1), src@, idx + (i - idx - 1)));
            }
        }
        lemma_view_from_entries(d3, e);
    }
}

/// The bytes entry `i`'s key-value record takes.
pub open spec fn kv_size(d: Seq<u8>, i: int) -> int {
    4 + klen_of(d, i) + vlen_of(d, i)
}

/// `new` becomes the leaf `src` with entry `idx` replaced by (`key`, `val`).
pub fn leaf_update(new: &mut BNode, src: &BNode, idx: u16, key: &[u8], val: &[u8])
    requires
        node_ok(src@),
        idx < nkeys_of(src@),
        4 <= old(new)@.len() <= u16::MAX,
        nbytes_of(src@) - kv_size(src@, idx as int) + 4 + key@.len() + val@.len() <= old(
            new,
        )@.len(),
    ensures
        final(new)@.len() == old(new)@.len(),
        node_ok(final(new)@),
        node_view(final(new)@) == (NodeView {
            btype: BNODE_LEAF as int,
            ptrs: node_view(src@).ptrs.update(idx as int, 0u64),
            keys: node_view(src@).keys.update(idx as int, key@),
            vals: node_view(src@).vals.update(idx as int, val@),
        }),
        nbytes_of(final(new)@) == nbytes_of(src@) - kv_size(src@, idx as int) + 4 + key@.len()
            + val@.len(),
{
    let n = src.nkeys();
    proof {
        lemma_kvpos_mono(src@, n as int, 0, idx as int);
        lemma_kvpos_mono(src@, n as int, idx as int, idx + 1);
        lemma_kvpos_mono(src@, n as int, idx + 1, n as int);
        assert(kv_ok(src@, idx as int));
    }
    new.set_header(BNODE_LEAF, n);
    node_append_range(new, src, 0, 0, idx);
    let ghost d1 = new@;
    node_append_kv(new, idx, 0, key, val);
    let ghost d2 = new@;
    node_append_range(new, src, idx + 1, idx + 1, n - idx - 1);
    let ghost d3 = new@;
    proof {
        let v = node_view(src@);
        let e = NodeView {
            btype: BNODE_LEAF as int,
            ptrs: v.ptrs.update(idx as int, 0u64),
            keys: v.keys.update(idx as int, key@),
            vals: v.vals.update(idx as int, val@),
        };
        assert forall|i: int| 0 <= i < n implies #[trigger] ptr_of(d3, i) == e.ptrs[i]
            && key_of(d3, i) == e.keys[i] && val_of(d3, i) == e.vals[i] by {
            if i < idx {
                assert(entry_eq(d1, 0 + i, src@, 0 + i));
                assert(layout_same(d1, d2, i));
                assert(layout_same(d2, d3, i));
            } else if i == idx {
                assert(layout_same(d2, d3, idx as int));
            } else {
                assert(entry_eq(d3, idx + 1 + (i - idx - 1), src@, idx + 1 + (i - idx - 1)));
            }
        }
        lemma_view_from_entries(d3, e);
    }
}

/// The bytes the entries pointing at `kids` take in their parent.
pub open spec fn kids_bytes(kids: Seq<BNode>) -> int
    decreases kids.len(),
{
    if kids.len() == 0 {
        0
    } else {
        kids_bytes(kids.drop_last()) + 14 + node_view(kids.last()@).keys[0].len()
    }
}

/// The first key of each of `kids`.
pub open spec fn first_keys(kids: Seq<BNode>) -> Seq<Seq<u8>> {
    kids.map_values(|b: BNode| node_view(b@).keys[0])
}

proof fn lemma_kids_bytes_prefix(kids: Seq<BNode>, i: int)
    requires
        0 <= i <= kids.len(),
    ensures
        kids_bytes(kids.take(i)) + 14 * (kids.len() - i) <= kids_bytes(kids),
        i < kids.len() ==> kids_bytes(kids.take(i + 1)) == kids_bytes(kids.take(i)) + 14
            + node_view(kids[i]@).keys[0].len(),
    decreases kids.len(),
{
    if i < kids.len() {
        assert(kids.take(i + 1).drop_last() =~= kids.take(i));
        lemma_kids_bytes_prefix(kids.drop_last(), i);
        if i < kids.len() - 1 {
            assert(kids.drop_last().take(i) =~= kids.take(i));
        } else {
            assert(kids.drop_last() =~= kids.take(i));
        }
    } else {
        assert(kids.take(i) =~= kids);
    }
}

proof fn lemma_kids_bytes_bound(kids: Seq<BNode>)
    requires
        forall|k: int| 0 <= k < kids.len() ==> node_view(#[trigger] kids[k]@).keys[0].len()
            <= BTREE_MAX_KEY_SIZE,
    ensures
        kids_bytes(kids) <= (14 + BTREE_MAX_KEY_SIZE) * kids.len(),
    decreases kids.len(),
{
    if kids.len() > 0 {
        let d = kids.drop_last();
        assert forall|k: int| 0 <= k < d.len() implies node_view(#[trigger] d[k]@).keys[0].len()
            <= BTREE_MAX_KEY_SIZE by {
            assert(d[k] == kids[k]);
        }
        lemma_kids_bytes_bound(d);
        assert(node_view(kids[kids.len() - 1]@).keys[0].len() <= BTREE_MAX_KEY_SIZE);
    }
}

/// `new` becomes the internal node `src` with child `idx` replaced by
/// `kids`, each stored in a new page of the tree's store.
pub(crate) fn node_replace_kid_n<S: PageStore>(
    tree: &mut BTree<S>,
    new: &mut BNode,
    src: &BNode,
    idx: u16,
    kids: &[BNode],
)
    requires
        node_ok(src@),
        idx < nkeys_of(src@),
        1 <= kids@.len(),
        nkeys_of(src@) + kids@.len() - 1 <= u16::MAX,
        forall|k: int|
            0 <= k < kids@.len() ==> node_ok(#[trigger] kids@[k]@) && nkeys_of(kids@[k]@) >= 1,
        4 <= old(new)@.len() <= u16::MAX,
        nbytes_of(src@) - 10 - kv_size(src@, idx as int) + kids_bytes(kids@) <= old(new)@.len(),
    ensures
        final(new)@.len() == old(new)@.len(),
        node_ok(final(new)@),
        nbytes_of(final(new)@) == nbytes_of(src@) - 10 - kv_size(src@, idx as int) + kids_bytes(
            kids@,
        ),
        btype_of(final(new)@) == BNODE_NODE,
        nkeys_of(final(new)@) == nkeys_of(src@) + kids@.len() - 1,
        node_view(final(new)@).keys == node_view(src@).keys.subrange(0, idx as int) + first_keys(
            kids@,
        ) + node_view(src@).keys.subrange(idx + 1, nkeys_of(src@)),
        node_view(final(new)@).vals == node_view(src@).vals.subrange(0, idx as int) + Seq::new(
            kids@.len(),
            |i: int| Seq::<u8>::empty(),
        ) + node_view(src@).vals.subrange(idx + 1, nkeys_of(src@)),
        node_view(final(new)@).ptrs.subrange(0, idx as int) == node_view(src@).ptrs.subrange(
            0,
            idx as int,
        ),
        node_view(final(new)@).ptrs.subrange(idx + kids@.len(), nkeys_of(final(new)@))
            == node_view(src@).ptrs.subrange(idx + 1, nkeys_of(src@)),
        forall|i: int|
            0 <= i < kids@.len() ==> !old(tree).store.pages().dom().contains(
                #[trigger] node_view(final(new)@).ptrs[idx + i],
            ) && final(tree).store.pages().dom().contains(node_view(final(new)@).ptrs[idx + i])
                && final(tree).store.pages()[node_view(final(new)@).ptrs[idx + i]] == kids@[i]@,
        forall|q: u64|
            old(tree).store.pages().dom().contains(q) ==> #[trigger] final(tree).store.pages().dom().contains(q)
                && final(tree).store.pages()[q] == old(tree).store.pages()[q],
        forall|t1: int, t2: int|
            0 <= t1 < t2 < kids@.len() ==> #[trigger] node_view(final(new)@).ptrs[idx + t1]
                != #[trigger] node_view(final(new)@).ptrs[idx + t2],
        final(tree).root == old(tree).root,
{
    let n = src.nkeys();
    let inc = kids.len() as u16;
    proof {
        lemma_kvpos_mono(src@, n as int, 0, idx as int);
        lemma_kvpos_mono(src@, n as int, idx as int, idx + 1);
        lemma_kvpos_mono(src@, n as int, idx + 1, n as int);
        assert(kv_ok(src@, idx as int));
        lemma_kids_bytes_prefix(kids@, 0);
        assert(kids@.take(0) =~= Seq::<BNode>::empty());
    }
    new.set_header(BNODE_NODE, n - 1 + inc);
    node_append_range(new, src, 0, 0, idx);
    let ghost d1 = new@;
    proof {
        assert forall|j: int| 0 <= j < idx implies #[trigger] entry_eq(d1, j, src@, j) by {
            assert(entry_eq(d1, 0 + j, src@, 0 + j));
        }
    }
    let ghost pages0 = tree.store.pages();
    let empty: [u8; 0] = [];
    let mut i: u16 = 0;
    while i < inc
        invariant
            node_ok(src@),
            n as int == nkeys_of(src@),
            idx < n,
            inc as int == kids@.len(),
            forall|k: int|
                0 <= k < kids@.len() ==> node_ok(#[trigger] kids@[k]@) && nkeys_of(kids@[k]@) >= 1,
            d1.len() <= u16::MAX,
            nbytes_of(src@) - 10 - kv_size(src@, idx as int) + kids_bytes(kids@) <= d1.len(),
            kvpos_of(src@, idx + 1) == kvpos_of(src@, idx as int) + kv_size(src@, idx as int),
            kvpos_of(src@, idx + 1) <= nbytes_of(src@),
            nkeys_of(d1) == n + inc - 1,
            kvpos_of(d1, idx as int) == kvpos_of(src@, idx as int) + 10 * (inc - 1),
            empty@ == Seq::<u8>::empty(),
            i <= inc,
            new@.len() == d1.len(),
            nkeys_of(new@) == nkeys_of(d1),
            btype_of(new@) == BNODE_NODE,
            prefix_ok(new@, idx + i),
            forall|j: int| 0 <= j < idx ==> #[trigger] layout_same(d1, new@, j),
            forall|j: int| 0 <= j < idx ==> #[trigger] entry_eq(d1, j, src@, j),
            kvpos_of(new@, idx + i) == kvpos_of(d1, idx as int) + kids_bytes(kids@.take(i as int))
                - 10 * i,
            forall|j: int|
                0 <= j < i ==> key_of(new@, #[trigger] (idx + j)) == node_view(kids@[j]@).keys[0]
                    && val_of(new@, idx + j) == Seq::<u8>::empty() && !pages0.dom().contains(
                    ptr_of(new@, idx + j),
                ) && tree.store.pages().dom().contains(ptr_of(new@, idx + j))
                    && tree.store.pages()[ptr_of(new@, idx + j)] == kids@[j]@,
            forall|q: u64|
                pages0.dom().contains(q) ==> #[trigger] tree.store.pages().dom().contains(q)
                    && tree.store.pages()[q] == pages0[q],
            forall|j1: int, j2: int|
                0 <= j1 < j2 < i ==> #[trigger] ptr_of(new@, idx + j1) != #[trigger] ptr_of(new@, idx + j2),
            tree.root == old(tree).root,
        decreases inc - i,
    {
        proof {
            lemma_kids_bytes_prefix(kids@, i as int);
            lemma_kids_bytes_prefix(kids@, i + 1);
            assert(node_ok(kids@[i as int]@));
            lemma_kvpos_mono(kids@[i as int]@, nkeys_of(kids@[i as int]@), 0, 1);
            lemma_kvpos_mono(kids@[i as int]@, nkeys_of(kids@[i as int]@), 1, nkeys_of(kids@[i as int]@));
        }
        let kid = &kids[i as usize];
        let ghost before = new@;
        let ghost pages_before = tree.store.pages();
        let kid_ptr = tree.store.new_page(kid.duplicate());
        let k0 = kid.get_key(0);
        assert(k0@ == node_view(kid@).keys[0]);
        node_append_kv(new, idx + i, kid_ptr, k0, empty.as_slice());
        proof {
            assert forall|j: int| 0 <= j < idx implies #[trigger] layout_same(d1, new@, j) by {
                assert(layout_same(d1, before, j));
                assert(layout_same(before, new@, j));
            }
            assert forall|j: int| 0 <= j < i + 1 implies key_of(new@, #[trigger] (idx + j))
                == node_view(kids@[j]@).keys[0] && val_of(new@, idx + j) == Seq::<u8>::empty()
                && !pages0.dom().contains(ptr_of(new@, idx + j)) && tree.store.pages().dom().contains(
                ptr_of(new@, idx + j),
            ) && tree.store.pages()[ptr_of(new@, idx + j)] == kids@[j]@ by {
                if j < i {
                    assert(layout_same(before, new@, idx + j));
                    assert(pages_before.dom().contains(ptr_of(before, idx + j)));
                }
            }
            assert forall|j1: int, j2: int| 0 <= j1 < j2 < i + 1 implies #[trigger] ptr_of(new@, idx + j1)
                != #[trigger] ptr_of(new@, idx + j2) by {
                assert(layout_same(before, new@, idx + j1));
                assert(pages_before.dom().contains(ptr_of(before, idx + j1)));
                if j2 < i {
                    assert(layout_same(before, new@, idx + j2));
                }
            }
        }
        i += 1;
    }
    let ghost d2 = new@;
    proof {
        assert(kids@.take(inc as int) =~= kids@);
    }
    node_append_range(new, src, idx + inc, idx + 1, n - (idx + 1));
    let ghost d3 = new@;
    proof {
        let v = node_view(src@);
        let fv = node_view(d3);
        let m = inc as int;
        let keys = v.keys.subrange(0, idx as int) + first_keys(kids@) + v.keys.subrange(idx + 1, n as int);
        let vals = v.vals.subrange(0, idx as int) + Seq::new(kids@.len(), |i: int| Seq::<u8>::empty())
            + v.vals.subrange(idx + 1, n as int);
        assert forall|j: int|
            #![trigger key_of(d3, j)]
            #![trigger val_of(d3, j)]
            #![trigger ptr_of(d3, j)]
            0 <= j < n + m - 1 implies key_of(d3, j) == keys[j] && val_of(d3, j) == vals[j] && (j < idx ==> ptr_of(d3, j) == v.ptrs[j]) && (j >= idx + m
            ==> ptr_of(d3, j) == v.ptrs[j - m + 1]) && (idx <= j < idx + m ==> ptr_of(d3, j)
            == ptr_of(d2, j)) by {
            if j < idx {
                assert(entry_eq(d1, j, src@, j));
                assert(layout_same(d1, d2, j));
                assert(layout_same(d2, d3, j));
            } else if j < idx + m {
                assert(key_of(d2, idx + (j - idx)) == node_view(kids@[j - idx]@).keys[0]);
                assert(layout_same(d2, d3, j));
            } else {
                assert(entry_eq(d3, idx + inc + (j - idx - m), src@, idx + 1 + (j - idx - m)));
            }
        }
        assert(fv.keys =~= keys);
        assert(fv.vals =~= vals);
        assert(fv.ptrs.subrange(0, idx as int) =~= v.ptrs.subrange(0, idx as int));
        assert(fv.ptrs.subrange(idx + m, n + m - 1) =~= v.ptrs.subrange(idx + 1, n as int));
        assert forall|j: int| 0 <= j < m implies !pages0.dom().contains(
            #[trigger] fv.ptrs[idx + j],
        ) && tree.store.pages().dom().contains(fv.ptrs[idx + j]) && tree.store.pages()[fv.ptrs[idx
            + j]] == kids@[j]@ by {
            assert(layout_same(d2, d3, idx + j));
            assert(key_of(d2, idx + j) == node_view(kids@[j]@).keys[0]);
        }
        assert forall|t1: int, t2: int| 0 <= t1 < t2 < m implies #[trigger] fv.ptrs[idx + t1]
            != #[trigger] fv.ptrs[idx + t2] by {
            assert(layout_same(d2, d3, idx + t1));
            assert(layout_same(d2, d3, idx + t2));
            assert(ptr_of(d2, idx + t1) != ptr_of(d2, idx + t2));
        }
    }
}

/// The leaf `v` after putting (`key`, `val`): the entry the lookup lands on
/// is replaced when its key is `key`, otherwise the entry goes right after it.
pub open spec fn leaf_put(v: NodeView, key: Seq<u8>, val: Seq<u8>) -> NodeView {
    let i = lookup_le(v.keys, key);
    if v.keys[i] == key {
        NodeView {
            btype: BNODE_LEAF as int,
            ptrs: v.ptrs.update(i, 0u64),
            keys: v.keys.update(i, key),
            vals: v.vals.update(i, val),
        }
    } else {
        NodeView {
            btype: BNODE_LEAF as int,
            ptrs: v.ptrs.insert(i + 1, 0u64),
            keys: v.keys.insert(i + 1, key),
            vals: v.vals.insert(i + 1, val),
        }
    }
}

/// How many children an internal node's insertion left in place of one.
pub open spec fn grown_by(node: Seq<u8>, res: Seq<u8>) -> int {
    nkeys_of(res) - nkeys_of(node) + 1
}

/// `res` is what inserting (`key`, `val`) below `node` builds: a node of
/// two pages' room that fits in at most three pages, of `node`'s type; a
/// leaf gets the entry put in; an internal node has the child the lookup
/// lands on replaced by one to three children, its other entries kept.
pub open spec fn insert_result(node: Seq<u8>, key: Seq<u8>, val: Seq<u8>, res: Seq<u8>) -> bool {
    let i = lookup_le(node_view(node).keys, key);
    let m = grown_by(node, res);
    let v = node_view(node);
    let w = node_view(res);
    &&& res.len() == 2 * PAGE_SIZE
    &&& node_ok(res)
    &&& nkeys_of(res) >= 1
    &&& nbytes_of(res) <= PAGE_SIZE + 10 + max_kv_size()
    &&& node_bounded(res)
    &&& btype_of(res) == btype_of(node)
    &&& btype_of(node) == BNODE_LEAF ==> w == leaf_put(v, key, val)
    &&& btype_of(node) == BNODE_NODE ==> {
        &&& 1 <= m <= 3
        &&& w.keys.subrange(0, i) == v.keys.subrange(0, i)
        &&& w.keys.subrange(i + m, nkeys_of(res)) == v.keys.subrange(i + 1, nkeys_of(node))
        &&& w.ptrs.subrange(0, i) == v.ptrs.subrange(0, i)
        &&& w.ptrs.subrange(i + m, nkeys_of(res)) == v.ptrs.subrange(i + 1, nkeys_of(node))
    }
}

/// Inserts (`key`, `val`) below `node`, returning the node that replaces it.
pub fn tree_insert<S: PageStore>(tree: &mut BTree<S>, node: &BNode, key: &[u8], val: &[u8]) -> (res:
    BNode)
    requires
        key@.len() <= BTREE_MAX_KEY_SIZE,
        val@.len() <= BTREE_MAX_VAL_SIZE,
        exists|f: nat| insert_path_ok(old(tree).store.pages(), node@, key@, f),
    ensures
        btype_of(node@) == BNODE_LEAF ==> final(tree).store.pages() == old(tree).store.pages(),
        insert_result(node@, key@, val@, res@),
        (forall|f: nat|
            insert_path_ok(old(tree).store.pages(), node@, key@, f) ==> path_sorted(
                old(tree).store.pages(),
                node@,
                key@,
                f,
            )) ==> finds(final(tree).store.pages(), res@, key@, val@),
        btype_of(node@) == BNODE_NODE ==> forall|j: int|
            0 <= j < grown_by(node@, res@) ==> final(tree).store.pages().dom().contains(
                #[trigger] node_view(res@).ptrs[lookup_le(node_view(node@).keys, key@) + j],
            ),
        final(tree).root == old(tree).root,
{
    let ghost f = choose|f: nat| insert_path_ok(tree.store.pages(), node@, key@, f);
    tree_insert_at(tree, node, key, val, Ghost(f), Ghost(None))
}

pub(crate) fn tree_insert_at<S: PageStore>(
    tree: &mut BTree<S>,
    node: &BNode,
    key: &[u8],
    val: &[u8],
    Ghost(fuel): Ghost<nat>,
    Ghost(hi): Ghost<Option<Seq<u8>>>,
) -> (res: BNode)
    requires
        key@.len() <= BTREE_MAX_KEY_SIZE,
        val@.len() <= BTREE_MAX_VAL_SIZE,
        insert_path_ok(old(tree).store.pages(), node@, key@, fuel),
    ensures
        btype_of(node@) == BNODE_LEAF ==> final(tree).store.pages() == old(tree).store.pages(),
        insert_result(node@, key@, val@, res@),
        btype_of(node@) == BNODE_NODE ==> forall|j: int|
            0 <= j < grown_by(node@, res@) ==> final(tree).store.pages().dom().contains(
                #[trigger] node_view(res@).ptrs[lookup_le(node_view(node@).keys, key@) + j],
            ),
        final(tree).root == old(tree).root,
        path_sorted(old(tree).store.pages(), node@, key@, fuel) ==> finds(
            final(tree).store.pages(),
            res@,
            key@,
            val@,
        ),
        tree_ok(old(tree).store.pages(), node@, node_view(node@).keys[0], hi, fuel) && in_range(
            key@,
            node_view(node@).keys[0],
            hi,
        ) ==> grown_ok(old(tree).store.pages(), final(tree).store.pages(), node@, res@, hi, fuel)
            && keeps_others(old(tree).store.pages(), final(tree).store.pages(), node@, res@, key@, hi, fuel)
            && forall|h: nat|
            #[trigger] level_ok(old(tree).store.pages(), node@, h) ==> level_ok(
                final(tree).store.pages(),
                res@,
                h,
            ),
    decreases fuel, 1nat,
{
    let mut new = BNode::with_capacity(2 * PAGE_SIZE);
    let idx = node_lookup_le(node, key);
    if node.btype() == BNODE_LEAF {
        proof {
            lemma_kvpos_mono(node@, nkeys_of(node@), idx as int, idx + 1);
            assert(kv_ok(node@, idx as int));
        }
        let is_update = keys_equal(key, node.get_key(idx));
        if is_update {
            leaf_update(&mut new, node, idx, key, val);
        } else {
            leaf_insert(&mut new, node, idx + 1, key, val);
        }
        proof {
            if path_sorted(tree.store.pages(), node@, key@, fuel) {
                let v = node_view(node@);
                let w = node_view(new@);
                let i = idx as int;
                assert(key_at(v.keys, key@, i));
                assert(v.keys[i] == key_of(node@, i));
                let p = if is_update {
                    i
                } else {
                    i + 1
                };
                if is_update {
                    assert(w.keys =~= v.keys);
                } else {
                    lemma_lex_eq(v.keys[i], key@);
                    assert forall|t: int| 0 <= t < p implies lex_order(#[trigger] w.keys[t], key@)
                        < 0 by {
                        assert(w.keys[t] == v.keys[t]);
                    }
                    assert forall|t: int| p < t < w.keys.len() implies lex_order(
                        #[trigger] w.keys[t],
                        key@,
                    ) > 0 by {
                        assert(w.keys[t] == v.keys[t - 1]);
                    }
                }
                assert(w.keys[p] == key@);
                lemma_lex_eq(key@, key@);
                assert(key_at(w.keys, key@, p));
                lemma_key_at_lookup(w.keys, key@, p);
                assert(w.vals[p] == val@);
                assert(path_ok(tree.store.pages(), new@, key@, 0));
                assert(path_sorted(tree.store.pages(), new@, key@, 0));
                assert(search_from(tree.store.pages(), new@, key@, 0) == Some(val@));
            }
            let w = node_view(new@);
            let v = node_view(node@);
            assert(w.keys.len() == nkeys_of(new@));
            assert forall|i: int| 0 <= i < w.keys.len() implies (#[trigger] w.keys[i]).len()
                <= BTREE_MAX_KEY_SIZE by {
                if w.keys[i] != key@ {
                    assert(exists|j: int| 0 <= j < v.keys.len() && w.keys[i] == v.keys[j]);
                }
            }
            assert forall|i: int| 0 <= i < w.vals.len() implies (#[trigger] w.vals[i]).len()
                <= BTREE_MAX_VAL_SIZE by {
                if w.vals[i] != val@ {
                    assert(exists|j: int| 0 <= j < v.vals.len() && w.vals[i] == v.vals[j]);
                }
            }
            let lo = v.keys[0];
            if tree_ok(tree.store.pages(), node@, lo, hi, fuel) && in_range(key@, lo, hi) {
                assert(node_bounded(new@));
                lemma_leaf_put_ok(node@, new@, key@, val@, lo, hi);
                assert(shape_ok(tree.store.pages(), new@, lo, hi, fuel));
                let pg = tree.store.pages();
                assert forall|h: nat| #[trigger] level_ok(pg, node@, h) implies level_ok(pg, new@, h) by {
                    assert(h == 0);
                }
                assert(v.keys.len() == nkeys_of(node@) && v.vals.len() == nkeys_of(node@));
                assert forall|k: Seq<u8>| in_range(k, lo, hi) && k != key@ implies #[trigger] search_from(
                    pg,
                    new@,
                    k,
                    fuel,
                ) == search_from(pg, node@, k, fuel) by {
                    lemma_leaf_search(pg, node@, lo, hi, fuel, k);
                    lemma_leaf_search(pg, new@, lo, hi, fuel, k);
                    lemma_leaf_put_others(v, key@, val@, k, lo);
                    if search_from(pg, node@, k, fuel) is Some {
                        let i = choose|i: int| 0 <= i < nkeys_of(node@) && #[trigger] v.keys[i] == k;
                        assert(w.keys[put_index(v, key@, i)] == k);
                    } else if search_from(pg, new@, k, fuel) is Some {
                        let c = choose|c: int| 0 <= c < nkeys_of(new@) && #[trigger] w.keys[c] == k;
                        assert(v.keys[put_back(v, key@, c)] == k);
                    }
                }
            }
        }
    } else {
        node_insert(tree, &mut new, node, idx, key, val, Ghost(fuel), Ghost(hi));
    }
    new
}

fn node_insert<S: PageStore>(
    tree: &mut BTree<S>,
    new: &mut BNode,
    node: &BNode,
    idx: u16,
    key: &[u8],
    val: &[u8],
    Ghost(fuel): Ghost<nat>,
    Ghost(hi): Ghost<Option<Seq<u8>>>,
)
    requires
        key@.len() <= BTREE_MAX_KEY_SIZE,
        val@.len() <= BTREE_MAX_VAL_SIZE,
        insert_path_ok(old(tree).store.pages(), node@, key@, fuel),
        btype_of(node@) == BNODE_NODE,
        idx as int == lookup_le(node_view(node@).keys, key@),
        old(new)@.len() == 2 * PAGE_SIZE,
    ensures
        insert_result(node@, key@, val@, final(new)@),
        forall|j: int|
            0 <= j < grown_by(node@, final(new)@) ==> final(tree).store.pages().dom().contains(
                #[trigger] node_view(final(new)@).ptrs[idx + j],
            ),
        final(tree).root == old(tree).root,
        path_sorted(old(tree).store.pages(), node@, key@, fuel) ==> finds(
            final(tree).store.pages(),
            final(new)@,
            key@,
            val@,
        ),
        tree_ok(old(tree).store.pages(), node@, node_view(node@).keys[0], hi, fuel) && in_range(
            key@,
            node_view(node@).keys[0],
            hi,
        ) ==> grown_ok(old(tree).store.pages(), final(tree).store.pages(), node@, final(new)@, hi, fuel)
            && keeps_others(old(tree).store.pages(), final(tree).store.pages(), node@, final(new)@, key@, hi, fuel)
            && forall|h: nat|
            #[trigger] level_ok(old(tree).store.pages(), node@, h) ==> level_ok(
                final(tree).store.pages(),
                final(new)@,
                h,
            ),
    decreases fuel, 0nat,
{
    let ghost pages = tree.store.pages();
    proof {
        lemma_lookup_bounds(node_view(node@).keys, key@);
    }
    let kptr = node.get_ptr(idx);
    assert(kptr == child_ptr(node@, key@));
    let knode = tree.store.get(kptr);
    tree.store.del(kptr);
    proof {
        let below = path_ptrs(pages, pages[kptr], key@, (fuel - 1) as nat);
        assert(insert_path_ok(pages, node@, key@, fuel));
        assert(!below.contains(kptr));
        lemma_path_ptrs_held(pages, pages[kptr], key@, (fuel - 1) as nat);
        assert(tree.store.pages() == pages.remove(kptr));
        assert forall|q: u64| #[trigger] below.contains(q) implies tree.store.pages().dom().contains(q)
            && tree.store.pages()[q] == pages[q] by {
            assert(q != kptr);
        }
        lemma_insert_path_frame(pages, tree.store.pages(), knode@, key@, (fuel - 1) as nat);
        if path_sorted(pages, node@, key@, fuel) {
            lemma_sorted_path_frame(pages, tree.store.pages(), knode@, key@, (fuel - 1) as nat);
        }
    }
    let ghost pd = tree.store.pages();
    let ghost kn = knode@;
    let ghost b = bound_after(node_view(node@).keys, idx as int, hi);
    let knode = tree_insert_at(tree, &knode, key, val, Ghost((fuel - 1) as nat), Ghost(b));
    proof {
        lemma_bounded_fits(knode@);
    }
    let ghost c = knode@;
    let ghost p1 = tree.store.pages();
    let split = node_split3(knode);
    proof {
        let ks = split@;
        assert forall|k: int| 0 <= k < ks.len() implies node_view(#[trigger] ks[k]@).keys[0].len()
            <= BTREE_MAX_KEY_SIZE by {
            assert(node_bounded(ks[k]@));
        }
        lemma_kids_bytes_bound(ks);
        lemma_kvpos_mono(node@, nkeys_of(node@), idx as int, idx + 1);
        lemma_kvpos_mono(node@, nkeys_of(node@), idx + 1, nkeys_of(node@));
        assert(kv_ok(node@, idx as int));
    }
    node_replace_kid_n(tree, new, node, idx, split.as_slice());
    proof {
        if path_sorted(pages, node@, key@, fuel) {
            let v = node_view(node@);
            let w = node_view(new@);
            let ks = split@;
            let p2 = tree.store.pages();
            let j = lemma_select_piece(ks, c, key@);
            let s = offset(piece_keys(ks), j);
            let e = s + nkeys_of(ks[j]@);
            assert(key_at(v.keys, key@, idx as int));
            lemma_replace_key_at(v.keys, first_keys(ks), key@, idx as int, j);
            lemma_key_at_lookup(w.keys, key@, idx + j);
            let q = w.ptrs[idx + j];
            assert(p2[q] == ks[j]@);
            let f = choose|f: nat|
                path_ok(p1, c, key@, f) && path_sorted(p1, c, key@, f) && search_from(p1, c, key@, f)
                    == Some(val@);
            lemma_path_frame(p1, p2, c, key@, f);
            lemma_piece_descent(p2, c, ks[j]@, key@, s, e, f);
            assert(child_ptr(new@, key@) == q);
            assert(path_ok(p2, new@, key@, f + 1));
            assert(path_sorted(p2, new@, key@, f + 1));
            assert(search_from(p2, new@, key@, f + 1) == Some(val@));
        }
    }
    proof {
        let v = node_view(node@);
        let w = node_view(new@);
        let ks = split@;
        let m = ks.len() as int;
        let n = nkeys_of(node@);
        let i = idx as int;
        assert(grown_by(node@, new@) == m);
        assert(w.keys.subrange(0, i) =~= v.keys.subrange(0, i));
        assert(w.keys.subrange(i + m, n + m - 1) =~= v.keys.subrange(i + 1, n));
        assert forall|j: int| 0 <= j < w.keys.len() implies (#[trigger] w.keys[j]).len()
            <= BTREE_MAX_KEY_SIZE by {
            if j < i {
                assert(w.keys[j] == v.keys[j]);
            } else if j < i + m {
                assert(w.keys[j] == first_keys(ks)[j - i]);
                assert(node_bounded(ks[j - i]@));
            } else {
                assert(w.keys[j] == v.keys[j - m + 1]);
            }
        }
        assert forall|j: int| 0 <= j < w.vals.len() implies (#[trigger] w.vals[j]).len()
            <= BTREE_MAX_VAL_SIZE by {
            if j < i {
                assert(w.vals[j] == v.vals[j]);
            } else if j >= i + m {
                assert(w.vals[j] == v.vals[j - m + 1]);
            }
        }
    }
    proof {
        let lo = node_view(node@).keys[0];
        if tree_ok(pages, node@, lo, hi, fuel) && in_range(key@, lo, hi) {
            let v = node_view(node@);
            let i = idx as int;
            let f1 = (fuel - 1) as nat;
            let ks = split@;
            assert(v.keys.len() == nkeys_of(node@));
            let p = lemma_sorted_lookup(v.keys, key@);
            assert(p == i);
            if i + 1 < nkeys_of(node@) {
                lemma_lex_flip(v.keys[i + 1], key@);
            }
            assert(in_range(key@, v.keys[i], b));
            assert(pages.dom().contains(v.ptrs[i]));
            assert(tree_ok(pages, kn, v.keys[i], b, f1));
            assert(!below(pages, kn, f1, kptr));
            lemma_below_held(pages, kn, v.keys[i], b, f1);
            assert forall|q: u64|
                #![trigger pd.dom().contains(q)]
                #![trigger below(pages, kn, f1, q)]
                below(pages, kn, f1, q) implies pd.dom().contains(q) && pd[q] == pages[q] by {
                assert(q != kptr);
            }
            lemma_shape_frame(pages, pd, kn, v.keys[i], b, f1);
            assert(tree_ok(pd, kn, v.keys[i], b, f1));
            assert(grown_ok(pd, p1, kn, c, b, f1));
            assert(node_bounded(new@));
            assert(replaced(p1, tree.store.pages(), node@, i, c, ks, new@));
            lemma_replace_ok(pages, pd, p1, tree.store.pages(), node@, i, c, ks, new@, hi, fuel);
            assert forall|h: nat| #[trigger] level_ok(pages, node@, h) implies level_ok(tree.store.pages(), new@, h) by {
                assert(h >= 1);
                let h1 = (h - 1) as nat;
                assert(level_ok(pages, kn, h1));
                lemma_level_fuel(pages, kn, v.keys[i], b, f1, h1);
                lemma_level_frame(pages, pd, kn, h1, f1);
                assert(level_ok(p1, c, h1));
                lemma_replace_level(pages, pd, p1, tree.store.pages(), node@, i, c, ks, new@, hi, fuel, h);
            }
            assert(keeps_others(pd, p1, kn, c, key@, b, f1));
            assert forall|k: Seq<u8>| in_range(k, lo, hi) && k != key@ implies #[trigger] search_from(
                tree.store.pages(),
                new@,
                k,
                fuel,
            ) == search_from(pages, node@, k, fuel) by {
                lemma_replace_others(pages, pd, p1, tree.store.pages(), node@, i, c, ks, new@, hi, fuel, key@, k);
            }
        }
    }
}

} // verus!
