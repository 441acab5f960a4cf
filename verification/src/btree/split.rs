//! Splitting a node that outgrew its page into nodes that each fit one.

use vstd::prelude::*;
use crate::btree::insert::{kv_size, layout_same, node_append_range};
use crate::btree::node::{
    BNode, BTREE_MAX_KEY_SIZE, BTREE_MAX_VAL_SIZE, NodeView, PAGE_SIZE, klen_of, vlen_of, btype_of, entry_eq, key_of, kv_ok, kvpos_of, lemma_kvpos_mono,
    lemma_view_from_entries, nbytes_of, nkeys_of, node_ok, node_view, ptr_of, val_of,
};

verus! {

/// The bytes a node holding entries `[s, e)` of `d` occupies.
pub open spec fn range_bytes(d: Seq<u8>, s: int, e: int) -> int {
    4 + 10 * (e - s) + kvpos_of(d, e) - kvpos_of(d, s)
}

/// The most bytes one key-value record takes: a key of the largest size
/// and a value of the largest size, with their two lengths.
pub open spec fn max_kv_size() -> int {
    4 + BTREE_MAX_KEY_SIZE + BTREE_MAX_VAL_SIZE
}

/// No key-value record of `d` is larger than the largest allowed one.
pub open spec fn entries_fit(d: Seq<u8>) -> bool {
    forall|i: int| 0 <= i < nkeys_of(d) ==> #[trigger] kv_size(d, i) <= max_kv_size()
}

/// Every key and value of the node has an allowed size.
pub open spec fn node_bounded(d: Seq<u8>) -> bool {
    &&& forall|i: int|
        0 <= i < node_view(d).keys.len() ==> (#[trigger] node_view(d).keys[i]).len()
            <= BTREE_MAX_KEY_SIZE
    &&& forall|i: int|
        0 <= i < node_view(d).vals.len() ==> (#[trigger] node_view(d).vals[i]).len()
            <= BTREE_MAX_VAL_SIZE
}

/// The key and value of entry `i` have the lengths the record states.
pub proof fn lemma_entry_lens(d: Seq<u8>, i: int)
    requires
        node_ok(d),
        0 <= i < nkeys_of(d),
    ensures
        key_of(d, i).len() == klen_of(d, i),
        val_of(d, i).len() == vlen_of(d, i),
        node_view(d).keys[i].len() == klen_of(d, i),
        node_view(d).vals[i].len() == vlen_of(d, i),
{
    lemma_kvpos_mono(d, nkeys_of(d), i, i + 1);
    lemma_kvpos_mono(d, nkeys_of(d), i + 1, nkeys_of(d));
}

/// A node whose keys and values have allowed sizes has records that fit.
pub proof fn lemma_bounded_fits(d: Seq<u8>)
    requires
        node_ok(d),
        node_bounded(d),
    ensures
        entries_fit(d),
{
    assert forall|i: int| 0 <= i < nkeys_of(d) implies #[trigger] kv_size(d, i)
        <= max_kv_size() by {
        lemma_entry_lens(d, i);
        assert(node_view(d).keys[i].len() <= BTREE_MAX_KEY_SIZE);
        assert(node_view(d).vals[i].len() <= BTREE_MAX_VAL_SIZE);
    }
}

pub open spec fn piece_keys(ps: Seq<BNode>) -> Seq<Seq<Seq<u8>>> {
    ps.map_values(|b: BNode| node_view(b@).keys)
}

pub open spec fn piece_ptrs(ps: Seq<BNode>) -> Seq<Seq<u64>> {
    ps.map_values(|b: BNode| node_view(b@).ptrs)
}

pub open spec fn piece_vals(ps: Seq<BNode>) -> Seq<Seq<Seq<u8>>> {
    ps.map_values(|b: BNode| node_view(b@).vals)
}

/// A node of one page holding entries `[s, e)` of `src`.
fn node_piece(src: &BNode, s: u16, e: u16) -> (res: BNode)
    requires
        node_ok(src@),
        s < e <= nkeys_of(src@),
        range_bytes(src@, s as int, e as int) <= PAGE_SIZE,
    ensures
        res@.len() == PAGE_SIZE,
        node_ok(res@),
        nbytes_of(res@) == range_bytes(src@, s as int, e as int),
        node_view(res@) == (NodeView {
            btype: btype_of(src@),
            ptrs: node_view(src@).ptrs.subrange(s as int, e as int),
            keys: node_view(src@).keys.subrange(s as int, e as int),
            vals: node_view(src@).vals.subrange(s as int, e as int),
        }),
{
    proof {
        lemma_kvpos_mono(src@, nkeys_of(src@), s as int, e as int);
    }
    let mut piece = BNode::with_capacity(PAGE_SIZE);
    piece.set_header(src.btype(), e - s);
    node_append_range(&mut piece, src, 0, s, e - s);
    proof {
        let d = piece@;
        let v = node_view(src@);
        let w = NodeView {
            btype: btype_of(src@),
            ptrs: v.ptrs.subrange(s as int, e as int),
            keys: v.keys.subrange(s as int, e as int),
            vals: v.vals.subrange(s as int, e as int),
        };
        assert forall|i: int| 0 <= i < e - s implies #[trigger] ptr_of(d, i) == w.ptrs[i]
            && key_of(d, i) == w.keys[i] && val_of(d, i) == w.vals[i] by {
            assert(entry_eq(d, 0 + i, src@, s + i));
        }
        lemma_view_from_entries(d, w);
    }
    piece
}

/// Splits a node into nodes that each fit in a page, keeping the order of
/// its entries: one node if it fits, otherwise, from the right, each time
/// the longest run of entries that fits.
pub fn node_split3(old: BNode) -> (res: Vec<BNode>)
    requires
        node_ok(old@),
        nkeys_of(old@) >= 1,
        entries_fit(old@),
    ensures
        res@.len() >= 1,
        forall|k: int|
            0 <= k < res@.len() ==> {
                &&& node_ok(#[trigger] res@[k]@)
                &&& res@[k]@.len() == PAGE_SIZE
                &&& nbytes_of(res@[k]@) <= PAGE_SIZE
                &&& nkeys_of(res@[k]@) >= 1
                &&& btype_of(res@[k]@) == btype_of(old@)
            },
        piece_keys(res@).flatten() == node_view(old@).keys,
        piece_ptrs(res@).flatten() == node_view(old@).ptrs,
        piece_vals(res@).flatten() == node_view(old@).vals,
        nbytes_of(old@) <= PAGE_SIZE ==> res@.len() == 1,
        nbytes_of(old@) <= PAGE_SIZE + 10 + max_kv_size() ==> res@.len() <= 3,
        node_bounded(old@) ==> forall|k: int| 0 <= k < res@.len() ==> node_bounded(#[trigger] res@[k]@),
{
    let n = old.nkeys();
    let mut res: Vec<BNode> = Vec::new();
    let mut e: u16 = n;
    let ghost v = node_view(old@);
    proof {
        lemma_kvpos_mono(old@, n as int, 0, n as int);
        assert(v.keys.subrange(n as int, n as int) =~= Seq::<Seq<u8>>::empty());
        assert(v.ptrs.subrange(n as int, n as int) =~= Seq::<u64>::empty());
        assert(v.vals.subrange(n as int, n as int) =~= Seq::<Seq<u8>>::empty());
        assert(piece_keys(res@) =~= Seq::<Seq<Seq<u8>>>::empty());
        assert(piece_ptrs(res@) =~= Seq::<Seq<u64>>::empty());
        assert(piece_vals(res@) =~= Seq::<Seq<Seq<u8>>>::empty());
    }
    while e > 0
        invariant
            node_ok(old@),
            n as int == nkeys_of(old@),
            v == node_view(old@),
            entries_fit(old@),
            e <= n,
            n >= 1,
            e == n ==> res@.len() == 0,
            e < n ==> res@.len() >= 1,
            forall|k: int|
                0 <= k < res@.len() ==> {
                    &&& node_ok(#[trigger] res@[k]@)
                    &&& res@[k]@.len() == PAGE_SIZE
                    &&& nbytes_of(res@[k]@) <= PAGE_SIZE
                    &&& nkeys_of(res@[k]@) >= 1
                    &&& btype_of(res@[k]@) == btype_of(old@)
                },
            piece_keys(res@).flatten() == v.keys.subrange(e as int, n as int),
            piece_ptrs(res@).flatten() == v.ptrs.subrange(e as int, n as int),
            piece_vals(res@).flatten() == v.vals.subrange(e as int, n as int),
            nbytes_of(old@) <= PAGE_SIZE ==> (e == n || (e == 0 && res@.len() == 1)),
            res@.len() == 1 && e > 0 ==> range_bytes(old@, e - 1, n as int) > PAGE_SIZE,
            res@.len() >= 2 ==> range_bytes(old@, e as int, n as int) > PAGE_SIZE,
            nbytes_of(old@) <= PAGE_SIZE + 10 + max_kv_size() ==> res@.len() <= 3 && (res@.len()
                == 3 ==> e == 0),
            node_bounded(old@) ==> forall|k: int| 0 <= k < res@.len() ==> node_bounded(#[trigger] res@[k]@),
        decreases e,
    {
        let e_off = old.get_offset(e);
        let mut s: u16 = 0;
        proof {
            lemma_kvpos_mono(old@, n as int, 0, e as int);
            lemma_kvpos_mono(old@, n as int, e - 1, e as int);
            assert(kv_ok(old@, e - 1));
            assert(kv_size(old@, e - 1) <= max_kv_size());
            lemma_kvpos_mono(old@, n as int, e as int, n as int);
        }
        while 4 + 10 * (e - s) as usize + (e_off - old.get_offset(s)) as usize > PAGE_SIZE
            invariant
                node_ok(old@),
                n as int == nkeys_of(old@),
                0 < e <= n,
                s < e,
                e_off as int == kvpos_of(old@, e as int) - 4 - 10 * n,
                range_bytes(old@, e - 1, e as int) <= PAGE_SIZE,
                kvpos_of(old@, s as int) <= kvpos_of(old@, e as int),
                range_bytes(old@, 0, e as int) <= PAGE_SIZE ==> s == 0,
                s > 0 ==> range_bytes(old@, s - 1, e as int) > PAGE_SIZE,
            decreases e - s,
        {
            proof {
                lemma_kvpos_mono(old@, n as int, s + 1, e as int);
            }
            s += 1;
        }
        let ghost before = res@;
        proof {
            if before.len() == 1 {
                lemma_kvpos_mono(old@, n as int, s as int, e - 1);
                lemma_kvpos_mono(old@, n as int, e - 1, n as int);
            }
        }
        let piece = node_piece(&old, s, e);
        res.insert(0, piece);
        proof {
            assert(res@ =~= seq![piece].add(before));
            assert(piece_keys(res@) =~= seq![node_view(piece@).keys].add(piece_keys(before)));
            assert(piece_ptrs(res@) =~= seq![node_view(piece@).ptrs].add(piece_ptrs(before)));
            assert(piece_vals(res@) =~= seq![node_view(piece@).vals].add(piece_vals(before)));
            assert(piece_keys(res@).drop_first() =~= piece_keys(before));
            assert(piece_ptrs(res@).drop_first() =~= piece_ptrs(before));
            assert(piece_vals(res@).drop_first() =~= piece_vals(before));
            assert(v.keys.subrange(s as int, n as int) =~= v.keys.subrange(s as int, e as int)
                + v.keys.subrange(e as int, n as int));
            assert(v.ptrs.subrange(s as int, n as int) =~= v.ptrs.subrange(s as int, e as int)
                + v.ptrs.subrange(e as int, n as int));
            assert(v.vals.subrange(s as int, n as int) =~= v.vals.subrange(s as int, e as int)
                + v.vals.subrange(e as int, n as int));
            assert forall|k: int| 0 <= k < res@.len() implies {
                &&& node_ok(#[trigger] res@[k]@)
                &&& res@[k]@.len() == PAGE_SIZE
                &&& nbytes_of(res@[k]@) <= PAGE_SIZE
                &&& nkeys_of(res@[k]@) >= 1
                &&& btype_of(res@[k]@) == btype_of(old@)
            } by {
                if k > 0 {
                    assert(res@[k] == before[k - 1]);
                }
            }
            if node_bounded(old@) {
                assert forall|k: int| 0 <= k < res@.len() implies node_bounded(#[trigger] res@[k]@) by {
                    if k > 0 {
                        assert(res@[k] == before[k - 1]);
                    } else {
                        let pv = node_view(piece@);
                        assert forall|i: int| 0 <= i < pv.keys.len() implies (#[trigger] pv.keys[i]).len()
                            <= BTREE_MAX_KEY_SIZE by {
                            assert(pv.keys[i] == v.keys[s + i]);
                        }
                        assert forall|i: int| 0 <= i < pv.vals.len() implies (#[trigger] pv.vals[i]).len()
                            <= BTREE_MAX_VAL_SIZE by {
                            assert(pv.vals[i] == v.vals[s + i]);
                        }
                    }
                }
            }
        }
        e = s;
    }
    proof {
        assert(v.keys.subrange(0, n as int) =~= v.keys);
        assert(v.ptrs.subrange(0, n as int) =~= v.ptrs);
        assert(v.vals.subrange(0, n as int) =~= v.vals);
    }
    res
}

} // verus!
