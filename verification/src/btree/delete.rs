//! Building nodes with an entry removed, two nodes merged or two children
//! replaced by one, and deleting from a tree.

use vstd::prelude::*;
use crate::btree::insert::{
    kids_bytes, kv_size, layout_same, lemma_lookup_bounds, lookup_le, node_append_kv,
    node_append_range, node_lookup_le, node_replace_kid_n,
};
use crate::btree::keys::keys_equal;
use crate::btree::node::{
    BNode, BNODE_LEAF, BNODE_NODE, HEADER, NodeView, PAGE_SIZE, btype_of, entry_eq, key_of, kv_ok,
    kvpos_of, lemma_kvpos_mono, lemma_view_from_entries, nbytes_of, nkeys_of, node_ok, node_view,
    ptr_of, val_of,
};
use crate::btree::tree::{BTree, PageStore, child_ptr, path_ok, search_from};
use crate::btree::shrink::{
    lemma_keep, lemma_leaf_shrunk, lemma_merge_left, lemma_merge_right, lemma_splice, merge_setup, merged_of,
    shrunk_ok,
};
use crate::btree::valid::{below, bound_after, in_range, level_ok, tree_ok};

verus! {

/// `new` becomes the leaf `src` without entry `idx`.
pub fn leaf_delete(new: &mut BNode, src: &BNode, idx: u16)
    requires
        node_ok(src@),
        idx < nkeys_of(src@),
        4 <= old(new)@.len() <= u16::MAX,
        nbytes_of(src@) - 10 - kv_size(src@, idx as int) <= old(new)@.len(),
    ensures
        final(new)@.len() == old(new)@.len(),
        node_ok(final(new)@),
        node_view(final(new)@) == (NodeView {
            btype: BNODE_LEAF as int,
            ptrs: node_view(src@).ptrs.remove(idx as int),
            keys: node_view(src@).keys.remove(idx as int),
            vals: node_view(src@).vals.remove(idx as int),
        }),
        nbytes_of(final(new)@) == nbytes_of(src@) - 10 - kv_size(src@, idx as int),
{
    let n = src.nkeys();
    proof {
        lemma_kvpos_mono(src@, n as int, 0, idx as int);
        lemma_kvpos_mono(src@, n as int, idx as int, idx + 1);
        lemma_kvpos_mono(src@, n as int, idx + 1, n as int);
        assert(kv_ok(src@, idx as int));
    }
    new.set_header(BNODE_LEAF, n - 1);
    node_append_range(new, src, 0, 0, idx);
    let ghost d1 = new@;
    node_append_range(new, src, idx, idx + 1, n - (idx + 1));
    let ghost d2 = new@;
    proof {
        let v = node_view(src@);
        let e = NodeView {
            btype: BNODE_LEAF as int,
            ptrs: v.ptrs.remove(idx as int),
            keys: v.keys.remove(idx as int),
            vals: v.vals.remove(idx as int),
        };
        assert forall|i: int| 0 <= i < n - 1 implies #[trigger] ptr_of(d2, i) == e.ptrs[i]
            && key_of(d2, i) == e.keys[i] && val_of(d2, i) == e.vals[i] by {
            if i < idx {
                assert(entry_eq(d1, 0 + i, src@, 0 + i));
                assert(layout_same(d1, d2, i));
            } else {
                assert(entry_eq(d2, idx + (i - idx), src@, idx + 1 + (i - idx)));
            }
        }
        lemma_view_from_entries(d2, e);
    }
}

/// `new` becomes the entries of `left` followed by those of `right`, with
/// `left`'s type.
pub fn node_merge(new: &mut BNode, left: &BNode, right: &BNode)
    requires
        node_ok(left@),
        node_ok(right@),
        nkeys_of(left@) + nkeys_of(right@) <= u16::MAX,
        4 <= old(new)@.len() <= u16::MAX,
        nbytes_of(left@) + nbytes_of(right@) - 4 <= old(new)@.len(),
    ensures
        final(new)@.len() == old(new)@.len(),
        node_ok(final(new)@),
        node_view(final(new)@) == (NodeView {
            btype: btype_of(left@),
            ptrs: node_view(left@).ptrs + node_view(right@).ptrs,
            keys: node_view(left@).keys + node_view(right@).keys,
            vals: node_view(left@).vals + node_view(right@).vals,
        }),
        nbytes_of(final(new)@) == nbytes_of(left@) + nbytes_of(right@) - 4,
{
    let nl = left.nkeys();
    let nr = right.nkeys();
    new.set_header(left.btype(), nl + nr);
    node_append_range(new, left, 0, 0, nl);
    let ghost d1 = new@;
    node_append_range(new, right, nl, 0, nr);
    let ghost d2 = new@;
    proof {
        let vl = node_view(left@);
        let vr = node_view(right@);
        let e = NodeView {
            btype: btype_of(left@),
            ptrs: vl.ptrs + vr.ptrs,
            keys: vl.keys + vr.keys,
            vals: vl.vals + vr.vals,
        };
        assert forall|i: int| 0 <= i < nl + nr implies #[trigger] ptr_of(d2, i) == e.ptrs[i]
            && key_of(d2, i) == e.keys[i] && val_of(d2, i) == e.vals[i] by {
            if i < nl {
                assert(entry_eq(d1, 0 + i, left@, 0 + i));
                assert(layout_same(d1, d2, i));
            } else {
                assert(entry_eq(d2, nl + (i - nl), right@, 0 + (i - nl)));
            }
        }
        lemma_view_from_entries(d2, e);
    }
}

/// `s` with the two items at `idx` and `idx + 1` replaced by `x`.
pub open spec fn replace2<A>(s: Seq<A>, idx: int, x: A) -> Seq<A> {
    s.subrange(0, idx).push(x) + s.subrange(idx + 2, s.len() as int)
}

/// `new` becomes the internal node `src` with children `idx` and `idx + 1`
/// replaced by one child at `merged_ptr` whose first key is `merged_key`.
pub fn node_replace_2kid(new: &mut BNode, src: &BNode, idx: u16, merged_ptr: u64, merged_key: &[u8])
    requires
        node_ok(src@),
        idx + 2 <= nkeys_of(src@),
        4 <= old(new)@.len() <= u16::MAX,
        nbytes_of(src@) - 10 - kv_size(src@, idx as int) - kv_size(src@, idx + 1) + 4
            + merged_key@.len() <= old(new)@.len(),
    ensures
        final(new)@.len() == old(new)@.len(),
        node_ok(final(new)@),
        node_view(final(new)@) == (NodeView {
            btype: BNODE_NODE as int,
            ptrs: replace2(node_view(src@).ptrs, idx as int, merged_ptr),
            keys: replace2(node_view(src@).keys, idx as int, merged_key@),
            vals: replace2(node_view(src@).vals, idx as int, Seq::<u8>::empty()),
        }),
        nbytes_of(final(new)@) == nbytes_of(src@) - 10 - kv_size(src@, idx as int) - kv_size(
            src@,
            idx + 1,
        ) + 4 + merged_key@.len(),
{
    let n = src.nkeys();
    proof {
        lemma_kvpos_mono(src@, n as int, 0, idx as int);
        lemma_kvpos_mono(src@, n as int, idx as int, idx + 1);
        lemma_kvpos_mono(src@, n as int, idx + 1, idx + 2);
        lemma_kvpos_mono(src@, n as int, idx + 2, n as int);
        assert(kv_ok(src@, idx as int));
        assert(kv_ok(src@, idx + 1));
    }
    new.set_header(BNODE_NODE, n - 1);
    node_append_range(new, src, 0, 0, idx);
    let ghost d1 = new@;
    let empty: [u8; 0] = [];
    node_append_kv(new, idx, merged_ptr, merged_key, empty.as_slice());
    let ghost d2 = new@;
    node_append_range(new, src, idx + 1, idx + 2, n - (idx + 2));
    let ghost d3 = new@;
    proof {
        let v = node_view(src@);
        let e = NodeView {
            btype: BNODE_NODE as int,
            ptrs: replace2(v.ptrs, idx as int, merged_ptr),
            keys: replace2(v.keys, idx as int, merged_key@),
            vals: replace2(v.vals, idx as int, Seq::<u8>::empty()),
        };
        assert(empty@ =~= Seq::<u8>::empty());
        assert forall|i: int| 0 <= i < n - 1 implies #[trigger] ptr_of(d3, i) == e.ptrs[i]
            && key_of(d3, i) == e.keys[i] && val_of(d3, i) == e.vals[i] by {
            if i < idx {
                assert(entry_eq(d1, 0 + i, src@, 0 + i));
                assert(layout_same(d1, d2, i));
                assert(layout_same(d2, d3, i));
            } else if i == idx {
                assert(layout_same(d2, d3, idx as int));
            } else {
                assert(entry_eq(d3, idx + 1 + (i - idx - 1), src@, idx + 2 + (i - idx - 1)));
            }
        }
        lemma_view_from_entries(d3, e);
    }
}

/// The node image behind entry `j` of the internal node `d`.
pub open spec fn kid(pages: Map<u64, Seq<u8>>, d: Seq<u8>, j: int) -> Seq<u8> {
    pages[node_view(d).ptrs[j]]
}

/// Which neighbour a child that now takes `upd` bytes merges with: `-1`
/// the left one, `1` the right one, `0` none. A child is merged only when
/// it shrank to a quarter page, and only with a neighbour that the two
/// then fit in one page with.
pub open spec fn merge_choice(pages: Map<u64, Seq<u8>>, d: Seq<u8>, i: int, upd: int) -> int {
    if upd > PAGE_SIZE / 4 {
        0
    } else if i > 0 && nbytes_of(kid(pages, d, i - 1)) + upd - 4 <= PAGE_SIZE {
        -1
    } else if i + 1 < nkeys_of(d) && nbytes_of(kid(pages, d, i + 1)) + upd - 4 <= PAGE_SIZE {
        1
    } else {
        0
    }
}

/// What deleting `key` below a node gives, in the terms the levels above
/// need: whether the key was found, and the size, key count and first key
/// of the node that replaces it.
pub struct DelShape {
    pub found: bool,
    pub bytes: int,
    pub nkeys: int,
    pub key0: Seq<u8>,
}

pub open spec fn not_found() -> DelShape {
    DelShape { found: false, bytes: 0, nkeys: 0, key0: Seq::empty() }
}

pub open spec fn del_shape(pages: Map<u64, Seq<u8>>, d: Seq<u8>, key: Seq<u8>, fuel: nat) -> DelShape
    decreases fuel,
{
    let v = node_view(d);
    let i = lookup_le(v.keys, key);
    let n = nkeys_of(d);
    if btype_of(d) == BNODE_NODE {
        if fuel == 0 {
            not_found()
        } else {
            let c = del_shape(pages, pages[v.ptrs[i]], key, (fuel - 1) as nat);
            let ch = merge_choice(pages, d, i, c.bytes);
            if !c.found {
                not_found()
            } else if ch == -1 {
                let mkey = node_view(kid(pages, d, i - 1)).keys[0];
                DelShape {
                    found: true,
                    bytes: nbytes_of(d) - 10 - kv_size(d, i - 1) - kv_size(d, i) + 4 + mkey.len(),
                    nkeys: n - 1,
                    key0: if i - 1 == 0 {
                        mkey
                    } else {
                        v.keys[0]
                    },
                }
            } else if ch == 1 {
                let mkey = if c.nkeys >= 1 {
                    c.key0
                } else {
                    node_view(kid(pages, d, i + 1)).keys[0]
                };
                DelShape {
                    found: true,
                    bytes: nbytes_of(d) - 10 - kv_size(d, i) - kv_size(d, i + 1) + 4 + mkey.len(),
                    nkeys: n - 1,
                    key0: if i == 0 {
                        mkey
                    } else {
                        v.keys[0]
                    },
                }
            } else {
                DelShape {
                    found: true,
                    bytes: nbytes_of(d) - 10 - kv_size(d, i) + 14 + c.key0.len(),
                    nkeys: n,
                    key0: if i == 0 {
                        c.key0
                    } else {
                        v.keys[0]
                    },
                }
            }
        }
    } else if v.keys[i] == key {
        DelShape {
            found: true,
            bytes: nbytes_of(d) - 10 - kv_size(d, i),
            nkeys: n - 1,
            key0: if i == 0 {
                v.keys[1]
            } else {
                v.keys[0]
            },
        }
    } else {
        not_found()
    }
}

/// The pages a deletion of `key` below `d` reads or frees: the descent and
/// the neighbours of each child it goes down to.
pub open spec fn touched(pages: Map<u64, Seq<u8>>, d: Seq<u8>, key: Seq<u8>, fuel: nat) -> Set<u64>
    decreases fuel,
{
    let v = node_view(d);
    let i = lookup_le(v.keys, key);
    if btype_of(d) == BNODE_NODE && fuel > 0 {
        let left = if i > 0 {
            set![v.ptrs[i - 1]]
        } else {
            Set::empty()
        };
        let right = if i + 1 < nkeys_of(d) {
            set![v.ptrs[i + 1]]
        } else {
            Set::empty()
        };
        set![v.ptrs[i]].union(left).union(right).union(
            touched(pages, pages[v.ptrs[i]], key, (fuel - 1) as nat),
        )
    } else {
        Set::empty()
    }
}

/// Every page of `before` outside `except` is held unchanged in `after`.
pub open spec fn kept_outside(before: Map<u64, Seq<u8>>, after: Map<u64, Seq<u8>>, except: Set<u64>) -> bool {
    forall|q: u64|
        before.dom().contains(q) && !except.contains(q) ==> #[trigger] after.dom().contains(q)
            && after[q] == before[q]
}

/// Neighbour `j` of the child below `d` is a held, well-formed page that
/// the deletion below does not touch.
pub open spec fn neighbour_ok(pages: Map<u64, Seq<u8>>, d: Seq<u8>, key: Seq<u8>, fuel: nat, j: int) -> bool {
    let p = node_view(d).ptrs[j];
    let c = child_ptr(d, key);
    &&& pages.dom().contains(p)
    &&& p != c
    &&& !touched(pages, pages[c], key, (fuel - 1) as nat).contains(p)
    &&& node_ok(pages[p])
    &&& nkeys_of(pages[p]) >= 1
    &&& nbytes_of(pages[p]) <= PAGE_SIZE
}

/// The deletion of `key` below `d` runs without failing: every node it
/// reads is well formed and fits a page, pages are not shared along the
/// way, and every node it builds fits a page.
pub open spec fn delete_path_ok(pages: Map<u64, Seq<u8>>, d: Seq<u8>, key: Seq<u8>, fuel: nat) -> bool
    decreases fuel,
{
    let v = node_view(d);
    let i = lookup_le(v.keys, key);
    let n = nkeys_of(d);
    &&& node_ok(d)
    &&& n >= 1
    &&& nbytes_of(d) <= PAGE_SIZE
    &&& (btype_of(d) == BNODE_LEAF || (btype_of(d) == BNODE_NODE && fuel > 0 && {
        let p = child_ptr(d, key);
        let c = del_shape(pages, pages[p], key, (fuel - 1) as nat);
        let small = c.found && c.bytes <= PAGE_SIZE / 4;
        let left_fits = i > 0 && nbytes_of(kid(pages, d, i - 1)) + c.bytes - 4 <= PAGE_SIZE;
        &&& pages.dom().contains(p)
        &&& !touched(pages, pages[p], key, (fuel - 1) as nat).contains(p)
        &&& delete_path_ok(pages, pages[p], key, (fuel - 1) as nat)
        &&& (small && i > 0 ==> neighbour_ok(pages, d, key, fuel, i - 1))
        &&& (small && !left_fits && i + 1 < n ==> neighbour_ok(pages, d, key, fuel, i + 1))
        &&& (c.found ==> del_shape(pages, d, key, fuel).bytes <= PAGE_SIZE)
        &&& (c.found && merge_choice(pages, d, i, c.bytes) == 0 ==> c.nkeys >= 1)
    }))
}

/// A descent a deletion can run is a descent, and the deletion finds the
/// key exactly when a lookup does.
pub proof fn lemma_delete_finds_as_lookup(pages: Map<u64, Seq<u8>>, d: Seq<u8>, key: Seq<u8>, fuel: nat)
    requires
        delete_path_ok(pages, d, key, fuel),
    ensures
        path_ok(pages, d, key, fuel),
        del_shape(pages, d, key, fuel).found <==> search_from(pages, d, key, fuel) is Some,
    decreases fuel,
{
    if btype_of(d) == BNODE_NODE {
        lemma_delete_finds_as_lookup(pages, pages[child_ptr(d, key)], key, (fuel - 1) as nat);
    }
}

/// `res` is what deleting `key` below `d` built, as `del_shape` says.
pub open spec fn delete_result(pages: Map<u64, Seq<u8>>, d: Seq<u8>, key: Seq<u8>, fuel: nat, res: Seq<u8>) -> bool {
    let s = del_shape(pages, d, key, fuel);
    &&& res.len() == PAGE_SIZE
    &&& node_ok(res)
    &&& nbytes_of(res) == s.bytes
    &&& nkeys_of(res) == s.nkeys
    &&& (s.nkeys >= 1 ==> node_view(res).keys[0] == s.key0)
    &&& btype_of(res) == btype_of(d)
    &&& (btype_of(d) == BNODE_LEAF ==> node_view(res) == (NodeView {
        btype: BNODE_LEAF as int,
        ptrs: node_view(d).ptrs.remove(lookup_le(node_view(d).keys, key)),
        keys: node_view(d).keys.remove(lookup_le(node_view(d).keys, key)),
        vals: node_view(d).vals.remove(lookup_le(node_view(d).keys, key)),
    }))
}

/// Deletes `key` below `node`; `None` if it is not there.
pub(crate) fn tree_delete<S: PageStore>(
    tree: &mut BTree<S>,
    node: &BNode,
    key: &[u8],
    Ghost(fuel): Ghost<nat>,
    Ghost(hi): Ghost<Option<Seq<u8>>>,
) -> (res: Option<BNode>)
    requires
        delete_path_ok(old(tree).store.pages(), node@, key@, fuel),
    ensures
        res is Some <==> del_shape(old(tree).store.pages(), node@, key@, fuel).found,
        res is None ==> final(tree).store.pages() == old(tree).store.pages(),
        match res {
            Some(n) => delete_result(old(tree).store.pages(), node@, key@, fuel, n@),
            None => true,
        },
        res matches Some(n) ==> (tree_ok(old(tree).store.pages(), node@, node_view(node@).keys[0], hi, fuel)
            && in_range(key@, node_view(node@).keys[0], hi) && (exists|h: nat|
            level_ok(old(tree).store.pages(), node@, h)) ==> shrunk_ok(
            old(tree).store.pages(),
            final(tree).store.pages(),
            node@,
            n@,
            key@,
            hi,
            fuel,
        )),
        kept_outside(
            old(tree).store.pages(),
            final(tree).store.pages(),
            touched(old(tree).store.pages(), node@, key@, fuel),
        ),
        final(tree).root == old(tree).root,
    decreases fuel, 1nat,
{
    let idx = node_lookup_le(node, key);
    proof {
        lemma_lookup_bounds(node_view(node@).keys, key@);
    }
    if node.btype() == BNODE_LEAF {
        if !keys_equal(key, node.get_key(idx)) {
            return None;
        }
        proof {
            lemma_kvpos_mono(node@, nkeys_of(node@), idx as int, idx + 1);
            lemma_kvpos_mono(node@, nkeys_of(node@), idx + 1, nkeys_of(node@));
            assert(kv_ok(node@, idx as int));
        }
        let mut new = BNode::with_capacity(PAGE_SIZE);
        leaf_delete(&mut new, node, idx);
        proof {
            assert(node_view(new@).keys.len() == nkeys_of(new@));
            let p = tree.store.pages();
            if tree_ok(p, node@, node_view(node@).keys[0], hi, fuel) {
                lemma_leaf_shrunk(p, node@, new@, key@, hi, fuel);
            }
        }
        Some(new)
    } else {
        node_delete(tree, node, idx, key, Ghost(fuel), Ghost(hi))
    }
}

/// Which neighbour, if any, a child merges with.
enum MergeDir {
    Left(BNode),
    Right(BNode),
    Keep,
}

/// Decides whether the child at `idx`, now `updated`, merges with a
/// neighbour, and reads that neighbour.
fn should_merge<S: PageStore>(tree: &mut BTree<S>, node: &BNode, idx: u16, updated: &BNode) -> (res:
    MergeDir)
    requires
        node_ok(node@),
        idx < nkeys_of(node@),
        node_ok(updated@),
        nbytes_of(updated@) <= PAGE_SIZE / 4 && idx > 0 ==> {
            &&& old(tree).store.pages().dom().contains(node_view(node@).ptrs[idx - 1])
            &&& node_ok(kid(old(tree).store.pages(), node@, idx - 1))
        },
        nbytes_of(updated@) <= PAGE_SIZE / 4 && !(idx > 0 && nbytes_of(
            kid(old(tree).store.pages(), node@, idx - 1),
        ) + nbytes_of(updated@) - 4 <= PAGE_SIZE) && idx + 1 < nkeys_of(node@) ==> {
            &&& old(tree).store.pages().dom().contains(node_view(node@).ptrs[idx + 1])
            &&& node_ok(kid(old(tree).store.pages(), node@, idx + 1))
        },
    ensures
        final(tree).store.pages() == old(tree).store.pages(),
        final(tree).root == old(tree).root,
        match res {
            MergeDir::Left(s) => merge_choice(old(tree).store.pages(), node@, idx as int, nbytes_of(updated@))
                == -1 && s@ == kid(old(tree).store.pages(), node@, idx - 1),
            MergeDir::Right(s) => merge_choice(old(tree).store.pages(), node@, idx as int, nbytes_of(
                updated@,
            )) == 1 && s@ == kid(old(tree).store.pages(), node@, idx + 1),
            MergeDir::Keep => merge_choice(old(tree).store.pages(), node@, idx as int, nbytes_of(
                updated@,
            )) == 0,
        },
{
    proof {
        lemma_kvpos_mono(updated@, nkeys_of(updated@), 0, nkeys_of(updated@));
    }
    if updated.nbytes() as usize > PAGE_SIZE / 4 {
        return MergeDir::Keep;
    }
    if idx > 0 {
        let sibling = tree.store.get(node.get_ptr(idx - 1));
        proof {
            lemma_kvpos_mono(sibling@, nkeys_of(sibling@), 0, nkeys_of(sibling@));
        }
        let merged = sibling.nbytes() as usize + updated.nbytes() as usize - HEADER as usize;
        if merged <= PAGE_SIZE {
            return MergeDir::Left(sibling);
        }
    }
    if idx + 1 < node.nkeys() {
        let sibling = tree.store.get(node.get_ptr(idx + 1));
        proof {
            lemma_kvpos_mono(sibling@, nkeys_of(sibling@), 0, nkeys_of(sibling@));
        }
        let merged = sibling.nbytes() as usize + updated.nbytes() as usize - HEADER as usize;
        if merged <= PAGE_SIZE {
            return MergeDir::Right(sibling);
        }
    }
    MergeDir::Keep
}

/// Deletes `key` below the internal node `node`, whose child `idx` the
/// lookup lands on; merges the child with a neighbour when it shrank.
#[verifier::spinoff_prover]
#[verifier::rlimit(40)]
fn node_delete<S: PageStore>(
    tree: &mut BTree<S>,
    node: &BNode,
    idx: u16,
    key: &[u8],
    Ghost(fuel): Ghost<nat>,
    Ghost(hi): Ghost<Option<Seq<u8>>>,
) -> (res: Option<BNode>)
    requires
        delete_path_ok(old(tree).store.pages(), node@, key@, fuel),
        btype_of(node@) == BNODE_NODE,
        idx as int == lookup_le(node_view(node@).keys, key@),
    ensures
        res is Some <==> del_shape(old(tree).store.pages(), node@, key@, fuel).found,
        res is None ==> final(tree).store.pages() == old(tree).store.pages(),
        match res {
            Some(n) => delete_result(old(tree).store.pages(), node@, key@, fuel, n@),
            None => true,
        },
        res matches Some(n) ==> (tree_ok(old(tree).store.pages(), node@, node_view(node@).keys[0], hi, fuel)
            && in_range(key@, node_view(node@).keys[0], hi) && (exists|h: nat|
            level_ok(old(tree).store.pages(), node@, h)) ==> shrunk_ok(
            old(tree).store.pages(),
            final(tree).store.pages(),
            node@,
            n@,
            key@,
            hi,
            fuel,
        )),
        kept_outside(
            old(tree).store.pages(),
            final(tree).store.pages(),
            touched(old(tree).store.pages(), node@, key@, fuel),
        ),
        final(tree).root == old(tree).root,
    decreases fuel, 0nat,
{
    let ghost pages = tree.store.pages();
    let ghost v = node_view(node@);
    let ghost i = idx as int;
    let ghost n = nkeys_of(node@);
    proof {
        lemma_lookup_bounds(v.keys, key@);
        assert(delete_path_ok(pages, node@, key@, fuel));
        lemma_kvpos_mono(node@, n, i, i + 1);
        lemma_kvpos_mono(node@, n, i + 1, n);
        assert(kv_ok(node@, i));
    }
    let kptr = node.get_ptr(idx);
    assert(kptr == child_ptr(node@, key@));
    let kid_node = tree.store.get(kptr);
    let ghost b = bound_after(v.keys, i, hi);
    let ghost wf = tree_ok(pages, node@, v.keys[0], hi, fuel) && in_range(key@, v.keys[0], hi) && (exists|h: nat|
        level_ok(pages, node@, h));
    let updated = match tree_delete(tree, &kid_node, key, Ghost((fuel - 1) as nat), Ghost(b)) {
        Some(u) => u,
        None => {
            proof {
                assert(tree.store.pages() == pages);
            }
            return None;
        },
    };
    let ghost pages1 = tree.store.pages();
    let ghost u = updated@;
    proof {
        if wf {
            let hh = choose|h: nat| level_ok(pages, node@, h);
            let pi = crate::btree::valid::lemma_sorted_lookup(v.keys, key@);
            assert(pi == i);
            if i + 1 < n {
                crate::btree::valid::lemma_lex_flip(v.keys[i + 1], key@);
            }
            assert(in_range(key@, v.keys[i], b));
            assert(tree_ok(pages, pages[kptr], v.keys[i], b, (fuel - 1) as nat));
            crate::btree::shrink::lemma_kids_same_type(pages, node@, hh, i, i);
            assert(shrunk_ok(pages, pages1, kid_node@, u, key@, b, (fuel - 1) as nat));
        }
    }
    let ghost c = del_shape(pages, pages[kptr], key@, (fuel - 1) as nat);
    let ghost below = touched(pages, pages[kptr], key@, (fuel - 1) as nat);
    tree.store.del(kptr);
    let ghost pages2 = tree.store.pages();
    proof {
        assert(touched(pages, node@, key@, fuel).contains(kptr));
        if i > 0 && c.bytes <= PAGE_SIZE / 4 {
            assert(neighbour_ok(pages, node@, key@, fuel, i - 1));
            assert(pages2.dom().contains(v.ptrs[i - 1]));
            assert(kid(pages2, node@, i - 1) == kid(pages, node@, i - 1));
        }
        if i > 0 {
            if pages2.dom().contains(v.ptrs[i - 1]) {
            }
        }
        let left_fits = i > 0 && nbytes_of(kid(pages, node@, i - 1)) + c.bytes - 4 <= PAGE_SIZE;
        if c.bytes <= PAGE_SIZE / 4 && !left_fits && i + 1 < n {
            assert(neighbour_ok(pages, node@, key@, fuel, i + 1));
            assert(pages1.dom().contains(v.ptrs[i + 1]));
            assert(pages2.dom().contains(v.ptrs[i + 1]));
            assert(kid(pages2, node@, i + 1) == kid(pages, node@, i + 1));
        }
        assert(c.bytes == nbytes_of(updated@));
        assert(forall|q: u64|
            pages.dom().contains(q) && !touched(pages, node@, key@, fuel).contains(q) ==> q != kptr
                && !below.contains(q) && (i > 0 ==> q != v.ptrs[i - 1]) && (i + 1 < n ==> q
                != v.ptrs[i + 1]));
        assert(kept_outside(pages, pages1, below));
        assert forall|q: u64|
            pages.dom().contains(q) && !touched(pages, node@, key@, fuel).contains(q) implies #[trigger] pages2.dom().contains(q)
                && pages2[q] == pages[q] by {
            assert(pages1.dom().contains(q));
        }
    }
    let mut new = BNode::with_capacity(PAGE_SIZE);
    let choice = should_merge(tree, node, idx, &updated);
    proof {
        if i > 0 && c.bytes <= PAGE_SIZE / 4 {
            assert(kid(pages2, node@, i - 1) == kid(pages, node@, i - 1));
        }
        let left_fits = i > 0 && nbytes_of(kid(pages, node@, i - 1)) + c.bytes - 4 <= PAGE_SIZE;
        if c.bytes <= PAGE_SIZE / 4 && !left_fits && i + 1 < n {
            assert(kid(pages2, node@, i + 1) == kid(pages, node@, i + 1));
        }
        assert(merge_choice(pages2, node@, i, c.bytes) == merge_choice(pages, node@, i, c.bytes));
        assert(v.ptrs[i] == kptr);
        assert(del_shape(pages, node@, key@, fuel).bytes <= PAGE_SIZE);
    }
    let ghost sh = del_shape(pages, node@, key@, fuel);
    match choice {
        MergeDir::Left(sibling) => {
            proof {
                lemma_kvpos_mono(node@, n, i - 1, i);
                assert(kv_ok(node@, i - 1));
            }
            assert(sibling@ == kid(pages, node@, i - 1));
            assert(sh.bytes == nbytes_of(node@) - 10 - kv_size(node@, i - 1) - kv_size(node@, i) + 4
                + node_view(sibling@).keys[0].len());
            let mut merged = BNode::with_capacity(PAGE_SIZE);
            node_merge(&mut merged, &sibling, &updated);
            tree.store.del(node.get_ptr(idx - 1));
            let ghost pages3 = tree.store.pages();
            let merged_ptr = tree.store.new_page(merged.duplicate());
            let k0 = merged.get_key(0);
            assert(k0@ == node_view(merged@).keys[0]);
            assert(node_view(merged@).keys[0] == node_view(sibling@).keys[0]);
            node_replace_2kid(&mut new, node, idx - 1, merged_ptr, k0);
            proof {
                assert forall|q: u64|
                    pages.dom().contains(q) && !touched(pages, node@, key@, fuel).contains(q) implies #[trigger] tree.store.pages().dom().contains(q)
                        && tree.store.pages()[q] == pages[q] by {
                    assert(pages2.dom().contains(q));
                    assert(pages3.dom().contains(q));
                }
                assert(kept_outside(pages, tree.store.pages(), touched(pages, node@, key@, fuel)));
                assert(node_view(merged@).keys[0] == node_view(sibling@).keys[0]);
                assert(node_view(new@).keys.len() == nkeys_of(new@));
            }
            proof {
                if wf {
                    let pF = tree.store.pages();
                    let hh = choose|h: nat| level_ok(pages, node@, h);
                    crate::btree::shrink::lemma_kids_same_type(pages, node@, hh, i - 1, i);
                    assert(merged_of(merged@, sibling@, u));
                    assert(nbytes_of(new@) <= PAGE_SIZE);
                    assert(merge_setup(pages, pages1, pF, node@, u, merged@, merged_ptr, new@, key@, hi, fuel, i - 1));
                    lemma_merge_left(pages, pages1, pF, node@, u, merged@, merged_ptr, new@, key@, hi, fuel);
                    lemma_splice(pages, pF, node@, new@, merged@, merged_ptr, i - 1, 2, key@, hi, fuel);
                }
            }
            Some(new)
        },
        MergeDir::Right(sibling) => {
            proof {
                lemma_kvpos_mono(node@, n, i + 1, i + 2);
                lemma_kvpos_mono(node@, n, i + 2, n);
                assert(kv_ok(node@, i + 1));
            }
            assert(sibling@ == kid(pages, node@, i + 1));
            assert(sh.bytes == nbytes_of(node@) - 10 - kv_size(node@, i) - kv_size(node@, i + 1) + 4
                + (if c.nkeys >= 1 { c.key0 } else { node_view(sibling@).keys[0] }).len());
            let mut merged = BNode::with_capacity(PAGE_SIZE);
            node_merge(&mut merged, &updated, &sibling);
            tree.store.del(node.get_ptr(idx + 1));
            let ghost pages3 = tree.store.pages();
            let merged_ptr = tree.store.new_page(merged.duplicate());
            let k0 = merged.get_key(0);
            assert(k0@ == node_view(merged@).keys[0]);
            proof {
                if nkeys_of(updated@) >= 1 {
                    assert(node_view(merged@).keys[0] == node_view(updated@).keys[0]);
                    assert(c.key0 == node_view(updated@).keys[0]);
                } else {
                    assert(node_view(merged@).keys[0] == node_view(sibling@).keys[0]);
                }
            }
            node_replace_2kid(&mut new, node, idx, merged_ptr, k0);
            proof {
                assert forall|q: u64|
                    pages.dom().contains(q) && !touched(pages, node@, key@, fuel).contains(q) implies #[trigger] tree.store.pages().dom().contains(q)
                        && tree.store.pages()[q] == pages[q] by {
                    assert(pages2.dom().contains(q));
                    assert(pages3.dom().contains(q));
                }
                assert(kept_outside(pages, tree.store.pages(), touched(pages, node@, key@, fuel)));
                if nkeys_of(updated@) >= 1 {
                    assert(node_view(merged@).keys[0] == node_view(updated@).keys[0]);
                } else {
                    assert(node_view(merged@).keys[0] == node_view(sibling@).keys[0]);
                }
                assert(node_view(new@).keys.len() == nkeys_of(new@));
            }
            proof {
                if wf {
                    let pF = tree.store.pages();
                    let hh = choose|h: nat| level_ok(pages, node@, h);
                    crate::btree::shrink::lemma_kids_same_type(pages, node@, hh, i + 1, i);
                    assert(merged_of(merged@, u, sibling@));
                    assert(nbytes_of(new@) <= PAGE_SIZE);
                    assert(merge_setup(pages, pages1, pF, node@, u, merged@, merged_ptr, new@, key@, hi, fuel, i + 1));
                    lemma_merge_right(pages, pages1, pF, node@, u, merged@, merged_ptr, new@, key@, hi, fuel);
                    lemma_splice(pages, pF, node@, new@, merged@, merged_ptr, i, 2, key@, hi, fuel);
                }
            }
            Some(new)
        },
        MergeDir::Keep => {
            assert(sh.bytes == nbytes_of(node@) - 10 - kv_size(node@, i) + 14 + c.key0.len());
            assert(c.nkeys >= 1);
            let mut kids: Vec<BNode> = Vec::new();
            kids.push(updated);
            proof {
                assert(kids@.drop_last() =~= Seq::<BNode>::empty());
                assert(c.key0 == node_view(updated@).keys[0]);
                assert(kids_bytes(Seq::<BNode>::empty()) == 0);
                assert(kids@.last() == updated);
                assert(kids_bytes(kids@) == 14 + node_view(updated@).keys[0].len());
            }
            node_replace_kid_n(tree, &mut new, node, idx, kids.as_slice());
            proof {
                assert forall|q: u64|
                    pages.dom().contains(q) && !touched(pages, node@, key@, fuel).contains(q) implies #[trigger] tree.store.pages().dom().contains(q)
                        && tree.store.pages()[q] == pages[q] by {
                    assert(pages2.dom().contains(q));
                }
                assert(kept_outside(pages, tree.store.pages(), touched(pages, node@, key@, fuel)));
                assert(node_view(new@).keys.len() == nkeys_of(new@));
                if i == 0 {
                    assert(node_view(new@).keys[0] == node_view(updated@).keys[0]);
                } else {
                    assert(node_view(new@).keys[0] == v.keys[0]);
                }
            }
            proof {
                if wf {
                    let pF = tree.store.pages();
                    let w = node_view(new@);
                    let qu = w.ptrs[i];
                    assert(kids@[0] == updated);
                    assert(w.ptrs[i + 0] == qu);
                    assert(crate::btree::insert::first_keys(kids@) =~= seq![node_view(u).keys[0]]);
                    assert(w.keys =~= v.keys.update(i, node_view(u).keys[0]));
                    assert(w.vals =~= v.vals.update(i, Seq::<u8>::empty()));
                    assert(w.ptrs =~= v.ptrs.update(i, qu)) by {
                        assert forall|t: int| 0 <= t < n implies #[trigger] w.ptrs[t] == v.ptrs.update(i, qu)[t] by {
                            if t < i {
                                assert(w.ptrs.subrange(0, i)[t] == v.ptrs.subrange(0, i)[t]);
                            } else if t > i {
                                assert(w.ptrs.subrange(i + 1, n)[t - i - 1] == v.ptrs.subrange(i + 1, n)[t - i - 1]);
                            }
                        }
                    }
                    assert(nbytes_of(new@) <= PAGE_SIZE);
                    assert(nbytes_of(u) <= PAGE_SIZE) by {
                        let kn = pages[kptr];
                        if btype_of(kn) == BNODE_LEAF {
                            lemma_kvpos_mono(kn, nkeys_of(kn), 0, nkeys_of(kn));
                        }
                    }
                    lemma_keep(pages, pages1, pF, node@, u, qu, new@, key@, hi, fuel);
                    lemma_splice(pages, pF, node@, new@, u, qu, i, 1, key@, hi, fuel);
                }
            }
            Some(new)
        },
    }
}


/// In a subtree whose leaves lie `h` levels down, a deletion that runs
/// with some fuel runs the same with any fuel of at least `h`.
pub proof fn lemma_delete_fuel(pages: Map<u64, Seq<u8>>, d: Seq<u8>, key: Seq<u8>, h: nat, f: nat, g: nat)
    requires
        level_ok(pages, d, h),
        delete_path_ok(pages, d, key, f),
        g >= h,
    ensures
        f >= h,
        delete_path_ok(pages, d, key, g),
        del_shape(pages, d, key, g) == del_shape(pages, d, key, f),
        touched(pages, d, key, g) == touched(pages, d, key, f),
    decreases h,
{
    if btype_of(d) == BNODE_NODE {
        let v = node_view(d);
        lemma_lookup_bounds(v.keys, key);
        assert(v.keys.len() == nkeys_of(d));
        let i = lookup_le(v.keys, key);
        assert(h >= 1);
        assert(pages.dom().contains(v.ptrs[i]) && level_ok(pages, pages[v.ptrs[i]], (h - 1) as nat));
        lemma_delete_fuel(pages, pages[v.ptrs[i]], key, (h - 1) as nat, (f - 1) as nat, (g - 1) as nat);
    } else {
        assert(h == 0);
    }
}


/// What a deletion of `key` below `d` needs beyond a well-formed tree:
/// along the descent, each node it rebuilds fits a page, and a child it
/// empties has a neighbour to merge with.
pub open spec fn delete_fits(pages: Map<u64, Seq<u8>>, d: Seq<u8>, key: Seq<u8>, fuel: nat) -> bool
    decreases fuel,
{
    btype_of(d) == BNODE_NODE && fuel > 0 ==> {
        let i = lookup_le(node_view(d).keys, key);
        let p = child_ptr(d, key);
        let c = del_shape(pages, pages[p], key, (fuel - 1) as nat);
        &&& (c.found ==> del_shape(pages, d, key, fuel).bytes <= PAGE_SIZE)
        &&& (c.found && merge_choice(pages, d, i, c.bytes) == 0 ==> c.nkeys >= 1)
        &&& delete_fits(pages, pages[p], key, (fuel - 1) as nat)
    }
}

/// The pages a deletion reads or frees below a well-formed subtree lie
/// below it.
proof fn lemma_touched_below(
    pages: Map<u64, Seq<u8>>,
    d: Seq<u8>,
    lo: Seq<u8>,
    hi: Option<Seq<u8>>,
    fuel: nat,
    key: Seq<u8>,
)
    requires
        tree_ok(pages, d, lo, hi, fuel),
    ensures
        forall|q: u64| #[trigger] touched(pages, d, key, fuel).contains(q) ==> below(pages, d, fuel, q),
    decreases fuel,
{
    let v = node_view(d);
    if btype_of(d) == BNODE_NODE && fuel > 0 {
        let n = nkeys_of(d);
        assert(v.keys.len() == n);
        lemma_lookup_bounds(v.keys, key);
        let i = lookup_le(v.keys, key);
        let f1 = (fuel - 1) as nat;
        assert(tree_ok(pages, pages[v.ptrs[i]], v.keys[i], bound_after(v.keys, i, hi), f1));
        lemma_touched_below(pages, pages[v.ptrs[i]], v.keys[i], bound_after(v.keys, i, hi), f1, key);
        assert forall|q: u64| #[trigger] touched(pages, d, key, fuel).contains(q) implies below(pages, d, fuel, q) by {
            if q == v.ptrs[i] {
                crate::btree::valid::lemma_below_intro(pages, d, fuel, i, q);
            } else if i > 0 && q == v.ptrs[i - 1] {
                crate::btree::valid::lemma_below_intro(pages, d, fuel, i - 1, q);
            } else if i + 1 < n && q == v.ptrs[i + 1] {
                crate::btree::valid::lemma_below_intro(pages, d, fuel, i + 1, q);
            } else {
                assert(touched(pages, pages[v.ptrs[i]], key, f1).contains(q));
                crate::btree::valid::lemma_below_intro(pages, d, fuel, i, q);
            }
        }
    }
}

/// In a well-formed subtree, a deletion whose rebuilt nodes fit runs.
pub proof fn lemma_delete_ready(
    pages: Map<u64, Seq<u8>>,
    d: Seq<u8>,
    lo: Seq<u8>,
    hi: Option<Seq<u8>>,
    fuel: nat,
    key: Seq<u8>,
)
    requires
        tree_ok(pages, d, lo, hi, fuel),
        delete_fits(pages, d, key, fuel),
    ensures
        delete_path_ok(pages, d, key, fuel),
    decreases fuel,
{
    let v = node_view(d);
    if btype_of(d) == BNODE_NODE {
        let n = nkeys_of(d);
        assert(v.keys.len() == n);
        lemma_lookup_bounds(v.keys, key);
        let i = lookup_le(v.keys, key);
        let f1 = (fuel - 1) as nat;
        let c = v.ptrs[i];
        let b = bound_after(v.keys, i, hi);
        assert(tree_ok(pages, pages[c], v.keys[i], b, f1));
        lemma_delete_ready(pages, pages[c], v.keys[i], b, f1, key);
        lemma_touched_below(pages, pages[c], v.keys[i], b, f1, key);
        assert(!below(pages, pages[c], f1, c));
        assert(crate::btree::valid::in_kid(pages, d, fuel, i, c));
        assert forall|j: int| 0 <= j < n && j != i implies neighbour_ok(pages, d, key, fuel, j) by {
            let pj = v.ptrs[j];
            assert(crate::btree::valid::in_kid(pages, d, fuel, j, pj));
            assert(tree_ok(pages, pages[pj], v.keys[j], bound_after(v.keys, j, hi), f1));
            if j < i {
                assert(!(crate::btree::valid::in_kid(pages, d, fuel, j, pj) && crate::btree::valid::in_kid(pages, d, fuel, i, pj)));
            } else {
                assert(!(crate::btree::valid::in_kid(pages, d, fuel, i, pj) && crate::btree::valid::in_kid(pages, d, fuel, j, pj)));
            }
            if touched(pages, pages[c], key, f1).contains(pj) {
                assert(below(pages, pages[c], f1, pj));
                assert(crate::btree::valid::in_kid(pages, d, fuel, i, pj));
            }
        }
        if i > 0 {
            assert(neighbour_ok(pages, d, key, fuel, i - 1));
        }
        if i + 1 < n {
            assert(neighbour_ok(pages, d, key, fuel, i + 1));
        }
    }
}


/// What `del_shape` says of a deletion, in machine integers (the first key
/// by its length), and whether the deletion fits.
pub struct ShapeCheck {
    pub found: bool,
    pub bytes: i64,
    pub nkeys: i64,
    pub key0_len: i64,
    pub fits: bool,
}

/// The check agrees with the shape wherever the deletion fits.
pub open spec fn check_matches(r: ShapeCheck, s: DelShape, fits: bool) -> bool {
    &&& r.found == s.found
    &&& r.fits == fits
    &&& fits && s.found ==> {
        &&& r.bytes == s.bytes
        &&& r.nkeys == s.nkeys
        &&& s.nkeys >= 1 ==> r.key0_len == s.key0.len()
        &&& 0 <= r.key0_len <= 65535
        &&& -300000 <= r.bytes <= 300000
        &&& 0 <= r.nkeys <= 65535
    }
}

/// The bytes entry `i` of `node` takes besides its offset and pointer.
fn entry_size(node: &BNode, i: u16) -> (res: i64)
    requires
        node_ok(node@),
        i < nkeys_of(node@),
    ensures
        res == kv_size(node@, i as int),
        0 <= res <= 4 + 2 * 65535,
{
    proof {
        crate::btree::split::lemma_entry_lens(node@, i as int);
        lemma_kvpos_mono(node@, nkeys_of(node@), 0, nkeys_of(node@));
    }
    let k = node.get_key(i).len();
    let v = node.get_val(i).len();
    4 + k as i64 + v as i64
}

/// Reads what deleting `key` below `node` would do, without changing a page.
#[verifier::spinoff_prover]
#[verifier::rlimit(80)]
pub(crate) fn check_delete<S: PageStore>(
    tree: &mut BTree<S>,
    node: &BNode,
    key: &[u8],
    Ghost(fuel): Ghost<nat>,
    Ghost(lo): Ghost<Seq<u8>>,
    Ghost(hi): Ghost<Option<Seq<u8>>>,
) -> (res: ShapeCheck)
    requires
        tree_ok(old(tree).store.pages(), node@, lo, hi, fuel),
    ensures
        final(tree).store.pages() == old(tree).store.pages(),
        final(tree).root == old(tree).root,
        check_matches(
            res,
            del_shape(old(tree).store.pages(), node@, key@, fuel),
            delete_fits(old(tree).store.pages(), node@, key@, fuel),
        ),
    decreases fuel,
{
    let ghost pages = tree.store.pages();
    let ghost v = node_view(node@);
    let n = node.nkeys();
    proof {
        lemma_kvpos_mono(node@, nkeys_of(node@), 0, nkeys_of(node@));
        assert(v.keys.len() == n);
    }
    let idx = node_lookup_le(node, key);
    proof {
        lemma_lookup_bounds(v.keys, key@);
    }
    let ghost i = idx as int;
    let nb = node.nbytes() as i64;
    if node.btype() == BNODE_LEAF {
        if !keys_equal(key, node.get_key(idx)) {
            return ShapeCheck { found: false, bytes: 0, nkeys: 0, key0_len: 0, fits: true };
        }
        let kv = entry_size(node, idx);
        let key0_len: i64 = if idx == 0 {
            if n >= 2 {
                proof {
                    crate::btree::split::lemma_entry_lens(node@, 1);
                }
                node.get_key(1).len() as i64
            } else {
                0
            }
        } else {
            proof {
                crate::btree::split::lemma_entry_lens(node@, 0);
            }
            node.get_key(0).len() as i64
        };
        return ShapeCheck { found: true, bytes: nb - 10 - kv, nkeys: n as i64 - 1, key0_len, fits: true };
    }
    let ptr = node.get_ptr(idx);
    let ghost f1 = (fuel - 1) as nat;
    let ghost b = bound_after(v.keys, i, hi);
    assert(btype_of(node@) == BNODE_NODE);
    assert(ptr == v.ptrs[i]);
    assert(tree_ok(pages, pages[ptr], v.keys[i], b, f1));
    let kid_node = tree.store.get(ptr);
    let c = check_delete(tree, &kid_node, key, Ghost(f1), Ghost(v.keys[i]), Ghost(b));
    if !c.found {
        return ShapeCheck { found: false, bytes: 0, nkeys: 0, key0_len: 0, fits: c.fits };
    }
    if !c.fits {
        return ShapeCheck { found: true, bytes: 0, nkeys: 0, key0_len: 0, fits: false };
    }
    // Which neighbour the child would merge with.
    let mut left_bytes: i64 = 0;
    let mut left_key0: i64 = 0;
    let mut right_bytes: i64 = 0;
    let mut right_key0: i64 = 0;
    if idx > 0 {
        assert(tree_ok(pages, pages[v.ptrs[i - 1]], v.keys[i - 1], bound_after(v.keys, i - 1, hi), f1));
        assert(ptr_of(node@, i - 1) == v.ptrs[i - 1]);
        let sib = tree.store.get(node.get_ptr(idx - 1));
        proof {
            lemma_kvpos_mono(sib@, nkeys_of(sib@), 0, nkeys_of(sib@));
            crate::btree::split::lemma_entry_lens(sib@, 0);
        }
        left_bytes = sib.nbytes() as i64;
        left_key0 = sib.get_key(0).len() as i64;
    }
    if idx + 1 < n {
        assert(tree_ok(pages, pages[v.ptrs[i + 1]], v.keys[i + 1], bound_after(v.keys, i + 1, hi), f1));
        assert(ptr_of(node@, i + 1) == v.ptrs[i + 1]);
        let sib = tree.store.get(node.get_ptr(idx + 1));
        proof {
            lemma_kvpos_mono(sib@, nkeys_of(sib@), 0, nkeys_of(sib@));
            crate::btree::split::lemma_entry_lens(sib@, 0);
        }
        right_bytes = sib.nbytes() as i64;
        right_key0 = sib.get_key(0).len() as i64;
    }
    let page: i64 = PAGE_SIZE as i64;
    let ch: i64 = if c.bytes > page / 4 {
        0
    } else if idx > 0 && left_bytes + c.bytes - 4 <= page {
        -1
    } else if idx + 1 < n && right_bytes + c.bytes - 4 <= page {
        1
    } else {
        0
    };
    proof {
        assert(ch == merge_choice(pages, node@, i, c.bytes as int));
        crate::btree::split::lemma_entry_lens(node@, 0);
    }
    let first_len = node.get_key(0).len() as i64;
    let kv_i = entry_size(node, idx);
    let (bytes, nkeys, key0_len) = if ch == -1 {
        let kv_l = entry_size(node, idx - 1);
        let k0 = if idx - 1 == 0 { left_key0 } else { first_len };
        (nb - 10 - kv_l - kv_i + 4 + left_key0, n as i64 - 1, k0)
    } else if ch == 1 {
        let kv_r = entry_size(node, idx + 1);
        let mkey = if c.nkeys >= 1 { c.key0_len } else { right_key0 };
        let k0 = if idx == 0 { mkey } else { first_len };
        (nb - 10 - kv_i - kv_r + 4 + mkey, n as i64 - 1, k0)
    } else {
        let k0 = if idx == 0 { c.key0_len } else { first_len };
        (nb - 10 - kv_i + 14 + c.key0_len, n as i64, k0)
    };
    let fits = bytes <= page && (ch != 0 || c.nkeys >= 1);
    ShapeCheck { found: true, bytes, nkeys, key0_len, fits }
}

} // verus!
