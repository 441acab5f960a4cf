//! Looking a key up in a tree.

use vstd::prelude::*;
use crate::btree::insert::{lookup_le, node_lookup_le};
use crate::btree::keys::keys_equal;
use crate::btree::node::{BNode, BNODE_LEAF, node_view};
use crate::btree::tree::{BTree, PageStore, child_ptr, path_ok, search_from};

verus! {

/// Descends from `node` to the leaf that would hold `key` and returns the
/// value stored with it.
pub(crate) fn tree_search<S: PageStore>(
    tree: &mut BTree<S>,
    node: &BNode,
    key: &[u8],
    Ghost(fuel): Ghost<nat>,
) -> (res: Option<Vec<u8>>)
    requires
        path_ok(old(tree).store.pages(), node@, key@, fuel),
    ensures
        final(tree).root == old(tree).root,
        final(tree).store.pages() == old(tree).store.pages(),
        match res {
            Some(v) => search_from(old(tree).store.pages(), node@, key@, fuel) == Some(v@),
            None => search_from(old(tree).store.pages(), node@, key@, fuel) is None,
        },
    decreases fuel,
{
    let idx = node_lookup_le(node, key);
    proof {
        assert(idx as int == lookup_le(node_view(node@).keys, key@));
    }
    if node.btype() == BNODE_LEAF {
        if keys_equal(key, node.get_key(idx)) {
            Some(vstd::slice::slice_to_vec(node.get_val(idx)))
        } else {
            None
        }
    } else {
        let kptr = node.get_ptr(idx);
        assert(kptr == child_ptr(node@, key@));
        let kid = tree.store.get(kptr);
        tree_search(tree, &kid, key, Ghost((fuel - 1) as nat))
    }
}

} // verus!
