//! The tree: a root page number over a store of pages.

use vstd::prelude::*;
use crate::btree::delete::{del_shape, delete_path_ok, lemma_delete_finds_as_lookup, tree_delete};
use crate::btree::insert::{first_keys, layout_same, lookup_le, node_append_kv, tree_insert_at};
use crate::btree::keys::lemma_lex_eq;
use crate::btree::readback::{
    finds, key_at, lemma_key_at_lookup, lemma_path_fuel, lemma_path_frame, lemma_piece_descent,
    lemma_select_piece, lemma_sorted_fuel, lemma_sorted_path_frame, offset, path_sorted,
};
use crate::btree::split::{piece_keys, piece_ptrs, piece_vals};
use crate::btree::keys::lex_order;
use crate::btree::node::{
    BNode, BNODE_LEAF, BNODE_NODE, BTREE_MAX_KEY_SIZE, BTREE_MAX_VAL_SIZE, NodeView, PAGE_SIZE,
    btype_of, kvpos_of, lemma_view_from_entries, key_of, nbytes_of, nkeys_of, node_ok, node_view, prefix_ok,
    ptr_of, val_of,
};
use crate::btree::search::tree_search;
use crate::btree::shrink::shrunk_ok;
use crate::btree::valid::{
    in_range, keeps_others, lemma_leaf_search, lemma_search_frame, lemma_sorted_lookup,
    below, grown_ok, lemma_below_held, lemma_empty_first, lemma_empty_le, lemma_kept_piece, lemma_new_root_ok,
    lemma_shape_frame, lemma_tree_descent, shape_ok, tree_ok, level_ok, lemma_level_fuel, lemma_level_frame,
    lemma_level_pieces, bound_after, in_kid, lemma_below_intro,
};
use crate::btree::split::{lemma_bounded_fits, node_bounded, node_split3};

verus! {

/// Where the pages of a tree live.
pub trait PageStore {
    /// The pages held, by page number.
    spec fn pages(&self) -> Map<u64, Seq<u8>>;

    /// Reads page `ptr`.
    fn get(&mut self, ptr: u64) -> (res: BNode)
        requires
            old(self).pages().dom().contains(ptr),
        ensures
            final(self).pages() == old(self).pages(),
            res@ == old(self).pages()[ptr],
    ;

    /// Stores `node` in a page not in use, other than 0, and gives its number.
    fn new_page(&mut self, node: BNode) -> (res: u64)
        ensures
            res != 0,
            !old(self).pages().dom().contains(res),
            final(self).pages() == old(self).pages().insert(res, node@),
    ;

    /// Frees page `ptr`.
    fn del(&mut self, ptr: u64)
        ensures
            final(self).pages() == old(self).pages().remove(ptr),
    ;

    /// No page is numbered 0, which stands for no page.
    proof fn lemma_no_page_zero(&self)
        ensures
            !self.pages().dom().contains(0),
    ;
}

/// A store that keeps its pages in memory; page `p` is slot `p - 1`.
pub struct MemStore {
    pub slots: Vec<Option<BNode>>,
}

impl MemStore {
    /// An empty store, with no slots.
    pub fn new() -> (res: MemStore)
        ensures
            res.slots@.len() == 0,
            res.pages() == Map::<u64, Seq<u8>>::empty(),
    {
        let res = MemStore { slots: Vec::new() };
        assert(res.pages() =~= Map::<u64, Seq<u8>>::empty());
        res
    }
}

impl PageStore for MemStore {
    open spec fn pages(&self) -> Map<u64, Seq<u8>> {
        Map::new(
            |p: u64| 1 <= p <= self.slots@.len() && self.slots@[p - 1] is Some,
            |p: u64| self.slots@[p - 1]->Some_0@,
        )
    }

    fn get(&mut self, ptr: u64) -> (res: BNode) {
        let n = self.slots.len();
        assert(self.pages().dom().contains(ptr));
        assert(1 <= ptr <= n);
        let i = (ptr - 1) as usize;
        match &self.slots[i] {
            Some(node) => node.duplicate(),
            None => BNode { data: Vec::new() },
        }
    }

    fn new_page(&mut self, node: BNode) -> (res: u64) {
        self.slots.push(Some(node));
        let res = self.slots.len() as u64;
        assert(self.pages() =~= old(self).pages().insert(res, node@));
        res
    }

    fn del(&mut self, ptr: u64) {
        if 1 <= ptr && ptr <= self.slots.len() as u64 {
            let i = (ptr - 1) as usize;
            self.slots.set(i, None);
        }
        assert(self.pages() =~= old(self).pages().remove(ptr));
    }

    proof fn lemma_no_page_zero(&self) {
    }
}

/// The child a lookup of `key` goes down to from the internal node `d`.
pub open spec fn child_ptr(d: Seq<u8>, key: Seq<u8>) -> u64 {
    node_view(d).ptrs[lookup_le(node_view(d).keys, key)]
}

/// The pages a descent for `key` from `d` visits below `d`, going down at
/// most `fuel` levels.
pub open spec fn path_ptrs(pages: Map<u64, Seq<u8>>, d: Seq<u8>, key: Seq<u8>, fuel: nat) -> Set<
    u64,
>
    decreases fuel,
{
    if btype_of(d) == BNODE_NODE && fuel > 0 {
        set![child_ptr(d, key)].union(path_ptrs(pages, pages[child_ptr(d, key)], key, (fuel - 1) as nat))
    } else {
        Set::empty()
    }
}

/// The descent for `key` from `d` goes through well-formed nodes with at
/// least one key and ends at a leaf within `fuel` levels.
pub open spec fn path_ok(pages: Map<u64, Seq<u8>>, d: Seq<u8>, key: Seq<u8>, fuel: nat) -> bool
    decreases fuel,
{
    &&& node_ok(d)
    &&& nkeys_of(d) >= 1
    &&& (btype_of(d) == BNODE_LEAF || (btype_of(d) == BNODE_NODE && fuel > 0 && pages.dom().contains(
        child_ptr(d, key),
    ) && path_ok(pages, pages[child_ptr(d, key)], key, (fuel - 1) as nat)))
}

/// What a lookup of `key` from `d` finds: the value stored with `key` in the
/// leaf the descent ends at.
pub open spec fn search_from(pages: Map<u64, Seq<u8>>, d: Seq<u8>, key: Seq<u8>, fuel: nat) -> Option<
    Seq<u8>,
>
    decreases fuel,
{
    let v = node_view(d);
    let i = lookup_le(v.keys, key);
    if btype_of(d) == BNODE_NODE {
        if fuel == 0 {
            None
        } else {
            search_from(pages, pages[child_ptr(d, key)], key, (fuel - 1) as nat)
        }
    } else if v.keys[i] == key {
        Some(v.vals[i])
    } else {
        None
    }
}

/// Besides `path_ok`: every node on the descent fits a page and holds keys
/// and values of allowed sizes, and no page comes back lower down.
pub open spec fn insert_path_ok(pages: Map<u64, Seq<u8>>, d: Seq<u8>, key: Seq<u8>, fuel: nat) -> bool
    decreases fuel,
{
    &&& node_ok(d)
    &&& nkeys_of(d) >= 1
    &&& nbytes_of(d) <= PAGE_SIZE
    &&& node_bounded(d)
    &&& (btype_of(d) == BNODE_LEAF || (btype_of(d) == BNODE_NODE && fuel > 0 && pages.dom().contains(
        child_ptr(d, key),
    ) && !path_ptrs(pages, pages[child_ptr(d, key)], key, (fuel - 1) as nat).contains(
        child_ptr(d, key),
    ) && insert_path_ok(pages, pages[child_ptr(d, key)], key, (fuel - 1) as nat)))
}

/// A descent depends only on the pages it visits.
pub proof fn lemma_insert_path_frame(
    pages: Map<u64, Seq<u8>>,
    pages2: Map<u64, Seq<u8>>,
    d: Seq<u8>,
    key: Seq<u8>,
    fuel: nat,
)
    requires
        insert_path_ok(pages, d, key, fuel),
        forall|q: u64| #[trigger]
            path_ptrs(pages, d, key, fuel).contains(q) ==> pages2.dom().contains(q) && pages2[q]
                == pages[q],
    ensures
        insert_path_ok(pages2, d, key, fuel),
        path_ptrs(pages2, d, key, fuel) == path_ptrs(pages, d, key, fuel),
    decreases fuel,
{
    if btype_of(d) == BNODE_NODE && fuel > 0 {
        let p = child_ptr(d, key);
        assert(path_ptrs(pages, d, key, fuel).contains(p));
        let below = path_ptrs(pages, pages[p], key, (fuel - 1) as nat);
        assert forall|q: u64| #[trigger] below.contains(q) implies pages2.dom().contains(q)
            && pages2[q] == pages[q] by {
            assert(path_ptrs(pages, d, key, fuel).contains(q));
        }
        lemma_insert_path_frame(pages, pages2, pages[p], key, (fuel - 1) as nat);
    }
}

/// The pages a well-formed descent visits are in the store.
pub proof fn lemma_path_ptrs_held(pages: Map<u64, Seq<u8>>, d: Seq<u8>, key: Seq<u8>, fuel: nat)
    requires
        insert_path_ok(pages, d, key, fuel),
    ensures
        forall|q: u64| #[trigger] path_ptrs(pages, d, key, fuel).contains(q) ==> pages.dom().contains(q),
    decreases fuel,
{
    if btype_of(d) == BNODE_NODE && fuel > 0 {
        lemma_path_ptrs_held(pages, pages[child_ptr(d, key)], key, (fuel - 1) as nat);
    }
}

/// A descent that fits the insertion bounds is a descent.
pub proof fn lemma_insert_path_is_path(pages: Map<u64, Seq<u8>>, d: Seq<u8>, key: Seq<u8>, fuel: nat)
    requires
        insert_path_ok(pages, d, key, fuel),
    ensures
        path_ok(pages, d, key, fuel),
    decreases fuel,
{
    if btype_of(d) == BNODE_NODE && fuel > 0 {
        lemma_insert_path_is_path(pages, pages[child_ptr(d, key)], key, (fuel - 1) as nat);
    }
}

/// A B+tree: the page number of its root (0 for an empty tree) and the
/// store its pages live in.
pub struct BTree<S: PageStore> {
    pub root: u64,
    pub store: S,
}

/// The root of a tree holding one key: the empty sentinel key first, then
/// the key with its value.
pub open spec fn first_root(key: Seq<u8>, val: Seq<u8>) -> NodeView {
    NodeView {
        btype: BNODE_LEAF as int,
        ptrs: seq![0u64, 0u64],
        keys: seq![Seq::<u8>::empty(), key],
        vals: seq![Seq::<u8>::empty(), val],
    }
}

impl<S: PageStore> BTree<S> {
    /// An empty tree over `store`.
    pub fn new(store: S) -> (res: Self)
        ensures
            res.root == 0,
            res.store == store,
            res.well_formed(),
            res.contents() == Map::<Seq<u8>, Seq<u8>>::empty(),
    {
        let res = BTree { root: 0, store };
        assert(res.contents() =~= Map::<Seq<u8>, Seq<u8>>::empty());
        res
    }

    /// The descent for `key` from the root is well formed.
    pub open spec fn can_search(&self, key: Seq<u8>) -> bool {
        self.root != 0 ==> self.store.pages().dom().contains(self.root) && exists|f: nat|
            path_ok(self.store.pages(), self.store.pages()[self.root], key, f)
    }

    /// What a lookup of `key` finds.
    pub open spec fn lookup(&self, key: Seq<u8>) -> Option<Seq<u8>> {
        if self.root == 0 {
            None
        } else {
            search_from(
                self.store.pages(),
                self.store.pages()[self.root],
                key,
                choose|f: nat| path_ok(self.store.pages(), self.store.pages()[self.root], key, f),
            )
        }
    }

    /// The value stored with `key`, if any.
    pub fn get(&mut self, key: &[u8]) -> (res: Option<Vec<u8>>)
        requires
            key@.len() >= 1,
            key@.len() <= BTREE_MAX_KEY_SIZE,
            old(self).can_search(key@),
        ensures
            final(self).root == old(self).root,
            final(self).store.pages() == old(self).store.pages(),
            match res {
                Some(v) => old(self).lookup(key@) == Some(v@),
                None => old(self).lookup(key@) is None,
            },
    {
        if self.root == 0 {
            return None;
        }
        let ghost f = choose|f: nat| path_ok(self.store.pages(), self.store.pages()[self.root], key@, f);
        let node = self.store.get(self.root);
        tree_search(self, &node, key, Ghost(f))
    }

    /// The descent for `key` from the root is well formed for an insertion.
    pub open spec fn can_insert(&self, key: Seq<u8>) -> bool {
        self.root != 0 ==> self.store.pages().dom().contains(self.root) && exists|f: nat|
            insert_path_ok(self.store.pages(), self.store.pages()[self.root], key, f)
                && !path_ptrs(self.store.pages(), self.store.pages()[self.root], key, f).contains(
                self.root,
            )
    }

    /// What the tree holds: each key a lookup finds, with the value found
    /// (the empty key, the first leaf's sentinel, left out).
    pub open spec fn contents(&self) -> Map<Seq<u8>, Seq<u8>> {
        Map::new(|k: Seq<u8>| k.len() >= 1 && self.lookup(k) is Some, |k: Seq<u8>| self.lookup(k)->0)
    }

    /// The tree is sorted and laid out: empty, or its root page holds a
    /// well-formed subtree covering every key, whose first key is the empty
    /// key, and the root's own page is not below it.
    pub open spec fn shaped(&self) -> bool {
        self.root != 0 ==> {
            &&& self.store.pages().dom().contains(self.root)
            &&& exists|f: nat|
                tree_ok(self.store.pages(), self.store.pages()[self.root], Seq::<u8>::empty(), None, f)
                    && !below(self.store.pages(), self.store.pages()[self.root], f, self.root)
        }
    }

    /// The tree is well formed: shaped as `shaped` says, with all its
    /// leaves at one depth.
    pub open spec fn well_formed(&self) -> bool {
        &&& self.shaped()
        &&& self.root != 0 ==> exists|h: nat| level_ok(self.store.pages(), self.store.pages()[self.root], h)
    }

    /// The keys of every node on the descent for `key` lie on the right
    /// sides of it (as they do in a B+tree whose nodes are sorted).
    pub open spec fn sorted_for(&self, key: Seq<u8>) -> bool {
        self.root != 0 ==> forall|f: nat|
            path_ok(self.store.pages(), self.store.pages()[self.root], key, f) ==> path_sorted(
                self.store.pages(),
                self.store.pages()[self.root],
                key,
                f,
            )
    }

    /// Inserts `key` with `val`, replacing the value stored with an equal key.
    /// In a tree sorted along the key's descent, a lookup of `key` then
    /// finds `val`.
    #[verifier::spinoff_prover]
    #[verifier::rlimit(80)]
    pub fn insert(&mut self, key: &[u8], val: &[u8])
        requires
            key@.len() >= 1,
            key@.len() <= BTREE_MAX_KEY_SIZE,
            val@.len() <= BTREE_MAX_VAL_SIZE,
            old(self).can_insert(key@),
        ensures
            final(self).root != 0,
            final(self).store.pages().dom().contains(final(self).root),
            node_ok(final(self).store.pages()[final(self).root]),
            old(self).root == 0 ==> node_view(final(self).store.pages()[final(self).root])
                == first_root(key@, val@),
            old(self).sorted_for(key@) ==> final(self).can_search(key@) && final(self).lookup(key@)
                == Some(val@),
            old(self).sorted_for(key@) ==> final(self).sorted_for(key@),
            old(self).well_formed() ==> final(self).well_formed(),
            old(self).well_formed() ==> forall|k: Seq<u8>|
                k.len() >= 1 && k != key@ ==> #[trigger] final(self).lookup(k) == old(self).lookup(k),
            old(self).well_formed() ==> final(self).lookup(key@) == Some(val@),
            old(self).well_formed() ==> final(self).contents() == old(self).contents().insert(key@, val@),
    {
        proof {
            if self.well_formed() {
                lemma_well_formed_ready(&*self, key@);
            }
        }
        let ghost before = *self;
        let empty: [u8; 0] = [];
        proof {
            assert(empty@ =~= Seq::<u8>::empty());
        }
        if self.root == 0 {
            let mut root = BNode::with_capacity(PAGE_SIZE);
            root.set_header(BNODE_LEAF, 2);
            let ghost d0 = root@;
            node_append_kv(&mut root, 0, 0, empty.as_slice(), empty.as_slice());
            let ghost d1 = root@;
            node_append_kv(&mut root, 1, 0, key, val);
            proof {
                let d2 = root@;
                assert(layout_same(d1, d2, 0));
                lemma_view_from_entries(d2, first_root(key@, val@));
            }
            self.root = self.store.new_page(root);
            proof {
                let pages = self.store.pages();
                let d = pages[self.root];
                let keys = node_view(d).keys;
                lemma_lex_eq(key@, key@);
                assert(keys[1] == key@);
                assert(lookup_le(keys, key@) == 1) by {
                    assert(crate::btree::insert::lookup_from(keys, key@, 2, 1) == 1);
                }
                assert(path_ok(pages, d, key@, 0));
                assert(search_from(pages, d, key@, 0) == Some(val@));
                assert forall|f: nat| path_ok(pages, d, key@, f) implies search_from(pages, d, key@, f)
                    == Some(val@) by {
                    lemma_path_fuel(pages, d, key@, 0, f);
                }
                assert(key_at(keys, key@, 1));
                assert forall|f: nat| path_ok(pages, d, key@, f) implies path_sorted(pages, d, key@, f)
                    by {
                    assert(btype_of(d) == BNODE_LEAF);
                }
                lemma_empty_first(key@);
                let v = node_view(d);
                assert(v.keys.len() == 2 && v.vals.len() == 2);
                assert(v.keys[0] == Seq::<u8>::empty());
                assert(crate::btree::valid::sorted_keys(v.keys));
                assert(node_bounded(d));
                assert(tree_ok(pages, d, Seq::<u8>::empty(), None, 0));
                assert(!below(pages, d, 0, self.root));
                assert(level_ok(pages, d, 0));
                assert forall|k: Seq<u8>| k.len() >= 1 && k != key@ implies #[trigger] self.lookup(k)
                    == old(self).lookup(k) by {
                    let g = choose|g: nat| path_ok(pages, d, k, g);
                    crate::btree::insert::lemma_lookup_bounds(keys, k);
                    assert(keys[lookup_le(keys, k)] != k);
                }
                lemma_contents_after_insert(before, *self, key@, val@);
            }
            return;
        }
        let ghost pages = self.store.pages();
        let ghost wf = old(self).well_formed();
        proof {
            if wf {
                let d = pages[self.root];
                let g = choose|g: nat|
                    tree_ok(pages, d, Seq::<u8>::empty(), None, g) && !below(pages, d, g, self.root);
                lemma_empty_le(key@);
                lemma_tree_descent(pages, d, Seq::<u8>::empty(), None, g, key@);
                assert(!path_ptrs(pages, d, key@, g).contains(self.root));
            }
        }
        let ghost f = choose|f: nat|
            insert_path_ok(pages, pages[self.root], key@, f) && !path_ptrs(
                pages,
                pages[self.root],
                key@,
                f,
            ).contains(self.root) && (wf ==> tree_ok(
                pages,
                pages[self.root],
                Seq::<u8>::empty(),
                None,
                f,
            ) && !below(pages, pages[self.root], f, self.root));
        let node = self.store.get(self.root);
        self.store.del(self.root);
        proof {
            lemma_path_ptrs_held(pages, node@, key@, f);
            assert forall|q: u64| #[trigger] path_ptrs(pages, node@, key@, f).contains(q) implies self.store.pages().dom().contains(q)
                && self.store.pages()[q] == pages[q] by {
            }
            lemma_insert_path_frame(pages, self.store.pages(), node@, key@, f);
            if old(self).sorted_for(key@) {
                let p1 = self.store.pages();
                assert forall|g: nat| insert_path_ok(p1, node@, key@, g) implies path_sorted(
                    p1,
                    node@,
                    key@,
                    g,
                ) by {
                    lemma_path_ptrs_held(p1, node@, key@, g);
                    lemma_insert_path_frame(p1, pages, node@, key@, g);
                    crate::btree::tree::lemma_insert_path_is_path(pages, node@, key@, g);
                    assert(path_sorted(pages, node@, key@, g));
                    assert forall|q: u64| #[trigger] path_ptrs(pages, node@, key@, g).contains(q) implies p1.dom().contains(q)
                        && p1[q] == pages[q] by {
                        assert(path_ptrs(p1, node@, key@, g).contains(q));
                    }
                    lemma_sorted_path_frame(pages, p1, node@, key@, g);
                }
            }
        }
        let ghost pd = self.store.pages();
        let ghost rn = node@;
        let ghost h0 = choose|h: nat| level_ok(pages, pages[old(self).root], h);
        proof {
            if wf {
                lemma_below_held(pages, rn, Seq::<u8>::empty(), None, f);
                assert forall|q: u64|
                    #![trigger pd.dom().contains(q)]
                    #![trigger below(pages, rn, f, q)]
                    below(pages, rn, f, q) implies pd.dom().contains(q) && pd[q] == pages[q] by {
                    assert(q != self.root);
                }
                lemma_shape_frame(pages, pd, rn, Seq::<u8>::empty(), None, f);
                lemma_empty_le(key@);
                assert(tree_ok(pd, rn, node_view(rn).keys[0], None, f));
                lemma_level_fuel(pages, rn, Seq::<u8>::empty(), None, f, h0);
                lemma_level_frame(pages, pd, rn, h0, f);
            }
        }
        let node = tree_insert_at(self, &node, key, val, Ghost(f), Ghost(None));
        let ghost res = node@;
        let ghost p2 = self.store.pages();
        proof {
            lemma_bounded_fits(node@);
        }
        let splitted = node_split3(node);
        let ghost sorted = old(self).sorted_for(key@);
        if splitted.len() > 1 {
            let k = splitted.len();
            let mut root = BNode::with_capacity(PAGE_SIZE);
            root.set_header(BNODE_NODE, k as u16);
            let ghost mut ptrs: Seq<u64> = Seq::empty();
            let mut i: usize = 0;
            while i < k
                invariant
                    k == splitted@.len(),
                    2 <= k <= 3,
                    i <= k,
                    forall|j: int|
                        0 <= j < k ==> node_ok(#[trigger] splitted@[j]@) && nkeys_of(splitted@[j]@)
                            >= 1 && node_bounded(splitted@[j]@),
                    root@.len() == PAGE_SIZE,
                    nkeys_of(root@) == k,
                    btype_of(root@) == BNODE_NODE,
                    prefix_ok(root@, i as int),
                    kvpos_of(root@, i as int) <= 4 + 10 * k + 1004 * i,
                    empty@ == Seq::<u8>::empty(),
                    ptrs.len() == i,
                    forall|t: int|
                        0 <= t < i ==> #[trigger] ptr_of(root@, t) == ptrs[t] && key_of(root@, t)
                            == node_view(splitted@[t]@).keys[0] && val_of(root@, t) == Seq::<
                            u8,
                        >::empty(),
                    forall|t: int|
                        0 <= t < i ==> self.store.pages().dom().contains(#[trigger] ptrs[t])
                            && self.store.pages()[ptrs[t]] == splitted@[t]@,
                    forall|q: u64|
                        p2.dom().contains(q) ==> #[trigger] self.store.pages().dom().contains(q)
                            && self.store.pages()[q] == p2[q],
                    forall|t: int| 0 <= t < i ==> !p2.dom().contains(#[trigger] ptrs[t]),
                    forall|t1: int, t2: int| 0 <= t1 < t2 < i ==> #[trigger] ptrs[t1] != #[trigger] ptrs[t2],
                decreases k - i,
            {
                let knode = &splitted[i];
                proof {
                    assert(node_ok(knode@));
                    assert(node_bounded(knode@));
                }
                let key0 = vstd::slice::slice_to_vec(knode.get_key(0));
                assert(key0@ == node_view(knode@).keys[0]);
                assert(key0@.len() <= BTREE_MAX_KEY_SIZE);
                let ghost before = root@;
                let ghost pb = self.store.pages();
                let ptr = self.store.new_page(knode.duplicate());
                node_append_kv(&mut root, i as u16, ptr, key0.as_slice(), empty.as_slice());
                proof {
                    assert forall|t: int| 0 <= t < i implies #[trigger] ptr_of(root@, t) == ptrs[t]
                        && key_of(root@, t) == node_view(splitted@[t]@).keys[0] && val_of(root@, t)
                        == Seq::<u8>::empty() by {
                        assert(layout_same(before, root@, t));
                    }
                    assert forall|t: int| 0 <= t < i implies self.store.pages().dom().contains(
                        #[trigger] ptrs[t],
                    ) && self.store.pages()[ptrs[t]] == splitted@[t]@ by {
                        assert(pb.dom().contains(ptrs[t]));
                    }
                    assert(!p2.dom().contains(ptr));
                    let old_ptrs = ptrs;
                    ptrs = ptrs.push(ptr);
                    assert forall|t1: int, t2: int| 0 <= t1 < t2 < i + 1 implies #[trigger] ptrs[t1]
                        != #[trigger] ptrs[t2] by {
                        assert(pb.dom().contains(old_ptrs[t1]));
                        if t2 < i {
                            assert(ptrs[t2] == old_ptrs[t2]);
                        }
                    }
                    assert(knode@ == splitted@[i as int]@);
                    assert forall|t: int| 0 <= t < i + 1 implies #[trigger] ptr_of(root@, t) == ptrs[t]
                        && key_of(root@, t) == node_view(splitted@[t]@).keys[0] && val_of(root@, t)
                        == Seq::<u8>::empty() by {
                        if t < i {
                            assert(ptrs[t] == old_ptrs[t]);
                            assert(layout_same(before, root@, t));
                        }
                    }
                }
                i += 1;
            }
            let ghost p3 = self.store.pages();
            proof {
                let ks = splitted@;
                let fk = first_keys(ks);
                assert(fk.len() == k);
                assert forall|t: int| 0 <= t < k implies #[trigger] ptr_of(root@, t) == ptrs[t] && key_of(root@, t)
                    == fk[t] && val_of(root@, t) == Seq::new(k as nat, |t: int| Seq::<u8>::empty())[t] by {
                    assert(i == k);
                    assert(ptr_of(root@, t) == ptrs[t]);
                    assert(key_of(root@, t) == node_view(splitted@[t]@).keys[0]);
                }
                lemma_view_from_entries(
                    root@,
                    NodeView {
                        btype: BNODE_NODE as int,
                        ptrs: ptrs,
                        keys: fk,
                        vals: Seq::new(k as nat, |t: int| Seq::<u8>::empty()),
                    },
                );
            }
            self.root = self.store.new_page(root);
            proof {
                if wf {
                    assert(self.shaped() && forall|k: Seq<u8>|
                        k.len() >= 1 && k != key@ ==> #[trigger] self.lookup(k) == old(self).lookup(k)) by {
                        let pf = self.store.pages();
                        let ks = splitted@;
                        let rd = root@;
                        let rv = node_view(rd);
                        assert(grown_ok(pd, p2, rn, res, None, f));
                        assert(shape_ok(p2, res, Seq::<u8>::empty(), None, f));
                        assert(node_bounded(rd)) by {
                            assert forall|t: int| 0 <= t < rv.keys.len() implies (#[trigger] rv.keys[t]).len()
                                <= BTREE_MAX_KEY_SIZE by {
                                assert(node_bounded(ks[t]@));
                            }
                        }
                        assert forall|t: int| 0 <= t < ks.len() implies !p2.dom().contains(#[trigger] rv.ptrs[t])
                            && p3.dom().contains(rv.ptrs[t]) && p3[rv.ptrs[t]] == ks[t]@ by {
                            assert(rv.ptrs[t] == ptrs[t]);
                        }
                        assert forall|t1: int, t2: int| 0 <= t1 < t2 < ks.len() implies #[trigger] rv.ptrs[t1]
                            != #[trigger] rv.ptrs[t2] by {
                            assert(ptrs[t1] != ptrs[t2]);
                        }
                        assert forall|q: u64|
                            #![trigger p2.dom().contains(q)]
                            #![trigger p3.dom().contains(q)]
                            p2.dom().contains(q) implies p3.dom().contains(q) && p3[q] == p2[q] by {}
                        lemma_new_root_ok(p2, p3, res, ks, rd, f);
                        assert forall|q: u64|
                            #![trigger pf.dom().contains(q)]
                            #![trigger below(p3, rd, f + 1, q)]
                            below(p3, rd, f + 1, q) implies pf.dom().contains(q) && pf[q] == p3[q] by {
                            assert(q != self.root);
                        }
                        lemma_shape_frame(p3, pf, rd, Seq::<u8>::empty(), None, f + 1);
                        assert(pf[self.root] == rd);
                        assert(tree_ok(pf, pf[self.root], Seq::<u8>::empty(), None, f + 1));
                        assert(!below(pf, pf[self.root], f + 1, self.root));
                        assert forall|k: Seq<u8>| k.len() >= 1 && k != key@ implies #[trigger] self.lookup(k)
                            == old(self).lookup(k) by {
                            lemma_insert_others_root(pages, pd, p2, pf, rn, res, ks, rd, self.root, old(self).root, f, f + 1, key@, k);
                        }
                    }
                }
            }
            proof {
                if sorted {
                    let pf = self.store.pages();
                    let d = pf[self.root];
                    let ks = splitted@;
                    let fk = first_keys(ks);
                    let j = lemma_select_piece(ks, res, key@);
                    assert(key_at(fk, key@, j));
                    lemma_key_at_lookup(fk, key@, j);
                    assert(d == root@);
                    assert(child_ptr(d, key@) == ptrs[j]);
                    assert(p3.dom().contains(ptrs[j]));
                    assert(pf[ptrs[j]] == ks[j]@);
                    let f = choose|f: nat|
                        path_ok(p2, res, key@, f) && path_sorted(p2, res, key@, f) && search_from(
                            p2,
                            res,
                            key@,
                            f,
                        ) == Some(val@);
                    lemma_path_frame(p2, pf, res, key@, f);
                    let st = offset(piece_keys(ks), j);
                    lemma_piece_descent(pf, res, ks[j]@, key@, st, st + nkeys_of(ks[j]@), f);
                    assert(path_ok(pf, d, key@, f + 1));
                    assert(path_sorted(pf, d, key@, f + 1));
                    assert(search_from(pf, d, key@, f + 1) == Some(val@));
                    assert forall|g: nat| path_ok(pf, d, key@, g) implies search_from(pf, d, key@, g)
                        == Some(val@) && path_sorted(pf, d, key@, g) by {
                        lemma_path_fuel(pf, d, key@, f + 1, g);
                        lemma_sorted_fuel(pf, d, key@, f + 1, g);
                    }
                }
            }
            proof {
                if wf {
                    let pf = self.store.pages();
                    let ks = splitted@;
                    let rd = pf[self.root];
                    let rv = node_view(rd);
                    assert(level_ok(p2, res, h0));
                    assert forall|q: u64|
                        #![trigger p2.dom().contains(q)]
                        #![trigger pf.dom().contains(q)]
                        p2.dom().contains(q) implies pf.dom().contains(q) && pf[q] == p2[q] by {}
                    lemma_level_pieces(p2, pf, res, ks, h0);
                    assert forall|j: int| 0 <= j < nkeys_of(rd) implies pf.dom().contains(
                        #[trigger] rv.ptrs[j],
                    ) && level_ok(pf, pf[rv.ptrs[j]], h0) by {
                        assert(rv.ptrs[j] == ptr_of(rd, j));
                        assert(pf[rv.ptrs[j]] == ks[j]@);
                        assert(level_ok(pf, ks[j]@, h0));
                    }
                    assert(level_ok(pf, rd, h0 + 1));
                }
            }
        } else {
            let ghost p3 = self.store.pages();
            self.root = self.store.new_page(splitted[0].duplicate());
            proof {
                if wf {
                    let pf = self.store.pages();
                    let ks = splitted@;
                    assert(level_ok(p2, res, h0));
                    assert forall|q: u64|
                        #![trigger p2.dom().contains(q)]
                        #![trigger pf.dom().contains(q)]
                        p2.dom().contains(q) implies pf.dom().contains(q) && pf[q] == p2[q] by {}
                    lemma_level_pieces(p2, pf, res, ks, h0);
                    assert(level_ok(pf, ks[0]@, h0));
                    assert(level_ok(pf, pf[self.root], h0));
                }
            }
            proof {
                if wf {
                    assert(self.shaped() && forall|k: Seq<u8>|
                        k.len() >= 1 && k != key@ ==> #[trigger] self.lookup(k) == old(self).lookup(k)) by {
                        let pf = self.store.pages();
                        let ks = splitted@;
                        assert(grown_ok(pd, p2, rn, res, None, f));
                        assert forall|q: u64|
                            #![trigger p2.dom().contains(q)]
                            #![trigger pf.dom().contains(q)]
                            p2.dom().contains(q) implies pf.dom().contains(q) && pf[q] == p2[q] by {}
                        lemma_kept_piece(p2, pf, res, Seq::<u8>::empty(), None, f, ks, 0, self.root);
                        crate::btree::valid::lemma_piece_at(ks, res, 0);
                        assert(tree_ok(pf, pf[self.root], Seq::<u8>::empty(), None, f));
                        assert forall|k: Seq<u8>| k.len() >= 1 && k != key@ implies #[trigger] self.lookup(k)
                            == old(self).lookup(k) by {
                            lemma_insert_others_root(pages, pd, p2, pf, rn, res, ks, pf[self.root], self.root, old(self).root, f, f, key@, k);
                        }
                    }
                }
            }
            proof {
                if sorted {
                    let pf = self.store.pages();
                    let ks = splitted@;
                    let d = pf[self.root];
                    let j = lemma_select_piece(ks, res, key@);
                    assert(j == 0);
                    assert(d == ks[0]@);
                    let f = choose|f: nat|
                        path_ok(p2, res, key@, f) && path_sorted(p2, res, key@, f) && search_from(
                            p2,
                            res,
                            key@,
                            f,
                        ) == Some(val@);
                    lemma_path_frame(p2, pf, res, key@, f);
                    let st = offset(piece_keys(ks), j);
                    lemma_piece_descent(pf, res, ks[j]@, key@, st, st + nkeys_of(ks[j]@), f);
                    assert forall|g: nat| path_ok(pf, d, key@, g) implies search_from(pf, d, key@, g)
                        == Some(val@) && path_sorted(pf, d, key@, g) by {
                        lemma_path_fuel(pf, d, key@, f, g);
                        lemma_sorted_fuel(pf, d, key@, f, g);
                    }
                }
            }
        }
        proof {
            if wf {
                lemma_contents_after_insert(before, *self, key@, val@);
            }
        }
    }

    /// The descent for `key` from the root is well formed for a deletion.
    pub open spec fn can_delete(&self, key: Seq<u8>) -> bool {
        self.root != 0 ==> self.store.pages().dom().contains(self.root) && exists|f: nat|
            delete_path_ok(self.store.pages(), self.store.pages()[self.root], key, f)
    }

    /// The fuel a well-formed tree is checked with.
    pub open spec fn shape_fuel(&self) -> nat {
        choose|g: nat|
            tree_ok(self.store.pages(), self.store.pages()[self.root], Seq::<u8>::empty(), None, g) && !below(
                self.store.pages(),
                self.store.pages()[self.root],
                g,
                self.root,
            )
    }

    /// The nodes a deletion of `key` rebuilds fit their pages, and a child
    /// it empties has a neighbour to merge with: what a deletion needs of
    /// a well-formed tree.
    pub open spec fn fits_delete(&self, key: Seq<u8>) -> bool {
        self.root != 0 ==> crate::btree::delete::delete_fits(
            self.store.pages(),
            self.store.pages()[self.root],
            key,
            self.shape_fuel(),
        )
    }

    /// Whether deleting `key` fits, read from the pages along its descent.
    pub fn deletable(&mut self, key: &[u8]) -> (res: bool)
        requires
            old(self).well_formed(),
        ensures
            final(self).root == old(self).root,
            final(self).store.pages() == old(self).store.pages(),
            res == old(self).fits_delete(key@),
    {
        if self.root == 0 {
            return true;
        }
        let ghost g = self.shape_fuel();
        let root = self.store.get(self.root);
        let c = crate::btree::delete::check_delete(self, &root, key, Ghost(g), Ghost(Seq::<u8>::empty()), Ghost(None));
        c.fits
    }

    /// Deletes `key` where the deletion fits (`None`, the tree unchanged,
    /// where it does not); whether the key was there otherwise.
    pub fn try_delete(&mut self, key: &[u8]) -> (res: Option<bool>)
        requires
            key@.len() >= 1,
            key@.len() <= BTREE_MAX_KEY_SIZE,
            old(self).well_formed(),
        ensures
            res is None <==> !old(self).fits_delete(key@),
            res is None ==> final(self).root == old(self).root && final(self).store.pages() == old(
                self,
            ).store.pages(),
            res matches Some(b) ==> b == old(self).contents().contains_key(key@) && final(self).well_formed()
                && final(self).contents() == old(self).contents().remove(key@),
    {
        if !self.deletable(key) {
            return None;
        }
        proof {
            lemma_well_formed_deletable(&*self, key@);
        }
        Some(self.delete(key))
    }

    /// Whether `key` is in the tree, as a deletion finds it.
    pub open spec fn holds(&self, key: Seq<u8>) -> bool {
        self.root != 0 && del_shape(
            self.store.pages(),
            self.store.pages()[self.root],
            key,
            choose|f: nat| delete_path_ok(self.store.pages(), self.store.pages()[self.root], key, f),
        ).found
    }

    /// Deletes `key`; `false` if it was not there, that is, exactly when a
    /// lookup of the key finds nothing. A well-formed tree stays well formed
    /// and holds the same pairs but the key's; a root left as an internal
    /// node with one child gives way to that child, any other result of the
    /// deletion below the root is stored as the new root. When the root is a
    /// leaf, it becomes that leaf without the key's entry.
    pub fn delete(&mut self, key: &[u8]) -> (res: bool)
        requires
            key@.len() >= 1,
            key@.len() <= BTREE_MAX_KEY_SIZE,
            old(self).can_delete(key@),
        ensures
            res == old(self).holds(key@),
            old(self).can_search(key@),
            res <==> old(self).lookup(key@) is Some,
            res <==> old(self).contents().contains_key(key@),
            !res ==> final(self).root == old(self).root && final(self).store.pages() == old(
                self,
            ).store.pages(),
            res && btype_of(old(self).store.pages()[old(self).root]) == BNODE_LEAF ==> {
                &&& final(self).root != 0
                &&& final(self).store.pages().dom().contains(final(self).root)
                &&& node_view(final(self).store.pages()[final(self).root]) == leaf_without(
                    old(self).store.pages()[old(self).root],
                    key@,
                )
            },
            res && btype_of(old(self).store.pages()[old(self).root]) == BNODE_LEAF && key_at(
                node_view(old(self).store.pages()[old(self).root]).keys,
                key@,
                lookup_le(node_view(old(self).store.pages()[old(self).root]).keys, key@),
            ) && final(self).can_search(key@) ==> final(self).lookup(key@) is None,
            old(self).well_formed() ==> final(self).well_formed() && final(self).contents() == old(
                self,
            ).contents().remove(key@),
            res && old(self).well_formed() ==> exists|p1: Map<u64, Seq<u8>>, u: Seq<u8>, f: nat|
                #![trigger shrunk_ok(old(self).store.pages(), p1, old(self).store.pages()[old(self).root], u, key@, None, f)]
                {
                    &&& shrunk_ok(
                        old(self).store.pages(),
                        p1,
                        old(self).store.pages()[old(self).root],
                        u,
                        key@,
                        None,
                        f,
                    )
                    &&& btype_of(u) == BNODE_NODE && nkeys_of(u) == 1 ==> final(self).root == node_view(u).ptrs[0]
                        && final(self).store.pages() == p1.remove(old(self).root)
                    &&& !(btype_of(u) == BNODE_NODE && nkeys_of(u) == 1) ==> final(self).store.pages() == p1.remove(
                        old(self).root,
                    ).insert(final(self).root, u)
                },
    {
        let ghost before = *self;
        if self.root == 0 {
            proof {
                assert(self.contents() =~= before.contents().remove(key@));
            }
            return false;
        }
        let ghost pages0 = self.store.pages();
        let ghost d0 = pages0[self.root];
        let ghost f0 = choose|f: nat| delete_path_ok(pages0, d0, key@, f);
        let ghost wf = before.well_formed();
        let ghost g = choose|g: nat| tree_ok(pages0, d0, Seq::<u8>::empty(), None, g) && !below(pages0, d0, g, self.root);
        let ghost h0 = choose|h: nat| level_ok(pages0, d0, h);
        proof {
            if wf {
                lemma_level_fuel(pages0, d0, Seq::<u8>::empty(), None, g, h0);
                crate::btree::delete::lemma_delete_fuel(pages0, d0, key@, h0, f0, g);
            }
        }
        let ghost f = if wf { g } else { f0 };
        proof {
            let pages = self.store.pages();
            let d = pages[self.root];
            lemma_delete_finds_as_lookup(pages, d, key@, f);
            let g = choose|g: nat| path_ok(pages, d, key@, g);
            lemma_path_fuel(pages, d, key@, f, g);
        }
        let root = self.store.get(self.root);
        let updated = match tree_delete(self, &root, key, Ghost(f), Ghost(None)) {
            Some(n) => n,
            None => {
                proof {
                    assert(self.contents() =~= before.contents().remove(key@));
                }
                return false;
            },
        };
        let ghost old_root = root@;
        let ghost upd = updated@;
        let ghost p1 = self.store.pages();
        proof {
            if wf {
                lemma_empty_le(key@);
                assert(node_view(d0).keys[0] == Seq::<u8>::empty());
                assert(shrunk_ok(pages0, p1, d0, upd, key@, None, g));
                assert(nbytes_of(upd) <= PAGE_SIZE) by {
                    if btype_of(d0) == BNODE_LEAF {
                        crate::btree::node::lemma_kvpos_mono(d0, nkeys_of(d0), 0, nkeys_of(d0));
                    }
                }
            }
        }
        self.store.del(self.root);
        if updated.btype() == BNODE_NODE && updated.nkeys() == 1 {
            self.root = updated.get_ptr(0);
        } else {
            self.root = self.store.new_page(updated);
        }
        proof {
            if btype_of(old_root) == BNODE_LEAF {
                let v = node_view(old_root);
                let p = lookup_le(v.keys, key@);
                let pf = self.store.pages();
                let d = pf[self.root];
                assert(node_view(d) == leaf_without(old_root, key@));
                if key_at(v.keys, key@, p) {
                    let w = node_view(d).keys;
                    assert forall|j: int| 0 <= j < w.len() implies w[j] != key@ by {
                        let o = if j < p { j } else { j + 1 };
                        assert(w[j] == v.keys[o]);
                        lemma_lex_eq(v.keys[o], key@);
                    }
                    let f = choose|f: nat| path_ok(pf, d, key@, f);
                    let i = lookup_le(w, key@);
                    if path_ok(pf, d, key@, f) {
                        crate::btree::insert::lemma_lookup_bounds(w, key@);
                        assert(w[i] != key@);
                        assert(search_from(pf, d, key@, f) is None);
                    }
                }
            }
            if wf {
                self.store.lemma_no_page_zero();
                lemma_root_delete(before, *self, p1, upd, key@, g);
                assert(shrunk_ok(pages0, p1, d0, upd, key@, None, g));
            }
        }
        true
    }

}

/// In a well-formed tree every key can be inserted and looked up, and the
/// nodes on its descent are sorted around it.
pub proof fn lemma_well_formed_ready<S: PageStore>(t: &BTree<S>, key: Seq<u8>)
    requires
        t.well_formed(),
    ensures
        t.can_insert(key),
        t.can_search(key),
        t.sorted_for(key),
{
    if t.root != 0 {
        let pages = t.store.pages();
        let d = pages[t.root];
        let f = choose|f: nat|
            tree_ok(pages, d, Seq::<u8>::empty(), None, f) && !below(pages, d, f, t.root);
        lemma_empty_le(key);
        lemma_tree_descent(pages, d, Seq::<u8>::empty(), None, f, key);
        assert(!path_ptrs(pages, d, key, f).contains(t.root));
        assert forall|g: nat| path_ok(pages, d, key, g) implies path_sorted(pages, d, key, g) by {
            lemma_sorted_fuel(pages, d, key, f, g);
        }
    }
}

/// After an insertion of `key` into a well-formed tree, whose old root
/// `rn` at page `r0` became `res`, cut into the pieces `ks` and put under
/// the new root `d` at page `r` (`d` is the one piece when there is one),
/// a lookup of any other key finds what it found before.
proof fn lemma_insert_others_root(
    pages: Map<u64, Seq<u8>>,
    pd: Map<u64, Seq<u8>>,
    p2: Map<u64, Seq<u8>>,
    pf: Map<u64, Seq<u8>>,
    rn: Seq<u8>,
    res: Seq<u8>,
    ks: Seq<BNode>,
    d: Seq<u8>,
    r: u64,
    r0: u64,
    f: nat,
    fr: nat,
    key: Seq<u8>,
    k: Seq<u8>,
)
    requires
        pages.dom().contains(r0),
        pages[r0] == rn,
        tree_ok(pages, rn, Seq::<u8>::empty(), None, f),
        !below(pages, rn, f, r0),
        pd == pages.remove(r0),
        keeps_others(pd, p2, rn, res, key, None, f),
        shape_ok(p2, res, Seq::<u8>::empty(), None, f),
        node_view(rn).keys[0] == Seq::<u8>::empty(),
        ks.len() >= 1,
        piece_keys(ks).flatten() == node_view(res).keys,
        piece_ptrs(ks).flatten() == node_view(res).ptrs,
        piece_vals(ks).flatten() == node_view(res).vals,
        forall|t: int| 0 <= t < ks.len() ==> node_ok(#[trigger] ks[t]@) && nkeys_of(ks[t]@) >= 1 && btype_of(ks[t]@) == btype_of(res),
        forall|q: u64|
            #![trigger p2.dom().contains(q)]
            #![trigger pf.dom().contains(q)]
            p2.dom().contains(q) ==> pf.dom().contains(q) && pf[q] == p2[q],
        pf.dom().contains(r),
        pf[r] == d,
        tree_ok(pf, d, Seq::<u8>::empty(), None, fr),
        ks.len() == 1 ==> d == ks[0]@ && fr == f,
        ks.len() > 1 ==> {
            &&& fr == f + 1
            &&& btype_of(d) == BNODE_NODE
            &&& node_view(d).keys == first_keys(ks)
            &&& forall|t: int| 0 <= t < ks.len() ==> pf[#[trigger] node_view(d).ptrs[t]] == ks[t]@
        },
        k != key,
    ensures
        search_from(pf, d, k, choose|g: nat| path_ok(pf, d, k, g)) == search_from(
            pages,
            rn,
            k,
            choose|g: nat| path_ok(pages, rn, k, g),
        ),
{
    let e = Seq::<u8>::empty();
    lemma_empty_le(k);
    lemma_tree_descent(pages, rn, e, None, f, k);
    let g0 = choose|g: nat| path_ok(pages, rn, k, g);
    lemma_path_fuel(pages, rn, k, f, g0);
    lemma_below_held(pages, rn, e, None, f);
    assert forall|q: u64|
        #![trigger pd.dom().contains(q)]
        #![trigger below(pages, rn, f, q)]
        below(pages, rn, f, q) implies pd.dom().contains(q) && pd[q] == pages[q] by {
        assert(q != r0);
    }
    lemma_search_frame(pages, pd, rn, e, None, f, k);
    assert(in_range(k, node_view(rn).keys[0], None));
    assert(search_from(p2, res, k, f) == search_from(pd, rn, k, f));
    lemma_below_held(p2, res, e, None, f);
    assert forall|q: u64|
        #![trigger pf.dom().contains(q)]
        #![trigger below(p2, res, f, q)]
        below(p2, res, f, q) implies pf.dom().contains(q) && pf[q] == p2[q] by {
        assert(p2.dom().contains(q));
    }
    lemma_search_frame(p2, pf, res, e, None, f, k);
    let rk = node_view(res).keys;
    assert(rk.len() == nkeys_of(res));
    lemma_sorted_lookup(rk, k);
    let t = lemma_select_piece(ks, res, k);
    let st = offset(piece_keys(ks), t);
    lemma_piece_descent(pf, res, ks[t]@, k, st, st + nkeys_of(ks[t]@), f);
    if ks.len() > 1 {
        let fk = first_keys(ks);
        assert(key_at(fk, k, t));
        lemma_key_at_lookup(fk, k, t);
        assert(node_view(d).keys.len() == nkeys_of(d));
        assert(child_ptr(d, k) == node_view(d).ptrs[t]);
        assert(search_from(pf, d, k, fr) == search_from(pf, ks[t]@, k, f));
    } else {
        assert(t == 0);
    }
    lemma_tree_descent(pf, d, e, None, fr, k);
    let g1 = choose|g: nat| path_ok(pf, d, k, g);
    lemma_path_fuel(pf, d, k, fr, g1);
}

/// A tree whose lookups find `val` for `key` and for every other key what
/// another tree's find holds that tree's contents with `key` set to `val`.
proof fn lemma_contents_after_insert<S: PageStore>(a: BTree<S>, b: BTree<S>, key: Seq<u8>, val: Seq<u8>)
    requires
        key.len() >= 1,
        b.lookup(key) == Some(val),
        forall|k: Seq<u8>| k.len() >= 1 && k != key ==> #[trigger] b.lookup(k) == a.lookup(k),
    ensures
        b.contents() == a.contents().insert(key, val),
{
    assert forall|k: Seq<u8>| #[trigger] b.contents().contains_key(k) == a.contents().insert(key, val).contains_key(k) by {
        if k != key && k.len() >= 1 {
            assert(b.lookup(k) == a.lookup(k));
        }
    }
    assert forall|k: Seq<u8>| b.contents().contains_key(k) implies #[trigger] b.contents()[k] == a.contents().insert(
        key,
        val,
    )[k] by {
        if k != key {
            assert(b.lookup(k) == a.lookup(k));
        }
    }
    assert(b.contents() =~= a.contents().insert(key, val));
}

/// A well-formed tree whose rebuilt nodes fit can have `key` deleted.
pub proof fn lemma_well_formed_deletable<S: PageStore>(t: &BTree<S>, key: Seq<u8>)
    requires
        t.well_formed(),
        t.fits_delete(key),
    ensures
        t.can_delete(key),
{
    if t.root != 0 {
        let pages = t.store.pages();
        let d = pages[t.root];
        let g = t.shape_fuel();
        assert(crate::btree::delete::delete_fits(pages, d, key, g));
        crate::btree::delete::lemma_delete_ready(pages, d, Seq::<u8>::empty(), None, g, key);
    }
}

/// A deletion that found `key` below the root of a well-formed tree, its
/// result stored as the new root, or the single child of an internal
/// result taking the root's place, leaves a well-formed tree holding the
/// same pairs but that of `key`.
#[verifier::rlimit(80)]
proof fn lemma_root_delete<S: PageStore>(a: BTree<S>, b: BTree<S>, p1: Map<u64, Seq<u8>>, u: Seq<u8>, key: Seq<u8>, g: nat)
    requires
        key.len() >= 1,
        a.well_formed(),
        a.root != 0,
        tree_ok(a.store.pages(), a.store.pages()[a.root], Seq::<u8>::empty(), None, g),
        !below(a.store.pages(), a.store.pages()[a.root], g, a.root),
        shrunk_ok(a.store.pages(), p1, a.store.pages()[a.root], u, key, None, g),
        nbytes_of(u) <= PAGE_SIZE,
        !b.store.pages().dom().contains(0),
        btype_of(u) == BNODE_NODE && nkeys_of(u) == 1 ==> b.root == node_view(u).ptrs[0] && b.store.pages()
            == p1.remove(a.root),
        !(btype_of(u) == BNODE_NODE && nkeys_of(u) == 1) ==> b.root != 0 && !p1.remove(a.root).dom().contains(
            b.root,
        ) && b.store.pages() == p1.remove(a.root).insert(b.root, u),
    ensures
        b.well_formed(),
        b.contents() == a.contents().remove(key),
{
    let pa = a.store.pages();
    let pb = b.store.pages();
    let d0 = pa[a.root];
    let e = Seq::<u8>::empty();
    let pd = p1.remove(a.root);
    let h0 = choose|h: nat| level_ok(pa, d0, h);
    assert(node_view(d0).keys[0] == e);
    // The result is not empty and still starts with the empty key.
    assert(nkeys_of(u) >= 1) by {
        if nkeys_of(u) == 0 {
            lemma_empty_le(e);
            assert(in_range(e, e, None));
            assert(e != key);
            lemma_leaf_search(pa, d0, e, None, g, e);
            assert(node_view(d0).keys[0] == e);
        }
    }
    let uv = node_view(u);
    assert(uv.keys[0] == e);
    lemma_below_held(p1, u, e, None, g);
    assert(!below(p1, u, g, a.root));
    let collapse = btype_of(u) == BNODE_NODE && nkeys_of(u) == 1;
    // The new root and the fuel its subtree is checked with.
    let rb = pb[b.root];
    let gb: nat = if collapse { (g - 1) as nat } else { g };
    if collapse {
        let c = uv.ptrs[0];
        assert(bound_after(uv.keys, 0, None) == None::<Seq<u8>>);
        assert(p1.dom().contains(c));
        assert(tree_ok(p1, p1[c], e, None, (g - 1) as nat));
        assert(in_kid(p1, u, g, 0, c));
        lemma_below_intro(p1, u, g, 0, c);
        assert(c != a.root);
        assert forall|q: u64|
            #![trigger pb.dom().contains(q)]
            #![trigger below(p1, p1[c], (g - 1) as nat, q)]
            below(p1, p1[c], (g - 1) as nat, q) implies pb.dom().contains(q) && pb[q] == p1[q] by {
            assert(in_kid(p1, u, g, 0, q));
            lemma_below_intro(p1, u, g, 0, q);
        }
        lemma_shape_frame(p1, pb, p1[c], e, None, (g - 1) as nat);
        assert(rb == p1[c]);
        assert(tree_ok(pb, rb, e, None, gb));
        assert(!below(pb, rb, gb, b.root));
        assert(b.root != 0) by {
            b.store.lemma_no_page_zero();
        }
        assert(level_ok(p1, u, h0));
        assert(level_ok(p1, p1[c], (h0 - 1) as nat));
        lemma_level_fuel(p1, p1[c], e, None, (g - 1) as nat, (h0 - 1) as nat);
        lemma_level_frame(p1, pb, p1[c], (h0 - 1) as nat, (g - 1) as nat);
        assert(level_ok(pb, rb, (h0 - 1) as nat));
    } else {
        assert forall|q: u64|
            #![trigger pb.dom().contains(q)]
            #![trigger below(p1, u, g, q)]
            below(p1, u, g, q) implies pb.dom().contains(q) && pb[q] == p1[q] by {
            assert(q != a.root);
            assert(pd.dom().contains(q));
        }
        lemma_shape_frame(p1, pb, u, e, None, g);
        assert(rb == u);
        assert(tree_ok(pb, rb, e, None, gb));
        assert(!below(pb, rb, gb, b.root)) by {
            if below(pb, rb, gb, b.root) {
                assert(below(p1, u, g, b.root));
            }
        }
        assert(level_ok(p1, u, h0));
        lemma_level_fuel(p1, u, e, None, g, h0);
        lemma_level_frame(p1, pb, u, h0, g);
    }
    assert(b.well_formed());
    // What lookups find.
    assert forall|k: Seq<u8>| k.len() >= 1 implies #[trigger] b.lookup(k) == (if k == key {
        None
    } else {
        a.lookup(k)
    }) by {
        lemma_empty_le(k);
        assert(in_range(k, e, None));
        lemma_tree_descent(pa, d0, e, None, g, k);
        let fa = choose|f: nat| path_ok(pa, d0, k, f);
        lemma_path_fuel(pa, d0, k, g, fa);
        lemma_tree_descent(pb, rb, e, None, gb, k);
        let fb = choose|f: nat| path_ok(pb, rb, k, f);
        lemma_path_fuel(pb, rb, k, gb, fb);
        if collapse {
            let c = uv.ptrs[0];
            lemma_search_frame(p1, pb, p1[c], e, None, (g - 1) as nat, k);
            crate::btree::shrink::lemma_search_route(p1, u, e, None, g, k, 0);
        } else {
            lemma_search_frame(p1, pb, u, e, None, g, k);
        }
    }
    assert(b.contents() =~= a.contents().remove(key)) by {
        assert forall|k: Seq<u8>| #[trigger] b.contents().contains_key(k) == a.contents().remove(key).contains_key(k) by {
            if k.len() >= 1 && k != key {
                assert(b.lookup(k) == a.lookup(k));
            }
        }
        assert forall|k: Seq<u8>| b.contents().contains_key(k) implies #[trigger] b.contents()[k]
            == a.contents().remove(key)[k] by {
            assert(b.lookup(k) == a.lookup(k));
        }
    }
}

/// A leaf without the entry a lookup of `key` lands on.
pub open spec fn leaf_without(d: Seq<u8>, key: Seq<u8>) -> NodeView {
    let v = node_view(d);
    let p = lookup_le(v.keys, key);
    NodeView {
        btype: BNODE_LEAF as int,
        ptrs: v.ptrs.remove(p),
        keys: v.keys.remove(p),
        vals: v.vals.remove(p),
    }
}

} // verus!
