//! The on-page layout of a B+tree node.
//!
//! ```text
//! | type u16 | nkeys u16 | pointers nkeys*u64 | offsets nkeys*u16 | key-values |
//! key-value: | klen u16 | vlen u16 | key | val |
//! ```
//! All integers are little-endian. The offset of entry `i` is the position
//! of its key-value relative to the start of the key-value area; entry 0's
//! offset is 0 and is not stored, the stored slot `i - 1` holds entry `i`'s.

use vstd::prelude::*;
use vstd::bytes::{
    spec_u16_from_le_bytes, spec_u16_to_le_bytes, spec_u64_from_le_bytes, spec_u64_to_le_bytes,
    u16_from_le_bytes, u16_to_le_bytes, u64_from_le_bytes, u64_to_le_bytes,
    lemma_auto_spec_u16_to_from_le_bytes, lemma_auto_spec_u64_to_from_le_bytes,
};

verus! {

/// The size of one page.
pub const PAGE_SIZE: usize = 4096;

/// The size of a node header (type and key count).
pub const HEADER: u16 = 4;

/// Internal nodes.
pub const BNODE_NODE: u16 = 1;

/// Leaf nodes.
pub const BNODE_LEAF: u16 = 2;

pub const BTREE_MAX_KEY_SIZE: u16 = 1000;

pub const BTREE_MAX_VAL_SIZE: u16 = 3000;

// ------------------------------------------------------------------------
// Reading the layout
// ------------------------------------------------------------------------

pub open spec fn rd16(d: Seq<u8>, p: int) -> int {
    spec_u16_from_le_bytes(d.subrange(p, p + 2)) as int
}

pub open spec fn rd64(d: Seq<u8>, p: int) -> u64 {
    spec_u64_from_le_bytes(d.subrange(p, p + 8))
}

pub open spec fn btype_of(d: Seq<u8>) -> int {
    rd16(d, 0)
}

pub open spec fn nkeys_of(d: Seq<u8>) -> int {
    rd16(d, 2)
}

pub open spec fn ptr_of(d: Seq<u8>, i: int) -> u64 {
    rd64(d, 4 + 8 * i)
}

/// Where the stored offset of entry `i` (for `i >= 1`) lives.
pub open spec fn off_pos(n: int, i: int) -> int {
    4 + 8 * n + 2 * (i - 1)
}

pub open spec fn off_of(d: Seq<u8>, i: int) -> int {
    if i == 0 {
        0
    } else {
        rd16(d, off_pos(nkeys_of(d), i))
    }
}

pub open spec fn kvpos_of(d: Seq<u8>, i: int) -> int {
    4 + 10 * nkeys_of(d) + off_of(d, i)
}

pub open spec fn klen_of(d: Seq<u8>, i: int) -> int {
    rd16(d, kvpos_of(d, i))
}

pub open spec fn vlen_of(d: Seq<u8>, i: int) -> int {
    rd16(d, kvpos_of(d, i) + 2)
}

pub open spec fn key_of(d: Seq<u8>, i: int) -> Seq<u8> {
    d.subrange(kvpos_of(d, i) + 4, kvpos_of(d, i) + 4 + klen_of(d, i))
}

pub open spec fn val_of(d: Seq<u8>, i: int) -> Seq<u8> {
    d.subrange(
        kvpos_of(d, i) + 4 + klen_of(d, i),
        kvpos_of(d, i) + 4 + klen_of(d, i) + vlen_of(d, i),
    )
}

/// Entry `i`'s stored offsets agree with the lengths of its key-value.
pub open spec fn kv_ok(d: Seq<u8>, i: int) -> bool {
    off_of(d, i + 1) == off_of(d, i) + 4 + klen_of(d, i) + vlen_of(d, i)
}

/// The first `k` entries are laid out consistently and lie inside `d`.
pub open spec fn prefix_ok(d: Seq<u8>, k: int) -> bool {
    &&& d.len() >= 4
    &&& 0 <= k <= nkeys_of(d)
    &&& 4 + 10 * nkeys_of(d) <= d.len()
    &&& kvpos_of(d, k) <= d.len()
    &&& forall|j: int| 0 <= j < k ==> #[trigger] kv_ok(d, j)
}

/// A node whose entries are all laid out consistently.
pub open spec fn node_wf(d: Seq<u8>) -> bool {
    d.len() >= 4 && prefix_ok(d, nkeys_of(d))
}

/// The bytes a node occupies.
pub open spec fn nbytes_of(d: Seq<u8>) -> int {
    kvpos_of(d, nkeys_of(d))
}

/// Two node images with the same key count hold the same entry `j`.
pub open spec fn entry_same(d1: Seq<u8>, d2: Seq<u8>, j: int) -> bool {
    &&& ptr_of(d1, j) == ptr_of(d2, j)
    &&& key_of(d1, j) == key_of(d2, j)
    &&& val_of(d1, j) == val_of(d2, j)
}

/// Entry `i` of `a` equals entry `j` of `b`.
pub open spec fn entry_eq(a: Seq<u8>, i: int, b: Seq<u8>, j: int) -> bool {
    &&& ptr_of(a, i) == ptr_of(b, j)
    &&& key_of(a, i) == key_of(b, j)
    &&& val_of(a, i) == val_of(b, j)
}

/// The logical content of a node.
pub struct NodeView {
    pub btype: int,
    pub ptrs: Seq<u64>,
    pub keys: Seq<Seq<u8>>,
    pub vals: Seq<Seq<u8>>,
}

pub open spec fn node_view(d: Seq<u8>) -> NodeView {
    NodeView {
        btype: btype_of(d),
        ptrs: Seq::new(nkeys_of(d) as nat, |i: int| ptr_of(d, i)),
        keys: Seq::new(nkeys_of(d) as nat, |i: int| key_of(d, i)),
        vals: Seq::new(nkeys_of(d) as nat, |i: int| val_of(d, i)),
    }
}

// ------------------------------------------------------------------------
// Facts about the layout
// ------------------------------------------------------------------------

/// Offsets grow along a consistent prefix.
pub proof fn lemma_kvpos_mono(d: Seq<u8>, k: int, i: int, j: int)
    requires
        prefix_ok(d, k),
        0 <= i <= j <= k,
    ensures
        kvpos_of(d, i) <= kvpos_of(d, j),
        i < j ==> kvpos_of(d, i) + 4 + klen_of(d, i) + vlen_of(d, i) <= kvpos_of(d, j),
    decreases j - i,
{
    if i < j {
        assert(kv_ok(d, i));
        lemma_kvpos_mono(d, k, i + 1, j);
    }
}

/// A node image holds exactly the entries of `v`.
pub proof fn lemma_view_from_entries(d: Seq<u8>, v: NodeView)
    requires
        btype_of(d) == v.btype,
        0 <= nkeys_of(d),
        nkeys_of(d) == v.keys.len(),
        nkeys_of(d) == v.ptrs.len(),
        nkeys_of(d) == v.vals.len(),
        forall|i: int|
            0 <= i < nkeys_of(d) ==> #[trigger] ptr_of(d, i) == v.ptrs[i] && key_of(d, i)
                == v.keys[i] && val_of(d, i) == v.vals[i],
    ensures
        node_view(d) == v,
{
    let w = node_view(d);
    assert forall|i: int| 0 <= i < nkeys_of(d) implies w.ptrs[i] == v.ptrs[i] && w.keys[i]
        == v.keys[i] && w.vals[i] == v.vals[i] by {
        assert(ptr_of(d, i) == v.ptrs[i]);
    }
    assert(w.ptrs =~= v.ptrs);
    assert(w.keys =~= v.keys);
    assert(w.vals =~= v.vals);
}

/// Writing `w` at `p` leaves every range outside `[p, p + |w|)` alone.
pub open spec fn written(d: Seq<u8>, p: int, w: Seq<u8>) -> Seq<u8> {
    d.subrange(0, p) + w + d.subrange(p + w.len(), d.len() as int)
}

pub proof fn lemma_written_outside(d: Seq<u8>, p: int, w: Seq<u8>, a: int, b: int)
    requires
        0 <= p,
        p + w.len() <= d.len(),
        0 <= a <= b <= d.len(),
        b <= p || a >= p + w.len(),
    ensures
        written(d, p, w).subrange(a, b) == d.subrange(a, b),
        written(d, p, w).len() == d.len(),
{
    assert(written(d, p, w).subrange(a, b) =~= d.subrange(a, b));
}

pub proof fn lemma_written_inside(d: Seq<u8>, p: int, w: Seq<u8>)
    requires
        0 <= p,
        p + w.len() <= d.len(),
    ensures
        written(d, p, w).subrange(p, p + w.len()) == w,
        written(d, p, w).len() == d.len(),
{
    assert(written(d, p, w).subrange(p, p + w.len()) =~= w);
}

/// If the bytes of the header, of entry `j`'s pointer and offsets and of its
/// key-value agree, the entry reads the same.
pub proof fn lemma_entry_same(d1: Seq<u8>, d2: Seq<u8>, j: int)
    requires
        d1.subrange(0, 4) == d2.subrange(0, 4),
        0 <= j,
        4 + 8 * j + 8 <= d1.len(),
        4 + 8 * j + 8 <= d2.len(),
        d1.subrange(4 + 8 * j, 4 + 8 * j + 8) == d2.subrange(4 + 8 * j, 4 + 8 * j + 8),
        j > 0 ==> off_pos(nkeys_of(d1), j) + 2 <= d1.len() && off_pos(nkeys_of(d1), j) + 2
            <= d2.len() && d1.subrange(off_pos(nkeys_of(d1), j), off_pos(nkeys_of(d1), j) + 2)
            == d2.subrange(off_pos(nkeys_of(d1), j), off_pos(nkeys_of(d1), j) + 2),
        0 <= kvpos_of(d1, j),
        kvpos_of(d1, j) + 4 + klen_of(d1, j) + vlen_of(d1, j) <= d1.len(),
        kvpos_of(d1, j) + 4 + klen_of(d1, j) + vlen_of(d1, j) <= d2.len(),
        d1.subrange(kvpos_of(d1, j), kvpos_of(d1, j) + 4 + klen_of(d1, j) + vlen_of(d1, j))
            == d2.subrange(
            kvpos_of(d1, j),
            kvpos_of(d1, j) + 4 + klen_of(d1, j) + vlen_of(d1, j),
        ),
    ensures
        nkeys_of(d1) == nkeys_of(d2),
        btype_of(d1) == btype_of(d2),
        off_of(d1, j) == off_of(d2, j),
        kvpos_of(d1, j) == kvpos_of(d2, j),
        klen_of(d1, j) == klen_of(d2, j),
        vlen_of(d1, j) == vlen_of(d2, j),
        entry_same(d1, d2, j),
{
    assert(d1.subrange(0, 2) =~= d1.subrange(0, 4).subrange(0, 2));
    assert(d2.subrange(0, 2) =~= d2.subrange(0, 4).subrange(0, 2));
    assert(d1.subrange(2, 4) =~= d1.subrange(0, 4).subrange(2, 4));
    assert(d2.subrange(2, 4) =~= d2.subrange(0, 4).subrange(2, 4));
    let p = kvpos_of(d1, j);
    let e = p + 4 + klen_of(d1, j) + vlen_of(d1, j);
    let r1 = d1.subrange(p, e);
    let r2 = d2.subrange(p, e);
    assert(d1.subrange(p, p + 2) =~= r1.subrange(0, 2));
    assert(d2.subrange(p, p + 2) =~= r2.subrange(0, 2));
    assert(d1.subrange(p + 2, p + 4) =~= r1.subrange(2, 4));
    assert(d2.subrange(p + 2, p + 4) =~= r2.subrange(2, 4));
    let kl = klen_of(d1, j);
    let vl = vlen_of(d1, j);
    assert(key_of(d1, j) =~= r1.subrange(4, 4 + kl));
    assert(key_of(d2, j) =~= r2.subrange(4, 4 + kl));
    assert(val_of(d1, j) =~= r1.subrange(4 + kl, 4 + kl + vl));
    assert(val_of(d2, j) =~= r2.subrange(4 + kl, 4 + kl + vl));
}

/// Part of what was written can be read back.
pub proof fn lemma_written_part(d: Seq<u8>, p: int, w: Seq<u8>, a: int, b: int)
    requires
        0 <= p,
        p + w.len() <= d.len(),
        0 <= a <= b <= w.len(),
    ensures
        written(d, p, w).subrange(p + a, p + b) == w.subrange(a, b),
{
    assert(written(d, p, w).subrange(p + a, p + b) =~= w.subrange(a, b));
}

/// A node that is laid out consistently and small enough for `u16` positions.
pub open spec fn node_ok(d: Seq<u8>) -> bool {
    node_wf(d) && d.len() <= u16::MAX
}

/// The byte range `[p, q)` misses the header and every byte of entry `j`.
pub open spec fn misses_entry(d: Seq<u8>, j: int, p: int, q: int) -> bool {
    &&& 4 <= p
    &&& (q <= 4 + 8 * j || p >= 4 + 8 * j + 8)
    &&& (j > 0 ==> (q <= off_pos(nkeys_of(d), j) || p >= off_pos(nkeys_of(d), j) + 2))
    &&& (q <= kvpos_of(d, j) || p >= kvpos_of(d, j) + 4 + klen_of(d, j) + vlen_of(d, j))
}

/// Entry `j` lies inside `d`.
pub open spec fn entry_inside(d: Seq<u8>, j: int) -> bool {
    &&& 0 <= j
    &&& 4 + 8 * j + 8 <= d.len()
    &&& (j > 0 ==> off_pos(nkeys_of(d), j) + 2 <= d.len())
    &&& 0 <= kvpos_of(d, j)
    &&& kvpos_of(d, j) + 4 + klen_of(d, j) + vlen_of(d, j) <= d.len()
}

/// A write that misses entry `j` leaves it as it was.
pub proof fn lemma_write_keeps_entry(d: Seq<u8>, p: int, w: Seq<u8>, j: int)
    requires
        p + w.len() <= d.len(),
        d.len() >= 4,
        entry_inside(d, j),
        misses_entry(d, j, p, p + w.len()),
    ensures
        nkeys_of(written(d, p, w)) == nkeys_of(d),
        btype_of(written(d, p, w)) == btype_of(d),
        off_of(written(d, p, w), j) == off_of(d, j),
        kvpos_of(written(d, p, w), j) == kvpos_of(d, j),
        klen_of(written(d, p, w), j) == klen_of(d, j),
        vlen_of(written(d, p, w), j) == vlen_of(d, j),
        entry_same(d, written(d, p, w), j),
        written(d, p, w).len() == d.len(),
{
    let d2 = written(d, p, w);
    let n = d.len() as int;
    lemma_written_outside(d, p, w, 0, 4);
    lemma_written_outside(d, p, w, 4 + 8 * j, 4 + 8 * j + 8);
    if j > 0 {
        lemma_written_outside(d, p, w, off_pos(nkeys_of(d), j), off_pos(nkeys_of(d), j) + 2);
    }
    let e = kvpos_of(d, j) + 4 + klen_of(d, j) + vlen_of(d, j);
    lemma_written_outside(d, p, w, kvpos_of(d, j), e);
    lemma_entry_same(d, d2, j);
}

/// A write that misses offset slot `j` leaves entry `j`'s offset alone.
pub proof fn lemma_write_keeps_off(d: Seq<u8>, p: int, w: Seq<u8>, j: int)
    requires
        0 <= j,
        4 <= p,
        p + w.len() <= d.len(),
        d.len() >= 4,
        j > 0 ==> off_pos(nkeys_of(d), j) + 2 <= d.len(),
        j > 0 ==> (p + w.len() <= off_pos(nkeys_of(d), j) || p >= off_pos(nkeys_of(d), j) + 2),
    ensures
        nkeys_of(written(d, p, w)) == nkeys_of(d),
        btype_of(written(d, p, w)) == btype_of(d),
        off_of(written(d, p, w), j) == off_of(d, j),
        kvpos_of(written(d, p, w), j) == kvpos_of(d, j),
        written(d, p, w).len() == d.len(),
{
    let d2 = written(d, p, w);
    lemma_written_outside(d, p, w, 0, 4);
    assert(d.subrange(2, 4) =~= d.subrange(0, 4).subrange(2, 4));
    assert(d2.subrange(2, 4) =~= d2.subrange(0, 4).subrange(2, 4));
    assert(d.subrange(0, 2) =~= d.subrange(0, 4).subrange(0, 2));
    assert(d2.subrange(0, 2) =~= d2.subrange(0, 4).subrange(0, 2));
    assert(nkeys_of(d2) == nkeys_of(d));
    if j > 0 {
        let q = off_pos(nkeys_of(d), j);
        lemma_written_outside(d, p, w, q, q + 2);
        assert(off_pos(nkeys_of(d2), j) == q);
        assert(d2.subrange(q, q + 2) == d.subrange(q, q + 2));
        assert(off_of(d2, j) == off_of(d, j));
    }
}

/// The bytes of one key-value record.
pub open spec fn kv_record(key: Seq<u8>, val: Seq<u8>) -> Seq<u8> {
    spec_u16_to_le_bytes(key.len() as u16) + spec_u16_to_le_bytes(val.len() as u16) + key + val
}

/// Appends the bytes of `s` to `buf`.
fn push_all(buf: &mut Vec<u8>, s: &[u8])
    ensures
        final(buf)@ == old(buf)@ + s@,
{
    let mut i: usize = 0;
    while i < s.len()
        invariant
            i <= s@.len(),
            buf@ == old(buf)@ + s@.subrange(0, i as int),
        decreases s.len() - i,
    {
        buf.push(s[i]);
        i += 1;
        assert(buf@ =~= old(buf)@ + s@.subrange(0, i as int));
    }
    assert(s@.subrange(0, s@.len() as int) =~= s@);
}

// ------------------------------------------------------------------------
// The node
// ------------------------------------------------------------------------

/// A node image.
pub struct BNode {
    pub data: Vec<u8>,
}

impl View for BNode {
    type V = Seq<u8>;

    open spec fn view(&self) -> Seq<u8> {
        self.data@
    }
}

impl BNode {
    /// A zero-filled node image of `size` bytes.
    pub fn with_capacity(size: usize) -> (res: BNode)
        ensures
            res@.len() == size,
            forall|i: int| 0 <= i < size ==> res@[i] == 0,
    {
        let mut data: Vec<u8> = Vec::new();
        let mut i: usize = 0;
        while i < size
            invariant
                i <= size,
                data@.len() == i,
                forall|j: int| 0 <= j < i ==> data@[j] == 0,
            decreases size - i,
        {
            data.push(0);
            i += 1;
        }
        BNode { data }
    }

    /// A copy of this node image.
    pub fn duplicate(&self) -> (res: BNode)
        ensures
            res@ == self@,
    {
        let mut data: Vec<u8> = Vec::new();
        let mut i: usize = 0;
        while i < self.data.len()
            invariant
                i <= self.data@.len(),
                data@ == self.data@.subrange(0, i as int),
            decreases self.data.len() - i,
        {
            data.push(self.data[i]);
            i += 1;
            assert(data@ =~= self.data@.subrange(0, i as int));
        }
        assert(self.data@.subrange(0, self.data@.len() as int) =~= self.data@);
        BNode { data }
    }

    fn read16(&self, p: usize) -> (res: u16)
        requires
            p + 2 <= self@.len(),
        ensures
            res as int == rd16(self@, p as int),
    {
        let n = self.data.len();
        assert(p + 2 <= n);
        u16_from_le_bytes(&self.data.as_slice()[p..p + 2])
    }

    fn read64(&self, p: usize) -> (res: u64)
        requires
            p + 8 <= self@.len(),
        ensures
            res == rd64(self@, p as int),
    {
        let n = self.data.len();
        assert(p + 8 <= n);
        u64_from_le_bytes(&self.data.as_slice()[p..p + 8])
    }

    /// Writes `w` at position `p`.
    pub fn write_bytes(&mut self, p: usize, w: &[u8])
        requires
            p + w@.len() <= old(self)@.len(),
        ensures
            final(self)@ == written(old(self)@, p as int, w@),
    {
        let n = self.data.len();
        let mut i: usize = 0;
        while i < w.len()
            invariant
                n == self@.len(),
                p + w@.len() <= self@.len(),
                old(self)@.len() == self@.len(),
                i <= w@.len(),
                self@ == old(self)@.subrange(0, p as int) + w@.subrange(0, i as int) + old(
                    self,
                )@.subrange(p + i, old(self)@.len() as int),
            decreases w.len() - i,
        {
            let ghost before = self@;
            self.data.set(p + i, w[i]);
            i += 1;
            assert(self@ =~= old(self)@.subrange(0, p as int) + w@.subrange(0, i as int) + old(
                self,
            )@.subrange(p + i, old(self)@.len() as int));
        }
        assert(w@.subrange(0, w@.len() as int) =~= w@);
    }

    fn write16(&mut self, p: usize, v: u16)
        requires
            p + 2 <= old(self)@.len(),
        ensures
            final(self)@ == written(old(self)@, p as int, spec_u16_to_le_bytes(v)),
            rd16(final(self)@, p as int) == v,
    {
        proof {
            lemma_auto_spec_u16_to_from_le_bytes();
        }
        let b = u16_to_le_bytes(v);
        self.write_bytes(p, b.as_slice());
        proof {
            lemma_written_inside(old(self)@, p as int, b@);
        }
    }

    fn write64(&mut self, p: usize, v: u64)
        requires
            p + 8 <= old(self)@.len(),
        ensures
            final(self)@ == written(old(self)@, p as int, spec_u64_to_le_bytes(v)),
            rd64(final(self)@, p as int) == v,
    {
        proof {
            lemma_auto_spec_u64_to_from_le_bytes();
        }
        let b = u64_to_le_bytes(v);
        self.write_bytes(p, b.as_slice());
        proof {
            lemma_written_inside(old(self)@, p as int, b@);
        }
    }

    /// The node type.
    pub fn btype(&self) -> (res: u16)
        requires
            self@.len() >= 4,
        ensures
            res as int == btype_of(self@),
    {
        self.read16(0)
    }

    /// The number of keys.
    pub fn nkeys(&self) -> (res: u16)
        requires
            self@.len() >= 4,
        ensures
            res as int == nkeys_of(self@),
    {
        self.read16(2)
    }

    /// Sets the node type and key count.
    pub fn set_header(&mut self, btype: u16, nkeys: u16)
        requires
            old(self)@.len() >= 4,
        ensures
            final(self)@.len() == old(self)@.len(),
            btype_of(final(self)@) == btype,
            nkeys_of(final(self)@) == nkeys,
            final(self)@.subrange(4, old(self)@.len() as int) == old(self)@.subrange(
                4,
                old(self)@.len() as int,
            ),
    {
        proof {
            lemma_auto_spec_u16_to_from_le_bytes();
        }
        self.write16(0, btype);
        let ghost mid = self@;
        self.write16(2, nkeys);
        proof {
            lemma_written_outside(mid, 2, spec_u16_to_le_bytes(nkeys), 0, 2);
            lemma_written_outside(old(self)@, 0, spec_u16_to_le_bytes(btype), 4, old(self)@.len() as int);
            lemma_written_outside(mid, 2, spec_u16_to_le_bytes(nkeys), 4, old(self)@.len() as int);
        }
    }

    /// The child pointer of entry `idx`.
    pub fn get_ptr(&self, idx: u16) -> (res: u64)
        requires
            self@.len() >= 4,
            idx < nkeys_of(self@),
            4 + 8 * nkeys_of(self@) <= self@.len(),
        ensures
            res == ptr_of(self@, idx as int),
    {
        self.read64(4 + 8 * idx as usize)
    }

    /// Sets the child pointer of entry `idx`.
    pub fn set_ptr(&mut self, idx: u16, val: u64)
        requires
            old(self)@.len() >= 4,
            idx < nkeys_of(old(self)@),
            4 + 8 * nkeys_of(old(self)@) <= old(self)@.len(),
        ensures
            final(self)@ == written(old(self)@, 4 + 8 * idx, spec_u64_to_le_bytes(val)),
            ptr_of(final(self)@, idx as int) == val,
    {
        self.write64(4 + 8 * idx as usize, val);
    }

    /// The offset of entry `idx` within the key-value area.
    pub fn get_offset(&self, idx: u16) -> (res: u16)
        requires
            self@.len() >= 4,
            idx <= nkeys_of(self@),
            4 + 10 * nkeys_of(self@) <= self@.len(),
        ensures
            res as int == off_of(self@, idx as int),
    {
        if idx == 0 {
            return 0;
        }
        let n = self.nkeys() as usize;
        self.read16(4 + 8 * n + 2 * (idx as usize - 1))
    }

    /// Sets the offset of entry `idx` (`idx >= 1`).
    pub fn set_offset(&mut self, idx: u16, offset: u16)
        requires
            old(self)@.len() >= 4,
            1 <= idx <= nkeys_of(old(self)@),
            4 + 10 * nkeys_of(old(self)@) <= old(self)@.len(),
        ensures
            final(self)@ == written(
                old(self)@,
                off_pos(nkeys_of(old(self)@), idx as int),
                spec_u16_to_le_bytes(offset),
            ),
            off_of(final(self)@, idx as int) == offset,
            nkeys_of(final(self)@) == nkeys_of(old(self)@),
    {
        let n = self.nkeys() as usize;
        let p = 4 + 8 * n + 2 * (idx as usize - 1);
        self.write16(p, offset);
        proof {
            lemma_auto_spec_u16_to_from_le_bytes();
            lemma_written_outside(old(self)@, p as int, spec_u16_to_le_bytes(offset), 0, 4);
            assert(self@.subrange(2, 4) =~= self@.subrange(0, 4).subrange(2, 4));
            assert(old(self)@.subrange(2, 4) =~= old(self)@.subrange(0, 4).subrange(2, 4));
        }
    }

    /// The position of entry `idx`'s key-value.
    pub fn kv_pos(&self, idx: u16) -> (res: u16)
        requires
            self@.len() >= 4,
            idx <= nkeys_of(self@),
            4 + 10 * nkeys_of(self@) <= self@.len(),
            kvpos_of(self@, idx as int) <= u16::MAX,
        ensures
            res as int == kvpos_of(self@, idx as int),
    {
        let n = self.nkeys();
        HEADER + 8 * n + 2 * n + self.get_offset(idx)
    }

    /// The key of entry `idx`.
    pub fn get_key(&self, idx: u16) -> (res: &[u8])
        requires
            prefix_ok(self@, nkeys_of(self@)),
            idx < nkeys_of(self@),
            kvpos_of(self@, nkeys_of(self@)) <= u16::MAX,
        ensures
            res@ == key_of(self@, idx as int),
    {
        proof {
            lemma_kvpos_mono(self@, nkeys_of(self@), idx as int, idx + 1);
            lemma_kvpos_mono(self@, nkeys_of(self@), idx + 1, nkeys_of(self@));
        }
        let pos = self.kv_pos(idx) as usize;
        let klen = self.read16(pos) as usize;
        &self.data.as_slice()[pos + 4..pos + 4 + klen]
    }

    /// The value of entry `idx`.
    pub fn get_val(&self, idx: u16) -> (res: &[u8])
        requires
            prefix_ok(self@, nkeys_of(self@)),
            idx < nkeys_of(self@),
            kvpos_of(self@, nkeys_of(self@)) <= u16::MAX,
        ensures
            res@ == val_of(self@, idx as int),
    {
        proof {
            lemma_kvpos_mono(self@, nkeys_of(self@), idx as int, idx + 1);
            lemma_kvpos_mono(self@, nkeys_of(self@), idx + 1, nkeys_of(self@));
        }
        let pos = self.kv_pos(idx) as usize;
        let klen = self.read16(pos) as usize;
        let vlen = self.read16(pos + 2) as usize;
        &self.data.as_slice()[pos + 4 + klen..pos + 4 + klen + vlen]
    }

    /// Writes a key-value record at `pos`.
    pub fn write_kv(&mut self, pos: u16, key: &[u8], val: &[u8])
        requires
            pos + 4 + key@.len() + val@.len() <= old(self)@.len(),
            key@.len() <= u16::MAX,
            val@.len() <= u16::MAX,
        ensures
            final(self)@ == written(old(self)@, pos as int, kv_record(key@, val@)),
            kv_record(key@, val@).len() == 4 + key@.len() + val@.len(),
            rd16(final(self)@, pos as int) == key@.len(),
            rd16(final(self)@, pos + 2) == val@.len(),
            final(self)@.subrange(pos + 4, pos + 4 + key@.len()) == key@,
            final(self)@.subrange(pos + 4 + key@.len(), pos + 4 + key@.len() + val@.len())
                == val@,
    {
        proof {
            lemma_auto_spec_u16_to_from_le_bytes();
        }
        let klen: u16 = key.len() as u16;
        let vlen: u16 = val.len() as u16;
        let mut buf: Vec<u8> = Vec::new();
        let kb = u16_to_le_bytes(klen);
        let vb = u16_to_le_bytes(vlen);
        push_all(&mut buf, kb.as_slice());
        push_all(&mut buf, vb.as_slice());
        push_all(&mut buf, key);
        push_all(&mut buf, val);
        assert(buf@ =~= kv_record(key@, val@));
        self.write_bytes(pos as usize, buf.as_slice());
        proof {
            let r = kv_record(key@, val@);
            let kl = key@.len() as int;
            let vl = val@.len() as int;
            lemma_written_part(old(self)@, pos as int, r, 0, 2);
            lemma_written_part(old(self)@, pos as int, r, 2, 4);
            lemma_written_part(old(self)@, pos as int, r, 4, 4 + kl);
            lemma_written_part(old(self)@, pos as int, r, 4 + kl, 4 + kl + vl);
            assert(r.subrange(0, 2) =~= spec_u16_to_le_bytes(klen));
            assert(r.subrange(2, 4) =~= spec_u16_to_le_bytes(vlen));
            assert(r.subrange(4, 4 + kl) =~= key@);
            assert(r.subrange(4 + kl, 4 + kl + vl) =~= val@);
        }
    }

    /// The number of bytes the node occupies.
    pub fn nbytes(&self) -> (res: u16)
        requires
            self@.len() >= 4,
            4 + 10 * nkeys_of(self@) <= self@.len(),
            nbytes_of(self@) <= u16::MAX,
        ensures
            res as int == nbytes_of(self@),
    {
        self.kv_pos(self.nkeys())
    }
}

} // verus!
