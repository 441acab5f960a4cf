//! The pager's cache of pages: which pages are held in memory, in order of
//! use, and which of them were changed since they were read. The reading
//! and writing of the file is done by the caller, as each operation says.

use vstd::prelude::*;
use crate::btree::node::PAGE_SIZE;
use vstd::string::StringExecFns;
use crate::text::{append_str, nat_digits, u64_to_string};

verus! {

/// How many pages the cache holds at most, unless told otherwise.
pub const DEFAULT_CACHE_CAPACITY: usize = 64;

/// A page of the file held in memory.
pub struct Page {
    pub id: u64,
    pub data: Vec<u8>,
    pub dirty: bool,
}

impl Page {
    /// Page `id`, all zeros, unchanged.
    pub fn new(id: u64) -> (res: Page)
        ensures
            res.id == id,
            res.data@ == Seq::new(PAGE_SIZE as nat, |i: int| 0u8),
            !res.dirty,
    {
        let mut data: Vec<u8> = Vec::new();
        let mut i: usize = 0;
        while i < PAGE_SIZE
            invariant
                i <= PAGE_SIZE,
                data@ == Seq::new(i as nat, |k: int| 0u8),
            decreases PAGE_SIZE - i,
        {
            data.push(0);
            i += 1;
            assert(data@ =~= Seq::new(i as nat, |k: int| 0u8));
        }
        Page { id, data, dirty: false }
    }

    /// Where the page starts in the file.
    pub fn offset(&self) -> (res: u64)
        requires
            self.id * PAGE_SIZE <= u64::MAX,
        ensures
            res == self.id * PAGE_SIZE,
    {
        self.id * (PAGE_SIZE as u64)
    }
}

/// The cached pages, the most recently used first, how many pages it may
/// hold, and how many pages the file has.
pub struct PageCache {
    pub pages: Vec<Page>,
    pub capacity: usize,
    pub num_pages: u64,
}

/// What fetching a page asks of the caller: nothing, or reading the page
/// from the file, after writing back the evicted page if it changed.
pub enum Fetch {
    Hit,
    Load { evicted: Option<Page> },
}

/// The ids of cached pages, the most recently used first.
pub open spec fn ids_of(pages: Seq<Page>) -> Seq<u64> {
    pages.map_values(|p: Page| p.id)
}

impl PageCache {
    pub open spec fn ids(&self) -> Seq<u64> {
        ids_of(self.pages@)
    }

    /// No page is cached twice, at most `capacity` are, all are pages of
    /// the file and of a page's size.
    pub open spec fn wf(&self) -> bool {
        &&& self.ids().no_duplicates()
        &&& self.pages@.len() <= self.capacity
        &&& forall|i: int| 0 <= i < self.pages@.len() ==> #[trigger] self.pages@[i].id < self.num_pages
        &&& forall|i: int| 0 <= i < self.pages@.len() ==> #[trigger] self.pages@[i].data@.len()
            == PAGE_SIZE
    }

    /// The content and changed flag of each cached page.
    pub open spec fn content(&self) -> Map<u64, (Seq<u8>, bool)> {
        Map::new(
            |id: u64| self.ids().contains(id),
            |id: u64| {
                let i = self.ids().index_of(id);
                (self.pages@[i].data@, self.pages@[i].dirty)
            },
        )
    }

    /// An empty cache over a file of `num_pages` pages.
    pub fn new(num_pages: u64) -> (res: PageCache)
        ensures
            res.wf(),
            res.ids() == Seq::<u64>::empty(),
            res.capacity == DEFAULT_CACHE_CAPACITY,
            res.num_pages == num_pages,
    {
        let res = PageCache { pages: Vec::new(), capacity: DEFAULT_CACHE_CAPACITY, num_pages };
        assert(res.ids() =~= Seq::<u64>::empty());
        res
    }

    /// The number of pages of the file.
    pub fn num_pages(&self) -> (res: u64)
        ensures
            res == self.num_pages,
    {
        self.num_pages
    }

    /// Where page `id` is in the cache, if it is.
    pub fn position(&self, id: u64) -> (res: Option<usize>)
        ensures
            match res {
                Some(i) => i < self.pages@.len() && self.pages@[i as int].id == id,
                None => !self.ids().contains(id),
            },
    {
        let mut i: usize = 0;
        while i < self.pages.len()
            invariant
                i <= self.pages@.len(),
                forall|k: int| 0 <= k < i ==> self.pages@[k].id != id,
            decreases self.pages.len() - i,
        {
            if self.pages[i].id == id {
                return Some(i);
            }
            i += 1;
        }
        proof {
            if self.ids().contains(id) {
                let k = choose|k: int| 0 <= k < self.ids().len() && self.ids()[k] == id;
                assert(self.pages@[k].id == id);
            }
        }
        None
    }
}

/// The message for a page number past the end of the file.
pub open spec fn out_of_range_message(id: u64, total: u64) -> Seq<char> {
    "page_id "@ + nat_digits(id as nat) + " out of range (total: "@ + nat_digits(total as nat) + ")"@
}

pub open spec fn empty_cache_message() -> Seq<char> {
    "cache empty, nothing to evict"@
}

impl PageCache {
    /// Makes the page at `i` the most recently used.
    pub fn touch(&mut self, i: usize)
        requires
            old(self).wf(),
            i < old(self).pages@.len(),
        ensures
            final(self).wf(),
            final(self).pages@ == seq![old(self).pages@[i as int]] + old(self).pages@.remove(i as int),
            final(self).capacity == old(self).capacity,
            final(self).num_pages == old(self).num_pages,
    {
        let ghost before = self.pages@;
        let page = self.pages.remove(i);
        self.pages.insert(0, page);
        proof {
            assert(self.pages@ =~= seq![before[i as int]] + before.remove(i as int));
            lemma_front_no_dup(before, i as int);
            assert forall|k: int| #![trigger self.pages@[k]] 0 <= k < self.pages@.len() implies self.pages@[k].id
                < self.num_pages && self.pages@[k].data@.len() == PAGE_SIZE by {
                if k == 0 {
                } else if k - 1 < i {
                    assert(self.pages@[k] == before[k - 1]);
                } else {
                    assert(self.pages@[k] == before[k]);
                }
            }
            assert(forall|k: int| 0 <= k < self.pages@.len() ==> #[trigger] self.pages@[k].id < self.num_pages);
            assert(forall|k: int| 0 <= k < self.pages@.len() ==> #[trigger] self.pages@[k].data@.len() == PAGE_SIZE);
            assert(self.wf());
        }
    }

    /// Removes the least recently used page and gives it back, so that the
    /// caller writes it to the file if it changed.
    pub fn evict_lru(&mut self) -> (res: Result<Page, String>)
        requires
            old(self).wf(),
        ensures
            final(self).wf(),
            final(self).capacity == old(self).capacity,
            final(self).num_pages == old(self).num_pages,
            old(self).pages@.len() == 0 ==> (res matches Err(m) && m@ == empty_cache_message())
                && final(self).pages@ == old(self).pages@,
            old(self).pages@.len() > 0 ==> (res matches Ok(p) && p == old(self).pages@.last())
                && final(self).pages@ == old(self).pages@.drop_last(),
    {
        match self.pages.pop() {
            Some(p) => {
                proof {
                    assert(ids_of(self.pages@) =~= ids_of(old(self).pages@).drop_last());
                }
                Ok(p)
            },
            None => Err(String::from_str("cache empty, nothing to evict")),
        }
    }

    /// The first step of fetching page `id`: an error for a page past the
    /// end of the file; for a cached page, it becomes the most recently
    /// used; otherwise room is made (evicting the least recently used page
    /// when the cache is full) and the caller reads the page and hands it
    /// to `finish_load`.
    pub fn fetch(&mut self, id: u64) -> (res: Result<Fetch, String>)
        requires
            old(self).wf(),
        ensures
            final(self).wf(),
            final(self).capacity == old(self).capacity,
            final(self).num_pages == old(self).num_pages,
            id >= old(self).num_pages ==> (res matches Err(m) && m@ == out_of_range_message(
                id,
                old(self).num_pages,
            )) && final(self).pages@ == old(self).pages@,
            id < old(self).num_pages && old(self).ids().contains(id) ==> (res matches Ok(Fetch::Hit))
                && final(self).pages@ == seq![old(self).pages@[old(self).ids().index_of(id)]]
                + old(self).pages@.remove(old(self).ids().index_of(id)),
            id < old(self).num_pages && !old(self).ids().contains(id) && old(self).pages@.len()
                < old(self).capacity ==> (res matches Ok(Fetch::Load { evicted: None }))
                && final(self).pages@ == old(self).pages@,
            id < old(self).num_pages && !old(self).ids().contains(id) && old(self).pages@.len()
                >= old(self).capacity && old(self).pages@.len() == 0 ==> (res matches Err(m) && m@
                == empty_cache_message()) && final(self).pages@ == old(self).pages@,
            id < old(self).num_pages && !old(self).ids().contains(id) && old(self).pages@.len()
                >= old(self).capacity && old(self).pages@.len() > 0 ==> (res matches Ok(
                Fetch::Load { evicted: Some(p) },
            ) && p == old(self).pages@.last()) && final(self).pages@ == old(self).pages@.drop_last(),
    {
        if id >= self.num_pages {
            let mut m = String::from_str("page_id ");
            append_str(&mut m, u64_to_string(id).as_str());
            append_str(&mut m, " out of range (total: ");
            append_str(&mut m, u64_to_string(self.num_pages).as_str());
            append_str(&mut m, ")");
            return Err(m);
        }
        match self.position(id) {
            Some(i) => {
                proof {
                    assert(self.ids()[i as int] == id);
                    assert(self.ids().contains(id));
                    lemma_index_of_unique(self.ids(), i as int, id);
                }
                self.touch(i);
                Ok(Fetch::Hit)
            },
            None => {
                if self.pages.len() >= self.capacity {
                    match self.evict_lru() {
                        Ok(p) => Ok(Fetch::Load { evicted: Some(p) }),
                        Err(m) => Err(m),
                    }
                } else {
                    Ok(Fetch::Load { evicted: None })
                }
            },
        }
    }

    /// Puts a page just read from the file in front, as the most recently
    /// used.
    pub fn finish_load(&mut self, page: Page)
        requires
            old(self).wf(),
            page.id < old(self).num_pages,
            !old(self).ids().contains(page.id),
            old(self).pages@.len() < old(self).capacity,
            page.data@.len() == PAGE_SIZE,
        ensures
            final(self).wf(),
            final(self).pages@ == seq![page] + old(self).pages@,
            final(self).capacity == old(self).capacity,
            final(self).num_pages == old(self).num_pages,
    {
        let ghost before = self.pages@;
        self.pages.insert(0, page);
        proof {
            assert(self.pages@ =~= seq![page] + before);
            let ids = ids_of(self.pages@);
            assert(ids =~= seq![page.id] + ids_of(before));
            assert forall|a: int, b: int| 0 <= a < b < ids.len() implies ids[a] != ids[b] by {
                if a == 0 {
                    assert(ids[b] == ids_of(before)[b - 1]);
                    assert(ids_of(before).contains(ids[b]));
                } else {
                    assert(ids[a] == ids_of(before)[a - 1]);
                    assert(ids[b] == ids_of(before)[b - 1]);
                }
            }
            assert forall|k: int| #![trigger self.pages@[k]] 0 <= k < self.pages@.len() implies self.pages@[k].id
                < self.num_pages && self.pages@[k].data@.len() == PAGE_SIZE by {
                if k > 0 {
                    assert(self.pages@[k] == before[k - 1]);
                }
            }
            assert(self.ids().no_duplicates());
            assert(forall|k: int| 0 <= k < self.pages@.len() ==> #[trigger] self.pages@[k].id < self.num_pages);
            assert(forall|k: int| 0 <= k < self.pages@.len() ==> #[trigger] self.pages@[k].data@.len() == PAGE_SIZE);
            assert(self.wf());
        }
    }

    /// Marks the page at `i` as changed.
    pub fn mark_dirty(&mut self, i: usize)
        requires
            old(self).wf(),
            i < old(self).pages@.len(),
        ensures
            final(self).wf(),
            final(self).pages@.len() == old(self).pages@.len(),
            forall|k: int| 0 <= k < old(self).pages@.len() && k != i ==> #[trigger] final(self).pages@[k]
                == old(self).pages@[k],
            final(self).pages@[i as int].id == old(self).pages@[i as int].id,
            final(self).pages@[i as int].data@ == old(self).pages@[i as int].data@,
            final(self).pages@[i as int].dirty,
            final(self).capacity == old(self).capacity,
            final(self).num_pages == old(self).num_pages,
    {
        self.pages[i].dirty = true;
        proof {
            assert(ids_of(self.pages@) =~= ids_of(old(self).pages@));
            assert(self.ids().no_duplicates());
            assert forall|k: int| #![trigger self.pages@[k]] 0 <= k < self.pages@.len() implies self.pages@[k].id
                < self.num_pages && self.pages@[k].data@.len() == PAGE_SIZE by {
                if k != i {
                    assert(self.pages@[k] == old(self).pages@[k]);
                }
            }
            assert(forall|k: int| 0 <= k < self.pages@.len() ==> #[trigger] self.pages@[k].id < self.num_pages);
            assert(forall|k: int| 0 <= k < self.pages@.len() ==> #[trigger] self.pages@[k].data@.len() == PAGE_SIZE);
            assert(self.wf());
        }
    }

    /// Marks the page at `i` as written back.
    pub fn mark_clean(&mut self, i: usize)
        requires
            old(self).wf(),
            i < old(self).pages@.len(),
        ensures
            final(self).wf(),
            final(self).pages@.len() == old(self).pages@.len(),
            forall|k: int| 0 <= k < old(self).pages@.len() && k != i ==> #[trigger] final(self).pages@[k]
                == old(self).pages@[k],
            final(self).pages@[i as int].id == old(self).pages@[i as int].id,
            final(self).pages@[i as int].data@ == old(self).pages@[i as int].data@,
            !final(self).pages@[i as int].dirty,
            final(self).capacity == old(self).capacity,
            final(self).num_pages == old(self).num_pages,
    {
        self.pages[i].dirty = false;
        proof {
            assert(ids_of(self.pages@) =~= ids_of(old(self).pages@));
            assert(self.ids().no_duplicates());
            assert forall|k: int| #![trigger self.pages@[k]] 0 <= k < self.pages@.len() implies self.pages@[k].id
                < self.num_pages && self.pages@[k].data@.len() == PAGE_SIZE by {
                if k != i {
                    assert(self.pages@[k] == old(self).pages@[k]);
                }
            }
            assert(forall|k: int| 0 <= k < self.pages@.len() ==> #[trigger] self.pages@[k].id < self.num_pages);
            assert(forall|k: int| 0 <= k < self.pages@.len() ==> #[trigger] self.pages@[k].data@.len() == PAGE_SIZE);
            assert(self.wf());
        }
    }

    /// The first step of adding a page at the end of the file: its number,
    /// and the page evicted to make room for it (an error when the cache is
    /// full and empty at once). The caller writes the evicted page back if
    /// it changed, writes the new page's zeros, and hands `Page::new` of the
    /// number to `finish_load`.
    pub fn allocate(&mut self) -> (res: Result<(u64, Option<Page>), String>)
        requires
            old(self).wf(),
            old(self).num_pages < u64::MAX,
        ensures
            final(self).wf(),
            final(self).capacity == old(self).capacity,
            final(self).num_pages == old(self).num_pages + 1,
            old(self).pages@.len() < old(self).capacity ==> res == Ok::<(u64, Option<Page>), String>(
                (old(self).num_pages, None),
            ) && final(self).pages@ == old(self).pages@,
            old(self).pages@.len() >= old(self).capacity && old(self).pages@.len() == 0 ==> (res matches Err(
                m,
            ) && m@ == empty_cache_message()) && final(self).pages@ == old(self).pages@,
            old(self).pages@.len() >= old(self).capacity && old(self).pages@.len() > 0 ==> (res matches Ok(
                (n, Some(p)),
            ) && n == old(self).num_pages && p == old(self).pages@.last()) && final(self).pages@
                == old(self).pages@.drop_last(),
            res is Ok ==> !final(self).ids().contains(old(self).num_pages) && final(self).pages@.len()
                < final(self).capacity,
    {
        let new_id = self.num_pages;
        self.num_pages = self.num_pages + 1;
        let evicted = if self.pages.len() >= self.capacity {
            match self.evict_lru() {
                Ok(p) => Some(p),
                Err(m) => {
                    return Err(m);
                },
            }
        } else {
            None
        };
        proof {
            if self.ids().contains(new_id) {
                let k = choose|k: int| 0 <= k < self.ids().len() && self.ids()[k] == new_id;
                assert(self.pages@[k].id < old(self).num_pages);
            }
        }
        Ok((new_id, evicted))
    }

    /// The positions of the changed pages, front to back.
    pub fn dirty_positions(&self) -> (res: Vec<usize>)
        ensures
            forall|k: int| 0 <= k < res@.len() ==> #[trigger] res@[k] < self.pages@.len()
                && self.pages@[res@[k] as int].dirty,
            forall|i: int| 0 <= i < self.pages@.len() && #[trigger] self.pages@[i].dirty ==> res@.contains(
                i as usize,
            ),
            forall|a: int, b: int| 0 <= a < b < res@.len() ==> res@[a] < res@[b],
    {
        let mut res: Vec<usize> = Vec::new();
        let mut i: usize = 0;
        while i < self.pages.len()
            invariant
                i <= self.pages@.len(),
                forall|k: int| 0 <= k < res@.len() ==> #[trigger] res@[k] < i && self.pages@[res@[k] as int].dirty,
                forall|j: int| 0 <= j < i && #[trigger] self.pages@[j].dirty ==> res@.contains(j as usize),
                forall|a: int, b: int| 0 <= a < b < res@.len() ==> res@[a] < res@[b],
            decreases self.pages.len() - i,
        {
            if self.pages[i].dirty {
                let ghost before = res@;
                res.push(i);
                proof {
                    assert forall|j: int| 0 <= j < i + 1 && #[trigger] self.pages@[j].dirty implies res@.contains(
                        j as usize,
                    ) by {
                        if j < i {
                            assert(before.contains(j as usize));
                            let t = choose|t: int| 0 <= t < before.len() && before[t] == j as usize;
                            assert(res@[t] == j as usize);
                        } else {
                            assert(res@[res@.len() - 1] == i);
                        }
                    }
                }
            }
            i += 1;
        }
        res
    }
}

/// Moving one element to the front keeps the elements distinct.
proof fn lemma_front_no_dup(s: Seq<Page>, i: int)
    requires
        0 <= i < s.len(),
        ids_of(s).no_duplicates(),
    ensures
        ids_of(seq![s[i]] + s.remove(i)).no_duplicates(),
{
    let t = seq![s[i]] + s.remove(i);
    let a = ids_of(s);
    let b = ids_of(t);
    assert forall|x: int, y: int| 0 <= x < y < b.len() implies b[x] != b[y] by {
        let ox = if x == 0 { i } else if x - 1 < i { x - 1 } else { x };
        let oy = if y - 1 < i { y - 1 } else { y };
        assert(b[x] == a[ox]);
        assert(b[y] == a[oy]);
        assert(ox != oy);
    }
}

/// With no duplicates, the position of an element is where it is.
proof fn lemma_index_of_unique(s: Seq<u64>, i: int, x: u64)
    requires
        0 <= i < s.len(),
        s[i] == x,
        s.no_duplicates(),
    ensures
        s.index_of(x) == i,
{
    assert(s.contains(x));
    let j = s.index_of(x);
    assert(0 <= j < s.len() && s[j] == x);
}

} // verus!
