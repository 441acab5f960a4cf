use byo_suite::btree::node::PAGE_SIZE;
use byo_suite::storage::cache::{Fetch, Page, PageCache, DEFAULT_CACHE_CAPACITY};

fn ids(c: &PageCache) -> Vec<u64> {
    c.pages.iter().map(|p| p.id).collect()
}

/// Allocates a page the way the pager does, without a file.
fn allocate(c: &mut PageCache) -> (u64, Option<Page>) {
    let (id, evicted) = c.allocate().unwrap();
    c.finish_load(Page::new(id));
    (id, evicted)
}

#[test]
fn new_pages_are_zero_and_clean() {
    let p = Page::new(3);
    assert_eq!(p.id, 3);
    assert_eq!(p.data.len(), PAGE_SIZE);
    assert!(p.data.iter().all(|b| *b == 0));
    assert!(!p.dirty);
    assert_eq!(p.offset(), 3 * PAGE_SIZE as u64);
}

#[test]
fn test_allocate_increases_num_pages() {
    let mut c = PageCache::new(0);
    assert_eq!(c.num_pages(), 0);
    assert_eq!(c.capacity, DEFAULT_CACHE_CAPACITY);
    let (id, evicted) = allocate(&mut c);
    assert_eq!(id, 0);
    assert!(evicted.is_none());
    assert_eq!(c.num_pages(), 1);
    assert_eq!(ids(&c), vec![0]);
}

#[test]
fn test_fetch_out_of_range_returns_error() {
    let mut c = PageCache::new(0);
    match c.fetch(999) {
        Err(m) => assert_eq!(m, "page_id 999 out of range (total: 0)"),
        Ok(_) => panic!("expected an error"),
    }
}

#[test]
fn a_cached_page_becomes_the_most_recent() {
    let mut c = PageCache::new(0);
    allocate(&mut c);
    allocate(&mut c);
    allocate(&mut c);
    assert_eq!(ids(&c), vec![2, 1, 0]);
    assert!(matches!(c.fetch(0), Ok(Fetch::Hit)));
    assert_eq!(ids(&c), vec![0, 2, 1]);
    assert_eq!(c.position(2), Some(1));
    assert_eq!(c.position(7), None);
}

#[test]
fn a_miss_evicts_the_least_recent_when_full() {
    let mut c = PageCache::new(5);
    c.capacity = 2;
    assert!(matches!(c.fetch(3), Ok(Fetch::Load { evicted: None })));
    c.finish_load(Page::new(3));
    assert!(matches!(c.fetch(4), Ok(Fetch::Load { evicted: None })));
    c.finish_load(Page::new(4));
    match c.fetch(1) {
        Ok(Fetch::Load { evicted: Some(p) }) => assert_eq!(p.id, 3),
        _ => panic!("expected an eviction"),
    }
    c.finish_load(Page::new(1));
    assert_eq!(ids(&c), vec![1, 4]);
}

#[test]
fn test_eviction_flushes_dirty_page() {
    let mut c = PageCache::new(0);
    c.capacity = 2;
    let (id0, _) = allocate(&mut c);
    let (_id1, _) = allocate(&mut c);
    assert!(matches!(c.fetch(id0), Ok(Fetch::Hit)));
    c.mark_dirty(0);
    c.pages[0].data[0] = 42;
    let (_id2, evicted) = allocate(&mut c);
    let evicted = evicted.unwrap();
    assert_eq!(evicted.id, 1);
    assert!(!evicted.dirty);
    // page 0 is still cached and dirty: flushing writes it
    let dirty = c.dirty_positions();
    assert_eq!(dirty.len(), 1);
    assert_eq!(c.pages[dirty[0]].id, id0);
    assert_eq!(c.pages[dirty[0]].data[0], 42);
    c.mark_clean(dirty[0]);
    assert!(c.dirty_positions().is_empty());
}

#[test]
fn an_empty_cache_without_room_cannot_evict() {
    let mut c = PageCache::new(1);
    c.capacity = 0;
    match c.fetch(0) {
        Err(m) => assert_eq!(m, "cache empty, nothing to evict"),
        Ok(_) => panic!("expected an error"),
    }
    assert!(matches!(c.evict_lru(), Err(_)));
    assert!(c.allocate().is_err());
    assert_eq!(c.num_pages(), 2);
}
