use tinydb::buffer::{BufferPage, BufferPool, BufferTag};
use tinydb::page::page_get_items;
use tinydb::storage::{RelLocator, StorageManager};
use tinydb::Error;

fn loc() -> RelLocator {
    RelLocator { tablespace: 1663, database: 16384, oid: 500 }
}

fn storage_with_pages(n: u32) -> StorageManager {
    let mut smgr = StorageManager::new();
    for k in 1..=n {
        assert_eq!(smgr.extend(loc()), Ok(k));
        let mut page = vec![0u8; 8192];
        page[100] = k as u8;
        smgr.write(loc(), k, &page).unwrap();
    }
    smgr
}

#[test]
fn lru_eviction_reuses_least_recent_frame() {
    let mut pool = BufferPool::new(2, storage_with_pages(3));
    let b1 = pool.fetch_buffer(loc(), 1).unwrap();
    pool.unpin_buffer(b1, false).unwrap();
    let b2 = pool.fetch_buffer(loc(), 2).unwrap();
    pool.unpin_buffer(b2, false).unwrap();
    assert_ne!(b1, b2);
    assert_eq!(pool.lru_list(), vec![b1, b2]);
    let b3 = pool.fetch_buffer(loc(), 3).unwrap();
    assert_eq!(b3, b1);
    assert_eq!(pool.buffer_tag(b3), Some(BufferTag::new(3, loc())));
    assert_eq!(pool.lru_list(), vec![b2]);
    pool.unpin_buffer(b3, false).unwrap();
    let on_disk = pool.storage().read(loc(), 1).unwrap();
    assert_eq!(on_disk[100], 1);
    assert!(on_disk.iter().enumerate().all(|(i, b)| i == 100 || *b == 0));
}

#[test]
fn dirty_frame_is_flushed_on_eviction() {
    let mut pool = BufferPool::new(1, storage_with_pages(2));
    let b = pool.fetch_buffer(loc(), 1).unwrap();
    pool.add_item(b, &vec![9, 8, 7]).unwrap();
    pool.unpin_buffer(b, true).unwrap();
    assert!(pool.is_buffer_dirty(b));
    let b2 = pool.fetch_buffer(loc(), 2).unwrap();
    assert_eq!(b2, b);
    let on_disk = pool.storage().read(loc(), 1).unwrap();
    let items = page_get_items(&on_disk).unwrap();
    assert_eq!(items, vec![vec![9, 8, 7]]);
    assert_eq!(&on_disk[8189..8192], &[9, 8, 7]);
}

#[test]
fn flush_then_read_matches_frame() {
    let mut pool = BufferPool::new(2, storage_with_pages(1));
    let b = pool.fetch_buffer(loc(), 1).unwrap();
    pool.add_item(b, &vec![1, 2, 3, 4]).unwrap();
    pool.flush_buffer(b).unwrap();
    assert!(!pool.is_buffer_dirty(b));
    let frame = pool.get_page(b).unwrap();
    assert_eq!(pool.storage().read(loc(), 1).unwrap(), frame.as_bytes().clone());
    pool.unpin_buffer(b, false).unwrap();
}

#[test]
fn clean_page_equals_file() {
    let mut pool = BufferPool::new(2, storage_with_pages(2));
    let b = pool.fetch_buffer(loc(), 2).unwrap();
    let frame = pool.get_page(b).unwrap();
    assert_eq!(frame.as_bytes().clone(), pool.storage().read(loc(), 2).unwrap());
    assert_eq!(frame.slice(100, 101), vec![2]);
}

#[test]
fn pinned_frames_are_not_in_lru() {
    let mut pool = BufferPool::new(2, storage_with_pages(2));
    let b1 = pool.fetch_buffer(loc(), 1).unwrap();
    let again = pool.fetch_buffer(loc(), 1).unwrap();
    assert_eq!(b1, again);
    assert_eq!(pool.pin_count(b1), 2);
    assert!(pool.lru_list().is_empty());
    pool.unpin_buffer(b1, false).unwrap();
    assert!(pool.lru_list().is_empty());
    pool.unpin_buffer(b1, false).unwrap();
    assert_eq!(pool.lru_list(), vec![b1]);
    assert_eq!(pool.unpin_buffer(b1, false), Err(Error::InvalidBuffer));
}

#[test]
fn pool_exhausted_by_pins() {
    let mut pool = BufferPool::new(1, storage_with_pages(2));
    let _b = pool.fetch_buffer(loc(), 1).unwrap();
    assert_eq!(pool.fetch_buffer(loc(), 2), Err(Error::NoFreeBuffer));
    assert_eq!(pool.fetch_buffer(loc(), 9), Err(Error::NoFreeBuffer));
    let mut free = BufferPool::new(1, storage_with_pages(2));
    assert_eq!(free.fetch_buffer(loc(), 9), Err(Error::ShortRead));
    assert_eq!(free.fetch_buffer(loc(), 0), Err(Error::ShortRead));
}

#[test]
fn alloc_buffer_gives_zeroed_new_page() {
    let mut pool = BufferPool::new(2, storage_with_pages(1));
    let b = pool.alloc_buffer(loc()).unwrap();
    assert_eq!(pool.buffer_tag(b), Some(BufferTag::new(2, loc())));
    assert!(pool.get_page(b).unwrap().as_bytes().iter().all(|x| *x == 0));
    assert_eq!(pool.size_of_relation(loc()), 2);
}

#[test]
fn flush_all_writes_dirty_frames() {
    let mut pool = BufferPool::new(2, storage_with_pages(2));
    let b = pool.fetch_buffer(loc(), 2).unwrap();
    pool.add_item(b, &vec![5]).unwrap();
    pool.unpin_buffer(b, true).unwrap();
    pool.flush_all_buffers().unwrap();
    assert!(!pool.is_buffer_dirty(b));
    let on_disk = pool.storage().read(loc(), 2).unwrap();
    assert_eq!(page_get_items(&on_disk).unwrap(), vec![vec![5]]);
}

#[test]
fn page_writer_writes_at_offset() {
    let page = BufferPage::new_empty();
    let mut w = page.writer();
    assert_eq!(w.write_at(&[1, 2], 10), Ok(2));
    assert_eq!(w.write_at(&[1], 8192), Err(Error::ShortWrite));
    let p = w.into_page();
    assert_eq!(p.slice(10, 12), vec![1, 2]);
    assert_eq!(p.slice(0, 4), vec![6, 0, 0, 32]);
}

#[test]
fn add_item_without_room_fails() {
    let mut pool = BufferPool::new(1, storage_with_pages(1));
    let b = pool.fetch_buffer(loc(), 1).unwrap();
    assert_eq!(pool.add_item(b, &vec![0; 8183]), Err(Error::NoRoomOnPage));
    assert!(!pool.is_buffer_dirty(b));
    assert_eq!(pool.add_item(b, &vec![0; 8182]), Ok(()));
    pool.unpin_buffer(b, true).unwrap();
    assert_eq!(pool.add_item(b, &vec![1]), Err(Error::InvalidBuffer));
}

#[test]
fn storage_files_load_and_save() {
    let mut smgr = StorageManager::new();
    assert_eq!(smgr.load_file(loc(), &vec![0; 100]), Err(Error::ShortRead));
    let mut bytes = vec![0u8; 2 * 8192];
    bytes[8192] = 4;
    smgr.load_file(loc(), &bytes).unwrap();
    assert_eq!(smgr.size(loc()), 2);
    assert_eq!(smgr.read(loc(), 2).unwrap()[0], 4);
    assert_eq!(smgr.file_bytes(loc()), bytes);
    assert_eq!(smgr.locators(), vec![loc()]);
    assert_eq!(smgr.write(loc(), 3, &vec![0; 8192]), Err(Error::ShortWrite));
}

#[test]
fn default_tag_is_invalid() {
    let t = BufferTag::default();
    assert_eq!(t, BufferTag { tablespace: 0, db: 0, relation: 0, page_number: 0 });
    assert_eq!(BufferTag::invalid(), t);
}
