use tinydb::page::{page_add_item, page_free_space, page_get_items, page_init, PageError};

#[test]
fn fresh_page_layout() {
    let p = page_init();
    assert_eq!(p.len(), 8192);
    assert_eq!(&p[0..6], &[6, 0, 0, 32, 0, 0]);
    assert_eq!(page_free_space(&p), Some(8186));
    assert_eq!(page_get_items(&p).unwrap(), Vec::<Vec<u8>>::new());
}

#[test]
fn add_item_writes_item_id_and_bytes() {
    let mut p = page_init();
    page_add_item(&mut p, &vec![1, 2, 3]).unwrap();
    assert_eq!(&p[0..4], &[10, 0, 0xfd, 0x1f]);
    assert_eq!(&p[6..10], &[0xfd, 0x1f, 3, 0]);
    assert_eq!(&p[8189..8192], &[1, 2, 3]);
    page_add_item(&mut p, &vec![4]).unwrap();
    assert_eq!(page_get_items(&p).unwrap(), vec![vec![1, 2, 3], vec![4]]);
    assert_eq!(page_free_space(&p), Some(8186 - 8 - 4));
}

#[test]
fn zero_page_is_empty_page() {
    let mut p = vec![0u8; 8192];
    assert_eq!(page_get_items(&p).unwrap(), Vec::<Vec<u8>>::new());
    page_add_item(&mut p, &vec![7]).unwrap();
    assert_eq!(page_get_items(&p).unwrap(), vec![vec![7]]);
}

#[test]
fn no_room_leaves_page_unchanged() {
    let mut p = page_init();
    page_add_item(&mut p, &vec![0; 8000]).unwrap();
    let before = p.clone();
    assert_eq!(page_add_item(&mut p, &vec![0; 179]), Err(PageError::NoRoomOnPage));
    assert_eq!(p, before);
    assert_eq!(page_add_item(&mut p, &vec![0; 178]), Ok(()));
}

#[test]
fn corrupt_header_and_item_detected() {
    let mut p = page_init();
    p[2] = 0xff;
    p[3] = 0xff;
    assert_eq!(page_add_item(&mut p, &vec![1]), Err(PageError::PageCorruption));
    assert_eq!(page_get_items(&p), Err(PageError::PageCorruption));
    let mut q = page_init();
    page_add_item(&mut q, &vec![1]).unwrap();
    q[6] = 0xff;
    q[7] = 0xff;
    assert_eq!(page_get_items(&q), Err(PageError::PageCorruption));
}

#[test]
fn tombstone_is_skipped() {
    let mut p = page_init();
    page_add_item(&mut p, &vec![1]).unwrap();
    page_add_item(&mut p, &vec![2]).unwrap();
    p[8] = 0;
    p[9] = 0;
    assert_eq!(page_get_items(&p).unwrap(), vec![vec![2]]);
}
