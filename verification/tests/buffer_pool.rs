use pipedb::storage::buffer_pool::{Access, BufferPool, DEFAULT_CAPACITY};
use pipedb::storage::page::RowPage;
use pipedb::storage::pager::Pager;
use pipedb::storage::{StorageError, PAGE_SIZE};

fn image(id: u32) -> Vec<u8> {
    RowPage::new(id).serialize()
}

/// Loads an empty page with the given identifier, as a caller would.
fn load(pool: &mut BufferPool, id: u32) -> Option<(u32, Vec<u8>)> {
    match pool.read_page(id) {
        Access::Load { write_back } => {
            pool.install(id, &image(id)).unwrap();
            write_back.map(|w| (w.page_id, w.bytes))
        }
        other => panic!("expected a load, got {:?}", other),
    }
}

#[test]
fn a_new_pool_is_empty() {
    let pool = BufferPool::new(3);
    assert_eq!(pool.len(), 0);
    assert_eq!(pool.capacity(), 3);
    assert!(!pool.contains(0));
    assert!(pool.page(0).is_none());
    assert_eq!(DEFAULT_CAPACITY, 10);
}

#[test]
fn a_miss_below_capacity_asks_for_a_load_without_a_write() {
    let mut pool = BufferPool::new(2);
    assert!(matches!(
        pool.read_page(4),
        Access::Load { write_back: None }
    ));
    assert_eq!(pool.len(), 0);
    assert_eq!(pool.install(4, &image(4)), Ok(()));
    assert!(pool.contains(4));
    assert!(matches!(pool.read_page(4), Access::Resident));
    let page = pool.page(4).unwrap();
    assert_eq!(page.get_id(), 4);
    assert!(!page.is_dirty());
    assert!(!page.is_referenced_recently());
}

#[test]
fn the_pool_never_holds_more_pages_than_its_capacity() {
    for capacity in 1..5usize {
        let mut pool = BufferPool::new(capacity);
        for round in 0..40u32 {
            let id = (round * 7) % 13;
            if !pool.contains(id) {
                load(&mut pool, id);
            }
            assert!(pool.contains(id));
            assert!(pool.len() <= capacity);
            if round % 3 == 0 {
                pool.insert_record(id, &[round as u8]).unwrap();
            }
            if round % 5 == 0 {
                pool.read_record(id, 0).unwrap();
            }
            assert!(pool.len() <= capacity);
        }
        pool.flush();
        assert!(pool.len() <= capacity);
    }
}

#[test]
fn clock_gives_a_second_chance_and_then_evicts_the_first_page() {
    let (a, b, c) = (10u32, 20u32, 30u32);
    let mut pool = BufferPool::new(2);
    load(&mut pool, a);
    load(&mut pool, b);
    // both pages are accessed, a is changed as well
    pool.insert_record(a, &[1, 2, 3]).unwrap();
    pool.read_record(b, 0).unwrap();
    assert!(pool.page(a).unwrap().is_referenced_recently());
    assert!(pool.page(b).unwrap().is_referenced_recently());
    let expected = pool.page(a).unwrap().serialize();

    // the hand clears a, clears b, comes round and evicts a
    let write_back = match pool.read_page(c) {
        Access::Load { write_back } => write_back.expect("the dirty page is written back"),
        other => panic!("expected a load, got {:?}", other),
    };
    assert_eq!(write_back.page_id, a);
    assert_eq!(write_back.bytes, expected);
    assert!(!pool.contains(a));
    assert!(pool.contains(b));
    assert!(!pool.page(b).unwrap().is_referenced_recently());
    assert_eq!(pool.len(), 1);

    pool.install(c, &image(c)).unwrap();
    assert!(pool.contains(c));
    assert_eq!(pool.len(), 2);
}

#[test]
fn a_clean_victim_is_dropped_without_a_write() {
    let mut pool = BufferPool::new(2);
    load(&mut pool, 0);
    load(&mut pool, 1);
    pool.read_record(0, 0).unwrap();
    pool.read_record(1, 0).unwrap();
    assert!(matches!(
        pool.read_page(2),
        Access::Load { write_back: None }
    ));
    assert!(!pool.contains(0));
    assert!(pool.contains(1));
}

#[test]
fn the_hand_stops_at_the_first_page_not_referenced() {
    let mut pool = BufferPool::new(3);
    load(&mut pool, 0);
    load(&mut pool, 1);
    load(&mut pool, 2);
    pool.read_record(0, 0).unwrap();
    pool.read_record(2, 0).unwrap();
    // the hand starts at page 0, clears it, and stops at page 1
    assert_eq!(pool.find_victim(), Some(1));
    assert!(!pool.page(0).unwrap().is_referenced_recently());
    assert!(pool.page(2).unwrap().is_referenced_recently());
    assert_eq!(pool.len(), 3);
    // the hand goes on behind page 1: it clears page 2 and stops at page 0
    assert_eq!(pool.find_victim(), Some(0));
    assert!(!pool.page(2).unwrap().is_referenced_recently());
    // now it stands behind page 0, at page 1
    assert_eq!(pool.find_victim(), Some(1));
}

#[test]
fn the_hand_wraps_round_behind_the_last_page() {
    let mut pool = BufferPool::new(2);
    load(&mut pool, 0);
    load(&mut pool, 1);
    pool.read_record(0, 0).unwrap();
    // clears page 0, stops at page 1; the hand wraps to page 0
    assert_eq!(pool.find_victim(), Some(1));
    assert_eq!(pool.find_victim(), Some(0));
}

#[test]
fn no_victim_is_sought_while_there_is_room() {
    let mut pool = BufferPool::new(2);
    assert_eq!(pool.find_victim(), None);
    load(&mut pool, 0);
    pool.read_record(0, 0).unwrap();
    assert_eq!(pool.find_victim(), None);
    assert!(pool.page(0).unwrap().is_referenced_recently());
}

#[test]
fn a_pool_of_capacity_zero_serves_no_page() {
    let mut pool = BufferPool::new(0);
    assert!(matches!(pool.read_page(0), Access::Unavailable));
    assert_eq!(pool.find_victim(), None);
    assert_eq!(pool.install(0, &image(0)), Err(StorageError::PoolFull));
    assert_eq!(pool.len(), 0);
}

#[test]
fn install_refuses_what_it_cannot_take() {
    let mut pool = BufferPool::new(2);
    pool.install(1, &image(1)).unwrap();
    assert_eq!(
        pool.install(1, &image(1)),
        Err(StorageError::AlreadyResident)
    );
    assert_eq!(pool.install(2, &image(3)), Err(StorageError::CorruptPage));
    assert_eq!(pool.install(2, &[1, 2, 3]), Err(StorageError::CorruptPage));
    let mut broken = vec![0u8; PAGE_SIZE];
    broken[0] = 2;
    broken[6] = 9;
    assert_eq!(pool.install(2, &broken), Err(StorageError::CorruptPage));
    assert_eq!(pool.len(), 1);
    pool.install(2, &image(2)).unwrap();
    assert_eq!(pool.install(3, &image(3)), Err(StorageError::PoolFull));
    assert_eq!(pool.len(), 2);
}

#[test]
fn evict_writes_back_only_a_dirty_page() {
    let mut pool = BufferPool::new(3);
    load(&mut pool, 0);
    load(&mut pool, 1);
    pool.insert_record(1, b"changed").unwrap();
    let expected = pool.page(1).unwrap().serialize();
    assert!(pool.evict(0).is_none());
    assert!(!pool.contains(0));
    let write = pool.evict(1).expect("a write");
    assert_eq!(write.page_id, 1);
    assert_eq!(write.bytes, expected);
    assert!(pool.evict(1).is_none());
    assert!(pool.evict(9).is_none());
    assert_eq!(pool.len(), 0);
}

#[test]
fn flush_hands_out_the_dirty_pages_in_order_and_keeps_all_pages() {
    let mut pool = BufferPool::new(4);
    load(&mut pool, 5);
    load(&mut pool, 2);
    load(&mut pool, 9);
    pool.insert_record(9, b"nine").unwrap();
    pool.insert_record(2, b"two").unwrap();
    let two = pool.page(2).unwrap().serialize();
    let nine = pool.page(9).unwrap().serialize();
    let writes = pool.flush();
    assert_eq!(writes.len(), 2);
    assert_eq!(writes[0].page_id, 2);
    assert_eq!(writes[0].bytes, two);
    assert_eq!(writes[1].page_id, 9);
    assert_eq!(writes[1].bytes, nine);
    assert_eq!(pool.len(), 3);
    assert!(!pool.page(2).unwrap().is_dirty());
    assert!(!pool.page(9).unwrap().is_dirty());
    assert_eq!(pool.page(2).unwrap().peek(0), Some(b"two".to_vec()));
    assert!(pool.flush().is_empty());
}

#[test]
fn records_go_to_resident_pages_only() {
    let mut pool = BufferPool::new(2);
    assert_eq!(
        pool.insert_record(0, &[1]),
        Err(StorageError::NotResident)
    );
    assert_eq!(pool.read_record(0, 0), Err(StorageError::NotResident));
    load(&mut pool, 0);
    assert_eq!(pool.insert_record(0, &[1]), Ok(0));
    assert_eq!(pool.insert_record(0, &[2, 3]), Ok(1));
    assert_eq!(pool.read_record(0, 1), Ok(Some(vec![2, 3])));
    assert_eq!(pool.read_record(0, 2), Ok(None));
    assert_eq!(
        pool.insert_record(0, &vec![0u8; PAGE_SIZE]),
        Err(StorageError::NotEnoughSpace)
    );
    assert!(pool.page(0).unwrap().is_dirty());
}

#[test]
fn the_pager_allocates_pages_in_sequence() {
    let mut pager = Pager::new(0, Some(2));
    assert_eq!(pager.get_page_count(), 0);
    for expected in 0..3u32 {
        let write = pager.allocate_page().unwrap();
        assert_eq!(write.page_id, expected);
        assert_eq!(write.bytes, image(expected));
        assert_eq!(pager.get_page_count(), expected as usize + 1);
    }
}

#[test]
fn the_pager_stops_at_the_last_page_identifier() {
    let mut pager = Pager::new(u32::MAX as usize - 1, None);
    assert_eq!(pager.allocate_page().unwrap().page_id, u32::MAX - 1);
    assert_eq!(
        pager.allocate_page().map(|w| w.page_id),
        Err(StorageError::PageLimit)
    );
    assert_eq!(pager.get_page_count(), u32::MAX as usize);
}

#[test]
fn the_pager_admits_allocated_pages_only() {
    let mut pager = Pager::new(2, Some(2));
    assert_eq!(pager.install(2, &image(2)), Err(StorageError::NoSuchPage));
    assert_eq!(pager.install(1, &image(0)), Err(StorageError::CorruptPage));
    assert!(matches!(
        pager.read_page(1),
        Access::Load { write_back: None }
    ));
    assert_eq!(pager.install(1, &image(1)), Ok(()));
    assert!(matches!(pager.read_page(1), Access::Resident));
    assert_eq!(pager.insert_record(1, b"x"), Ok(0));
    assert_eq!(pager.read_record(1, 0), Ok(Some(b"x".to_vec())));
    assert_eq!(pager.page(1).unwrap().get_record_count(), 1);
    let writes = pager.flush();
    assert_eq!(writes.len(), 1);
    assert_eq!(writes[0].page_id, 1);
}
