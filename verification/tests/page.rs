use pipedb::storage::page::{RawPage, RowPage, Slot, HEADER_SIZE, SLOT_SIZE};
use pipedb::storage::{StorageError, PAGE_SIZE};
use pipedb::table::Row;

#[test]
fn test() {
    let mut file: Vec<u8> = Vec::new();
    let mut page = RowPage::new(1);

    // Insert sample tuple
    let sample_tuple = vec![1, 2, 3, 4, 5, 6, 7, 8];
    page.insert(&sample_tuple).expect("Failed to insert tuple");

    let image = page.serialize();
    file.resize(2 * PAGE_SIZE, 0);
    file[PAGE_SIZE..2 * PAGE_SIZE].copy_from_slice(&image);
    assert_eq!(file.len(), 2 * PAGE_SIZE);
    assert_eq!(page.get_data(), &sample_tuple[..]);
}

#[test]
fn new_page_is_empty_and_clean() {
    let page = RowPage::new(7);
    assert_eq!(page.get_id(), 7);
    assert_eq!(page.get_record_count(), 0);
    assert_eq!(page.get_free_space_offset(), 0);
    assert!(page.get_slots().is_empty());
    assert!(page.get_data().is_empty());
    assert!(!page.is_dirty());
    assert!(!page.is_referenced_recently());
}

#[test]
fn insert_appends_and_marks_the_page() {
    let mut page = RowPage::new(0);
    assert_eq!(page.insert(&[10, 11, 12]), Ok(0));
    assert_eq!(page.insert(&[20, 21]), Ok(1));
    assert_eq!(page.get_record_count(), 2);
    assert_eq!(page.get_free_space_offset(), 5);
    assert_eq!(
        page.get_slots(),
        &[Slot { offset: 0, size: 3 }, Slot { offset: 3, size: 2 }][..]
    );
    assert_eq!(page.get_data(), &[10, 11, 12, 20, 21][..]);
    assert!(page.is_dirty());
    assert!(page.is_referenced_recently());
}

#[test]
fn read_returns_the_exact_bytes_or_none() {
    let mut page = RowPage::new(0);
    page.insert(&[10, 11, 12]).unwrap();
    page.insert(&[]).unwrap();
    page.insert(&[20, 21]).unwrap();
    assert_eq!(page.read(0), Some(vec![10, 11, 12]));
    assert_eq!(page.read(1), Some(vec![]));
    assert_eq!(page.read(2), Some(vec![20, 21]));
    assert_eq!(page.read(3), None);
    assert_eq!(page.peek(usize::MAX), None);
}

#[test]
fn read_marks_the_page_and_peek_does_not() {
    let mut page = RowPage::new(0);
    page.insert(&[1]).unwrap();
    page.set_referenced_recently(false);
    assert_eq!(page.peek(0), Some(vec![1]));
    assert!(!page.is_referenced_recently());
    assert_eq!(page.read(0), Some(vec![1]));
    assert!(page.is_referenced_recently());
}

#[test]
fn an_empty_page_takes_a_record_of_the_maximal_size_and_no_longer_one() {
    let max = PAGE_SIZE - HEADER_SIZE - SLOT_SIZE;
    assert_eq!(max, 4084);
    let page = RowPage::new(0);
    assert!(page.has_space_for(max));
    assert!(!page.has_space_for(max + 1));
    assert!(!page.has_space_for(usize::MAX));

    let mut full = RowPage::new(0);
    assert_eq!(full.insert(&vec![9u8; max]), Ok(0));
    assert_eq!(full.serialize().len(), PAGE_SIZE);
    assert_eq!(full.insert(&[]), Err(StorageError::NotEnoughSpace));

    let mut refused = RowPage::new(0);
    assert_eq!(
        refused.insert(&vec![9u8; max + 1]),
        Err(StorageError::NotEnoughSpace)
    );
    assert_eq!(refused.get_record_count(), 0);
    assert!(!refused.is_dirty());
}

#[test]
fn space_accounts_for_header_slots_and_data() {
    // 8 + 4 * (2 + 1) + 100 + n <= 4096 holds exactly up to n = 3976.
    let mut page = RowPage::new(0);
    page.insert(&[0u8; 60]).unwrap();
    page.insert(&[0u8; 40]).unwrap();
    assert!(page.has_space_for(3976));
    assert!(!page.has_space_for(3977));
}

#[test]
fn serialize_lays_out_header_directory_and_data() {
    let mut page = RowPage::new(0x0403_0201);
    page.insert(&[0xAA, 0xBB, 0xCC]).unwrap();
    page.insert(&[0xDD]).unwrap();
    let bytes = page.serialize();
    assert_eq!(bytes.len(), PAGE_SIZE);
    let mut expected = vec![0u8; PAGE_SIZE];
    expected[..20].copy_from_slice(&[
        0x01, 0x02, 0x03, 0x04, // page id
        2, 0, // record count
        4, 0, // free space offset
        0, 0, 3, 0, // slot 0
        3, 0, 1, 0, // slot 1
        0xAA, 0xBB, 0xCC, 0xDD, // data
    ]);
    assert_eq!(bytes, expected);
}

#[test]
fn deserialize_gives_back_what_serialize_took() {
    let mut page = RowPage::new(42);
    page.insert(b"first").unwrap();
    page.insert(b"").unwrap();
    page.insert(&[7u8; 300]).unwrap();
    let restored = RowPage::deserialize(&page.serialize());
    assert_eq!(restored.get_id(), page.get_id());
    assert_eq!(restored.get_record_count(), page.get_record_count());
    assert_eq!(
        restored.get_free_space_offset(),
        page.get_free_space_offset()
    );
    assert_eq!(restored.get_slots(), page.get_slots());
    assert_eq!(restored.get_data(), page.get_data());
    assert!(!restored.is_dirty());
    assert!(!restored.is_referenced_recently());
    assert_eq!(restored.serialize(), page.serialize());
}

#[test]
fn try_deserialize_refuses_what_is_no_page_image() {
    // too short for a header
    assert!(RowPage::try_deserialize(&[0u8; 7]).is_none());

    // the directory would not fit
    let mut bytes = vec![0u8; PAGE_SIZE];
    bytes[4] = 0xFF;
    bytes[5] = 0xFF;
    assert!(RowPage::try_deserialize(&bytes).is_none());

    // data without a slot
    let mut bytes = vec![0u8; PAGE_SIZE];
    bytes[6] = 1;
    assert!(RowPage::try_deserialize(&bytes).is_none());

    // a slot that does not start where the data starts
    let mut bytes = RowPage::new(0).serialize();
    bytes[4] = 1; // one record
    bytes[6] = 2; // two bytes of data
    bytes[8] = 1; // slot offset 1
    bytes[10] = 1; // slot size 1
    assert!(RowPage::try_deserialize(&bytes).is_none());

    // slots that do not cover the data
    let mut bytes = RowPage::new(0).serialize();
    bytes[4] = 1;
    bytes[6] = 2;
    bytes[10] = 1;
    assert!(RowPage::try_deserialize(&bytes).is_none());

    // the same with a slot that does
    bytes[10] = 2;
    let page = RowPage::try_deserialize(&bytes).expect("a page image");
    assert_eq!(page.get_slots(), &[Slot { offset: 0, size: 2 }][..]);

    // a buffer longer than a page is accepted as far as the page reaches
    let mut long = RowPage::new(3).serialize();
    long.extend_from_slice(&[1, 2, 3]);
    assert_eq!(RowPage::try_deserialize(&long).unwrap().get_id(), 3);
}

#[test]
fn mark_clean_clears_only_the_dirty_flag() {
    let mut page = RowPage::new(0);
    page.insert(&[1]).unwrap();
    page.mark_clean();
    assert!(!page.is_dirty());
    assert!(page.is_referenced_recently());
    assert_eq!(page.get_record_count(), 1);
}

#[test]
fn rows_are_stored_in_their_encoding() {
    let mut page = RowPage::new(0);
    let row = Row {
        name: "Bob".to_string(),
        age: 30,
    };
    assert_eq!(page.insert_row(&row), Some(0));
    assert_eq!(
        page.peek(0),
        Some(vec![3, 0, 0, 0, 0, 0, 0, 0, b'B', b'o', b'b', 30])
    );
    assert_eq!(page.get_tuple(0), Some(row));
    assert_eq!(page.get_tuple(1), None);
}

#[test]
fn rows_with_wide_characters_round_trip() {
    let mut page = RowPage::new(0);
    let row = Row {
        name: "Zoë 東京".to_string(),
        age: 255,
    };
    assert_eq!(page.insert_row(&row), Some(0));
    let bytes = page.peek(0).unwrap();
    assert_eq!(bytes.len(), 8 + "Zoë 東京".len() + 1);
    assert_eq!(bytes[0], "Zoë 東京".len() as u8);
    assert_eq!(page.get_tuple(0), Some(row));
}

#[test]
fn get_tuple_gives_none_for_bytes_that_are_no_row() {
    let mut page = RowPage::new(0);
    page.insert(&[1, 2, 3]).unwrap(); // shorter than a length
    page.insert(&[5, 0, 0, 0, 0, 0, 0, 0, b'a', 1]).unwrap(); // announces more than there is
    page.insert(&[1, 0, 0, 0, 0, 0, 0, 0, 0xFF, 1]).unwrap(); // no UTF-8
    page.insert(&[1, 0, 0, 0, 0, 0, 0, 0, b'a']).unwrap(); // no age
    page.insert(&[1, 0, 0, 0, 0, 0, 0, 0, b'a', 9, 77, 78]).unwrap(); // trailing bytes
    assert_eq!(page.get_tuple(0), None);
    assert_eq!(page.get_tuple(1), None);
    assert_eq!(page.get_tuple(2), None);
    assert_eq!(page.get_tuple(3), None);
    assert_eq!(
        page.get_tuple(4),
        Some(Row {
            name: "a".to_string(),
            age: 9
        })
    );
}

#[test]
fn insert_row_gives_none_when_the_page_is_full() {
    let mut page = RowPage::new(0);
    page.insert(&vec![0u8; 4070]).unwrap();
    let row = Row {
        name: "abcdef".to_string(),
        age: 1,
    };
    // 8 + 4 * 2 + 4070 + 15 > 4096
    assert_eq!(page.insert_row(&row), None);
    assert_eq!(page.get_record_count(), 1);
    let short = Row {
        name: "a".to_string(),
        age: 1,
    };
    // 8 + 4 * 2 + 4070 + 10 == 4096
    assert_eq!(page.insert_row(&short), Some(1));
}

#[test]
fn raw_page_starts_as_zeros() {
    let page = RawPage::new(5);
    assert_eq!(*page.get_id(), 5);
    assert_eq!(page.get_data(), &[0u8; PAGE_SIZE][..]);
}

#[test]
fn raw_page_reads_what_was_written() {
    let mut page = RawPage::new(0);
    assert_eq!(page.write(10, &[1, 2, 3]), Ok(()));
    assert_eq!(page.read(9, 5), Some(&[0, 1, 2, 3, 0][..]));
    assert_eq!(page.read(PAGE_SIZE, 0), Some(&[][..]));
    assert_eq!(page.write(PAGE_SIZE - 1, &[9]), Ok(()));
    assert_eq!(page.read(PAGE_SIZE - 1, 1), Some(&[9][..]));
}

#[test]
fn raw_page_refuses_what_lies_outside() {
    let mut page = RawPage::new(0);
    assert_eq!(page.read(PAGE_SIZE, 1), None);
    assert_eq!(page.read(usize::MAX, 2), None);
    assert_eq!(page.write(PAGE_SIZE - 1, &[1, 2]), Err(StorageError::OutOfBounds));
    assert_eq!(page.get_data(), &[0u8; PAGE_SIZE][..]);

    let mut short = RawPage::from_bytes(1, vec![7, 8, 9]);
    assert_eq!(short.read(1, 2), Some(&[8, 9][..]));
    assert_eq!(short.read(1, 3), None);
    assert_eq!(short.write(2, &[1, 2]), Err(StorageError::OutOfBounds));
    assert_eq!(short.write(1, &[1, 2]), Ok(()));
    assert_eq!(short, RawPage::from_bytes(1, vec![7, 1, 2]));
}
