use pipedb::record::Record;
use pipedb::storage::pager::{DiskRequest, Step};
use pipedb::storage::record_manager::{Placement, RecordManager, MAX_RECORD_SIZE};
use pipedb::storage::{StorageError, PAGE_SIZE};
use std::io::{Cursor, Read, Seek, SeekFrom, Write};

fn page_count<F: Seek>(file: &mut F) -> usize {
    file.seek(SeekFrom::End(0)).unwrap() as usize / PAGE_SIZE
}

fn read_page<F: Read + Seek>(file: &mut F, page_id: u32) -> Vec<u8> {
    let mut buffer = vec![0; PAGE_SIZE];
    file.seek(SeekFrom::Start(page_id as u64 * PAGE_SIZE as u64))
        .unwrap();
    file.read_exact(&mut buffer).unwrap();
    buffer
}

fn write_page<F: Write + Seek>(file: &mut F, page_id: u32, bytes: &[u8]) {
    assert_eq!(bytes.len(), PAGE_SIZE);
    file.seek(SeekFrom::Start(page_id as u64 * PAGE_SIZE as u64))
        .unwrap();
    file.write_all(bytes).unwrap();
    file.flush().unwrap();
}

/// Makes the transfer that the engine asked for.
fn serve<F: Read + Write + Seek>(file: &mut F, rm: &mut RecordManager, request: DiskRequest) {
    if let Some(write) = request.write {
        write_page(file, write.page_id, &write.bytes);
    }
    if let Some(page_id) = request.read {
        let bytes = read_page(file, page_id);
        rm.install(page_id, &bytes).unwrap();
    }
}

fn open<F: Seek>(file: &mut F, capacity: Option<usize>) -> RecordManager {
    RecordManager::with_capacity(page_count(file), capacity)
}

fn close<F: Write + Seek>(file: &mut F, mut rm: RecordManager) {
    for write in rm.flush() {
        write_page(file, write.page_id, &write.bytes);
    }
}

fn insert_record<F: Read + Write + Seek>(
    file: &mut F,
    rm: &mut RecordManager,
    record: &Record,
) -> Result<Placement, StorageError> {
    let mut steps = 0;
    loop {
        steps += 1;
        assert!(steps <= 4, "an insertion takes at most four steps");
        match rm.insert_record(record)? {
            Step::Ready(placement) => return Ok(placement),
            Step::Pending(request) => serve(file, rm, request),
        }
    }
}

fn insert_bytes<F: Read + Write + Seek>(
    file: &mut F,
    rm: &mut RecordManager,
    bytes: &[u8],
) -> Result<Placement, StorageError> {
    loop {
        match rm.insert(bytes)? {
            Step::Ready(placement) => return Ok(placement),
            Step::Pending(request) => serve(file, rm, request),
        }
    }
}

fn scan_records<F: Read + Write + Seek>(file: &mut F, rm: &mut RecordManager) -> Vec<Record> {
    let mut iterator = rm.scan_records();
    let mut records = Vec::new();
    loop {
        match iterator.next(rm).unwrap() {
            Step::Ready(Some(record)) => records.push(record),
            Step::Ready(None) => return records,
            Step::Pending(request) => serve(file, rm, request),
        }
    }
}

fn scan_bytes<F: Read + Write + Seek>(file: &mut F, rm: &mut RecordManager) -> Vec<Vec<u8>> {
    let mut iterator = rm.scan_records();
    let mut records = Vec::new();
    loop {
        match iterator.next_bytes(rm).unwrap() {
            Step::Ready(Some(bytes)) => records.push(bytes),
            Step::Ready(None) => return records,
            Step::Pending(request) => serve(file, rm, request),
        }
    }
}

fn record(id: u32, name: &str, age: u8) -> Record {
    Record {
        id,
        name: name.to_string(),
        age,
    }
}

#[test]
fn records_spread_over_multiple_pages() {
    let mut file = tempfile::tempfile().unwrap();

    let mut rm = open(&mut file, None);

    let num_rows = 5000;
    let mut rows = Vec::with_capacity(num_rows);

    for i in 0..num_rows {
        let row = Record {
            id: i as u32,
            name: format!("user_{}", i),
            age: (i % 120) as u8,
        };
        insert_record(&mut file, &mut rm, &row).unwrap();
        rows.push(row);
    }

    // Verify that all rows are retrieved correctly
    let retrieved_rows: Vec<Record> = scan_records(&mut file, &mut rm);
    assert_eq!(rows.len(), retrieved_rows.len());
    assert_eq!(rows, retrieved_rows);

    // Reopen the database and verify again
    close(&mut file, rm);
    let mut rm2 = open(&mut file, None);
    let retrieved_rows_2: Vec<Record> = scan_records(&mut file, &mut rm2);
    assert_eq!(rows, retrieved_rows_2);
}

#[test]
fn storage_serializes_and_deserializes() {
    let mut file = tempfile::tempfile().unwrap();
    let mut rm = open(&mut file, None);

    let records_to_insert = vec![
        Record {
            id: 1,
            name: "Alice".to_string(),
            age: 25,
        },
        Record {
            id: 2,
            name: "Bob".to_string(),
            age: 30,
        },
        Record {
            id: 3,
            name: "Charlie".to_string(),
            age: 35,
        },
    ];
    for record in &records_to_insert {
        insert_record(&mut file, &mut rm, record).unwrap();
    }

    // scanned rows are equal to initial rows
    let scanned_rows: Vec<Record> = scan_records(&mut file, &mut rm);
    assert_eq!(records_to_insert, scanned_rows);

    // reinitializing record manager to test consumption from the file
    close(&mut file, rm);
    let mut new_rm = open(&mut file, None);

    let scanned_rows: Vec<Record> = scan_records(&mut file, &mut new_rm);
    assert_eq!(records_to_insert, scanned_rows);
}

#[test]
fn a_scan_gives_the_records_in_the_order_of_insertion() {
    for capacity in [1usize, 2, 3, 10] {
        let mut file = Cursor::new(Vec::new());
        let mut rm = open(&mut file, Some(capacity));
        let mut inserted = Vec::new();
        for i in 0..700u32 {
            let r = record(i, &"n".repeat((i % 50) as usize * 3), (i % 256) as u8);
            insert_record(&mut file, &mut rm, &r).unwrap();
            inserted.push(r);
            if i % 97 == 0 {
                assert_eq!(scan_records(&mut file, &mut rm), inserted);
            }
        }
        assert!(rm.get_page_count() > capacity);
        assert_eq!(scan_records(&mut file, &mut rm), inserted);
        // a scan can be started again
        assert_eq!(scan_records(&mut file, &mut rm), inserted);
    }
}

#[test]
fn records_survive_closing_and_opening_again() {
    let mut file = Cursor::new(Vec::new());
    let mut inserted = Vec::new();
    for round in 0..5u32 {
        let mut rm = open(&mut file, Some(2));
        assert_eq!(scan_records(&mut file, &mut rm), inserted);
        for i in 0..150u32 {
            let r = record(round * 1000 + i, "some name of a middling length", round as u8);
            insert_record(&mut file, &mut rm, &r).unwrap();
            inserted.push(r);
        }
        close(&mut file, rm);
        assert_eq!(file.get_ref().len() % PAGE_SIZE, 0);
    }
    let mut rm = open(&mut file, Some(7));
    assert_eq!(scan_records(&mut file, &mut rm), inserted);
}

#[test]
fn an_empty_engine_scans_nothing() {
    let mut file = Cursor::new(Vec::new());
    let mut rm = open(&mut file, None);
    assert_eq!(rm.get_page_count(), 0);
    let mut iterator = rm.scan_records();
    assert!(matches!(
        iterator.next(&mut rm),
        Ok(Step::Ready(None))
    ));
    assert!(matches!(
        iterator.next_bytes(&mut rm),
        Ok(Step::Ready(None))
    ));
    close(&mut file, rm);
    assert!(file.get_ref().is_empty());
}

#[test]
fn the_first_insertion_allocates_writes_and_loads_page_zero() {
    let mut file = Cursor::new(Vec::new());
    let mut rm = open(&mut file, None);
    let r = record(1, "Alice", 25);

    let request = match rm.insert_record(&r).unwrap() {
        Step::Pending(request) => request,
        Step::Ready(_) => panic!("no page to place the record in"),
    };
    let write = request.write.as_ref().expect("the image of the new page");
    assert_eq!(write.page_id, 0);
    assert_eq!(write.bytes.len(), PAGE_SIZE);
    assert_eq!(write.bytes, vec![0u8; PAGE_SIZE]);
    assert_eq!(request.read, None);
    assert_eq!(rm.get_page_count(), 1);
    serve(&mut file, &mut rm, request);
    assert_eq!(file.get_ref().len(), PAGE_SIZE);

    let request = match rm.insert_record(&r).unwrap() {
        Step::Pending(request) => request,
        Step::Ready(_) => panic!("the page is not resident yet"),
    };
    assert!(request.write.is_none());
    assert_eq!(request.read, Some(0));
    serve(&mut file, &mut rm, request);

    assert!(matches!(
        rm.insert_record(&r).unwrap(),
        Step::Ready(Placement {
            page_id: 0,
            slot_index: 0
        })
    ));
    assert_eq!(rm.get_page_count(), 1);
    // the page is written when the engine is closed
    assert_eq!(file.get_ref(), &vec![0u8; PAGE_SIZE]);
    close(&mut file, rm);
    assert_eq!(&file.get_ref()[..8], &[0, 0, 0, 0, 1, 0, 18, 0]);
}

#[test]
fn a_full_page_leads_to_exactly_one_new_page() {
    let mut file = Cursor::new(Vec::new());
    let mut rm = open(&mut file, Some(2));
    // each record takes 1000 + 4 bytes: four fit a page, 8 + 4 * 4016 / 4 ...
    let bytes = vec![5u8; 1000];
    for slot in 0..4 {
        assert_eq!(
            insert_bytes(&mut file, &mut rm, &bytes),
            Ok(Placement {
                page_id: 0,
                slot_index: slot
            })
        );
        assert_eq!(rm.get_page_count(), 1);
    }
    // 8 + 4 * 5 + 4000 + 1000 > 4096: the page reports that it is full
    assert_eq!(
        insert_bytes(&mut file, &mut rm, &bytes),
        Ok(Placement {
            page_id: 1,
            slot_index: 0
        })
    );
    assert_eq!(rm.get_page_count(), 2);
    assert_eq!(
        insert_bytes(&mut file, &mut rm, &bytes),
        Ok(Placement {
            page_id: 1,
            slot_index: 1
        })
    );
    assert_eq!(rm.get_page_count(), 2);
    assert_eq!(scan_bytes(&mut file, &mut rm), vec![bytes; 6]);
}

#[test]
fn a_record_that_fills_the_rest_of_a_page_exactly_still_fits() {
    let mut file = Cursor::new(Vec::new());
    let mut rm = open(&mut file, None);
    insert_bytes(&mut file, &mut rm, &[1u8; 2000]).unwrap();
    // 8 + 4 * 2 + 2000 + 2080 == 4096
    assert_eq!(
        insert_bytes(&mut file, &mut rm, &[2u8; 2080]),
        Ok(Placement {
            page_id: 0,
            slot_index: 1
        })
    );
    assert_eq!(
        insert_bytes(&mut file, &mut rm, &[]),
        Ok(Placement {
            page_id: 1,
            slot_index: 0
        })
    );
}

#[test]
fn a_record_too_large_for_any_page_is_refused() {
    assert_eq!(MAX_RECORD_SIZE, 4084);
    let mut file = Cursor::new(Vec::new());
    let mut rm = open(&mut file, None);

    assert!(matches!(
        rm.insert(&vec![0u8; MAX_RECORD_SIZE + 1]),
        Err(StorageError::RecordTooLarge)
    ));
    // the encoding of a record takes 13 bytes and the name
    let too_long = record(1, &"x".repeat(MAX_RECORD_SIZE - 12), 1);
    for _ in 0..3 {
        assert!(matches!(
            rm.insert_record(&too_long),
            Err(StorageError::RecordTooLarge)
        ));
    }
    assert_eq!(rm.get_page_count(), 0);
    assert!(rm.flush().is_empty());

    let longest = record(1, &"x".repeat(MAX_RECORD_SIZE - 13), 1);
    assert_eq!(
        insert_record(&mut file, &mut rm, &longest),
        Ok(Placement {
            page_id: 0,
            slot_index: 0
        })
    );
    // the page is full now, and the next record gets the next page
    assert_eq!(
        insert_record(&mut file, &mut rm, &record(2, "", 2)),
        Ok(Placement {
            page_id: 1,
            slot_index: 0
        })
    );
    assert!(matches!(
        rm.insert_record(&too_long),
        Err(StorageError::RecordTooLarge)
    ));
    assert_eq!(rm.get_page_count(), 2);
    assert_eq!(
        scan_records(&mut file, &mut rm),
        vec![longest, record(2, "", 2)]
    );
}

#[test]
fn records_are_stored_in_their_encoding() {
    let mut file = Cursor::new(Vec::new());
    let mut rm = open(&mut file, None);
    insert_record(&mut file, &mut rm, &record(0x0102_0304, "Alïce", 25)).unwrap();
    insert_record(&mut file, &mut rm, &record(7, "", 0)).unwrap();
    assert_eq!(
        scan_bytes(&mut file, &mut rm),
        vec![
            vec![4, 3, 2, 1, 6, 0, 0, 0, 0, 0, 0, 0, b'A', b'l', 0xC3, 0xAF, b'c', b'e', 25],
            vec![7, 0, 0, 0, 0, 0, 0, 0, 0, 0, 0, 0, 0],
        ]
    );
}

#[test]
fn stored_bytes_are_decoded_as_records() {
    let mut file = Cursor::new(Vec::new());
    let mut rm = open(&mut file, None);
    insert_bytes(
        &mut file,
        &mut rm,
        &[9, 0, 0, 0, 2, 0, 0, 0, 0, 0, 0, 0, b'h', b'i', 77],
    )
    .unwrap();
    // bytes behind the record are ignored
    insert_bytes(
        &mut file,
        &mut rm,
        &[1, 0, 0, 1, 0, 0, 0, 0, 0, 0, 0, 0, 3, 200, 201],
    )
    .unwrap();
    assert_eq!(
        scan_records(&mut file, &mut rm),
        vec![record(9, "hi", 77), record(0x0100_0001, "", 3)]
    );
}

#[test]
fn bytes_that_are_no_record_make_the_scan_step_fail() {
    for broken in [
        &[1u8, 2, 3][..],
        &[9, 0, 0, 0, 2, 0, 0, 0, 0, 0, 0, 0, b'h', b'i'][..],
        &[9, 0, 0, 0, 2, 0, 0, 0, 0, 0, 0, 0, 0xC3, 0x28, 1][..],
        &[9, 0, 0, 0, 0xFF, 0xFF, 0xFF, 0xFF, 0xFF, 0xFF, 0xFF, 0xFF, 1][..],
    ] {
        let mut file = Cursor::new(Vec::new());
        let mut rm = open(&mut file, None);
        insert_bytes(&mut file, &mut rm, broken).unwrap();
        insert_record(&mut file, &mut rm, &record(1, "fine", 1)).unwrap();
        let mut iterator = rm.scan_records();
        assert!(matches!(
            iterator.next(&mut rm),
            Err(StorageError::CorruptRecord)
        ));
        // the scan has passed the bytes
        assert!(matches!(
            iterator.next(&mut rm),
            Ok(Step::Ready(Some(r))) if r == record(1, "fine", 1)
        ));
        assert!(matches!(iterator.next(&mut rm), Ok(Step::Ready(None))));
    }
}

#[test]
fn an_engine_without_frames_cannot_serve_a_page() {
    let mut file = Cursor::new(Vec::new());
    let mut rm = open(&mut file, Some(0));
    let r = record(1, "a", 1);
    match rm.insert_record(&r).unwrap() {
        Step::Pending(request) => serve(&mut file, &mut rm, request),
        Step::Ready(_) => panic!("no page to place the record in"),
    }
    assert!(matches!(
        rm.insert_record(&r),
        Err(StorageError::NoVictim)
    ));
    let mut iterator = rm.scan_records();
    assert!(matches!(
        iterator.next(&mut rm),
        Err(StorageError::NoVictim)
    ));
}

#[test]
fn a_dirty_page_reaches_the_file_when_it_is_evicted() {
    let mut file = Cursor::new(Vec::new());
    let mut rm = open(&mut file, Some(1));
    let first = vec![1u8; 3000];
    let second = vec![2u8; 3000];
    insert_bytes(&mut file, &mut rm, &first).unwrap();
    // page 0 is only in the pool
    assert_eq!(&file.get_ref()[..PAGE_SIZE], &vec![0u8; PAGE_SIZE][..]);
    // the second record needs page 1; loading it evicts page 0
    insert_bytes(&mut file, &mut rm, &second).unwrap();
    assert_eq!(&file.get_ref()[4..8], &[1, 0, 0xB8, 0x0B]);
    assert_eq!(&file.get_ref()[12..3012], &first[..]);
    // page 1 is only in the pool
    assert_eq!(
        &file.get_ref()[PAGE_SIZE..],
        &{
            let mut empty = vec![0u8; PAGE_SIZE];
            empty[0] = 1;
            empty
        }[..]
    );
    assert_eq!(scan_bytes(&mut file, &mut rm), vec![first, second]);
}

#[test]
fn install_refuses_pages_that_do_not_exist_or_do_not_match() {
    let mut file = Cursor::new(Vec::new());
    let mut rm = open(&mut file, None);
    insert_bytes(&mut file, &mut rm, &[1]).unwrap();
    let image = {
        close(&mut file, RecordManager::new(0));
        read_page(&mut file, 0)
    };
    assert_eq!(rm.install(0, &image), Err(StorageError::AlreadyResident));
    assert_eq!(rm.install(1, &image), Err(StorageError::NoSuchPage));
}
