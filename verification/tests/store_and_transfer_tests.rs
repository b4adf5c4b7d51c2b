use file_archive::store::{Catalog, StoreError};
use file_archive::transfer::{chunk_bytes, receive_upload, IncomingFile};

#[test]
fn insert_then_get_round_trips() {
    let mut c = Catalog::new();
    c.insert_or_update(&b"a.txt".to_vec(), &b"./files/a.txt".to_vec());
    assert_eq!(c.get(&b"a.txt".to_vec()), Some(b"./files/a.txt".to_vec()));
    assert_eq!(c.get(&b"b.txt".to_vec()), None);
}

#[test]
fn later_upload_with_same_name_overwrites() {
    let mut c = Catalog::new();
    c.insert_or_update(&b"a".to_vec(), &b"one".to_vec());
    c.insert_or_update(&b"b".to_vec(), &b"two".to_vec());
    c.insert_or_update(&b"a".to_vec(), &b"three".to_vec());
    assert_eq!(c.len(), 2);
    assert_eq!(c.get(&b"a".to_vec()), Some(b"three".to_vec()));
    // Listing order keeps the insertion order of the names.
    let listed = c.list();
    assert_eq!(listed[0].0, b"a".to_vec());
    assert_eq!(listed[0].1, b"three".to_vec());
    assert_eq!(listed[1].0, b"b".to_vec());
}

#[test]
fn delete_of_missing_name_surfaces_clear_error() {
    let mut c = Catalog::new();
    c.insert_or_update(&b"kept".to_vec(), &b"p".to_vec());
    let r = c.delete(&b"absent".to_vec());
    assert!(matches!(r, Err(StoreError::NotFound)));
    assert_eq!(StoreError::NotFound.text(), b"no such file".to_vec());
    // Nothing else was touched.
    assert_eq!(c.len(), 1);
    assert_eq!(c.get(&b"kept".to_vec()), Some(b"p".to_vec()));
}

#[test]
fn delete_of_held_name_removes_exactly_it() {
    let mut c = Catalog::new();
    c.insert_or_update(&b"a".to_vec(), &b"1".to_vec());
    c.insert_or_update(&b"b".to_vec(), &b"2".to_vec());
    assert!(c.delete(&b"a".to_vec()).is_ok());
    assert_eq!(c.get(&b"a".to_vec()), None);
    assert_eq!(c.get(&b"b".to_vec()), Some(b"2".to_vec()));
    assert_eq!(c.len(), 1);
    // Deleting it again reports the error.
    assert!(c.delete(&b"a".to_vec()).is_err());
}

#[test]
fn upload_round_trips_byte_identical() {
    let data: Vec<u8> = (0..=255u8).cycle().take(5000).collect();
    for size in [1usize, 7, 1024, 5000, 9000] {
        let chunks = chunk_bytes(&data, size);
        let got = receive_upload(data.len() as u64, &chunks).expect("complete transfer");
        assert_eq!(got, data);
    }
}

#[test]
fn transfer_completes_only_at_declared_length() {
    let data = b"0123456789".to_vec();
    let chunks = chunk_bytes(&data, 4);
    assert!(receive_upload(9, &chunks).is_none());
    assert!(receive_upload(11, &chunks).is_none());
    assert_eq!(receive_upload(10, &chunks), Some(data));
}

#[test]
fn transfer_counts_received_bytes() {
    let mut t = IncomingFile::new(10);
    assert!(!t.is_complete());
    assert_eq!(t.remaining(), 10);
    let a = t.accept_chunk(&b"0123".to_vec());
    assert_eq!(a, 4);
    assert_eq!(t.received(), 4);
    let b = t.accept_chunk(&b"45678910".to_vec());
    // Only the six owed bytes are accepted.
    assert_eq!(b, 6);
    assert!(t.is_complete());
    assert_eq!(t.bytes(), &b"0123456789".to_vec());
}

#[test]
fn zero_byte_upload_completes_with_metadata_record() {
    let mut t = IncomingFile::new(0);
    assert!(t.is_complete());
    assert_eq!(t.received(), 0);
    let accepted = t.accept_chunk(&b"extra".to_vec());
    assert_eq!(accepted, 0);
    assert_eq!(t.bytes(), &Vec::<u8>::new());
    let empty_chunks: Vec<Vec<u8>> = Vec::new();
    assert_eq!(receive_upload(0, &empty_chunks), Some(Vec::new()));
    // The handler records the name after the completed transfer.
    let mut c = Catalog::new();
    c.insert_or_update(&b"empty.bin".to_vec(), &b"./files/empty.bin".to_vec());
    assert_eq!(c.get(&b"empty.bin".to_vec()), Some(b"./files/empty.bin".to_vec()));
}
