use mini_bitcask::codec::StoreError;
use mini_bitcask::data_file::DataFile;

#[test]
fn test_log_read_write() {
    let mut log = DataFile::new(Vec::new());
    log.write_entry(b"a", Some(b"val1")).unwrap();
    log.write_entry(b"b", Some(b"val2")).unwrap();
    log.write_entry(b"c", Some(b"val3")).unwrap();

    // rewrite
    log.write_entry(b"a", Some(b"val5")).unwrap();
    // delete
    log.write_entry(b"c", None).unwrap();

    let keydir = log.load_index().unwrap();
    assert_eq!(2, keydir.len());
}

#[test]
fn test_log_reopen() {
    let mut log = DataFile::new(Vec::new());
    log.write_entry(b"a", Some(b"val1")).unwrap();
    log.write_entry(b"b", Some(b"val2")).unwrap();
    log.write_entry(b"c", Some(b"val3")).unwrap();
    log.write_entry(b"d", Some(b"val4")).unwrap();
    log.write_entry(b"d", None).unwrap();

    let stored = log.as_bytes().to_vec();
    drop(log);

    let log = DataFile::new(stored);
    let keydir = log.load_index().unwrap();
    assert_eq!(3, keydir.len());
}

#[test]
fn write_entry_reports_offset_and_length() {
    let mut log = DataFile::new(Vec::new());
    assert_eq!(log.write_entry(b"key", Some(b"value")), Ok((0, 16)));
    assert_eq!(log.write_entry(b"k", None), Ok((16, 9)));
    assert_eq!(log.write_entry(b"", Some(b"")), Ok((25, 8)));
    assert_eq!(log.len(), 33);
    assert_eq!(
        log.as_bytes(),
        &[
            0, 0, 0, 3, 0, 0, 0, 5, b'k', b'e', b'y', b'v', b'a', b'l', b'u', b'e', // set
            0, 0, 0, 1, 0xFF, 0xFF, 0xFF, 0xFF, b'k', // delete
            0, 0, 0, 0, 0, 0, 0, 0, // empty key, empty value
        ][..]
    );
}

#[test]
fn load_index_points_at_values() {
    let mut log = DataFile::new(Vec::new());
    log.write_entry(b"key", Some(b"value")).unwrap();
    log.write_entry(b"other", Some(b"x")).unwrap();
    let keydir = log.load_index().unwrap();
    assert_eq!(keydir.get(b"key"), Some((11, 5)));
    assert_eq!(keydir.get(b"other"), Some((16 + 8 + 5, 1)));
    assert_eq!(keydir.get(b"missing"), None);
    assert_eq!(log.read_value(11, 5), Ok(b"value".to_vec()));
}

#[test]
fn read_value_past_end_is_unexpected_eof() {
    let mut log = DataFile::new(Vec::new());
    log.write_entry(b"key", Some(b"value")).unwrap();
    assert_eq!(log.read_value(11, 6), Err(StoreError::UnexpectedEof));
    assert_eq!(log.read_value(17, 0), Err(StoreError::UnexpectedEof));
    assert_eq!(log.read_value(u64::MAX, 1), Err(StoreError::UnexpectedEof));
    assert_eq!(log.read_value(16, 0), Ok(Vec::new()));
}

#[test]
fn truncated_log_is_corrupt() {
    let mut log = DataFile::new(Vec::new());
    log.write_entry(b"key", Some(b"value")).unwrap();
    let whole = log.as_bytes().to_vec();
    for cut in 1..whole.len() {
        let part = DataFile::new(whole[..cut].to_vec());
        assert_eq!(part.load_index().err(), Some(StoreError::CorruptLog));
    }
    assert!(DataFile::new(whole).load_index().is_ok());
    assert!(DataFile::new(Vec::new()).load_index().is_ok());
}

#[test]
fn negative_length_field_is_a_tombstone() {
    // A deletion is any negative value length, not only -1.
    let mut bytes = Vec::new();
    bytes.extend_from_slice(&[0, 0, 0, 1, 0, 0, 0, 1, b'a', b'x']);
    bytes.extend_from_slice(&[0, 0, 0, 1, 0x80, 0, 0, 0, b'a']);
    let keydir = DataFile::new(bytes).load_index().unwrap();
    assert_eq!(keydir.len(), 0);
}
