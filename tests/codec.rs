use ptree::codec::{decode_entry, encode_entry};
use ptree::entry::DirEntry;
use ptree::error::PTreeError;
use ptree::log::{read_record, LogWriter};

fn sample() -> DirEntry {
    DirEntry {
        path: "C:\\test".to_string(),
        name: "test".to_string(),
        modified: 1_700_000_000_123,
        content_hash: 12345,
        children: vec!["child1".to_string(), "Ünïcode".to_string()],
        symlink_target: Some("D:\\elsewhere".to_string()),
        is_hidden: false,
        is_dir: true,
    }
}

fn same(a: &DirEntry, b: &DirEntry) -> bool {
    a.path == b.path
        && a.name == b.name
        && a.modified == b.modified
        && a.content_hash == b.content_hash
        && a.children == b.children
        && a.symlink_target == b.symlink_target
        && a.is_hidden == b.is_hidden
        && a.is_dir == b.is_dir
}

#[test]
fn entry_round_trips() {
    let e = sample();
    let bytes = encode_entry(&e);
    let back = decode_entry(&bytes).unwrap();
    assert!(same(&e, &back));
}

#[test]
fn entry_without_link_and_negative_time_round_trips() {
    let mut e = sample();
    e.symlink_target = None;
    e.modified = -5;
    e.children = Vec::new();
    e.is_hidden = true;
    let back = decode_entry(&encode_entry(&e)).unwrap();
    assert!(same(&e, &back));
}

#[test]
fn encoding_has_the_documented_layout() {
    let e = DirEntry {
        path: "/a".to_string(),
        name: "a".to_string(),
        modified: 1,
        content_hash: 2,
        children: vec!["b".to_string()],
        symlink_target: None,
        is_hidden: true,
        is_dir: false,
    };
    let expected: Vec<u8> = vec![
        2, 0, 0, 0, b'/', b'a', 1, 0, 0, 0, b'a', 1, 0, 0, 0, 0, 0, 0, 0, 2, 0, 0, 0, 0, 0, 0, 0,
        1, 0, 0, 0, 1, 0, 0, 0, b'b', 0, 1, 0,
    ];
    assert_eq!(encode_entry(&e), expected);
}

#[test]
fn truncated_record_is_corrupt() {
    let bytes = encode_entry(&sample());
    for cut in [0, 1, 3, 4, 10, bytes.len() - 1] {
        assert_eq!(decode_entry(&bytes[..cut]).err(), Some(PTreeError::CorruptRecord));
    }
}

#[test]
fn trailing_bytes_and_bad_flags_are_corrupt() {
    let mut bytes = encode_entry(&sample());
    bytes.push(0);
    assert_eq!(decode_entry(&bytes).err(), Some(PTreeError::CorruptRecord));
    let mut bytes = encode_entry(&sample());
    let n = bytes.len();
    bytes[n - 1] = 2;
    assert_eq!(decode_entry(&bytes).err(), Some(PTreeError::CorruptRecord));
}

#[test]
fn huge_length_prefix_is_corrupt_not_a_panic() {
    let bytes = vec![0xff, 0xff, 0xff, 0xff, b'x'];
    assert_eq!(decode_entry(&bytes).err(), Some(PTreeError::CorruptRecord));
}

#[test]
fn invalid_utf8_is_corrupt() {
    let mut bytes = encode_entry(&sample());
    bytes[4] = 0xff;
    assert_eq!(decode_entry(&bytes).err(), Some(PTreeError::CorruptRecord));
}

#[test]
fn appended_records_read_back_at_their_offsets() {
    let mut log = LogWriter::new(0);
    let mut data: Vec<u8> = Vec::new();
    let (o1, b1) = log.append(&[1, 2, 3]).unwrap();
    data.extend_from_slice(&b1);
    let (o2, b2) = log.append(&[9]).unwrap();
    data.extend_from_slice(&b2);
    assert_eq!(o1, 0);
    assert_eq!(o2, 7);
    assert_eq!(log.end(), 12);
    assert_eq!(b1, vec![3, 0, 0, 0, 1, 2, 3]);
    assert_eq!(read_record(&data, o1).unwrap(), &[1, 2, 3]);
    assert_eq!(read_record(&data, o2).unwrap(), &[9]);
}

#[test]
fn record_past_the_end_is_out_of_range() {
    let data = vec![5, 0, 0, 0, 1, 2];
    assert_eq!(read_record(&data, 0).err(), Some(PTreeError::OutOfRange));
    assert_eq!(read_record(&data, 4).err(), Some(PTreeError::OutOfRange));
    assert_eq!(read_record(&data, 100).err(), Some(PTreeError::OutOfRange));
}

#[test]
fn log_end_near_the_limit_is_out_of_range() {
    let mut log = LogWriter::new(u64::MAX - 5);
    assert_eq!(log.append(&[1, 2]).err(), Some(PTreeError::OutOfRange));
    assert_eq!(log.end(), u64::MAX - 5);
}
