use wdb_storage_engine::footer::{decode_footer, encode_footer};
use wdb_storage_engine::sstable::SSTableFooter;

#[test]
fn footer_bytes_are_little_endian() {
    let bytes = encode_footer(&SSTableFooter { index_pos: 0x0102, index_size: 7 }, 0x0a0b0c0d);
    assert_eq!(bytes.len(), 24);
    assert_eq!(&bytes[0..8], &[0x02, 0x01, 0, 0, 0, 0, 0, 0]);
    assert_eq!(&bytes[8..16], &[7, 0, 0, 0, 0, 0, 0, 0]);
    assert_eq!(&bytes[16..24], &[0x0d, 0x0c, 0x0b, 0x0a, 0, 0, 0, 0]);
}

#[test]
fn footer_round_trips_after_data() {
    let mut file = vec![9u8; 40];
    file.extend(encode_footer(&SSTableFooter { index_pos: 40, index_size: u64::MAX }, 123456789));
    let (f, m) = decode_footer(&file).unwrap();
    assert_eq!(f, SSTableFooter { index_pos: 40, index_size: u64::MAX });
    assert_eq!(m, 123456789);
}

#[test]
fn short_file_has_no_footer() {
    assert!(decode_footer(&vec![0u8; 23]).is_none());
    assert!(decode_footer(&vec![0u8; 24]).is_some());
}
