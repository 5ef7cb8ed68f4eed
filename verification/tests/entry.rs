use simple_archive::compression::DataCompression;
use simple_archive::entry::FileHeaderRepr;
use simple_archive::error::ArchiveError;
use simple_archive::header::{FileHeader, FILE_HEADER_SIZE, MAX_NAME_LEN};
use simple_archive::wire::ByteReader;

fn sample() -> FileHeaderRepr {
    FileHeaderRepr::new(
        1_700_000_000,
        1_700_000_123,
        0o100644,
        DataCompression::Uncompressed,
        3,
        3,
        "a/b.txt".to_string(),
        vec![10, 20, 30],
    )
}

fn header_bytes(name_len: u32, tag: u8, uncompressed: u64, stored: u64) -> Vec<u8> {
    let mut out = Vec::new();
    out.extend_from_slice(&5u64.to_le_bytes());
    out.extend_from_slice(&6u64.to_le_bytes());
    out.extend_from_slice(&0o755u32.to_le_bytes());
    out.extend_from_slice(&name_len.to_le_bytes()[..3]);
    out.push(tag);
    out.extend_from_slice(&uncompressed.to_le_bytes());
    out.extend_from_slice(&stored.to_le_bytes());
    out
}

#[test]
fn entry_wire_layout() {
    let mut out = vec![0xee];
    assert_eq!(sample().write(&mut out), Ok(()));
    let mut expected = vec![0xee];
    expected.extend_from_slice(&1_700_000_000u64.to_le_bytes());
    expected.extend_from_slice(&1_700_000_123u64.to_le_bytes());
    expected.extend_from_slice(&0o100644u32.to_le_bytes());
    expected.extend_from_slice(&[7, 0, 0, 0]);
    expected.extend_from_slice(&3u64.to_le_bytes());
    expected.extend_from_slice(&3u64.to_le_bytes());
    expected.extend_from_slice(b"a/b.txt");
    expected.extend_from_slice(&[10, 20, 30]);
    assert_eq!(out, expected);
    assert_eq!(out.len(), 1 + FILE_HEADER_SIZE + 7 + 3);
}

#[test]
fn entry_round_trip_with_trailing_bytes() {
    let mut out = Vec::new();
    sample().write(&mut out).unwrap();
    out.extend_from_slice(&[1, 2, 3, 4]);
    let mut reader = ByteReader::new(&out);
    let back = FileHeaderRepr::read(&mut reader, false).unwrap();
    assert_eq!(back.modified, 1_700_000_000);
    assert_eq!(back.accessed, 1_700_000_123);
    assert_eq!(back.mode, 0o100644);
    assert_eq!(back.data_compression, DataCompression::Uncompressed);
    assert_eq!(back.data_uncompressed_len, 3);
    assert_eq!(back.data_len, 3);
    assert_eq!(back.name, "a/b.txt");
    assert_eq!(back.data, vec![10, 20, 30]);
    assert_eq!(reader.remaining_len(), 4);
}

#[test]
fn entry_listed_has_no_payload_but_skips_it() {
    let mut out = Vec::new();
    sample().write(&mut out).unwrap();
    out.push(9);
    let mut reader = ByteReader::new(&out);
    let listed = FileHeaderRepr::read(&mut reader, true).unwrap();
    assert_eq!(listed.name, "a/b.txt");
    assert_eq!(listed.data_len, 3);
    assert_eq!(listed.data_uncompressed_len, 3);
    assert!(listed.data.is_empty());
    assert_eq!(reader.remaining_len(), 1);
}

#[test]
fn entry_with_multibyte_name() {
    let entry = FileHeaderRepr::new(
        0,
        0,
        0,
        DataCompression::Uncompressed,
        0,
        0,
        "d\u{e9}j\u{e0}/\u{4e2d}".to_string(),
        vec![],
    );
    let mut out = Vec::new();
    entry.write(&mut out).unwrap();
    assert_eq!(FileHeader::read(&mut ByteReader::new(&out)).unwrap().name_len(), 10);
    let back = FileHeaderRepr::read(&mut ByteReader::new(&out), false).unwrap();
    assert_eq!(back.name, "d\u{e9}j\u{e0}/\u{4e2d}");
}

#[test]
fn read_short_header_is_malformed() {
    let bytes = header_bytes(0, 0, 0, 0);
    let cut = &bytes[..FILE_HEADER_SIZE - 1];
    let mut reader = ByteReader::new(cut);
    assert_eq!(
        FileHeaderRepr::read(&mut reader, false).unwrap_err(),
        ArchiveError::MalformedArchive
    );
    assert_eq!(reader.remaining_len(), FILE_HEADER_SIZE - 1);
}

#[test]
fn read_unknown_tag_is_unsupported() {
    let mut bytes = header_bytes(1, 2, 0, 0);
    bytes.push(b'x');
    let mut reader = ByteReader::new(&bytes);
    assert_eq!(
        FileHeaderRepr::read(&mut reader, false).unwrap_err(),
        ArchiveError::UnsupportedCompressionTag
    );
    assert_eq!(reader.remaining_len(), bytes.len());
    let header = FileHeader::read(&mut ByteReader::new(&bytes)).unwrap();
    assert_eq!(header.data_compression(), Err(ArchiveError::UnsupportedCompressionTag));
    assert_eq!(header.name_len(), 1);
}

#[test]
fn read_short_name_is_malformed() {
    let mut bytes = header_bytes(4, 0, 0, 0);
    bytes.extend_from_slice(b"abc");
    let mut reader = ByteReader::new(&bytes);
    assert_eq!(
        FileHeaderRepr::read(&mut reader, true).unwrap_err(),
        ArchiveError::MalformedArchive
    );
    assert_eq!(reader.remaining_len(), bytes.len());
}

#[test]
fn read_name_not_utf8() {
    let mut bytes = header_bytes(2, 0, 0, 0);
    bytes.extend_from_slice(&[0xff, 0xfe]);
    let mut reader = ByteReader::new(&bytes);
    assert_eq!(
        FileHeaderRepr::read(&mut reader, false).unwrap_err(),
        ArchiveError::InvalidNameEncoding
    );
    assert_eq!(reader.remaining_len(), bytes.len());
}

#[test]
fn read_name_with_nul_is_malformed() {
    let mut bytes = header_bytes(3, 0, 0, 0);
    bytes.extend_from_slice(&[b'a', 0, b'b']);
    assert_eq!(
        FileHeaderRepr::read(&mut ByteReader::new(&bytes), false).unwrap_err(),
        ArchiveError::MalformedArchive
    );
}

#[test]
fn read_uncompressed_with_two_lengths_is_malformed() {
    let mut bytes = header_bytes(1, 0, 4, 3);
    bytes.extend_from_slice(b"n");
    bytes.extend_from_slice(&[1, 2, 3]);
    assert_eq!(
        FileHeaderRepr::read(&mut ByteReader::new(&bytes), false).unwrap_err(),
        ArchiveError::MalformedArchive
    );
}

#[test]
fn read_short_payload_is_malformed_in_both_modes() {
    let mut bytes = header_bytes(1, 1, 100, 5);
    bytes.extend_from_slice(b"n");
    bytes.extend_from_slice(&[1, 2, 3, 4]);
    for skip in [false, true] {
        let mut reader = ByteReader::new(&bytes);
        assert_eq!(
            FileHeaderRepr::read(&mut reader, skip).unwrap_err(),
            ArchiveError::MalformedArchive
        );
        assert_eq!(reader.remaining_len(), bytes.len());
    }
}

#[test]
fn read_huge_declared_payload_is_malformed() {
    let mut bytes = header_bytes(1, 1, 0, u64::MAX);
    bytes.extend_from_slice(b"n");
    for skip in [false, true] {
        assert_eq!(
            FileHeaderRepr::read(&mut ByteReader::new(&bytes), skip).unwrap_err(),
            ArchiveError::MalformedArchive
        );
    }
}

#[test]
fn write_refuses_wrong_payload_length() {
    let mut entry = sample();
    entry.data_len = 4;
    entry.data_uncompressed_len = 4;
    assert!(!entry.is_wf());
    let mut out = vec![1, 2];
    assert_eq!(entry.write(&mut out), Err(ArchiveError::MalformedArchive));
    assert_eq!(out, vec![1, 2]);
}

#[test]
fn write_refuses_name_with_nul() {
    let mut entry = sample();
    entry.name = "a\0b".to_string();
    let mut out = Vec::new();
    assert_eq!(entry.write(&mut out), Err(ArchiveError::MalformedArchive));
    assert!(out.is_empty());
}

#[test]
fn write_refuses_name_too_long() {
    let mut entry = sample();
    entry.name = "x".repeat(MAX_NAME_LEN as usize + 1);
    let mut out = Vec::new();
    assert_eq!(entry.write(&mut out), Err(ArchiveError::MalformedArchive));
    assert!(out.is_empty());
}

#[test]
fn longest_name_round_trips() {
    let mut entry = sample();
    entry.name = "x".repeat(MAX_NAME_LEN as usize);
    let mut out = Vec::new();
    assert_eq!(entry.write(&mut out), Ok(()));
    assert_eq!(&out[20..24], &[0xff, 0xff, 0xff, 0]);
    let back = FileHeaderRepr::read(&mut ByteReader::new(&out), false).unwrap();
    assert_eq!(back.name.len(), MAX_NAME_LEN as usize);
    assert_eq!(back.data, vec![10, 20, 30]);
}

#[test]
fn write_refuses_uncompressed_with_two_lengths() {
    let mut entry = sample();
    entry.data_uncompressed_len = 5;
    let mut out = Vec::new();
    assert_eq!(entry.write(&mut out), Err(ArchiveError::MalformedArchive));
}

#[test]
fn byte_reader_reads_and_skips() {
    let bytes = [1u8, 2, 3, 4, 5];
    let mut reader = ByteReader::new(&bytes);
    assert_eq!(reader.read_exact(2), Ok(vec![1, 2]));
    assert_eq!(reader.skip(1), Ok(()));
    assert_eq!(reader.remaining_len(), 2);
    assert_eq!(reader.skip(3), Err(ArchiveError::MalformedArchive));
    assert_eq!(reader.read_exact(3), Err(ArchiveError::MalformedArchive));
    assert_eq!(reader.remaining_len(), 2);
    assert_eq!(reader.read_exact(2), Ok(vec![4, 5]));
    assert_eq!(reader.read_exact(0), Ok(vec![]));
}
