use simple_archive::compression::{compress, decompress, DataCompression};
use simple_archive::error::ArchiveError;
use simple_archive::header::{ArchiveHeader, FileHeader};
use simple_archive::wire::ByteReader;

#[test]
fn archive_header_layout() {
    let mut out = Vec::new();
    ArchiveHeader { version: 0, file_count: 0x0102_0304 }.write(&mut out);
    assert_eq!(out, vec![0, 0, 0, 0, 4, 3, 2, 1]);
    let mut reader = ByteReader::new(&out);
    let back = ArchiveHeader::read(&mut reader).unwrap();
    assert_eq!(back.version, 0);
    assert_eq!(back.file_count, 0x0102_0304);
    assert_eq!(reader.remaining_len(), 0);
}

#[test]
fn archive_header_short_stream() {
    let bytes = vec![0u8; 7];
    let mut reader = ByteReader::new(&bytes);
    assert_eq!(ArchiveHeader::read(&mut reader), Err(ArchiveError::MalformedArchive));
    assert_eq!(reader.remaining_len(), 7);
}

#[test]
fn file_header_layout() {
    let h = FileHeader::new(1, 2, 0o644, 5, DataCompression::Brotli, 7, 3);
    let mut out = Vec::new();
    h.write(&mut out);
    let mut expected = vec![1u8, 0, 0, 0, 0, 0, 0, 0];
    expected.extend_from_slice(&[2, 0, 0, 0, 0, 0, 0, 0]);
    expected.extend_from_slice(&[0xa4, 0x01, 0, 0]);
    expected.extend_from_slice(&[5, 0, 0, 1]);
    expected.extend_from_slice(&[7, 0, 0, 0, 0, 0, 0, 0]);
    expected.extend_from_slice(&[3, 0, 0, 0, 0, 0, 0, 0]);
    assert_eq!(out, expected);
    assert_eq!(h.name_len(), 5);
    assert_eq!(h.data_compression(), Ok(DataCompression::Brotli));
}

#[test]
fn brotli_round_trip() {
    let data = b"hello hello hello hello hello hello".to_vec();
    let stored = compress(DataCompression::Brotli, &data).unwrap();
    assert_ne!(stored, data);
    assert_eq!(decompress(DataCompression::Brotli, &stored), Ok(data));
}

#[test]
fn brotli_rejects_truncated_stream() {
    let data = vec![7u8; 4096];
    let stored = compress(DataCompression::Brotli, &data).unwrap();
    let cut = &stored[..stored.len() - 1];
    assert_eq!(decompress(DataCompression::Brotli, cut), Err(ArchiveError::MalformedArchive));
}

#[test]
fn brotli_rejects_trailing_bytes() {
    let data = vec![7u8; 100];
    let mut stored = compress(DataCompression::Brotli, &data).unwrap();
    stored.push(0);
    assert_eq!(decompress(DataCompression::Brotli, &stored), Err(ArchiveError::MalformedArchive));
}

#[test]
fn brotli_rejects_empty_stream() {
    assert_eq!(decompress(DataCompression::Brotli, &[]), Err(ArchiveError::MalformedArchive));
}
