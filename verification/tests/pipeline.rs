use simple_archive::archive::{read_archive, read_entries};
use simple_archive::compression::DataCompression;
use simple_archive::error::ArchiveError;
use simple_archive::file::FileRecord;
use simple_archive::header::{ArchiveHeader, ARCHIVE_HEADER_SIZE, FILE_HEADER_SIZE};
use simple_archive::pack::{pack, pack_entry};
use simple_archive::unpack::{restore, unpack, unpack_entry};
use simple_archive::wire::ByteReader;

fn file(name: &str, mode: u32, contents: &[u8]) -> FileRecord {
    FileRecord {
        name: name.to_string(),
        mode,
        modified: 1_600_000_000 + contents.len() as u64,
        accessed: 1_650_000_000 + contents.len() as u64,
        contents: contents.to_vec(),
    }
}

fn samples() -> Vec<FileRecord> {
    let mut long = Vec::new();
    for i in 0..5000u32 {
        long.push((i % 7) as u8);
    }
    vec![
        file("dir/empty", 0o100600, b""),
        file("dir/hello.txt", 0o100644, b"hello, world\n"),
        file("dir/sub/run.sh", 0o100755, b"#!/bin/sh\nexit 0\n"),
        file("dir/long.bin", 0o100444, &long),
    ]
}

fn same(a: &FileRecord, b: &FileRecord) -> bool {
    a.name == b.name
        && a.mode == b.mode
        && a.modified == b.modified
        && a.accessed == b.accessed
        && a.contents == b.contents
}

fn packed(files: &Vec<FileRecord>, method: DataCompression) -> Vec<u8> {
    let mut out = Vec::new();
    pack(files, method, &mut out).unwrap();
    out
}

#[test]
fn round_trip_uncompressed() {
    let files = samples();
    let bytes = packed(&files, DataCompression::Uncompressed);
    let mut reader = ByteReader::new(&bytes);
    let mut restored = Vec::new();
    let skipped = unpack(&mut reader, &mut restored).unwrap();
    assert!(skipped.is_empty());
    assert_eq!(reader.remaining_len(), 0);
    assert_eq!(restored.len(), files.len());
    for (a, b) in files.iter().zip(restored.iter()) {
        assert!(same(a, b));
    }
}

#[test]
fn round_trip_brotli() {
    let files = samples();
    let bytes = packed(&files, DataCompression::Brotli);
    let mut restored = Vec::new();
    let skipped = unpack(&mut ByteReader::new(&bytes), &mut restored).unwrap();
    assert!(skipped.is_empty());
    assert_eq!(restored.len(), files.len());
    for (a, b) in files.iter().zip(restored.iter()) {
        assert!(same(a, b));
    }
}

#[test]
fn round_trip_of_no_files() {
    let bytes = packed(&Vec::new(), DataCompression::Brotli);
    assert_eq!(bytes, vec![0u8; 8]);
    let mut restored = Vec::new();
    assert_eq!(unpack(&mut ByteReader::new(&bytes), &mut restored), Ok(vec![]));
    assert!(restored.is_empty());
}

#[test]
fn compression_is_transparent() {
    let files = samples();
    let plain = packed(&files, DataCompression::Uncompressed);
    let small = packed(&files, DataCompression::Brotli);
    assert_ne!(plain, small);
    assert!(small.len() < plain.len());
    let mut from_plain = Vec::new();
    let mut from_small = Vec::new();
    unpack(&mut ByteReader::new(&plain), &mut from_plain).unwrap();
    unpack(&mut ByteReader::new(&small), &mut from_small).unwrap();
    assert_eq!(from_plain.len(), from_small.len());
    for (a, b) in from_plain.iter().zip(from_small.iter()) {
        assert!(same(a, b));
    }
}

#[test]
fn pack_writes_header_then_entries() {
    let files = vec![file("a", 0o644, b"xyz"), file("bc", 0o600, b"")];
    let mut out = vec![0xab];
    let headers = pack(&files, DataCompression::Uncompressed, &mut out).unwrap();
    assert_eq!(&out[..9], &[0xab, 0, 0, 0, 0, 2, 0, 0, 0]);
    assert_eq!(out.len(), 1 + ARCHIVE_HEADER_SIZE + (FILE_HEADER_SIZE + 1 + 3) + (FILE_HEADER_SIZE + 2));
    assert_eq!(headers.len(), 2);
    assert_eq!(headers[0].name_len(), 1);
    assert_eq!(headers[0].data_len, 3);
    assert_eq!(headers[0].data_uncompressed_len, 3);
    assert_eq!(headers[0].mode, 0o644);
    assert_eq!(headers[0].data_compression(), Ok(DataCompression::Uncompressed));
    assert_eq!(headers[1].name_len(), 2);
    assert_eq!(headers[1].data_len, 0);
    let first = 1 + ARCHIVE_HEADER_SIZE + FILE_HEADER_SIZE;
    assert_eq!(&out[first..first + 4], b"axyz");
}

#[test]
fn pack_records_both_lengths_with_brotli() {
    let files = vec![file("zeros", 0o644, &[0u8; 10_000])];
    let mut out = Vec::new();
    let headers = pack(&files, DataCompression::Brotli, &mut out).unwrap();
    assert_eq!(headers[0].data_uncompressed_len, 10_000);
    assert!(headers[0].data_len < 100);
    assert_eq!(headers[0].data_compression(), Ok(DataCompression::Brotli));
    assert_eq!(
        out.len() as u64,
        (ARCHIVE_HEADER_SIZE + FILE_HEADER_SIZE + 5) as u64 + headers[0].data_len
    );
}

#[test]
fn pack_refuses_bad_name_and_writes_nothing() {
    let files = vec![file("ok", 0o644, b"1"), file("bad\0name", 0o644, b"2")];
    let mut out = vec![7, 7];
    assert_eq!(
        pack(&files, DataCompression::Uncompressed, &mut out).unwrap_err(),
        ArchiveError::MalformedArchive
    );
    assert_eq!(out, vec![7, 7]);
    assert_eq!(
        pack_entry(&files[1], DataCompression::Brotli).unwrap_err(),
        ArchiveError::MalformedArchive
    );
}

#[test]
fn pack_entry_keeps_metadata() {
    let f = file("n", 0o4755, b"abc");
    let e = pack_entry(&f, DataCompression::Uncompressed).unwrap();
    assert_eq!(e.name, "n");
    assert_eq!(e.mode, 0o4755);
    assert_eq!(e.modified, f.modified);
    assert_eq!(e.accessed, f.accessed);
    assert_eq!(e.data, b"abc".to_vec());
    assert_eq!(e.data_len, 3);
    assert_eq!(e.data_uncompressed_len, 3);
    assert!(same(&restore(&e).unwrap(), &f));
}

#[test]
fn list_matches_unpack() {
    for method in [DataCompression::Uncompressed, DataCompression::Brotli] {
        let bytes = packed(&samples(), method);
        let mut list_reader = ByteReader::new(&bytes);
        let listed = read_archive(&mut list_reader).unwrap();
        let mut full_reader = ByteReader::new(&bytes);
        let full = read_entries(&mut full_reader, false).unwrap();
        assert_eq!(list_reader.remaining_len(), 0);
        assert_eq!(full_reader.remaining_len(), 0);
        assert_eq!(listed.header, full.header);
        assert_eq!(listed.header.version, 0);
        assert_eq!(listed.header.file_count, 4);
        assert_eq!(listed.entries.len(), 4);
        assert_eq!(full.entries.len(), 4);
        for (l, f) in listed.entries.iter().zip(full.entries.iter()) {
            assert_eq!(l.name, f.name);
            assert_eq!(l.data_len, f.data_len);
            assert_eq!(l.data_uncompressed_len, f.data_uncompressed_len);
            assert_eq!(l.mode, f.mode);
            assert_eq!(l.modified, f.modified);
            assert_eq!(l.accessed, f.accessed);
            assert_eq!(l.data_compression, f.data_compression);
            assert!(l.data.is_empty());
            assert_eq!(f.data.len() as u64, f.data_len);
        }
    }
}

#[test]
fn every_truncation_is_detected() {
    let files = vec![file("one", 0o644, b"first file"), file("two", 0o644, b"second")];
    let bytes = packed(&files, DataCompression::Uncompressed);
    for cut in 0..bytes.len() {
        let short = &bytes[..cut];
        let mut reader = ByteReader::new(short);
        assert_eq!(read_archive(&mut reader).unwrap_err(), ArchiveError::MalformedArchive);
        assert_eq!(reader.remaining_len(), cut);
        let mut dest = Vec::new();
        assert_eq!(
            unpack(&mut ByteReader::new(short), &mut dest).unwrap_err(),
            ArchiveError::MalformedArchive
        );
        assert!(dest.is_empty());
    }
}

#[test]
fn truncation_mid_payload_is_detected_with_brotli() {
    let bytes = packed(&samples(), DataCompression::Brotli);
    let cut = &bytes[..bytes.len() - 3];
    assert_eq!(
        read_archive(&mut ByteReader::new(cut)).unwrap_err(),
        ArchiveError::MalformedArchive
    );
    let mut dest = Vec::new();
    assert_eq!(
        unpack(&mut ByteReader::new(cut), &mut dest).unwrap_err(),
        ArchiveError::MalformedArchive
    );
}

#[test]
fn header_that_declares_too_many_entries_is_malformed() {
    let mut bytes = packed(&samples(), DataCompression::Uncompressed);
    bytes[4] = 5;
    assert_eq!(
        read_archive(&mut ByteReader::new(&bytes)).unwrap_err(),
        ArchiveError::MalformedArchive
    );
}

#[test]
fn bytes_after_the_archive_are_left_in_the_stream() {
    let mut bytes = packed(&samples(), DataCompression::Uncompressed);
    bytes.extend_from_slice(b"tail");
    let mut reader = ByteReader::new(&bytes);
    assert_eq!(read_archive(&mut reader).unwrap().entries.len(), 4);
    assert_eq!(reader.remaining_len(), 4);
}

#[test]
fn unpack_does_not_overwrite() {
    let files = samples();
    let bytes = packed(&files, DataCompression::Brotli);
    let mine = file("dir/hello.txt", 0o600, b"my own words");
    let other = file("elsewhere", 0o600, b"x");
    let mut dest = vec![mine.clone(), other.clone()];
    let skipped = unpack(&mut ByteReader::new(&bytes), &mut dest).unwrap();
    assert_eq!(skipped, vec!["dir/hello.txt".to_string()]);
    assert_eq!(dest.len(), 5);
    assert!(same(&dest[0], &mine));
    assert!(same(&dest[1], &other));
    assert!(same(&dest[2], &files[0]));
    assert!(same(&dest[3], &files[2]));
    assert!(same(&dest[4], &files[3]));
}

#[test]
fn second_entry_of_a_name_is_skipped() {
    let files = vec![file("same", 0o644, b"first"), file("same", 0o644, b"second")];
    let bytes = packed(&files, DataCompression::Uncompressed);
    let mut dest = Vec::new();
    let skipped = unpack(&mut ByteReader::new(&bytes), &mut dest).unwrap();
    assert_eq!(skipped, vec!["same".to_string()]);
    assert_eq!(dest.len(), 1);
    assert!(same(&dest[0], &files[0]));
}

#[test]
fn unpack_entry_skips_existing_destination() {
    let f = file("n", 0o644, b"abc");
    let e = pack_entry(&f, DataCompression::Brotli).unwrap();
    let skipped = unpack_entry(&e, true).unwrap_err();
    assert_eq!(skipped, ArchiveError::DestinationExists);
    assert!(!skipped.is_fatal());
    assert!(same(&unpack_entry(&e, false).unwrap(), &f));
}

#[test]
fn existing_destination_hides_a_broken_payload() {
    let f = file("n", 0o644, b"abc");
    let mut e = pack_entry(&f, DataCompression::Brotli).unwrap();
    e.data = vec![0xff; 4];
    e.data_len = 4;
    assert_eq!(unpack_entry(&e, true).unwrap_err(), ArchiveError::DestinationExists);
    assert_eq!(unpack_entry(&e, false).unwrap_err(), ArchiveError::MalformedArchive);
}

#[test]
fn restore_checks_declared_length() {
    let f = file("n", 0o644, b"abcdef");
    let mut e = pack_entry(&f, DataCompression::Brotli).unwrap();
    e.data_uncompressed_len = 5;
    assert_eq!(restore(&e).unwrap_err(), ArchiveError::MalformedArchive);
}

#[test]
fn broken_payload_fails_unpack_and_leaves_destination() {
    let files = vec![file("a", 0o644, b"aaaa"), file("b", 0o644, b"bbbb")];
    let mut bytes = packed(&files, DataCompression::Brotli);
    let last = bytes.len() - 1;
    bytes[last] ^= 0xff;
    bytes[last - 1] ^= 0xff;
    let kept = file("kept", 0o644, b"k");
    let mut dest = vec![kept.clone()];
    let mut reader = ByteReader::new(&bytes);
    assert_eq!(unpack(&mut reader, &mut dest).unwrap_err(), ArchiveError::MalformedArchive);
    assert_eq!(reader.remaining_len(), bytes.len());
    assert_eq!(dest.len(), 1);
    assert!(same(&dest[0], &kept));
    assert_eq!(read_archive(&mut ByteReader::new(&bytes)).unwrap().entries.len(), 2);
}

#[test]
fn one_archive_may_mix_methods() {
    let a = file("plain.txt", 0o644, b"stored as it is");
    let b = file("small.txt", 0o600, &[b'z'; 3000]);
    let mut bytes = Vec::new();
    ArchiveHeader { version: 0, file_count: 2 }.write(&mut bytes);
    pack_entry(&a, DataCompression::Uncompressed).unwrap().write(&mut bytes).unwrap();
    pack_entry(&b, DataCompression::Brotli).unwrap().write(&mut bytes).unwrap();
    let listed = read_archive(&mut ByteReader::new(&bytes)).unwrap();
    assert_eq!(listed.entries[0].data_compression, DataCompression::Uncompressed);
    assert_eq!(listed.entries[1].data_compression, DataCompression::Brotli);
    assert_eq!(listed.entries[0].data_len, 15);
    assert!(listed.entries[1].data_len < 3000);
    assert_eq!(listed.entries[1].data_uncompressed_len, 3000);
    let mut dest = Vec::new();
    assert_eq!(unpack(&mut ByteReader::new(&bytes), &mut dest), Ok(vec![]));
    assert!(same(&dest[0], &a));
    assert!(same(&dest[1], &b));
}

#[test]
fn an_archive_of_another_version_is_read() {
    let mut bytes = packed(&samples(), DataCompression::Uncompressed);
    bytes[0] = 7;
    let listed = read_archive(&mut ByteReader::new(&bytes)).unwrap();
    assert_eq!(listed.header.version, 7);
    assert_eq!(listed.entries.len(), 4);
}

#[test]
fn only_an_existing_destination_is_not_fatal() {
    assert!(ArchiveError::IoError.is_fatal());
    assert!(ArchiveError::MalformedArchive.is_fatal());
    assert!(ArchiveError::UnsupportedCompressionTag.is_fatal());
    assert!(ArchiveError::InvalidNameEncoding.is_fatal());
    assert!(ArchiveError::NoInputPaths.is_fatal());
    assert!(!ArchiveError::DestinationExists.is_fatal());
}
