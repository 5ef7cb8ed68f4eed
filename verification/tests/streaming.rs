use simple_archive::archive::read_entries;
use simple_archive::compression::DataCompression;
use simple_archive::entry::FileHeaderRepr;
use simple_archive::error::ArchiveError;
use simple_archive::file::FileRecord;
use simple_archive::header::ArchiveHeader;
use simple_archive::pack::{pack, Packer};
use simple_archive::stream::{Decoded, Decoder, Want};
use simple_archive::wire::ByteReader;

fn file(name: &str, contents: &[u8]) -> FileRecord {
    FileRecord { name: name.to_string(), mode: 0o644, modified: 5, accessed: 6, contents: contents.to_vec() }
}

fn samples() -> Vec<FileRecord> {
    vec![file("a", b"first"), file("dir/b", b""), file("dir/c", &[9u8; 2000])]
}

fn packed(method: DataCompression) -> Vec<u8> {
    let mut out = Vec::new();
    pack(&samples(), method, &mut out).unwrap();
    out
}

/// Gives the decoder what it wants from `stream`, as far as the stream
/// has it, and returns what was decoded with the bytes that are left.
fn drain(stream: &[u8], skip_data: bool) -> Result<(Option<ArchiveHeader>, Vec<FileHeaderRepr>, usize), ArchiveError> {
    let mut decoder = Decoder::new(skip_data);
    let mut at = 0usize;
    let mut header = None;
    let mut entries = Vec::new();
    loop {
        let decoded = match decoder.want() {
            Want::Done => return Ok((header, entries, stream.len() - at)),
            Want::Bytes(n) => {
                let end = std::cmp::min(stream.len() as u64, at as u64 + n) as usize;
                let piece = stream[at..end].to_vec();
                at = end;
                decoder.feed(piece)?
            }
            Want::Skip(n) => {
                let end = std::cmp::min(stream.len() as u64, at as u64 + n) as usize;
                let count = (end - at) as u64;
                at = end;
                decoder.skipped(count)?
            }
        };
        match decoded {
            Decoded::Nothing => {}
            Decoded::Archive(h) => header = Some(h),
            Decoded::Entry(e) => entries.push(e),
        }
    }
}

fn same_entry(a: &FileHeaderRepr, b: &FileHeaderRepr) -> bool {
    a.name == b.name
        && a.mode == b.mode
        && a.modified == b.modified
        && a.accessed == b.accessed
        && a.data_compression == b.data_compression
        && a.data_uncompressed_len == b.data_uncompressed_len
        && a.data_len == b.data_len
        && a.data == b.data
}

#[test]
fn decoder_wants_the_archive_header_first() {
    let decoder = Decoder::new(false);
    assert_eq!(decoder.want(), Want::Bytes(8));
}

#[test]
fn decoder_walks_through_an_entry() {
    let bytes = packed(DataCompression::Uncompressed);
    let mut decoder = Decoder::new(false);
    match decoder.feed(bytes[..8].to_vec()).unwrap() {
        Decoded::Archive(h) => {
            assert_eq!(h.version, 0);
            assert_eq!(h.file_count, 3);
        }
        other => panic!("{:?}", other),
    }
    assert_eq!(decoder.want(), Want::Bytes(40));
    assert!(matches!(decoder.feed(bytes[8..48].to_vec()), Ok(Decoded::Nothing)));
    assert_eq!(decoder.want(), Want::Bytes(1));
    assert!(matches!(decoder.feed(bytes[48..49].to_vec()), Ok(Decoded::Nothing)));
    assert_eq!(decoder.want(), Want::Bytes(5));
    match decoder.feed(bytes[49..54].to_vec()).unwrap() {
        Decoded::Entry(e) => {
            assert_eq!(e.name, "a");
            assert_eq!(e.data, b"first".to_vec());
        }
        other => panic!("{:?}", other),
    }
    assert_eq!(decoder.want(), Want::Bytes(40));
}

#[test]
fn decoder_asks_to_skip_payloads_when_listing() {
    let bytes = packed(DataCompression::Uncompressed);
    let mut decoder = Decoder::new(true);
    decoder.feed(bytes[..8].to_vec()).unwrap();
    decoder.feed(bytes[8..48].to_vec()).unwrap();
    decoder.feed(bytes[48..49].to_vec()).unwrap();
    assert_eq!(decoder.want(), Want::Skip(5));
    match decoder.skipped(5).unwrap() {
        Decoded::Entry(e) => {
            assert_eq!(e.name, "a");
            assert_eq!(e.data_len, 5);
            assert!(e.data.is_empty());
        }
        other => panic!("{:?}", other),
    }
}

#[test]
fn piece_by_piece_gives_what_the_whole_gives() {
    for method in [DataCompression::Uncompressed, DataCompression::Brotli] {
        for skip in [false, true] {
            let mut bytes = packed(method);
            bytes.extend_from_slice(b"trailing");
            let whole = read_entries(&mut ByteReader::new(&bytes), skip).unwrap();
            let (header, entries, left) = drain(&bytes, skip).unwrap();
            assert_eq!(header, Some(whole.header));
            assert_eq!(left, 8);
            assert_eq!(entries.len(), whole.entries.len());
            for (a, b) in entries.iter().zip(whole.entries.iter()) {
                assert!(same_entry(a, b));
            }
        }
    }
}

#[test]
fn piece_by_piece_fails_as_the_whole_fails() {
    let bytes = packed(DataCompression::Uncompressed);
    for skip in [false, true] {
        for cut in 0..bytes.len() {
            let whole = read_entries(&mut ByteReader::new(&bytes[..cut]), skip).unwrap_err();
            assert_eq!(whole, ArchiveError::MalformedArchive);
            assert_eq!(drain(&bytes[..cut], skip).unwrap_err(), whole);
        }
        let mut bad_tag = bytes.clone();
        bad_tag[8 + 23] = 9;
        assert_eq!(drain(&bad_tag, skip).unwrap_err(), ArchiveError::UnsupportedCompressionTag);
        let mut bad_name = bytes.clone();
        bad_name[48] = 0xff;
        assert_eq!(drain(&bad_name, skip).unwrap_err(), ArchiveError::InvalidNameEncoding);
        let mut nul_name = bytes.clone();
        nul_name[48] = 0;
        assert_eq!(drain(&nul_name, skip).unwrap_err(), ArchiveError::MalformedArchive);
        let mut two_lengths = bytes.clone();
        two_lengths[8 + 24] = 6;
        assert_eq!(drain(&two_lengths, skip).unwrap_err(), ArchiveError::MalformedArchive);
        for broken in [&bad_tag, &bad_name, &nul_name, &two_lengths] {
            assert_eq!(
                read_entries(&mut ByteReader::new(broken), skip).unwrap_err(),
                drain(broken, skip).unwrap_err()
            );
        }
    }
}

#[test]
fn decoder_refuses_what_it_did_not_want() {
    let bytes = packed(DataCompression::Uncompressed);
    let mut decoder = Decoder::new(true);
    assert_eq!(decoder.feed(bytes[..7].to_vec()).unwrap_err(), ArchiveError::MalformedArchive);
    assert_eq!(decoder.feed(bytes[..9].to_vec()).unwrap_err(), ArchiveError::MalformedArchive);
    assert_eq!(decoder.skipped(8).unwrap_err(), ArchiveError::MalformedArchive);
    assert_eq!(decoder.want(), Want::Bytes(8));
    decoder.feed(bytes[..8].to_vec()).unwrap();
    decoder.feed(bytes[8..48].to_vec()).unwrap();
    decoder.feed(bytes[48..49].to_vec()).unwrap();
    assert_eq!(decoder.feed(bytes[49..54].to_vec()).unwrap_err(), ArchiveError::MalformedArchive);
    assert_eq!(decoder.skipped(4).unwrap_err(), ArchiveError::MalformedArchive);
    assert_eq!(decoder.skipped(6).unwrap_err(), ArchiveError::MalformedArchive);
    assert_eq!(decoder.want(), Want::Skip(5));
    assert!(decoder.skipped(5).is_ok());
}

#[test]
fn decoder_is_done_after_the_last_entry() {
    let mut decoder = Decoder::new(false);
    assert!(matches!(decoder.feed(vec![0; 8]), Ok(Decoded::Archive(_))));
    assert_eq!(decoder.want(), Want::Done);
    assert_eq!(decoder.feed(vec![]).unwrap_err(), ArchiveError::MalformedArchive);
    assert_eq!(decoder.skipped(0).unwrap_err(), ArchiveError::MalformedArchive);
    let bytes = packed(DataCompression::Brotli);
    let (_, entries, left) = drain(&bytes, false).unwrap();
    assert_eq!(entries.len(), 3);
    assert_eq!(left, 0);
}

#[test]
fn packer_writes_what_pack_writes() {
    let files = samples();
    let whole = packed(DataCompression::Uncompressed);
    let mut out = Vec::new();
    let mut packer = Packer::begin(files.len(), DataCompression::Uncompressed, &mut out).unwrap();
    assert_eq!(out, vec![0, 0, 0, 0, 3, 0, 0, 0]);
    assert_eq!(packer.left(), 3);
    for (i, f) in files.iter().enumerate() {
        let before = out.len();
        let entry = packer.add(f, &mut out).unwrap();
        assert_eq!(entry.name, f.name);
        assert_eq!(entry.data, f.contents);
        assert_eq!(out.len(), before + 40 + f.name.len() + f.contents.len());
        assert_eq!(packer.left() as usize, files.len() - i - 1);
    }
    assert_eq!(packer.finish(), Ok(()));
    assert_eq!(out, whole);
}

#[test]
fn packer_counts_the_files() {
    let mut out = Vec::new();
    let mut packer = Packer::begin(1, DataCompression::Brotli, &mut out).unwrap();
    packer.add(&file("one", b"1"), &mut out).unwrap();
    let len = out.len();
    assert_eq!(
        packer.add(&file("two", b"2"), &mut out).unwrap_err(),
        ArchiveError::MalformedArchive
    );
    assert_eq!(out.len(), len);
    assert_eq!(packer.finish(), Ok(()));

    let mut out = Vec::new();
    let mut packer = Packer::begin(2, DataCompression::Uncompressed, &mut out).unwrap();
    packer.add(&file("one", b"1"), &mut out).unwrap();
    assert_eq!(packer.left(), 1);
    assert_eq!(packer.finish(), Err(ArchiveError::MalformedArchive));
}

#[test]
fn packer_refuses_a_bad_name_and_goes_on() {
    let mut out = Vec::new();
    let mut packer = Packer::begin(1, DataCompression::Uncompressed, &mut out).unwrap();
    assert_eq!(
        packer.add(&file("bad\0", b"x"), &mut out).unwrap_err(),
        ArchiveError::MalformedArchive
    );
    assert_eq!(out.len(), 8);
    assert_eq!(packer.left(), 1);
    assert!(packer.add(&file("good", b"x"), &mut out).is_ok());
    assert_eq!(packer.finish(), Ok(()));
}
