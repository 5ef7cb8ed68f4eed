//! The per-entry compression method and its one-byte tag.

use std::io::{Read, Write};
use vstd::prelude::*;
use vstd::slice::slice_to_vec;
use crate::error::ArchiveError;
use crate::text::str_eq;

verus! {

/// How the payload of an entry is stored.
#[derive(Debug, Clone, Copy, PartialEq, Eq, Structural)]
pub enum DataCompression {
    /// The payload is the file's bytes.
    Uncompressed,
    /// The payload is a Brotli stream.
    Brotli,
}

impl Default for DataCompression {
    /// Brotli, unless the caller asks otherwise.
    fn default() -> (method: DataCompression)
        ensures
            method == DataCompression::Brotli,
    {
        DataCompression::Brotli
    }
}

impl DataCompression {
    /// The tag byte that stands for the method on the wire.
    pub open spec fn spec_tag(self) -> u8 {
        match self {
            DataCompression::Uncompressed => 0,
            DataCompression::Brotli => 1,
        }
    }

    /// The method a tag byte stands for; tags above 1 stand for none.
    pub open spec fn spec_try_from(x: u8) -> Result<DataCompression, ArchiveError> {
        if x == 0 {
            Ok(DataCompression::Uncompressed)
        } else if x == 1 {
            Ok(DataCompression::Brotli)
        } else {
            Err(ArchiveError::UnsupportedCompressionTag)
        }
    }

    /// The method a word of the command line names.
    pub open spec fn spec_from_str(s: Seq<char>) -> Option<DataCompression> {
        if s == "default"@ {
            Some(DataCompression::Brotli)
        } else if s == "none"@ {
            Some(DataCompression::Uncompressed)
        } else if s == "brotli"@ {
            Some(DataCompression::Brotli)
        } else {
            None
        }
    }

    /// The name of the method, as the command line spells it.
    pub open spec fn spec_name(self) -> Seq<char> {
        match self {
            DataCompression::Uncompressed => "none"@,
            DataCompression::Brotli => "brotli"@,
        }
    }

    /// The name of the method: `none` or `brotli`.
    pub fn name(self) -> (name: &'static str)
        ensures
            name@ == self.spec_name(),
    {
        match self {
            DataCompression::Uncompressed => "none",
            DataCompression::Brotli => "brotli",
        }
    }

    #[verifier::when_used_as_spec(spec_tag)]
    pub fn tag(self) -> (t: u8)
        ensures
            t == self.spec_tag(),
    {
        match self {
            DataCompression::Uncompressed => 0,
            DataCompression::Brotli => 1,
        }
    }

    /// Decodes a tag byte. An unknown tag is an error, never a fallback.
    pub fn try_from(x: u8) -> (r: Result<DataCompression, ArchiveError>)
        ensures
            r == Self::spec_try_from(x),
    {
        match x {
            0 => Ok(DataCompression::Uncompressed),
            1 => Ok(DataCompression::Brotli),
            _ => Err(ArchiveError::UnsupportedCompressionTag),
        }
    }

    /// Reads a method's name: `default`, `none` or `brotli`, in lower case.
    pub fn from_str(s: &str) -> (r: Result<DataCompression, &'static str>)
        ensures
            match r {
                Ok(method) => Self::spec_from_str(s@) == Some(method),
                Err(message) => Self::spec_from_str(s@) is None
                    && message@ == "unsupported compression format"@,
            },
    {
        if str_eq(s, "default") {
            Ok(DataCompression::default())
        } else if str_eq(s, "none") {
            Ok(DataCompression::Uncompressed)
        } else if str_eq(s, "brotli") {
            Ok(DataCompression::Brotli)
        } else {
            Err("unsupported compression format")
        }
    }
}

/// The size of the buffer the Brotli coder works through.
pub const BROTLI_BUFFER_SIZE: usize = 8128;

/// What Brotli decoding makes of a byte string: the decoded bytes, or
/// nothing where the string is not one complete Brotli stream.
pub uninterp spec fn brotli_decoded(stream: Seq<u8>) -> Option<Seq<u8>>;

/// `brotli::DecompressorWriter` over a vector: the stream is written
/// through the decoder with `write_all`, and the decoder is closed with
/// `into_inner`. The result is what was decoded when the decoder took
/// every byte and found the stream complete, and nothing otherwise. What
/// it is depends on the stream alone, which is all that is claimed.
#[verifier::external_body]
fn brotli_decompress(stream: &[u8]) -> (r: Option<Vec<u8>>)
    ensures
        match r {
            Some(plain) => brotli_decoded(stream@) == Some(plain@),
            None => brotli_decoded(stream@) is None,
        },
{
    let mut decoder = brotli::DecompressorWriter::new(Vec::new(), BROTLI_BUFFER_SIZE);
    match decoder.write_all(stream) {
        Ok(()) => decoder.into_inner().ok(),
        Err(_) => None,
    }
}

/// `brotli::CompressorReader::with_params` over the data, with the
/// parameters of `BrotliEncoderParams::default()`, read to its end.
/// Which bytes come out is left open: they may differ from one machine
/// to the next. What is claimed is that the coder is lossless: a stream
/// it gives is one that `brotli::DecompressorWriter` decodes to the data
/// it was given. Nothing is claimed of when it gives none.
#[verifier::external_body]
fn brotli_compress(data: &[u8]) -> (r: Option<Vec<u8>>)
    ensures
        r matches Some(stream) ==> brotli_decoded(stream@) == Some(data@),
{
    let params = brotli::enc::BrotliEncoderParams::default();
    let mut encoder = brotli::CompressorReader::with_params(data, BROTLI_BUFFER_SIZE, &params);
    let mut stream = Vec::new();
    match encoder.read_to_end(&mut stream) {
        Ok(_) => Some(stream),
        Err(_) => None,
    }
}

/// The file bytes that a payload stands for under `method`, if any.
pub open spec fn spec_decompress(method: DataCompression, stored: Seq<u8>) -> Option<Seq<u8>> {
    match method {
        DataCompression::Uncompressed => Some(stored),
        DataCompression::Brotli => brotli_decoded(stored),
    }
}

/// The payload for a file, given what the Brotli coder made of it. A
/// coder that gave nothing has failed.
pub fn payload_from(outcome: Option<Vec<u8>>) -> (r: Result<Vec<u8>, ArchiveError>)
    ensures
        match outcome {
            Some(stream) => r == Ok::<Vec<u8>, ArchiveError>(stream),
            None => r == Err::<Vec<u8>, ArchiveError>(ArchiveError::IoError),
        },
{
    match outcome {
        Some(stream) => Ok(stream),
        None => Err(ArchiveError::IoError),
    }
}

/// The file bytes, given what decoding made of a payload. A payload that
/// does not decode makes the archive malformed.
pub fn plain_from(outcome: Option<Vec<u8>>) -> (r: Result<Vec<u8>, ArchiveError>)
    ensures
        match outcome {
            Some(plain) => r == Ok::<Vec<u8>, ArchiveError>(plain),
            None => r == Err::<Vec<u8>, ArchiveError>(ArchiveError::MalformedArchive),
        },
{
    match outcome {
        Some(plain) => Ok(plain),
        None => Err(ArchiveError::MalformedArchive),
    }
}

/// Makes the payload for `data` under `method`. Without compression the
/// payload is the data and this cannot fail. With Brotli the coder
/// decides; whatever payload it gives decodes back to `data`, and if it
/// gives none the error is `IoError`.
pub fn compress(method: DataCompression, data: &[u8]) -> (r: Result<Vec<u8>, ArchiveError>)
    ensures
        method == DataCompression::Uncompressed ==> r is Ok,
        match r {
            Ok(stored) => spec_decompress(method, stored@) == Some(data@),
            Err(e) => e == ArchiveError::IoError,
        },
{
    match method {
        DataCompression::Uncompressed => Ok(slice_to_vec(data)),
        DataCompression::Brotli => payload_from(brotli_compress(data)),
    }
}

/// Recovers the file bytes from a payload stored under `method`.
pub fn decompress(method: DataCompression, stored: &[u8]) -> (r: Result<Vec<u8>, ArchiveError>)
    ensures
        match r {
            Ok(plain) => spec_decompress(method, stored@) == Some(plain@),
            Err(e) => e == ArchiveError::MalformedArchive && spec_decompress(method, stored@)
                is None,
        },
{
    match method {
        DataCompression::Uncompressed => Ok(slice_to_vec(stored)),
        DataCompression::Brotli => plain_from(brotli_decompress(stored)),
    }
}

/// Every method's name reads back as that method.
pub proof fn lemma_name_roundtrip(method: DataCompression)
    ensures
        DataCompression::spec_from_str(method.spec_name()) == Some(method),
{
    reveal_strlit("default");
    reveal_strlit("none");
    reveal_strlit("brotli");
    assert("default"@.len() == 7 && "none"@.len() == 4 && "brotli"@.len() == 6);
}

/// Every method's tag decodes to that method.
pub proof fn lemma_tag_roundtrip(method: DataCompression)
    ensures
        DataCompression::spec_try_from(method.spec_tag()) == Ok::<DataCompression, ArchiveError>(method),
{
}

} // verus!
