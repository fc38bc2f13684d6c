//! The file: the stream of a graphic inside one Zstandard frame.
//!
//! Compressing is the work of the `zstd` crate and reading a frame that of
//! the `ruzstd` crate. Neither is verified here: what is stated of them is
//! believed, and says no more than that each gives the same bytes for the
//! same input.

use std::io::Read;
use vstd::prelude::*;
use crate::error::{DecodeError, EncodeError};
use crate::graphic::{decode_spec, encode_spec, Graphic, GraphicView};

verus! {

/// The level at which every file is compressed.
pub const COMPRESSION_LEVEL: i32 = 21;

/// The frame that the `zstd` crate makes of `payload` at `level`.
pub uninterp spec fn zstd_frame(payload: Seq<u8>, level: int) -> Seq<u8>;

/// What the `ruzstd` crate reads out of `frame`; `None` where it reports an
/// error.
pub uninterp spec fn zstd_content(frame: Seq<u8>) -> Option<Seq<u8>>;

/// Calls `zstd::stream::encode_all` on `payload`. Believed: where the call
/// succeeds, the bytes it gives depend on `payload` and `level` alone. When
/// it fails is left open.
#[verifier::external_body]
fn zstd_compress(payload: &[u8], level: i32) -> (r: Option<Vec<u8>>)
    ensures
        r matches Some(frame) ==> frame@ == zstd_frame(payload@, level as int),
{
    zstd::stream::encode_all(payload, level).ok()
}

/// Makes a `ruzstd::decoding::StreamingDecoder` on `frame` and reads it to
/// its end. Believed: whether that succeeds, and the bytes it then gives,
/// depend on `frame` alone.
#[verifier::external_body]
fn zstd_decompress(frame: &[u8]) -> (r: Option<Vec<u8>>)
    ensures
        match r {
            Some(payload) => zstd_content(frame@) == Some(payload@),
            None => zstd_content(frame@) is None,
        },
{
    let mut decoder = ruzstd::decoding::StreamingDecoder::new(frame).ok()?;
    let mut payload = Vec::new();
    decoder.read_to_end(&mut payload).ok()?;
    Some(payload)
}

/// The graphic in what a frame held, or why there is none: what the stream
/// decodes to, and `CompressionFailure` where the frame could not be read.
pub open spec fn content_spec(content: Option<Seq<u8>>) -> Result<GraphicView, DecodeError> {
    match content {
        Some(payload) => decode_spec(payload),
        None => Err(DecodeError::CompressionFailure),
    }
}

/// The graphic that a file holds, or why it holds none.
pub open spec fn load_spec(file: Seq<u8>) -> Result<GraphicView, DecodeError> {
    content_spec(zstd_content(file))
}

/// The bytes of a vector, if there is one.
pub open spec fn bytes_of(v: Option<Vec<u8>>) -> Option<Seq<u8>> {
    match v {
        Some(bytes) => Some(bytes@),
        None => None,
    }
}

impl Graphic {
    /// The graphic in what a frame held, where `None` stands for a frame
    /// that could not be read. What is read is a graphic that the format can
    /// hold.
    pub fn from_content(content: Option<Vec<u8>>) -> (r: Result<Graphic, DecodeError>)
        ensures
            match r {
                Ok(g) => content_spec(bytes_of(content)) == Ok::<GraphicView, DecodeError>(g@) && g@.encodable(),
                Err(e) => content_spec(bytes_of(content)) == Err::<GraphicView, DecodeError>(e),
            },
    {
        match content {
            Some(payload) => Graphic::decode(payload.as_slice()),
            None => Err(DecodeError::CompressionFailure),
        }
    }

    /// Reads a graphic from the bytes of a file. The frame is read to its
    /// end before any section is parsed. What is read is a graphic that the
    /// format can hold.
    pub fn load(file: &[u8]) -> (r: Result<Graphic, DecodeError>)
        ensures
            match r {
                Ok(g) => load_spec(file@) == Ok::<GraphicView, DecodeError>(g@) && g@.encodable(),
                Err(e) => load_spec(file@) == Err::<GraphicView, DecodeError>(e),
            },
    {
        Graphic::from_content(zstd_decompress(file))
    }

    /// The bytes of a file that holds the graphic: its stream, compressed at
    /// `COMPRESSION_LEVEL` into one finished frame.
    pub fn save(&self) -> (r: Result<Vec<u8>, EncodeError>)
        ensures
            r matches Ok(file) ==> file@ == zstd_frame(encode_spec(self@), COMPRESSION_LEVEL as int),
    {
        let payload = self.encode();
        compressed(zstd_compress(payload.as_slice(), COMPRESSION_LEVEL))
    }
}

/// The file that the compressor gave, and `CompressionFailure` where it
/// gave none.
pub fn compressed(frame: Option<Vec<u8>>) -> (r: Result<Vec<u8>, EncodeError>)
    ensures
        match frame {
            Some(file) => r == Ok::<Vec<u8>, EncodeError>(file),
            None => r == Err::<Vec<u8>, EncodeError>(EncodeError::CompressionFailure),
        },
{
    match frame {
        Some(file) => Ok(file),
        None => Err(EncodeError::CompressionFailure),
    }
}

/// Loading inverts saving as far as reading a frame inverts compressing: a
/// file whose frame holds the stream of a graphic that the format can hold
/// loads as that graphic.
pub proof fn law_load_inverts_save(g: GraphicView, file: Seq<u8>)
    requires
        g.encodable(),
    ensures
        zstd_content(file) == Some(encode_spec(g)) ==> load_spec(file) == Ok::<GraphicView, DecodeError>(g),
{
    crate::laws::law_roundtrip(g);
}

} // verus!
