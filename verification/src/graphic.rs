//! The graphic: every section of the format in one value, and the codec
//! between that value and the bytes of the uncompressed stream.
//!
//! The stream is the magic header, the attributes, the vertex list, the
//! paths, the models and the bitmaps, in this order and with nothing
//! between them.

use vstd::prelude::*;
use crate::attribute::{
    attributes_bytes, decode_attributes, encode_attributes, parse_attributes, Attribute,
};
use crate::bitmap::{
    bitmaps_bytes, bitmaps_can_encode, bitmaps_encodable, bitmaps_view, decode_bitmaps,
    encode_bitmaps, parse_bitmaps, Bitmap, BitmapView,
};
use crate::error::DecodeError;
use crate::model::{
    check_models, decode_models, encode_models, models_bytes, models_can_encode,
    models_encodable, models_in_range, models_view, parse_models, Model, ModelView,
};
use crate::path::{
    check_paths, decode_paths, encode_paths, parse_paths, paths_bytes, paths_can_encode,
    paths_encodable, paths_in_range, paths_view, PathOp,
};
use crate::primitive::Float;
use crate::vertex::{
    decode_vertices, encode_vertices, parse_vertices, vertices_bytes, vertices_can_encode,
    vertices_encodable,
};

verus! {

/// A graphic that has been parsed, or will be written.
#[derive(Clone, Debug, PartialEq, Eq)]
pub struct Graphic {
    pub attributes: Vec<Attribute>,
    pub vertex_list: Vec<Float>,
    pub group: Vec<Vec<PathOp>>,
    pub models: Vec<Model>,
    pub bitmaps: Vec<Bitmap>,
}

/// A graphic as the format has it.
pub struct GraphicView {
    pub attributes: Seq<Attribute>,
    pub vertex_list: Seq<Float>,
    pub group: Seq<Seq<PathOp>>,
    pub models: Seq<ModelView>,
    pub bitmaps: Seq<BitmapView>,
}

impl View for Graphic {
    type V = GraphicView;

    open spec fn view(&self) -> GraphicView {
        GraphicView {
            attributes: self.attributes@,
            vertex_list: self.vertex_list@,
            group: paths_view(self.group@),
            models: models_view(self.models@),
            bitmaps: bitmaps_view(self.bitmaps@),
        }
    }
}

/// The four bytes that every stream starts with: `rVg` and a zero.
pub open spec fn magic() -> Seq<u8> {
    seq![0x72u8, 0x56u8, 0x67u8, 0x00u8]
}

/// Whether the input starts with the magic header.
pub open spec fn has_magic(s: Seq<u8>) -> bool {
    s.len() >= 4 && s[0] == 0x72 && s[1] == 0x56 && s[2] == 0x67 && s[3] == 0x00
}

impl GraphicView {
    /// The graphic with nothing in it.
    pub open spec fn empty() -> GraphicView {
        GraphicView {
            attributes: Seq::empty(),
            vertex_list: Seq::empty(),
            group: Seq::empty(),
            models: Seq::empty(),
            bitmaps: Seq::empty(),
        }
    }

    /// What the format can hold: no vertex coordinate and no width of a
    /// model is a NaN, no path is empty, no binding has the index
    /// `u32::MAX`, the frames of each model end with their only `Done`, and
    /// each bitmap has four bytes for each pixel.
    pub open spec fn encodable(self) -> bool {
        &&& vertices_encodable(self.vertex_list)
        &&& paths_encodable(self.group)
        &&& models_encodable(self.models)
        &&& bitmaps_encodable(self.bitmaps)
    }

    /// Every index resolves: those of the path operations are indices of
    /// vertices, which are pairs of coordinates, and those of the bindings
    /// are indices of paths.
    pub open spec fn indices_valid(self) -> bool {
        &&& paths_in_range(self.group, self.vertex_list.len() as int / 2)
        &&& models_in_range(self.models, self.group.len() as int)
    }

    /// The length of the stream up to the bitmaps.
    pub open spec fn head_len(self) -> nat {
        4 + attributes_bytes(self.attributes).len() + vertices_bytes(self.vertex_list).len() + paths_bytes(
            self.group,
        ).len() + models_bytes(self.models).len()
    }
}

/// The uncompressed stream of a graphic.
pub open spec fn encode_spec(g: GraphicView) -> Seq<u8> {
    magic() + attributes_bytes(g.attributes) + vertices_bytes(g.vertex_list) + paths_bytes(g.group)
        + models_bytes(g.models) + bitmaps_bytes(g.bitmaps)
}

/// The graphic that an uncompressed stream holds, or why it holds none.
///
/// An input of fewer than four bytes ends too early; one that starts with
/// other bytes than the magic header is no graphic, and nothing behind the
/// header is looked at. The sections are read one behind the other, and the
/// first error is the result.
pub open spec fn decode_spec(s: Seq<u8>) -> Result<GraphicView, DecodeError> {
    if s.len() < 4 {
        Err(DecodeError::UnexpectedEndOfInput)
    } else if !has_magic(s) {
        Err(DecodeError::HeaderMismatch)
    } else {
        match parse_attributes(s, 4) {
            Err(e) => Err(e),
            Ok((attributes, c1)) => match parse_vertices(s, c1) {
                Err(e) => Err(e),
                Ok((vertex_list, c2)) => match parse_paths(s, c2) {
                    Err(e) => Err(e),
                    Ok((group, c3)) => match parse_models(s, c3) {
                        Err(e) => Err(e),
                        Ok((models, c4)) => match parse_bitmaps(s, c4) {
                            Err(e) => Err(e),
                            Ok((bitmaps, c5)) => Ok(
                                GraphicView { attributes, vertex_list, group, models, bitmaps },
                            ),
                        },
                    },
                },
            },
        }
    }
}

impl Graphic {
    /// A graphic with nothing in it.
    pub fn new() -> (g: Graphic)
        ensures
            g@ == GraphicView::empty(),
    {
        let g = Graphic {
            attributes: Vec::new(),
            vertex_list: Vec::new(),
            group: Vec::new(),
            models: Vec::new(),
            bitmaps: Vec::new(),
        };
        proof {
            assert(g@.attributes =~= Seq::empty());
            assert(g@.vertex_list =~= Seq::empty());
            assert(g@.group =~= Seq::empty());
            assert(g@.models =~= Seq::empty());
            assert(g@.bitmaps =~= Seq::empty());
        }
        g
    }

    /// Whether the format can hold the graphic. To be asked before it is
    /// encoded: the stream of a graphic that the format cannot hold decodes
    /// to another graphic or to none.
    pub fn is_encodable(&self) -> (b: bool)
        ensures
            b == self@.encodable(),
    {
        vertices_can_encode(self.vertex_list.as_slice()) && paths_can_encode(self.group.as_slice())
            && models_can_encode(self.models.as_slice()) && bitmaps_can_encode(self.bitmaps.as_slice())
    }

    /// Whether every index resolves. To be asked before the graphic is
    /// drawn: decoding does not refuse a graphic for its indices.
    pub fn has_valid_indices(&self) -> (b: bool)
        ensures
            b == self@.indices_valid(),
    {
        check_paths(self.group.as_slice(), self.vertex_list.len() / 2) && check_models(
            self.models.as_slice(),
            self.group.len(),
        )
    }

    /// The uncompressed stream of the graphic. Where the format can hold the
    /// graphic, the stream decodes to it.
    pub fn encode(&self) -> (out: Vec<u8>)
        ensures
            out@ == encode_spec(self@),
            self@.encodable() ==> decode_spec(out@) == Ok::<GraphicView, DecodeError>(self@),
    {
        let mut out: Vec<u8> = Vec::new();
        out.push(0x72);
        out.push(0x56);
        out.push(0x67);
        out.push(0x00);
        assert(out@ =~= magic());
        encode_attributes(self.attributes.as_slice(), &mut out);
        encode_vertices(self.vertex_list.as_slice(), &mut out);
        encode_paths(self.group.as_slice(), &mut out);
        encode_models(self.models.as_slice(), &mut out);
        encode_bitmaps(self.bitmaps.as_slice(), &mut out);
        proof {
            if self@.encodable() {
                crate::laws::law_roundtrip(self@);
            }
        }
        out
    }

    /// Reads a graphic from an uncompressed stream. What is read is a
    /// graphic that the format can hold.
    pub fn decode(bytes: &[u8]) -> (r: Result<Graphic, DecodeError>)
        ensures
            match r {
                Ok(g) => decode_spec(bytes@) == Ok::<GraphicView, DecodeError>(g@) && g@.encodable(),
                Err(e) => decode_spec(bytes@) == Err::<GraphicView, DecodeError>(e),
            },
    {
        proof {
            crate::laws::law_decoded_is_encodable(bytes@);
        }
        if bytes.len() < 4 {
            return Err(DecodeError::UnexpectedEndOfInput);
        }
        if bytes[0] != 0x72 || bytes[1] != 0x56 || bytes[2] != 0x67 || bytes[3] != 0x00 {
            return Err(DecodeError::HeaderMismatch);
        }
        let (attributes, c1) = match decode_attributes(bytes, 4) {
            Ok(v) => v,
            Err(e) => return Err(e),
        };
        let (vertex_list, c2) = match decode_vertices(bytes, c1) {
            Ok(v) => v,
            Err(e) => return Err(e),
        };
        let (group, c3) = match decode_paths(bytes, c2) {
            Ok(v) => v,
            Err(e) => return Err(e),
        };
        let (models, c4) = match decode_models(bytes, c3) {
            Ok(v) => v,
            Err(e) => return Err(e),
        };
        let (bitmaps, c5) = match decode_bitmaps(bytes, c4) {
            Ok(v) => v,
            Err(e) => return Err(e),
        };
        Ok(Graphic { attributes, vertex_list, group, models, bitmaps })
    }
}

} // verus!
