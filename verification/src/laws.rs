//! What holds of the codec as a whole.

use vstd::prelude::*;
use crate::attribute::{attributes_bytes, lemma_parse_attributes, parse_attributes};
use crate::bitmap::{
    bitmaps_bytes, lemma_parse_bitmaps, lemma_parsed_bitmaps_encodable, lemma_whole_bitmaps_all,
    whole_bitmaps,
};
use crate::error::DecodeError;
use crate::graphic::{decode_spec, encode_spec, has_magic, magic, GraphicView};
use crate::model::{lemma_parse_models, lemma_parsed_models_encodable, models_bytes, parse_models};
use crate::path::{lemma_parse_paths, lemma_parsed_paths_encodable, parse_paths, paths_bytes};
use crate::primitive::{
    agrees, lemma_agrees_prefix, lemma_agrees_split, lemma_agrees_whole, Float,
};
use crate::vertex::{
    lemma_parse_vertices, lemma_parsed_vertices_encodable, parse_vertices, vertices_bytes,
    vertices_encodable,
};

verus! {

/// How many bitmaps a stream of `g` holds that was cut after `k` bytes, if
/// the cut is between two bitmaps, before the first or behind the last;
/// `None` where it is inside a record.
pub open spec fn kept_bitmaps(g: GraphicView, k: int) -> Option<int> {
    if k < g.head_len() {
        None
    } else {
        whole_bitmaps(g.bitmaps, k - g.head_len())
    }
}

/// What a stream of `g` holds that was cut after `k` bytes: `g` with the
/// bitmaps that the cut left whole, or nothing where the cut is inside a
/// record.
pub open spec fn cut_result(g: GraphicView, k: int) -> Result<GraphicView, DecodeError> {
    match kept_bitmaps(g, k) {
        Some(j) => Ok(GraphicView { bitmaps: g.bitmaps.take(j), ..g }),
        None => Err(DecodeError::UnexpectedEndOfInput),
    }
}

/// An input that agrees with the stream of `g` and is no longer than it
/// decodes as the stream of `g` cut at the length of the input.
proof fn lemma_decode_agreeing(g: GraphicView, s: Seq<u8>)
    requires
        g.encodable(),
        s.len() <= encode_spec(g).len(),
        agrees(s, 0, encode_spec(g)),
    ensures
        decode_spec(s) == cut_result(g, s.len() as int),
{
    let a = attributes_bytes(g.attributes);
    let v = vertices_bytes(g.vertex_list);
    let p = paths_bytes(g.group);
    let m = models_bytes(g.models);
    let b = bitmaps_bytes(g.bitmaps);
    lemma_agrees_split(s, 0, magic() + a + v + p + m, b);
    lemma_agrees_split(s, 0, magic() + a + v + p, m);
    lemma_agrees_split(s, 0, magic() + a + v, p);
    lemma_agrees_split(s, 0, magic() + a, v);
    lemma_agrees_split(s, 0, magic(), a);
    if s.len() >= 4 {
        assert(has_magic(s)) by {
            reveal(agrees);
            let h = magic();
            assert(s[0] == h[0] && s[1] == h[1] && s[2] == h[2] && s[3] == h[3]);
        }
        lemma_parse_attributes(s, 4, g.attributes);
        let c1: int = 4 + a.len() as int;
        if c1 <= s.len() {
            lemma_parse_vertices(s, c1, g.vertex_list);
            let c2: int = c1 + v.len();
            if c2 <= s.len() {
                lemma_parse_paths(s, c2, g.group);
                let c3: int = c2 + p.len();
                if c3 <= s.len() {
                    lemma_parse_models(s, c3, g.models);
                    let c4: int = c3 + m.len();
                    if c4 <= s.len() {
                        lemma_parse_bitmaps(s, c4, g.bitmaps);
                    }
                }
            }
        }
    }
}

/// Decoding inverts encoding: the stream of a graphic that the format can
/// hold decodes to that graphic, equal in every field.
pub proof fn law_roundtrip(g: GraphicView)
    requires
        g.encodable(),
    ensures
        decode_spec(encode_spec(g)) == Ok::<GraphicView, DecodeError>(g),
{
    let s = encode_spec(g);
    lemma_agrees_whole(s);
    lemma_decode_agreeing(g, s);
    lemma_whole_bitmaps_all(g.bitmaps);
    assert(g.bitmaps.take(g.bitmaps.len() as int) =~= g.bitmaps);
}

/// A stream that was cut short never decodes to anything but the graphic it
/// was made from, less the bitmaps that were cut off: a cut inside a record
/// of any section gives `UnexpectedEndOfInput`, and a cut between two
/// bitmaps, or in front of the first, gives the graphic with the bitmaps
/// before the cut.
pub proof fn law_truncated(g: GraphicView, k: int)
    requires
        g.encodable(),
        0 <= k < encode_spec(g).len(),
    ensures
        decode_spec(encode_spec(g).take(k)) == cut_result(g, k),
        k < g.head_len() ==> decode_spec(encode_spec(g).take(k)) == Err::<GraphicView, DecodeError>(
            DecodeError::UnexpectedEndOfInput,
        ),
{
    let s = encode_spec(g);
    lemma_agrees_prefix(s, k);
    lemma_decode_agreeing(g, s.take(k));
}

/// An input of at least four bytes that does not start with the magic
/// header is refused as such, whatever follows.
pub proof fn law_header_mismatch(s: Seq<u8>)
    requires
        s.len() >= 4,
        !has_magic(s),
    ensures
        decode_spec(s) == Err::<GraphicView, DecodeError>(DecodeError::HeaderMismatch),
{
}

/// A vertex list comes back as it went in, coordinate by coordinate:
/// nothing is asked of it but that no coordinate is a NaN, so equal pairs
/// stay where they are.
pub proof fn law_vertices_roundtrip(xs: Seq<Float>)
    requires
        vertices_encodable(xs),
    ensures
        parse_vertices(vertices_bytes(xs), 0) == Ok::<(Seq<Float>, int), DecodeError>(
            (xs, vertices_bytes(xs).len() as int),
        ),
{
    lemma_agrees_whole(vertices_bytes(xs));
    lemma_parse_vertices(vertices_bytes(xs), 0, xs);
}

/// What decodes can be encoded: a graphic that was read out of a stream
/// holds no NaN coordinate or width, no empty path and no binding with the
/// index `u32::MAX`, its models end with their only `Done`, and its bitmaps
/// are whole. So the stream of what was decoded decodes to the same again.
pub proof fn law_decoded_is_encodable(s: Seq<u8>)
    ensures
        decode_spec(s) matches Ok(g) ==> g.encodable() && decode_spec(encode_spec(g)) == Ok::<
            GraphicView,
            DecodeError,
        >(g),
{
    if s.len() >= 4 && has_magic(s) {
        match parse_attributes(s, 4) {
            Ok((attributes, c1)) => {
                lemma_parsed_vertices_encodable(s, c1);
                match parse_vertices(s, c1) {
                    Ok((vertex_list, c2)) => {
                        lemma_parsed_paths_encodable(s, c2);
                        match parse_paths(s, c2) {
                            Ok((group, c3)) => {
                                lemma_parsed_models_encodable(s, c3);
                                match parse_models(s, c3) {
                                    Ok((models, c4)) => {
                                        lemma_parsed_bitmaps_encodable(s, c4);
                                    },
                                    _ => {},
                                }
                            },
                            _ => {},
                        }
                    },
                    _ => {},
                }
            },
            _ => {},
        }
    }
    match decode_spec(s) {
        Ok(g) => {
            law_roundtrip(g);
        },
        _ => {},
    }
}

} // verus!
