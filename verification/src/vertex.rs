//! The vertex list: a flat buffer of floats, read in pairs `(x, y)` by the
//! consumers, with a NaN at the end. No coordinate can be a NaN.

use vstd::prelude::*;
use crate::error::DecodeError;
use crate::primitive::{
    agrees, expected, float_bytes, lemma_agrees_split, lemma_prepend_empty, lemma_prepend_end,
    lemma_prepend_push, lemma_read_float, prepend, put_float, read_float, take_float, Float,
    Parsed, NAN_BITS,
};

verus! {

/// The float that ends a list of floats.
pub open spec fn nan() -> Float {
    Float { bits: NAN_BITS }
}

/// No coordinate is a NaN.
pub open spec fn vertices_encodable(xs: Seq<Float>) -> bool {
    forall|i: int| 0 <= i < xs.len() ==> !(#[trigger] xs[i]).is_nan_spec()
}

/// The coordinates in order, four bytes each, then a NaN.
pub open spec fn vertices_bytes(xs: Seq<Float>) -> Seq<u8>
    decreases xs.len(),
{
    if xs.len() == 0 {
        float_bytes(nan())
    } else {
        float_bytes(xs[0]) + vertices_bytes(xs.drop_first())
    }
}

/// The floats from `pos` up to the first NaN, which is read and not kept.
pub open spec fn parse_vertices(s: Seq<u8>, pos: int) -> Parsed<Seq<Float>>
    decreases s.len() - pos,
{
    match read_float(s, pos) {
        Err(e) => Err(e),
        Ok((x, next)) => if x.is_nan_spec() {
            Ok((Seq::empty(), next))
        } else {
            prepend(seq![x], parse_vertices(s, next))
        },
    }
}

/// On an input that agrees with the encoding of a vertex list without NaN,
/// the parser yields that list, or the end of the input where the input is
/// cut.
pub proof fn lemma_parse_vertices(s: Seq<u8>, pos: int, xs: Seq<Float>)
    requires
        0 <= pos,
        vertices_encodable(xs),
        agrees(s, pos, vertices_bytes(xs)),
    ensures
        parse_vertices(s, pos) == expected(s, pos, xs, vertices_bytes(xs).len()),
    decreases xs.len(),
{
    if xs.len() == 0 {
        lemma_read_float(s, pos, nan());
        assert(xs =~= Seq::empty());
    } else {
        let head = float_bytes(xs[0]);
        let tail = vertices_bytes(xs.drop_first());
        lemma_agrees_split(s, pos, head, tail);
        lemma_read_float(s, pos, xs[0]);
        assert(!xs[0].is_nan_spec());
        if pos + 4 <= s.len() {
            let rest = xs.drop_first();
            assert forall|i: int| 0 <= i < rest.len() implies !(#[trigger] rest[i]).is_nan_spec() by {
                assert(rest[i] == xs[i + 1]);
            }
            lemma_parse_vertices(s, pos + 4, rest);
            assert(seq![xs[0]] + rest =~= xs);
        }
    }
}

/// A vertex list that was read holds no NaN.
pub proof fn lemma_parsed_vertices_encodable(s: Seq<u8>, pos: int)
    ensures
        parse_vertices(s, pos) matches Ok((xs, _)) ==> vertices_encodable(xs),
    decreases s.len() - pos,
{
    match read_float(s, pos) {
        Ok((x, next)) => {
            if !x.is_nan_spec() {
                lemma_parsed_vertices_encodable(s, next);
                match parse_vertices(s, next) {
                    Ok((rest, _)) => {
                        let xs = seq![x] + rest;
                        assert forall|i: int| 0 <= i < xs.len() implies !(#[trigger] xs[i]).is_nan_spec() by {
                            if i > 0 {
                                assert(xs[i] == rest[i - 1]);
                            }
                        }
                    },
                    _ => {},
                }
            }
        },
        _ => {},
    }
}

/// Reads the vertex list that starts at `pos`.
pub fn decode_vertices(bytes: &[u8], pos: usize) -> (r: Result<(Vec<Float>, usize), DecodeError>)
    ensures
        match r {
            Ok((v, next)) => parse_vertices(bytes@, pos as int) == Ok::<(Seq<Float>, int), DecodeError>(
                (v@, next as int),
            ) && pos < next <= bytes@.len(),
            Err(e) => parse_vertices(bytes@, pos as int) == Err::<(Seq<Float>, int), DecodeError>(e),
        },
{
    let mut out: Vec<Float> = Vec::new();
    let mut cur: usize = pos;
    proof {
        lemma_prepend_empty(parse_vertices(bytes@, pos as int));
    }
    loop
        invariant
            pos <= cur,
            parse_vertices(bytes@, pos as int) == prepend(out@, parse_vertices(bytes@, cur as int)),
        decreases bytes@.len() - cur,
    {
        match take_float(bytes, cur) {
            Err(e) => {
                return Err(e);
            },
            Ok((x, next)) => {
                if x.is_nan() {
                    proof {
                        lemma_prepend_end(out@, next as int);
                    }
                    return Ok((out, next));
                }
                proof {
                    lemma_prepend_push(out@, x, parse_vertices(bytes@, next as int));
                }
                out.push(x);
                cur = next;
            },
        }
    }
}

/// Appends the encoding of a vertex list.
pub fn encode_vertices(vertices: &[Float], out: &mut Vec<u8>)
    ensures
        final(out)@ == old(out)@ + vertices_bytes(vertices@),
{
    let mut i: usize = 0;
    assert(vertices@.skip(0) =~= vertices@);
    while i < vertices.len()
        invariant
            i <= vertices@.len(),
            old(out)@ + vertices_bytes(vertices@) == out@ + vertices_bytes(vertices@.skip(i as int)),
        decreases vertices@.len() - i,
    {
        let ghost before = out@;
        let ghost rest = vertices@.skip(i as int);
        put_float(out, vertices[i]);
        proof {
            assert(rest.drop_first() =~= vertices@.skip(i + 1));
            assert(before + (float_bytes(rest[0]) + vertices_bytes(rest.drop_first())) =~= (before
                + float_bytes(rest[0])) + vertices_bytes(rest.drop_first()));
        }
        i += 1;
    }
    put_float(out, Float { bits: NAN_BITS });
}

/// Whether no coordinate is a NaN.
pub fn vertices_can_encode(vertices: &[Float]) -> (b: bool)
    ensures
        b == vertices_encodable(vertices@),
{
    let mut i: usize = 0;
    while i < vertices.len()
        invariant
            i <= vertices@.len(),
            forall|j: int| 0 <= j < i ==> !(#[trigger] vertices@[j]).is_nan_spec(),
        decreases vertices@.len() - i,
    {
        if vertices[i].is_nan() {
            return false;
        }
        i += 1;
    }
    true
}

} // verus!
