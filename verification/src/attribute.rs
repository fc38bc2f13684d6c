//! The list of declared vertex attributes: one tag byte each, `0` at the end.

use vstd::prelude::*;
use crate::error::{DecodeError, Section};
use crate::primitive::{
    agrees, expected, lemma_agrees_split, lemma_prepend_empty, lemma_prepend_end,
    lemma_prepend_push, lemma_read_u8, prepend, read_u8, take_u8, Parsed,
};

verus! {

/// A vertex attribute.
#[derive(Clone, Copy, Debug, PartialEq, Eq)]
pub enum Attribute {
    /// Z dimension (depth)
    Z,
    /// U,V texture coordinates
    UvTextureCoordinates,
    /// Vertex gradient
    Rgb,
    /// Vertex gradient
    Rbga,
    /// Vertex gradient
    Alpha,
    /// Normal metadata
    Normal2D,
    /// Normal metadata
    Normal3D,
    /// Normal metadata
    Normal4D,
    /// Stroke width
    StrokeWidth,
    /// User defined metadata
    UserDefined(u8),
}

/// The tag byte of an attribute, and for a user-defined one its payload byte.
pub open spec fn attribute_bytes(a: Attribute) -> Seq<u8> {
    match a {
        Attribute::Z => seq![1u8],
        Attribute::UvTextureCoordinates => seq![2u8],
        Attribute::Rgb => seq![3u8],
        Attribute::Rbga => seq![4u8],
        Attribute::Alpha => seq![5u8],
        Attribute::Normal2D => seq![6u8],
        Attribute::Normal3D => seq![7u8],
        Attribute::Normal4D => seq![8u8],
        Attribute::StrokeWidth => seq![9u8],
        Attribute::UserDefined(n) => seq![10u8, n],
    }
}

/// The attributes in order, then the terminating `0`.
pub open spec fn attributes_bytes(xs: Seq<Attribute>) -> Seq<u8>
    decreases xs.len(),
{
    if xs.len() == 0 {
        seq![0u8]
    } else {
        attribute_bytes(xs[0]) + attributes_bytes(xs.drop_first())
    }
}

/// The attribute at `pos`, or `None` where the list ends there.
pub open spec fn parse_attribute(s: Seq<u8>, pos: int) -> Parsed<Option<Attribute>> {
    match read_u8(s, pos) {
        Err(e) => Err(e),
        Ok((tag, next)) => if tag == 0 {
            Ok((None, next))
        } else if tag == 1 {
            Ok((Some(Attribute::Z), next))
        } else if tag == 2 {
            Ok((Some(Attribute::UvTextureCoordinates), next))
        } else if tag == 3 {
            Ok((Some(Attribute::Rgb), next))
        } else if tag == 4 {
            Ok((Some(Attribute::Rbga), next))
        } else if tag == 5 {
            Ok((Some(Attribute::Alpha), next))
        } else if tag == 6 {
            Ok((Some(Attribute::Normal2D), next))
        } else if tag == 7 {
            Ok((Some(Attribute::Normal3D), next))
        } else if tag == 8 {
            Ok((Some(Attribute::Normal4D), next))
        } else if tag == 9 {
            Ok((Some(Attribute::StrokeWidth), next))
        } else if tag == 10 {
            match read_u8(s, next) {
                Err(e) => Err(e),
                Ok((n, end)) => Ok((Some(Attribute::UserDefined(n)), end)),
            }
        } else {
            Err(DecodeError::UnknownTag(Section::Attribute, tag))
        },
    }
}

/// The attributes from `pos` up to the terminating `0`.
pub open spec fn parse_attributes(s: Seq<u8>, pos: int) -> Parsed<Seq<Attribute>>
    decreases s.len() - pos,
{
    match parse_attribute(s, pos) {
        Err(e) => Err(e),
        Ok((None, next)) => Ok((Seq::empty(), next)),
        Ok((Some(a), next)) => prepend(seq![a], parse_attributes(s, next)),
    }
}

/// On an input that agrees with the encoding of an attribute, the parser
/// yields that attribute, or the end of the input where the input is cut.
pub proof fn lemma_parse_attribute(s: Seq<u8>, pos: int, a: Attribute)
    requires
        0 <= pos,
        agrees(s, pos, attribute_bytes(a)),
    ensures
        parse_attribute(s, pos) == expected(s, pos, Some(a), attribute_bytes(a).len()),
{
    reveal(agrees);
    let b = attribute_bytes(a);
    if pos < s.len() {
        assert(s[pos] == b[0]);
    }
    match a {
        Attribute::UserDefined(n) => {
            if pos + 1 < s.len() {
                assert(s[pos + 1] == b[1]);
            }
        },
        _ => {},
    }
}

/// On an input that agrees with the encoding of an attribute list, the
/// parser yields that list, or the end of the input where the input is cut.
pub proof fn lemma_parse_attributes(s: Seq<u8>, pos: int, xs: Seq<Attribute>)
    requires
        0 <= pos,
        agrees(s, pos, attributes_bytes(xs)),
    ensures
        parse_attributes(s, pos) == expected(s, pos, xs, attributes_bytes(xs).len()),
    decreases xs.len(),
{
    if xs.len() == 0 {
        lemma_read_u8(s, pos, 0u8);
        assert(xs =~= Seq::empty());
    } else {
        let head = attribute_bytes(xs[0]);
        let tail = attributes_bytes(xs.drop_first());
        lemma_agrees_split(s, pos, head, tail);
        lemma_parse_attribute(s, pos, xs[0]);
        if pos + head.len() <= s.len() {
            lemma_parse_attributes(s, pos + head.len(), xs.drop_first());
            assert(seq![xs[0]] + xs.drop_first() =~= xs);
        }
    }
}

/// Reads the attribute at `pos`, or `None` where the list ends there.
pub fn decode_attribute(bytes: &[u8], pos: usize) -> (r: Result<(Option<Attribute>, usize), DecodeError>)
    ensures
        match r {
            Ok((a, next)) => parse_attribute(bytes@, pos as int) == Ok::<(Option<Attribute>, int), DecodeError>(
                (a, next as int),
            ) && pos < next <= bytes@.len(),
            Err(e) => parse_attribute(bytes@, pos as int) == Err::<(Option<Attribute>, int), DecodeError>(e),
        },
{
    let (tag, next) = match take_u8(bytes, pos) {
        Ok(x) => x,
        Err(e) => return Err(e),
    };
    match tag {
        0 => Ok((None, next)),
        1 => Ok((Some(Attribute::Z), next)),
        2 => Ok((Some(Attribute::UvTextureCoordinates), next)),
        3 => Ok((Some(Attribute::Rgb), next)),
        4 => Ok((Some(Attribute::Rbga), next)),
        5 => Ok((Some(Attribute::Alpha), next)),
        6 => Ok((Some(Attribute::Normal2D), next)),
        7 => Ok((Some(Attribute::Normal3D), next)),
        8 => Ok((Some(Attribute::Normal4D), next)),
        9 => Ok((Some(Attribute::StrokeWidth), next)),
        10 => match take_u8(bytes, next) {
            Ok((n, end)) => Ok((Some(Attribute::UserDefined(n)), end)),
            Err(e) => Err(e),
        },
        _ => Err(DecodeError::UnknownTag(Section::Attribute, tag)),
    }
}

/// Reads the attribute list that starts at `pos`.
pub fn decode_attributes(bytes: &[u8], pos: usize) -> (r: Result<(Vec<Attribute>, usize), DecodeError>)
    ensures
        match r {
            Ok((v, next)) => parse_attributes(bytes@, pos as int) == Ok::<(Seq<Attribute>, int), DecodeError>(
                (v@, next as int),
            ) && pos < next <= bytes@.len(),
            Err(e) => parse_attributes(bytes@, pos as int) == Err::<(Seq<Attribute>, int), DecodeError>(e),
        },
{
    let mut out: Vec<Attribute> = Vec::new();
    let mut cur: usize = pos;
    proof {
        lemma_prepend_empty(parse_attributes(bytes@, pos as int));
    }
    loop
        invariant
            pos <= cur,
            parse_attributes(bytes@, pos as int) == prepend(out@, parse_attributes(bytes@, cur as int)),
        decreases bytes@.len() - cur,
    {
        match decode_attribute(bytes, cur) {
            Err(e) => {
                return Err(e);
            },
            Ok((None, next)) => {
                proof {
                    lemma_prepend_end(out@, next as int);
                }
                return Ok((out, next));
            },
            Ok((Some(a), next)) => {
                proof {
                    lemma_prepend_push(out@, a, parse_attributes(bytes@, next as int));
                }
                out.push(a);
                cur = next;
            },
        }
    }
}

/// Appends the encoding of one attribute.
pub fn encode_attribute(a: Attribute, out: &mut Vec<u8>)
    ensures
        final(out)@ == old(out)@ + attribute_bytes(a),
{
    match a {
        Attribute::Z => out.push(1),
        Attribute::UvTextureCoordinates => out.push(2),
        Attribute::Rgb => out.push(3),
        Attribute::Rbga => out.push(4),
        Attribute::Alpha => out.push(5),
        Attribute::Normal2D => out.push(6),
        Attribute::Normal3D => out.push(7),
        Attribute::Normal4D => out.push(8),
        Attribute::StrokeWidth => out.push(9),
        Attribute::UserDefined(n) => {
            out.push(10);
            out.push(n);
        },
    }
    assert(out@ =~= old(out)@ + attribute_bytes(a));
}

/// Appends the encoding of an attribute list.
pub fn encode_attributes(attributes: &[Attribute], out: &mut Vec<u8>)
    ensures
        final(out)@ == old(out)@ + attributes_bytes(attributes@),
{
    let mut i: usize = 0;
    assert(attributes@.skip(0) =~= attributes@);
    while i < attributes.len()
        invariant
            i <= attributes@.len(),
            old(out)@ + attributes_bytes(attributes@) == out@ + attributes_bytes(attributes@.skip(i as int)),
        decreases attributes@.len() - i,
    {
        let ghost before = out@;
        let ghost rest = attributes@.skip(i as int);
        encode_attribute(attributes[i], out);
        proof {
            assert(rest.drop_first() =~= attributes@.skip(i + 1));
            assert(before + (attribute_bytes(rest[0]) + attributes_bytes(rest.drop_first())) =~= (before
                + attribute_bytes(rest[0])) + attributes_bytes(rest.drop_first()));
        }
        i += 1;
    }
    let ghost before = out@;
    out.push(0);
    assert(out@ =~= before + attributes_bytes(attributes@.skip(i as int)));
}

} // verus!
