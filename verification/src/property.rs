//! Group bindings: the style that a model gives to a path, by the path's index.
//!
//! A binding is the index of the path, then its tagged properties with `0` at
//! the end. The list of bindings ends with `u32::MAX` in place of an index,
//! which therefore cannot be the index of a binding.

use vstd::prelude::*;
use crate::array::clone_into_array;
use crate::error::{DecodeError, Section};
use crate::primitive::{
    agrees, expected, float_bytes, lemma_agrees_split, lemma_prepend_empty, lemma_prepend_end,
    lemma_prepend_push, lemma_read_float, lemma_read_u32, lemma_read_u8, prepend, put_float,
    put_u32, read_float, read_u32, read_u8, take_float, take_u32, take_u8, u32_bytes, Float,
    Parsed,
};

verus! {

/// One style property of a group binding.
#[derive(Clone, Copy, Debug, PartialEq, Eq)]
pub enum GroupProperty {
    FillColorRgba([u8; 4]),
    StrokeColorRgba([u8; 4]),
    StrokeWidth(Float),
    JoinStyle(u8),
    FillRule(u8),
    GlyphID(u32),
    BitmapPattern(u32),
    GroupPattern(u32),
}

/// The tag byte of a property, then its payload.
pub open spec fn property_bytes(p: GroupProperty) -> Seq<u8> {
    match p {
        GroupProperty::FillColorRgba(c) => seq![1u8] + c@,
        GroupProperty::StrokeColorRgba(c) => seq![2u8] + c@,
        GroupProperty::StrokeWidth(w) => seq![3u8] + float_bytes(w),
        GroupProperty::JoinStyle(x) => seq![4u8, x],
        GroupProperty::FillRule(x) => seq![5u8, x],
        GroupProperty::GlyphID(id) => seq![6u8] + u32_bytes(id),
        GroupProperty::BitmapPattern(id) => seq![7u8] + u32_bytes(id),
        GroupProperty::GroupPattern(id) => seq![8u8] + u32_bytes(id),
    }
}

/// The properties in order, then the terminating `0`.
pub open spec fn properties_bytes(ps: Seq<GroupProperty>) -> Seq<u8>
    decreases ps.len(),
{
    if ps.len() == 0 {
        seq![0u8]
    } else {
        property_bytes(ps[0]) + properties_bytes(ps.drop_first())
    }
}

/// Four bytes at `pos`, as a colour.
pub open spec fn read_rgba(s: Seq<u8>, pos: int) -> Parsed<[u8; 4]> {
    if 0 <= pos && pos + 4 <= s.len() {
        Ok(([s[pos], s[pos + 1], s[pos + 2], s[pos + 3]], pos + 4))
    } else {
        Err(DecodeError::UnexpectedEndOfInput)
    }
}

/// The property at `pos`, or `None` where the list ends there.
pub open spec fn parse_property(s: Seq<u8>, pos: int) -> Parsed<Option<GroupProperty>> {
    match read_u8(s, pos) {
        Err(e) => Err(e),
        Ok((tag, c0)) => if tag == 0 {
            Ok((None, c0))
        } else if tag == 1 {
            match read_rgba(s, c0) {
                Err(e) => Err(e),
                Ok((c, c1)) => Ok((Some(GroupProperty::FillColorRgba(c)), c1)),
            }
        } else if tag == 2 {
            match read_rgba(s, c0) {
                Err(e) => Err(e),
                Ok((c, c1)) => Ok((Some(GroupProperty::StrokeColorRgba(c)), c1)),
            }
        } else if tag == 3 {
            match read_float(s, c0) {
                Err(e) => Err(e),
                Ok((w, c1)) => Ok((Some(GroupProperty::StrokeWidth(w)), c1)),
            }
        } else if tag == 4 {
            match read_u8(s, c0) {
                Err(e) => Err(e),
                Ok((x, c1)) => Ok((Some(GroupProperty::JoinStyle(x)), c1)),
            }
        } else if tag == 5 {
            match read_u8(s, c0) {
                Err(e) => Err(e),
                Ok((x, c1)) => Ok((Some(GroupProperty::FillRule(x)), c1)),
            }
        } else if tag == 6 {
            match read_u32(s, c0) {
                Err(e) => Err(e),
                Ok((id, c1)) => Ok((Some(GroupProperty::GlyphID(id)), c1)),
            }
        } else if tag == 7 {
            match read_u32(s, c0) {
                Err(e) => Err(e),
                Ok((id, c1)) => Ok((Some(GroupProperty::BitmapPattern(id)), c1)),
            }
        } else if tag == 8 {
            match read_u32(s, c0) {
                Err(e) => Err(e),
                Ok((id, c1)) => Ok((Some(GroupProperty::GroupPattern(id)), c1)),
            }
        } else {
            Err(DecodeError::UnknownTag(Section::GroupProperty, tag))
        },
    }
}

/// The properties from `pos` up to the terminating `0`.
pub open spec fn parse_properties(s: Seq<u8>, pos: int) -> Parsed<Seq<GroupProperty>>
    decreases s.len() - pos,
{
    match parse_property(s, pos) {
        Err(e) => Err(e),
        Ok((None, next)) => Ok((Seq::empty(), next)),
        Ok((Some(p), next)) => prepend(seq![p], parse_properties(s, next)),
    }
}

/// On an input that agrees with the four bytes of a colour, the reader
/// yields that colour, or the end of the input where the input is cut.
pub proof fn lemma_read_rgba(s: Seq<u8>, pos: int, c: [u8; 4])
    requires
        0 <= pos,
        agrees(s, pos, c@),
    ensures
        read_rgba(s, pos) == expected(s, pos, c, 4),
{
    reveal(agrees);
    if pos + 4 <= s.len() {
        assert(s[pos] == c@[0] && s[pos + 1] == c@[1] && s[pos + 2] == c@[2] && s[pos + 3] == c@[3]);
        let d: [u8; 4] = [s[pos], s[pos + 1], s[pos + 2], s[pos + 3]];
        assert(d =~= c);
    }
}

/// On an input that agrees with the encoding of a property, the parser
/// yields that property, or the end of the input where the input is cut.
pub proof fn lemma_parse_property(s: Seq<u8>, pos: int, p: GroupProperty)
    requires
        0 <= pos,
        agrees(s, pos, property_bytes(p)),
    ensures
        parse_property(s, pos) == expected(s, pos, Some(p), property_bytes(p).len()),
{
    match p {
        GroupProperty::FillColorRgba(c) => {
            lemma_agrees_split(s, pos, seq![1u8], c@);
            lemma_read_u8(s, pos, 1u8);
            lemma_read_rgba(s, pos + 1, c);
        },
        GroupProperty::StrokeColorRgba(c) => {
            lemma_agrees_split(s, pos, seq![2u8], c@);
            lemma_read_u8(s, pos, 2u8);
            lemma_read_rgba(s, pos + 1, c);
        },
        GroupProperty::StrokeWidth(w) => {
            lemma_agrees_split(s, pos, seq![3u8], float_bytes(w));
            lemma_read_u8(s, pos, 3u8);
            lemma_read_float(s, pos + 1, w);
        },
        GroupProperty::JoinStyle(x) => {
            assert(seq![4u8, x] =~= seq![4u8] + seq![x]);
            lemma_agrees_split(s, pos, seq![4u8], seq![x]);
            lemma_read_u8(s, pos, 4u8);
            lemma_read_u8(s, pos + 1, x);
        },
        GroupProperty::FillRule(x) => {
            assert(seq![5u8, x] =~= seq![5u8] + seq![x]);
            lemma_agrees_split(s, pos, seq![5u8], seq![x]);
            lemma_read_u8(s, pos, 5u8);
            lemma_read_u8(s, pos + 1, x);
        },
        GroupProperty::GlyphID(id) => {
            lemma_agrees_split(s, pos, seq![6u8], u32_bytes(id));
            lemma_read_u8(s, pos, 6u8);
            lemma_read_u32(s, pos + 1, id);
        },
        GroupProperty::BitmapPattern(id) => {
            lemma_agrees_split(s, pos, seq![7u8], u32_bytes(id));
            lemma_read_u8(s, pos, 7u8);
            lemma_read_u32(s, pos + 1, id);
        },
        GroupProperty::GroupPattern(id) => {
            lemma_agrees_split(s, pos, seq![8u8], u32_bytes(id));
            lemma_read_u8(s, pos, 8u8);
            lemma_read_u32(s, pos + 1, id);
        },
    }
}

/// On an input that agrees with the encoding of a property list, the parser
/// yields that list, or the end of the input where the input is cut.
pub proof fn lemma_parse_properties(s: Seq<u8>, pos: int, ps: Seq<GroupProperty>)
    requires
        0 <= pos,
        agrees(s, pos, properties_bytes(ps)),
    ensures
        parse_properties(s, pos) == expected(s, pos, ps, properties_bytes(ps).len()),
    decreases ps.len(),
{
    if ps.len() == 0 {
        lemma_read_u8(s, pos, 0u8);
        assert(ps =~= Seq::empty());
    } else {
        let head = property_bytes(ps[0]);
        let tail = properties_bytes(ps.drop_first());
        lemma_agrees_split(s, pos, head, tail);
        lemma_parse_property(s, pos, ps[0]);
        if pos + head.len() <= s.len() {
            lemma_parse_properties(s, pos + head.len(), ps.drop_first());
            assert(seq![ps[0]] + ps.drop_first() =~= ps);
        }
    }
}

/// A property list that was read ends behind the position at which it
/// starts, and within the input.
pub proof fn lemma_parse_properties_advances(s: Seq<u8>, pos: int)
    ensures
        parse_properties(s, pos) matches Ok((_, next)) ==> pos < next <= s.len(),
    decreases s.len() - pos,
{
    match parse_property(s, pos) {
        Ok((Some(p), next)) => {
            lemma_parse_properties_advances(s, next);
        },
        _ => {},
    }
}

/// A group binding as the format has it: the index of a path and its properties.
pub type Binding = (u32, Seq<GroupProperty>);

/// The bindings that a vector holds.
pub open spec fn bindings_view(v: Seq<(u32, Vec<GroupProperty>)>) -> Seq<Binding> {
    Seq::new(v.len(), |i: int| (v[i].0, v[i].1@))
}

/// No binding has the index `u32::MAX`.
pub open spec fn bindings_encodable(gs: Seq<Binding>) -> bool {
    forall|i: int| 0 <= i < gs.len() ==> (#[trigger] gs[i]).0 != u32::MAX
}

/// The index of the path, then the properties.
pub open spec fn binding_bytes(g: Binding) -> Seq<u8> {
    u32_bytes(g.0) + properties_bytes(g.1)
}

/// The bindings in order, then `u32::MAX`.
pub open spec fn bindings_bytes(gs: Seq<Binding>) -> Seq<u8>
    decreases gs.len(),
{
    if gs.len() == 0 {
        u32_bytes(u32::MAX)
    } else {
        binding_bytes(gs[0]) + bindings_bytes(gs.drop_first())
    }
}

/// The bindings from `pos` up to the index `u32::MAX`, which is read and not
/// kept.
pub open spec fn parse_bindings(s: Seq<u8>, pos: int) -> Parsed<Seq<Binding>>
    decreases s.len() - pos,
{
    match read_u32(s, pos) {
        Err(e) => Err(e),
        Ok((id, c0)) => if id == u32::MAX {
            Ok((Seq::empty(), c0))
        } else {
            match parse_properties(s, c0) {
                Err(e) => Err(e),
                Ok((ps, c1)) => {
                    proof {
                        lemma_parse_properties_advances(s, c0);
                    }
                    prepend(seq![(id, ps)], parse_bindings(s, c1))
                },
            }
        },
    }
}

/// On an input that agrees with the encoding of a list of bindings, none
/// with the index `u32::MAX`, the parser yields that list, or the end of the
/// input where the input is cut.
pub proof fn lemma_parse_bindings(s: Seq<u8>, pos: int, gs: Seq<Binding>)
    requires
        0 <= pos,
        bindings_encodable(gs),
        agrees(s, pos, bindings_bytes(gs)),
    ensures
        parse_bindings(s, pos) == expected(s, pos, gs, bindings_bytes(gs).len()),
    decreases gs.len(),
{
    if gs.len() == 0 {
        lemma_read_u32(s, pos, u32::MAX);
        assert(gs =~= Seq::empty());
    } else {
        let id = gs[0].0;
        let ps = gs[0].1;
        let tail = bindings_bytes(gs.drop_first());
        lemma_agrees_split(s, pos, binding_bytes(gs[0]), tail);
        lemma_agrees_split(s, pos, u32_bytes(id), properties_bytes(ps));
        lemma_read_u32(s, pos, id);
        assert(id != u32::MAX);
        if pos + 4 <= s.len() {
            lemma_parse_properties(s, pos + 4, ps);
            let next = pos + 4 + properties_bytes(ps).len();
            if next <= s.len() {
                assert forall|i: int| 0 <= i < gs.drop_first().len() implies (#[trigger] gs.drop_first()[i]).0
                    != u32::MAX by {
                    assert(gs.drop_first()[i] == gs[i + 1]);
                }
                lemma_parse_bindings(s, next, gs.drop_first());
                assert(seq![(id, ps)] + gs.drop_first() =~= gs);
            }
        }
    }
}

/// A list of bindings that was read ends behind the position at which it
/// starts, and within the input.
pub proof fn lemma_parse_bindings_advances(s: Seq<u8>, pos: int)
    ensures
        parse_bindings(s, pos) matches Ok((_, next)) ==> pos < next <= s.len(),
    decreases s.len() - pos,
{
    match read_u32(s, pos) {
        Ok((id, c0)) => {
            if id != u32::MAX {
                lemma_parse_properties_advances(s, c0);
                match parse_properties(s, c0) {
                    Ok((ps, c1)) => {
                        lemma_parse_bindings_advances(s, c1);
                    },
                    _ => {},
                }
            }
        },
        _ => {},
    }
}

/// A list of bindings that was read holds no index `u32::MAX`.
pub proof fn lemma_parsed_bindings_encodable(s: Seq<u8>, pos: int)
    ensures
        parse_bindings(s, pos) matches Ok((gs, _)) ==> bindings_encodable(gs),
    decreases s.len() - pos,
{
    match read_u32(s, pos) {
        Ok((id, c0)) => {
            if id != u32::MAX {
                lemma_parse_properties_advances(s, c0);
                match parse_properties(s, c0) {
                    Ok((ps, c1)) => {
                        lemma_parsed_bindings_encodable(s, c1);
                        match parse_bindings(s, c1) {
                            Ok((rest, _)) => {
                                let gs = seq![(id, ps)] + rest;
                                assert forall|i: int| 0 <= i < gs.len() implies (#[trigger] gs[i]).0
                                    != u32::MAX by {
                                    if i > 0 {
                                        assert(gs[i] == rest[i - 1]);
                                    }
                                }
                            },
                            _ => {},
                        }
                    },
                    _ => {},
                }
            }
        },
        _ => {},
    }
}

/// Reads four bytes at `pos` as a colour.
pub fn take_rgba(bytes: &[u8], pos: usize) -> (r: Result<([u8; 4], usize), DecodeError>)
    ensures
        match r {
            Ok((c, next)) => read_rgba(bytes@, pos as int) == Ok::<([u8; 4], int), DecodeError>((c, next as int)),
            Err(e) => read_rgba(bytes@, pos as int) == Err::<([u8; 4], int), DecodeError>(e),
        },
{
    if pos <= bytes.len() && bytes.len() - pos >= 4 {
        let c: [u8; 4] = clone_into_array(vstd::slice::slice_subrange(bytes, pos, pos + 4));
        proof {
            let s = bytes@;
            let p = pos as int;
            let d: [u8; 4] = [s[p], s[p + 1], s[p + 2], s[p + 3]];
            assert(c@[0] == s[p] && c@[1] == s[p + 1] && c@[2] == s[p + 2] && c@[3] == s[p + 3]);
            assert(c =~= d);
        }
        Ok((c, pos + 4))
    } else {
        Err(DecodeError::UnexpectedEndOfInput)
    }
}

/// Reads the property at `pos`, or `None` where the list ends there.
pub fn decode_property(bytes: &[u8], pos: usize) -> (r: Result<(Option<GroupProperty>, usize), DecodeError>)
    ensures
        match r {
            Ok((p, next)) => parse_property(bytes@, pos as int) == Ok::<(Option<GroupProperty>, int), DecodeError>(
                (p, next as int),
            ) && pos < next <= bytes@.len(),
            Err(e) => parse_property(bytes@, pos as int) == Err::<(Option<GroupProperty>, int), DecodeError>(e),
        },
{
    let (tag, c0) = match take_u8(bytes, pos) {
        Ok(x) => x,
        Err(e) => return Err(e),
    };
    match tag {
        0 => Ok((None, c0)),
        1 => match take_rgba(bytes, c0) {
            Ok((c, c1)) => Ok((Some(GroupProperty::FillColorRgba(c)), c1)),
            Err(e) => Err(e),
        },
        2 => match take_rgba(bytes, c0) {
            Ok((c, c1)) => Ok((Some(GroupProperty::StrokeColorRgba(c)), c1)),
            Err(e) => Err(e),
        },
        3 => match take_float(bytes, c0) {
            Ok((w, c1)) => Ok((Some(GroupProperty::StrokeWidth(w)), c1)),
            Err(e) => Err(e),
        },
        4 => match take_u8(bytes, c0) {
            Ok((x, c1)) => Ok((Some(GroupProperty::JoinStyle(x)), c1)),
            Err(e) => Err(e),
        },
        5 => match take_u8(bytes, c0) {
            Ok((x, c1)) => Ok((Some(GroupProperty::FillRule(x)), c1)),
            Err(e) => Err(e),
        },
        6 => match take_u32(bytes, c0) {
            Ok((id, c1)) => Ok((Some(GroupProperty::GlyphID(id)), c1)),
            Err(e) => Err(e),
        },
        7 => match take_u32(bytes, c0) {
            Ok((id, c1)) => Ok((Some(GroupProperty::BitmapPattern(id)), c1)),
            Err(e) => Err(e),
        },
        8 => match take_u32(bytes, c0) {
            Ok((id, c1)) => Ok((Some(GroupProperty::GroupPattern(id)), c1)),
            Err(e) => Err(e),
        },
        _ => Err(DecodeError::UnknownTag(Section::GroupProperty, tag)),
    }
}

/// Reads the property list that starts at `pos`.
pub fn decode_properties(bytes: &[u8], pos: usize) -> (r: Result<(Vec<GroupProperty>, usize), DecodeError>)
    ensures
        match r {
            Ok((v, next)) => parse_properties(bytes@, pos as int) == Ok::<(Seq<GroupProperty>, int), DecodeError>(
                (v@, next as int),
            ) && pos < next <= bytes@.len(),
            Err(e) => parse_properties(bytes@, pos as int) == Err::<(Seq<GroupProperty>, int), DecodeError>(e),
        },
{
    let mut out: Vec<GroupProperty> = Vec::new();
    let mut cur: usize = pos;
    proof {
        lemma_prepend_empty(parse_properties(bytes@, pos as int));
    }
    loop
        invariant
            pos <= cur,
            parse_properties(bytes@, pos as int) == prepend(out@, parse_properties(bytes@, cur as int)),
        decreases bytes@.len() - cur,
    {
        match decode_property(bytes, cur) {
            Err(e) => {
                return Err(e);
            },
            Ok((None, next)) => {
                proof {
                    lemma_prepend_end(out@, next as int);
                }
                return Ok((out, next));
            },
            Ok((Some(p), next)) => {
                proof {
                    lemma_prepend_push(out@, p, parse_properties(bytes@, next as int));
                }
                out.push(p);
                cur = next;
            },
        }
    }
}

/// Reads the list of bindings that starts at `pos`.
pub fn decode_bindings(bytes: &[u8], pos: usize) -> (r: Result<
    (Vec<(u32, Vec<GroupProperty>)>, usize),
    DecodeError,
>)
    ensures
        match r {
            Ok((v, next)) => parse_bindings(bytes@, pos as int) == Ok::<(Seq<Binding>, int), DecodeError>(
                (bindings_view(v@), next as int),
            ) && pos < next <= bytes@.len(),
            Err(e) => parse_bindings(bytes@, pos as int) == Err::<(Seq<Binding>, int), DecodeError>(e),
        },
{
    let mut out: Vec<(u32, Vec<GroupProperty>)> = Vec::new();
    let mut cur: usize = pos;
    proof {
        lemma_prepend_empty(parse_bindings(bytes@, pos as int));
        assert(bindings_view(out@) =~= Seq::empty());
    }
    loop
        invariant
            pos <= cur,
            parse_bindings(bytes@, pos as int) == prepend(
                bindings_view(out@),
                parse_bindings(bytes@, cur as int),
            ),
        decreases bytes@.len() - cur,
    {
        let (id, c0) = match take_u32(bytes, cur) {
            Ok(x) => x,
            Err(e) => return Err(e),
        };
        if id == u32::MAX {
            proof {
                lemma_prepend_end(bindings_view(out@), c0 as int);
            }
            return Ok((out, c0));
        }
        let (ps, c1) = match decode_properties(bytes, c0) {
            Ok(x) => x,
            Err(e) => return Err(e),
        };
        proof {
            lemma_prepend_push(bindings_view(out@), (id, ps@), parse_bindings(bytes@, c1 as int));
            assert(bindings_view(out@.push((id, ps))) =~= bindings_view(out@).push((id, ps@)));
        }
        out.push((id, ps));
        cur = c1;
    }
}

/// Appends the encoding of one property.
pub fn encode_property(p: GroupProperty, out: &mut Vec<u8>)
    ensures
        final(out)@ == old(out)@ + property_bytes(p),
{
    match p {
        GroupProperty::FillColorRgba(c) => {
            out.push(1);
            out.push(c[0]);
            out.push(c[1]);
            out.push(c[2]);
            out.push(c[3]);
        },
        GroupProperty::StrokeColorRgba(c) => {
            out.push(2);
            out.push(c[0]);
            out.push(c[1]);
            out.push(c[2]);
            out.push(c[3]);
        },
        GroupProperty::StrokeWidth(w) => {
            out.push(3);
            put_float(out, w);
        },
        GroupProperty::JoinStyle(x) => {
            out.push(4);
            out.push(x);
        },
        GroupProperty::FillRule(x) => {
            out.push(5);
            out.push(x);
        },
        GroupProperty::GlyphID(id) => {
            out.push(6);
            put_u32(out, id);
        },
        GroupProperty::BitmapPattern(id) => {
            out.push(7);
            put_u32(out, id);
        },
        GroupProperty::GroupPattern(id) => {
            out.push(8);
            put_u32(out, id);
        },
    }
    assert(out@ =~= old(out)@ + property_bytes(p));
}

/// Appends the encoding of a property list.
pub fn encode_properties(ps: &[GroupProperty], out: &mut Vec<u8>)
    ensures
        final(out)@ == old(out)@ + properties_bytes(ps@),
{
    let mut i: usize = 0;
    assert(ps@.skip(0) =~= ps@);
    while i < ps.len()
        invariant
            i <= ps@.len(),
            old(out)@ + properties_bytes(ps@) == out@ + properties_bytes(ps@.skip(i as int)),
        decreases ps@.len() - i,
    {
        let ghost before = out@;
        let ghost rest = ps@.skip(i as int);
        encode_property(ps[i], out);
        proof {
            assert(rest.drop_first() =~= ps@.skip(i + 1));
            assert(before + (property_bytes(rest[0]) + properties_bytes(rest.drop_first())) =~= (before
                + property_bytes(rest[0])) + properties_bytes(rest.drop_first()));
        }
        i += 1;
    }
    let ghost before = out@;
    out.push(0);
    assert(out@ =~= before + properties_bytes(ps@.skip(i as int)));
}

/// Appends the encoding of a list of bindings.
pub fn encode_bindings(gs: &[(u32, Vec<GroupProperty>)], out: &mut Vec<u8>)
    ensures
        final(out)@ == old(out)@ + bindings_bytes(bindings_view(gs@)),
{
    let ghost all = bindings_view(gs@);
    let mut i: usize = 0;
    assert(all.skip(0) =~= all);
    while i < gs.len()
        invariant
            i <= gs@.len(),
            all == bindings_view(gs@),
            old(out)@ + bindings_bytes(all) == out@ + bindings_bytes(all.skip(i as int)),
        decreases gs@.len() - i,
    {
        let ghost before = out@;
        let ghost rest = all.skip(i as int);
        put_u32(out, gs[i].0);
        encode_properties(gs[i].1.as_slice(), out);
        proof {
            assert(rest[0] == (gs@[i as int].0, gs@[i as int].1@));
            assert(rest.drop_first() =~= all.skip(i + 1));
            assert(before + (binding_bytes(rest[0]) + bindings_bytes(rest.drop_first())) =~= ((before
                + u32_bytes(rest[0].0)) + properties_bytes(rest[0].1)) + bindings_bytes(rest.drop_first()));
        }
        i += 1;
    }
    put_u32(out, u32::MAX);
}

/// Whether no binding has the index `u32::MAX`.
pub fn bindings_can_encode(gs: &[(u32, Vec<GroupProperty>)]) -> (b: bool)
    ensures
        b == bindings_encodable(bindings_view(gs@)),
{
    let mut i: usize = 0;
    while i < gs.len()
        invariant
            i <= gs@.len(),
            forall|j: int| 0 <= j < i ==> (#[trigger] bindings_view(gs@)[j]).0 != u32::MAX,
        decreases gs@.len() - i,
    {
        if gs[i].0 == u32::MAX {
            assert(bindings_view(gs@)[i as int].0 == u32::MAX);
            return false;
        }
        assert(bindings_view(gs@)[i as int].0 != u32::MAX);
        i += 1;
    }
    true
}

/// The index of every binding is below `n`.
pub open spec fn bindings_in_range(gs: Seq<Binding>, n: int) -> bool {
    forall|i: int| 0 <= i < gs.len() ==> (#[trigger] gs[i]).0 < n
}

/// Whether the index of every binding is below `n`.
pub fn check_bindings(gs: &[(u32, Vec<GroupProperty>)], n: usize) -> (b: bool)
    ensures
        b == bindings_in_range(bindings_view(gs@), n as int),
{
    let mut i: usize = 0;
    while i < gs.len()
        invariant
            i <= gs@.len(),
            forall|j: int| 0 <= j < i ==> (#[trigger] bindings_view(gs@)[j]).0 < n,
        decreases gs@.len() - i,
    {
        if gs[i].0 as u64 >= n as u64 {
            assert(bindings_view(gs@)[i as int].0 >= n);
            return false;
        }
        assert(bindings_view(gs@)[i as int].0 < n);
        i += 1;
    }
    true
}

} // verus!
