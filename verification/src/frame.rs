//! Animation frames: the transforms of a keyframe, its delay, and the kind of
//! transition to the next frame.
//!
//! The frames of a model have no terminator of their own: the list ends with
//! the first frame whose transition is `Done`, and that frame belongs to it.

use vstd::prelude::*;
use crate::error::{DecodeError, Section};
use crate::primitive::{
    agrees, expected, float_bytes, lemma_agrees_split, lemma_prepend_empty, lemma_prepend_end,
    lemma_float_bytes_len, lemma_prepend_push, lemma_read_float, lemma_read_u16, lemma_read_u8, prepend, put_float,
    put_u16, read_float, read_u16, read_u8, take_float, take_u16, take_u8, u16_bytes, Float,
    Parsed,
};

verus! {

/// The kind of transition from a frame to the next.
#[derive(Clone, Copy, Debug, PartialEq, Eq)]
pub enum Animation {
    /// The last frame of a model, and no other, has this.
    Done,
    /// No animation
    Jump,
    /// Constant speed
    Linear,
    /// Faster at beginning and end of animation (amount faster)
    ExpA(Float),
    /// Slower at beginning and end of animation
    ExpB(Float),
    /// Fade
    Fade,
    /// Source-over each frame without clearing
    Layer,
}

/// One spatial operation.
#[derive(Clone, Copy, Debug, PartialEq, Eq)]
pub enum Transform {
    Translate(Float, Float, Float),
    Scale(Float, Float, Float),
    Rotate(Float, Float, Float, Float),
}

/// One animation keyframe.
#[derive(Clone, Debug, PartialEq, Eq)]
pub struct Frame {
    pub transforms: Vec<Transform>,
    pub delay: u16,
    pub animation: Animation,
}

/// A frame as the format has it.
pub struct FrameView {
    pub transforms: Seq<Transform>,
    pub delay: u16,
    pub animation: Animation,
}

impl View for Frame {
    type V = FrameView;

    open spec fn view(&self) -> FrameView {
        FrameView { transforms: self.transforms@, delay: self.delay, animation: self.animation }
    }
}

/// The frames that a vector holds.
pub open spec fn frames_view(v: Seq<Frame>) -> Seq<FrameView> {
    Seq::new(v.len(), |i: int| v[i]@)
}

/// The tag byte of a transform, then its floats.
pub open spec fn transform_bytes(t: Transform) -> Seq<u8> {
    match t {
        Transform::Translate(x, y, z) => seq![1u8] + float_bytes(x) + float_bytes(y) + float_bytes(z),
        Transform::Scale(x, y, z) => seq![2u8] + float_bytes(x) + float_bytes(y) + float_bytes(z),
        Transform::Rotate(x, y, z, w) => seq![3u8] + float_bytes(x) + float_bytes(y) + float_bytes(z)
            + float_bytes(w),
    }
}

/// The transforms in order, then the terminating `0`.
pub open spec fn transforms_bytes(ts: Seq<Transform>) -> Seq<u8>
    decreases ts.len(),
{
    if ts.len() == 0 {
        seq![0u8]
    } else {
        transform_bytes(ts[0]) + transforms_bytes(ts.drop_first())
    }
}

/// The tag byte of a transition, then its float where it has one.
pub open spec fn animation_bytes(a: Animation) -> Seq<u8> {
    match a {
        Animation::Done => seq![0u8],
        Animation::Jump => seq![1u8],
        Animation::Linear => seq![2u8],
        Animation::ExpA(x) => seq![3u8] + float_bytes(x),
        Animation::ExpB(x) => seq![4u8] + float_bytes(x),
        Animation::Fade => seq![5u8],
        Animation::Layer => seq![6u8],
    }
}

/// The transforms, the delay in two bytes, the transition.
pub open spec fn frame_bytes(f: FrameView) -> Seq<u8> {
    transforms_bytes(f.transforms) + u16_bytes(f.delay) + animation_bytes(f.animation)
}

/// The frames in order, up to and with the first whose transition is `Done`.
pub open spec fn frames_bytes(fs: Seq<FrameView>) -> Seq<u8>
    decreases fs.len(),
{
    if fs.len() == 0 {
        Seq::empty()
    } else if fs[0].animation is Done {
        frame_bytes(fs[0])
    } else {
        frame_bytes(fs[0]) + frames_bytes(fs.drop_first())
    }
}

/// The list is not empty, and the last frame and no other has the
/// transition `Done`.
pub open spec fn frames_encodable(fs: Seq<FrameView>) -> bool {
    &&& fs.len() > 0
    &&& forall|i: int| 0 <= i < fs.len() ==> ((#[trigger] fs[i]).animation is Done <==> i == fs.len() - 1)
}

/// Three floats from `pos` on.
pub open spec fn read_float3(s: Seq<u8>, pos: int) -> Parsed<(Float, Float, Float)> {
    match read_float(s, pos) {
        Err(e) => Err(e),
        Ok((x, c1)) => match read_float(s, c1) {
            Err(e) => Err(e),
            Ok((y, c2)) => match read_float(s, c2) {
                Err(e) => Err(e),
                Ok((z, c3)) => Ok(((x, y, z), c3)),
            },
        },
    }
}

/// The transform at `pos`, or `None` where the list ends there.
pub open spec fn parse_transform(s: Seq<u8>, pos: int) -> Parsed<Option<Transform>> {
    match read_u8(s, pos) {
        Err(e) => Err(e),
        Ok((tag, c0)) => if tag == 0 {
            Ok((None, c0))
        } else if tag == 1 {
            match read_float3(s, c0) {
                Err(e) => Err(e),
                Ok(((x, y, z), c3)) => Ok((Some(Transform::Translate(x, y, z)), c3)),
            }
        } else if tag == 2 {
            match read_float3(s, c0) {
                Err(e) => Err(e),
                Ok(((x, y, z), c3)) => Ok((Some(Transform::Scale(x, y, z)), c3)),
            }
        } else if tag == 3 {
            match read_float3(s, c0) {
                Err(e) => Err(e),
                Ok(((x, y, z), c3)) => match read_float(s, c3) {
                    Err(e) => Err(e),
                    Ok((w, c4)) => Ok((Some(Transform::Rotate(x, y, z, w)), c4)),
                },
            }
        } else {
            Err(DecodeError::UnknownTag(Section::Transform, tag))
        },
    }
}

/// The transforms from `pos` up to the terminating `0`.
pub open spec fn parse_transforms(s: Seq<u8>, pos: int) -> Parsed<Seq<Transform>>
    decreases s.len() - pos,
{
    match parse_transform(s, pos) {
        Err(e) => Err(e),
        Ok((None, next)) => Ok((Seq::empty(), next)),
        Ok((Some(t), next)) => prepend(seq![t], parse_transforms(s, next)),
    }
}

/// The transition at `pos`.
pub open spec fn parse_animation(s: Seq<u8>, pos: int) -> Parsed<Animation> {
    match read_u8(s, pos) {
        Err(e) => Err(e),
        Ok((tag, c0)) => if tag == 0 {
            Ok((Animation::Done, c0))
        } else if tag == 1 {
            Ok((Animation::Jump, c0))
        } else if tag == 2 {
            Ok((Animation::Linear, c0))
        } else if tag == 3 {
            match read_float(s, c0) {
                Err(e) => Err(e),
                Ok((x, c1)) => Ok((Animation::ExpA(x), c1)),
            }
        } else if tag == 4 {
            match read_float(s, c0) {
                Err(e) => Err(e),
                Ok((x, c1)) => Ok((Animation::ExpB(x), c1)),
            }
        } else if tag == 5 {
            Ok((Animation::Fade, c0))
        } else if tag == 6 {
            Ok((Animation::Layer, c0))
        } else {
            Err(DecodeError::UnknownTag(Section::Animation, tag))
        },
    }
}

/// The frame at `pos`.
pub open spec fn parse_frame(s: Seq<u8>, pos: int) -> Parsed<FrameView> {
    match parse_transforms(s, pos) {
        Err(e) => Err(e),
        Ok((transforms, c0)) => match read_u16(s, c0) {
            Err(e) => Err(e),
            Ok((delay, c1)) => match parse_animation(s, c1) {
                Err(e) => Err(e),
                Ok((animation, c2)) => Ok((FrameView { transforms, delay, animation }, c2)),
            },
        },
    }
}

/// The frames from `pos` up to and with the first whose transition is
/// `Done`.
pub open spec fn parse_frames(s: Seq<u8>, pos: int) -> Parsed<Seq<FrameView>>
    decreases s.len() - pos,
{
    match parse_frame(s, pos) {
        Err(e) => Err(e),
        Ok((f, next)) => if f.animation is Done {
            Ok((seq![f], next))
        } else {
            proof {
                lemma_parse_frame_advances(s, pos);
            }
            prepend(seq![f], parse_frames(s, next))
        },
    }
}

/// A transform list that was read ends behind the position at which it
/// starts, and within the input.
pub proof fn lemma_parse_transforms_advances(s: Seq<u8>, pos: int)
    ensures
        parse_transforms(s, pos) matches Ok((_, next)) ==> pos < next <= s.len(),
    decreases s.len() - pos,
{
    match parse_transform(s, pos) {
        Ok((Some(t), next)) => {
            lemma_parse_transforms_advances(s, next);
        },
        _ => {},
    }
}

/// A frame that was read ends behind the position at which it starts, and
/// within the input.
pub proof fn lemma_parse_frame_advances(s: Seq<u8>, pos: int)
    ensures
        parse_frame(s, pos) matches Ok((_, next)) ==> pos < next <= s.len(),
{
    lemma_parse_transforms_advances(s, pos);
}

/// A frame list that was read ends behind the position at which it starts,
/// and within the input.
pub proof fn lemma_parse_frames_advances(s: Seq<u8>, pos: int)
    ensures
        parse_frames(s, pos) matches Ok((_, next)) ==> pos < next <= s.len(),
    decreases s.len() - pos,
{
    lemma_parse_frame_advances(s, pos);
    match parse_frame(s, pos) {
        Ok((f, next)) => {
            if !(f.animation is Done) {
                lemma_parse_frames_advances(s, next);
            }
        },
        _ => {},
    }
}

/// On an input that agrees with the encoding of three floats, the reader
/// yields them, or the end of the input where the input is cut.
pub proof fn lemma_read_float3(s: Seq<u8>, pos: int, x: Float, y: Float, z: Float)
    requires
        0 <= pos,
        agrees(s, pos, float_bytes(x) + float_bytes(y) + float_bytes(z)),
    ensures
        read_float3(s, pos) == expected(s, pos, (x, y, z), 12),
{
    lemma_agrees_split(s, pos, float_bytes(x) + float_bytes(y), float_bytes(z));
    lemma_agrees_split(s, pos, float_bytes(x), float_bytes(y));
    lemma_read_float(s, pos, x);
    lemma_read_float(s, pos + 4, y);
    lemma_read_float(s, pos + 8, z);
}

/// On an input that agrees with the encoding of a transform, the parser
/// yields that transform, or the end of the input where the input is cut.
pub proof fn lemma_parse_transform(s: Seq<u8>, pos: int, t: Transform)
    requires
        0 <= pos,
        agrees(s, pos, transform_bytes(t)),
    ensures
        parse_transform(s, pos) == expected(s, pos, Some(t), transform_bytes(t).len()),
{
    match t {
        Transform::Translate(x, y, z) => {
            let body = float_bytes(x) + float_bytes(y) + float_bytes(z);
            lemma_float_bytes_len(x);
            lemma_float_bytes_len(y);
            lemma_float_bytes_len(z);
            assert(transform_bytes(t) =~= seq![1u8] + body);
            lemma_agrees_split(s, pos, seq![1u8], body);
            lemma_read_u8(s, pos, 1u8);
            lemma_read_float3(s, pos + 1, x, y, z);
        },
        Transform::Scale(x, y, z) => {
            let body = float_bytes(x) + float_bytes(y) + float_bytes(z);
            lemma_float_bytes_len(x);
            lemma_float_bytes_len(y);
            lemma_float_bytes_len(z);
            assert(transform_bytes(t) =~= seq![2u8] + body);
            lemma_agrees_split(s, pos, seq![2u8], body);
            lemma_read_u8(s, pos, 2u8);
            lemma_read_float3(s, pos + 1, x, y, z);
        },
        Transform::Rotate(x, y, z, w) => {
            let body = float_bytes(x) + float_bytes(y) + float_bytes(z);
            lemma_float_bytes_len(x);
            lemma_float_bytes_len(y);
            lemma_float_bytes_len(z);
            assert(transform_bytes(t) =~= (seq![3u8] + body) + float_bytes(w));
            lemma_agrees_split(s, pos, seq![3u8] + body, float_bytes(w));
            lemma_agrees_split(s, pos, seq![3u8], body);
            lemma_read_u8(s, pos, 3u8);
            lemma_read_float3(s, pos + 1, x, y, z);
            lemma_read_float(s, pos + 13, w);
        },
    }
}

/// On an input that agrees with the encoding of a transform list, the parser
/// yields that list, or the end of the input where the input is cut.
pub proof fn lemma_parse_transforms(s: Seq<u8>, pos: int, ts: Seq<Transform>)
    requires
        0 <= pos,
        agrees(s, pos, transforms_bytes(ts)),
    ensures
        parse_transforms(s, pos) == expected(s, pos, ts, transforms_bytes(ts).len()),
    decreases ts.len(),
{
    if ts.len() == 0 {
        lemma_read_u8(s, pos, 0u8);
        assert(ts =~= Seq::empty());
    } else {
        let head = transform_bytes(ts[0]);
        let tail = transforms_bytes(ts.drop_first());
        lemma_agrees_split(s, pos, head, tail);
        lemma_parse_transform(s, pos, ts[0]);
        if pos + head.len() <= s.len() {
            lemma_parse_transforms(s, pos + head.len(), ts.drop_first());
            assert(seq![ts[0]] + ts.drop_first() =~= ts);
        }
    }
}

/// On an input that agrees with the encoding of a transition, the parser
/// yields that transition, or the end of the input where the input is cut.
pub proof fn lemma_parse_animation(s: Seq<u8>, pos: int, a: Animation)
    requires
        0 <= pos,
        agrees(s, pos, animation_bytes(a)),
    ensures
        parse_animation(s, pos) == expected(s, pos, a, animation_bytes(a).len()),
{
    match a {
        Animation::Done => {
            lemma_read_u8(s, pos, 0u8);
        },
        Animation::Jump => {
            lemma_read_u8(s, pos, 1u8);
        },
        Animation::Linear => {
            lemma_read_u8(s, pos, 2u8);
        },
        Animation::ExpA(x) => {
            lemma_agrees_split(s, pos, seq![3u8], float_bytes(x));
            lemma_read_u8(s, pos, 3u8);
            lemma_read_float(s, pos + 1, x);
        },
        Animation::ExpB(x) => {
            lemma_agrees_split(s, pos, seq![4u8], float_bytes(x));
            lemma_read_u8(s, pos, 4u8);
            lemma_read_float(s, pos + 1, x);
        },
        Animation::Fade => {
            lemma_read_u8(s, pos, 5u8);
        },
        Animation::Layer => {
            lemma_read_u8(s, pos, 6u8);
        },
    }
}

/// On an input that agrees with the encoding of a frame, the parser yields
/// that frame, or the end of the input where the input is cut.
pub proof fn lemma_parse_frame(s: Seq<u8>, pos: int, f: FrameView)
    requires
        0 <= pos,
        agrees(s, pos, frame_bytes(f)),
    ensures
        parse_frame(s, pos) == expected(s, pos, f, frame_bytes(f).len()),
{
    let a = transforms_bytes(f.transforms);
    let b = u16_bytes(f.delay);
    let c = animation_bytes(f.animation);
    lemma_agrees_split(s, pos, a + b, c);
    lemma_agrees_split(s, pos, a, b);
    lemma_parse_transforms(s, pos, f.transforms);
    lemma_read_u16(s, pos + a.len(), f.delay);
    lemma_parse_animation(s, pos + a.len() + 2, f.animation);
}

/// On an input that agrees with the encoding of a frame list that ends with
/// its only `Done`, the parser yields that list, or the end of the input
/// where the input is cut.
pub proof fn lemma_parse_frames(s: Seq<u8>, pos: int, fs: Seq<FrameView>)
    requires
        0 <= pos,
        frames_encodable(fs),
        agrees(s, pos, frames_bytes(fs)),
    ensures
        parse_frames(s, pos) == expected(s, pos, fs, frames_bytes(fs).len()),
    decreases fs.len(),
{
    let head = frame_bytes(fs[0]);
    if fs[0].animation is Done {
        lemma_parse_frame(s, pos, fs[0]);
        assert(fs.len() == 1);
        assert(seq![fs[0]] =~= fs);
    } else {
        let rest = fs.drop_first();
        lemma_agrees_split(s, pos, head, frames_bytes(rest));
        lemma_parse_frame(s, pos, fs[0]);
        assert(fs.len() >= 2) by {
            assert(fs[fs.len() - 1].animation is Done);
        }
        assert forall|i: int| 0 <= i < rest.len() implies ((#[trigger] rest[i]).animation is Done <==> i
            == rest.len() - 1) by {
            assert(rest[i] == fs[i + 1]);
        }
        if pos + head.len() <= s.len() {
            lemma_parse_frames(s, pos + head.len(), rest);
            assert(seq![fs[0]] + rest =~= fs);
        }
    }
}

/// A frame list that was read ends with its only `Done`.
pub proof fn lemma_parsed_frames_encodable(s: Seq<u8>, pos: int)
    ensures
        parse_frames(s, pos) matches Ok((fs, _)) ==> frames_encodable(fs),
    decreases s.len() - pos,
{
    match parse_frame(s, pos) {
        Ok((f, next)) => {
            if !(f.animation is Done) {
                lemma_parse_frame_advances(s, pos);
                lemma_parsed_frames_encodable(s, next);
                match parse_frames(s, next) {
                    Ok((rest, _)) => {
                        let fs = seq![f] + rest;
                        assert forall|i: int| 0 <= i < fs.len() implies ((#[trigger] fs[i]).animation is Done <==> i
                            == fs.len() - 1) by {
                            if i > 0 {
                                assert(fs[i] == rest[i - 1]);
                            }
                        }
                    },
                    _ => {},
                }
            }
        },
        _ => {},
    }
}

/// Reads three floats from `pos` on.
pub fn take_float3(bytes: &[u8], pos: usize) -> (r: Result<((Float, Float, Float), usize), DecodeError>)
    ensures
        match r {
            Ok((v, next)) => read_float3(bytes@, pos as int) == Ok::<((Float, Float, Float), int), DecodeError>(
                (v, next as int),
            ),
            Err(e) => read_float3(bytes@, pos as int) == Err::<((Float, Float, Float), int), DecodeError>(e),
        },
{
    let (x, c1) = match take_float(bytes, pos) {
        Ok(v) => v,
        Err(e) => return Err(e),
    };
    let (y, c2) = match take_float(bytes, c1) {
        Ok(v) => v,
        Err(e) => return Err(e),
    };
    let (z, c3) = match take_float(bytes, c2) {
        Ok(v) => v,
        Err(e) => return Err(e),
    };
    Ok(((x, y, z), c3))
}

/// Reads the transform at `pos`, or `None` where the list ends there.
pub fn decode_transform(bytes: &[u8], pos: usize) -> (r: Result<(Option<Transform>, usize), DecodeError>)
    ensures
        match r {
            Ok((t, next)) => parse_transform(bytes@, pos as int) == Ok::<(Option<Transform>, int), DecodeError>(
                (t, next as int),
            ) && pos < next <= bytes@.len(),
            Err(e) => parse_transform(bytes@, pos as int) == Err::<(Option<Transform>, int), DecodeError>(e),
        },
{
    let (tag, c0) = match take_u8(bytes, pos) {
        Ok(v) => v,
        Err(e) => return Err(e),
    };
    match tag {
        0 => Ok((None, c0)),
        1 => match take_float3(bytes, c0) {
            Ok(((x, y, z), c3)) => Ok((Some(Transform::Translate(x, y, z)), c3)),
            Err(e) => Err(e),
        },
        2 => match take_float3(bytes, c0) {
            Ok(((x, y, z), c3)) => Ok((Some(Transform::Scale(x, y, z)), c3)),
            Err(e) => Err(e),
        },
        3 => {
            let ((x, y, z), c3) = match take_float3(bytes, c0) {
                Ok(v) => v,
                Err(e) => return Err(e),
            };
            match take_float(bytes, c3) {
                Ok((w, c4)) => Ok((Some(Transform::Rotate(x, y, z, w)), c4)),
                Err(e) => Err(e),
            }
        },
        _ => Err(DecodeError::UnknownTag(Section::Transform, tag)),
    }
}

/// Reads the transform list that starts at `pos`.
pub fn decode_transforms(bytes: &[u8], pos: usize) -> (r: Result<(Vec<Transform>, usize), DecodeError>)
    ensures
        match r {
            Ok((v, next)) => parse_transforms(bytes@, pos as int) == Ok::<(Seq<Transform>, int), DecodeError>(
                (v@, next as int),
            ) && pos < next <= bytes@.len(),
            Err(e) => parse_transforms(bytes@, pos as int) == Err::<(Seq<Transform>, int), DecodeError>(e),
        },
{
    let mut out: Vec<Transform> = Vec::new();
    let mut cur: usize = pos;
    proof {
        lemma_prepend_empty(parse_transforms(bytes@, pos as int));
    }
    loop
        invariant
            pos <= cur,
            parse_transforms(bytes@, pos as int) == prepend(out@, parse_transforms(bytes@, cur as int)),
        decreases bytes@.len() - cur,
    {
        match decode_transform(bytes, cur) {
            Err(e) => {
                return Err(e);
            },
            Ok((None, next)) => {
                proof {
                    lemma_prepend_end(out@, next as int);
                }
                return Ok((out, next));
            },
            Ok((Some(t), next)) => {
                proof {
                    lemma_prepend_push(out@, t, parse_transforms(bytes@, next as int));
                }
                out.push(t);
                cur = next;
            },
        }
    }
}

/// Reads the transition at `pos`.
pub fn decode_animation(bytes: &[u8], pos: usize) -> (r: Result<(Animation, usize), DecodeError>)
    ensures
        match r {
            Ok((a, next)) => parse_animation(bytes@, pos as int) == Ok::<(Animation, int), DecodeError>(
                (a, next as int),
            ) && pos < next <= bytes@.len(),
            Err(e) => parse_animation(bytes@, pos as int) == Err::<(Animation, int), DecodeError>(e),
        },
{
    let (tag, c0) = match take_u8(bytes, pos) {
        Ok(v) => v,
        Err(e) => return Err(e),
    };
    match tag {
        0 => Ok((Animation::Done, c0)),
        1 => Ok((Animation::Jump, c0)),
        2 => Ok((Animation::Linear, c0)),
        3 => match take_float(bytes, c0) {
            Ok((x, c1)) => Ok((Animation::ExpA(x), c1)),
            Err(e) => Err(e),
        },
        4 => match take_float(bytes, c0) {
            Ok((x, c1)) => Ok((Animation::ExpB(x), c1)),
            Err(e) => Err(e),
        },
        5 => Ok((Animation::Fade, c0)),
        6 => Ok((Animation::Layer, c0)),
        _ => Err(DecodeError::UnknownTag(Section::Animation, tag)),
    }
}

/// Reads the frame at `pos`.
pub fn decode_frame(bytes: &[u8], pos: usize) -> (r: Result<(Frame, usize), DecodeError>)
    ensures
        match r {
            Ok((f, next)) => parse_frame(bytes@, pos as int) == Ok::<(FrameView, int), DecodeError>(
                (f@, next as int),
            ) && pos < next <= bytes@.len(),
            Err(e) => parse_frame(bytes@, pos as int) == Err::<(FrameView, int), DecodeError>(e),
        },
{
    let (transforms, c0) = match decode_transforms(bytes, pos) {
        Ok(v) => v,
        Err(e) => return Err(e),
    };
    let (delay, c1) = match take_u16(bytes, c0) {
        Ok(v) => v,
        Err(e) => return Err(e),
    };
    let (animation, c2) = match decode_animation(bytes, c1) {
        Ok(v) => v,
        Err(e) => return Err(e),
    };
    Ok((Frame { transforms, delay, animation }, c2))
}

/// Reads the frame list that starts at `pos`.
pub fn decode_frames(bytes: &[u8], pos: usize) -> (r: Result<(Vec<Frame>, usize), DecodeError>)
    ensures
        match r {
            Ok((v, next)) => parse_frames(bytes@, pos as int) == Ok::<(Seq<FrameView>, int), DecodeError>(
                (frames_view(v@), next as int),
            ) && pos < next <= bytes@.len(),
            Err(e) => parse_frames(bytes@, pos as int) == Err::<(Seq<FrameView>, int), DecodeError>(e),
        },
{
    let mut out: Vec<Frame> = Vec::new();
    let mut cur: usize = pos;
    proof {
        lemma_prepend_empty(parse_frames(bytes@, pos as int));
        assert(frames_view(out@) =~= Seq::empty());
    }
    loop
        invariant
            pos <= cur,
            parse_frames(bytes@, pos as int) == prepend(frames_view(out@), parse_frames(bytes@, cur as int)),
        decreases bytes@.len() - cur,
    {
        let (f, next) = match decode_frame(bytes, cur) {
            Ok(v) => v,
            Err(e) => return Err(e),
        };
        let done = match f.animation {
            Animation::Done => true,
            _ => false,
        };
        proof {
            assert(frames_view(out@.push(f)) =~= frames_view(out@).push(f@));
            if done {
                assert(frames_view(out@) + seq![f@] =~= frames_view(out@).push(f@));
            } else {
                lemma_prepend_push(frames_view(out@), f@, parse_frames(bytes@, next as int));
            }
        }
        out.push(f);
        if done {
            return Ok((out, next));
        }
        cur = next;
    }
}

/// Appends the encoding of one transform.
pub fn encode_transform(t: Transform, out: &mut Vec<u8>)
    ensures
        final(out)@ == old(out)@ + transform_bytes(t),
{
    match t {
        Transform::Translate(x, y, z) => {
            out.push(1);
            put_float(out, x);
            put_float(out, y);
            put_float(out, z);
        },
        Transform::Scale(x, y, z) => {
            out.push(2);
            put_float(out, x);
            put_float(out, y);
            put_float(out, z);
        },
        Transform::Rotate(x, y, z, w) => {
            out.push(3);
            put_float(out, x);
            put_float(out, y);
            put_float(out, z);
            put_float(out, w);
        },
    }
    assert(out@ =~= old(out)@ + transform_bytes(t));
}

/// Appends the encoding of a transform list.
pub fn encode_transforms(ts: &[Transform], out: &mut Vec<u8>)
    ensures
        final(out)@ == old(out)@ + transforms_bytes(ts@),
{
    let mut i: usize = 0;
    assert(ts@.skip(0) =~= ts@);
    while i < ts.len()
        invariant
            i <= ts@.len(),
            old(out)@ + transforms_bytes(ts@) == out@ + transforms_bytes(ts@.skip(i as int)),
        decreases ts@.len() - i,
    {
        let ghost before = out@;
        let ghost rest = ts@.skip(i as int);
        encode_transform(ts[i], out);
        proof {
            assert(rest.drop_first() =~= ts@.skip(i + 1));
            assert(before + (transform_bytes(rest[0]) + transforms_bytes(rest.drop_first())) =~= (before
                + transform_bytes(rest[0])) + transforms_bytes(rest.drop_first()));
        }
        i += 1;
    }
    let ghost before = out@;
    out.push(0);
    assert(out@ =~= before + transforms_bytes(ts@.skip(i as int)));
}

/// Appends the encoding of a transition.
pub fn encode_animation(a: Animation, out: &mut Vec<u8>)
    ensures
        final(out)@ == old(out)@ + animation_bytes(a),
{
    match a {
        Animation::Done => {
            out.push(0);
        },
        Animation::Jump => {
            out.push(1);
        },
        Animation::Linear => {
            out.push(2);
        },
        Animation::ExpA(x) => {
            out.push(3);
            put_float(out, x);
        },
        Animation::ExpB(x) => {
            out.push(4);
            put_float(out, x);
        },
        Animation::Fade => {
            out.push(5);
        },
        Animation::Layer => {
            out.push(6);
        },
    }
    assert(out@ =~= old(out)@ + animation_bytes(a));
}

/// Appends the encoding of one frame.
pub fn encode_frame(f: &Frame, out: &mut Vec<u8>)
    ensures
        final(out)@ == old(out)@ + frame_bytes(f@),
{
    encode_transforms(f.transforms.as_slice(), out);
    put_u16(out, f.delay);
    encode_animation(f.animation, out);
    assert(out@ =~= old(out)@ + frame_bytes(f@));
}

/// Appends the encoding of a frame list: the frames up to and with the
/// first whose transition is `Done`.
pub fn encode_frames(fs: &[Frame], out: &mut Vec<u8>)
    ensures
        final(out)@ == old(out)@ + frames_bytes(frames_view(fs@)),
{
    let ghost all = frames_view(fs@);
    let mut i: usize = 0;
    assert(all.skip(0) =~= all);
    while i < fs.len()
        invariant
            i <= fs@.len(),
            all == frames_view(fs@),
            old(out)@ + frames_bytes(all) == out@ + frames_bytes(all.skip(i as int)),
        decreases fs@.len() - i,
    {
        let ghost before = out@;
        let ghost rest = all.skip(i as int);
        encode_frame(&fs[i], out);
        proof {
            assert(rest[0] == fs@[i as int]@);
            assert(rest.drop_first() =~= all.skip(i + 1));
        }
        match fs[i].animation {
            Animation::Done => {
                return;
            },
            _ => {},
        }
        proof {
            assert(before + (frame_bytes(rest[0]) + frames_bytes(rest.drop_first())) =~= (before
                + frame_bytes(rest[0])) + frames_bytes(rest.drop_first()));
        }
        i += 1;
    }
    assert(out@ + frames_bytes(all.skip(i as int)) =~= out@);
}

/// Whether the list is not empty and the last frame, and no other, has the
/// transition `Done`.
pub fn frames_can_encode(fs: &[Frame]) -> (b: bool)
    ensures
        b == frames_encodable(frames_view(fs@)),
{
    let n: usize = fs.len();
    if n == 0 {
        return false;
    }
    let mut i: usize = 0;
    while i < n
        invariant
            n == fs@.len(),
            i <= n,
            forall|j: int| 0 <= j < i ==> ((#[trigger] frames_view(fs@)[j]).animation is Done <==> j == n - 1),
        decreases n - i,
    {
        let done = match fs[i].animation {
            Animation::Done => true,
            _ => false,
        };
        assert(done == (frames_view(fs@)[i as int].animation is Done));
        if done != (i == n - 1) {
            return false;
        }
        i += 1;
    }
    true
}

} // verus!
