//! Models: the scenes of a graphic, each with its size, the bindings that
//! style its paths, and its animation frames.
//!
//! The list of models ends with a NaN in place of a width, which therefore
//! cannot be the width of a model.

use vstd::prelude::*;
use crate::error::DecodeError;
use crate::frame::{
    decode_frames, encode_frames, frames_bytes, frames_can_encode, frames_encodable,
    frames_view, lemma_parse_frames, lemma_parse_frames_advances, lemma_parsed_frames_encodable, parse_frames, Frame,
    FrameView,
};
use crate::primitive::{
    agrees, expected, float_bytes, lemma_agrees_split, lemma_prepend_empty, lemma_prepend_end,
    lemma_prepend_push, lemma_read_float, prepend, put_float, read_float, take_float, Float,
    Parsed, NAN_BITS,
};
use crate::property::{
    bindings_bytes, bindings_can_encode, bindings_encodable, bindings_in_range, bindings_view,
    check_bindings, decode_bindings, encode_bindings, lemma_parse_bindings,
    lemma_parse_bindings_advances, lemma_parsed_bindings_encodable, parse_bindings, Binding,
    GroupProperty,
};
use crate::vertex::nan;

verus! {

/// One renderable scene.
#[derive(Clone, Debug, PartialEq, Eq)]
pub struct Model {
    pub width: Float,
    pub height: Float,
    pub groups: Vec<(u32, Vec<GroupProperty>)>,
    pub frames: Vec<Frame>,
}

/// A model as the format has it.
pub struct ModelView {
    pub width: Float,
    pub height: Float,
    pub groups: Seq<Binding>,
    pub frames: Seq<FrameView>,
}

impl View for Model {
    type V = ModelView;

    open spec fn view(&self) -> ModelView {
        ModelView {
            width: self.width,
            height: self.height,
            groups: bindings_view(self.groups@),
            frames: frames_view(self.frames@),
        }
    }
}

/// The models that a vector holds.
pub open spec fn models_view(v: Seq<Model>) -> Seq<ModelView> {
    Seq::new(v.len(), |i: int| v[i]@)
}

/// The width is no NaN, no binding has the index `u32::MAX`, and the frames
/// end with their only `Done`.
pub open spec fn model_encodable(m: ModelView) -> bool {
    &&& !m.width.is_nan_spec()
    &&& bindings_encodable(m.groups)
    &&& frames_encodable(m.frames)
}

/// Every model of the list can be encoded.
pub open spec fn models_encodable(ms: Seq<ModelView>) -> bool {
    forall|i: int| 0 <= i < ms.len() ==> model_encodable(#[trigger] ms[i])
}

/// Width and height, the bindings, the frames.
pub open spec fn model_bytes(m: ModelView) -> Seq<u8> {
    float_bytes(m.width) + float_bytes(m.height) + bindings_bytes(m.groups) + frames_bytes(m.frames)
}

/// The models in order, then a NaN.
pub open spec fn models_bytes(ms: Seq<ModelView>) -> Seq<u8>
    decreases ms.len(),
{
    if ms.len() == 0 {
        float_bytes(nan())
    } else {
        model_bytes(ms[0]) + models_bytes(ms.drop_first())
    }
}

/// The model at `pos`, or `None` where a NaN stands for the width and the
/// list ends.
pub open spec fn parse_model(s: Seq<u8>, pos: int) -> Parsed<Option<ModelView>> {
    match read_float(s, pos) {
        Err(e) => Err(e),
        Ok((width, c0)) => if width.is_nan_spec() {
            Ok((None, c0))
        } else {
            match read_float(s, c0) {
                Err(e) => Err(e),
                Ok((height, c1)) => match parse_bindings(s, c1) {
                    Err(e) => Err(e),
                    Ok((groups, c2)) => match parse_frames(s, c2) {
                        Err(e) => Err(e),
                        Ok((frames, c3)) => Ok((Some(ModelView { width, height, groups, frames }), c3)),
                    },
                },
            }
        },
    }
}

/// The models from `pos` up to the NaN that ends the list.
pub open spec fn parse_models(s: Seq<u8>, pos: int) -> Parsed<Seq<ModelView>>
    decreases s.len() - pos,
{
    match parse_model(s, pos) {
        Err(e) => Err(e),
        Ok((None, next)) => Ok((Seq::empty(), next)),
        Ok((Some(m), next)) => {
            proof {
                lemma_parse_model_advances(s, pos);
            }
            prepend(seq![m], parse_models(s, next))
        },
    }
}

/// A model that was read ends behind the position at which it starts, and
/// within the input.
pub proof fn lemma_parse_model_advances(s: Seq<u8>, pos: int)
    ensures
        parse_model(s, pos) matches Ok((_, next)) ==> pos < next <= s.len(),
{
    match read_float(s, pos) {
        Ok((width, c0)) => {
            lemma_parse_bindings_advances(s, c0 + 4);
            match parse_bindings(s, c0 + 4) {
                Ok((groups, c2)) => {
                    lemma_parse_frames_advances(s, c2);
                },
                _ => {},
            }
        },
        _ => {},
    }
}

/// On an input that agrees with the encoding of a model that can be encoded,
/// the parser yields that model, or the end of the input where the input is
/// cut.
pub proof fn lemma_parse_model(s: Seq<u8>, pos: int, m: ModelView)
    requires
        0 <= pos,
        model_encodable(m),
        agrees(s, pos, model_bytes(m)),
    ensures
        parse_model(s, pos) == expected(s, pos, Some(m), model_bytes(m).len()),
{
    let a = float_bytes(m.width);
    let b = float_bytes(m.height);
    let c = bindings_bytes(m.groups);
    let d = frames_bytes(m.frames);
    lemma_agrees_split(s, pos, a + b + c, d);
    lemma_agrees_split(s, pos, a + b, c);
    lemma_agrees_split(s, pos, a, b);
    lemma_read_float(s, pos, m.width);
    lemma_read_float(s, pos + 4, m.height);
    lemma_parse_bindings(s, pos + 8, m.groups);
    lemma_parse_frames(s, pos + 8 + c.len(), m.frames);
}

/// On an input that agrees with the encoding of a list of models that can
/// be encoded, the parser yields that list, or the end of the input where
/// the input is cut.
#[verifier::rlimit(40)]
pub proof fn lemma_parse_models(s: Seq<u8>, pos: int, ms: Seq<ModelView>)
    requires
        0 <= pos,
        models_encodable(ms),
        agrees(s, pos, models_bytes(ms)),
    ensures
        parse_models(s, pos) == expected(s, pos, ms, models_bytes(ms).len()),
    decreases ms.len(),
{
    if ms.len() == 0 {
        lemma_read_float(s, pos, nan());
        assert(ms =~= Seq::empty());
    } else {
        let head = model_bytes(ms[0]);
        let rest = ms.drop_first();
        lemma_agrees_split(s, pos, head, models_bytes(rest));
        lemma_parse_model(s, pos, ms[0]);
        if pos + head.len() <= s.len() {
            assert(models_encodable(rest)) by {
                assert forall|i: int| 0 <= i < rest.len() implies model_encodable(#[trigger] rest[i]) by {
                    assert(rest[i] == ms[i + 1]);
                }
            }
            lemma_parse_models(s, pos + head.len(), rest);
            assert(seq![ms[0]] + rest =~= ms);
        }
    }
}

/// A model that was read can be encoded.
pub proof fn lemma_parsed_model_encodable(s: Seq<u8>, pos: int)
    ensures
        parse_model(s, pos) matches Ok((Some(m), _)) ==> model_encodable(m),
{
    match read_float(s, pos) {
        Ok((width, c0)) => {
            lemma_parsed_bindings_encodable(s, c0 + 4);
            match parse_bindings(s, c0 + 4) {
                Ok((groups, c2)) => {
                    lemma_parsed_frames_encodable(s, c2);
                },
                _ => {},
            }
        },
        _ => {},
    }
}

/// Every model of a list that was read can be encoded.
pub proof fn lemma_parsed_models_encodable(s: Seq<u8>, pos: int)
    ensures
        parse_models(s, pos) matches Ok((ms, _)) ==> models_encodable(ms),
    decreases s.len() - pos,
{
    lemma_parsed_model_encodable(s, pos);
    match parse_model(s, pos) {
        Ok((Some(m), next)) => {
            lemma_parse_model_advances(s, pos);
            lemma_parsed_models_encodable(s, next);
            match parse_models(s, next) {
                Ok((rest, _)) => {
                    let ms = seq![m] + rest;
                    assert forall|i: int| 0 <= i < ms.len() implies model_encodable(#[trigger] ms[i]) by {
                        if i > 0 {
                            assert(ms[i] == rest[i - 1]);
                        }
                    }
                },
                _ => {},
            }
        },
        _ => {},
    }
}

/// Reads the model at `pos`, or `None` where the list ends there.
pub fn decode_model(bytes: &[u8], pos: usize) -> (r: Result<(Option<Model>, usize), DecodeError>)
    ensures
        match r {
            Ok((Some(m), next)) => parse_model(bytes@, pos as int) == Ok::<(Option<ModelView>, int), DecodeError>(
                (Some(m@), next as int),
            ) && pos < next <= bytes@.len(),
            Ok((None, next)) => parse_model(bytes@, pos as int) == Ok::<(Option<ModelView>, int), DecodeError>(
                (None, next as int),
            ) && pos < next <= bytes@.len(),
            Err(e) => parse_model(bytes@, pos as int) == Err::<(Option<ModelView>, int), DecodeError>(e),
        },
{
    let (width, c0) = match take_float(bytes, pos) {
        Ok(v) => v,
        Err(e) => return Err(e),
    };
    if width.is_nan() {
        return Ok((None, c0));
    }
    let (height, c1) = match take_float(bytes, c0) {
        Ok(v) => v,
        Err(e) => return Err(e),
    };
    let (groups, c2) = match decode_bindings(bytes, c1) {
        Ok(v) => v,
        Err(e) => return Err(e),
    };
    let (frames, c3) = match decode_frames(bytes, c2) {
        Ok(v) => v,
        Err(e) => return Err(e),
    };
    Ok((Some(Model { width, height, groups, frames }), c3))
}

/// Reads the model list that starts at `pos`.
pub fn decode_models(bytes: &[u8], pos: usize) -> (r: Result<(Vec<Model>, usize), DecodeError>)
    ensures
        match r {
            Ok((v, next)) => parse_models(bytes@, pos as int) == Ok::<(Seq<ModelView>, int), DecodeError>(
                (models_view(v@), next as int),
            ) && pos < next <= bytes@.len(),
            Err(e) => parse_models(bytes@, pos as int) == Err::<(Seq<ModelView>, int), DecodeError>(e),
        },
{
    let mut out: Vec<Model> = Vec::new();
    let mut cur: usize = pos;
    proof {
        lemma_prepend_empty(parse_models(bytes@, pos as int));
        assert(models_view(out@) =~= Seq::empty());
    }
    loop
        invariant
            pos <= cur,
            parse_models(bytes@, pos as int) == prepend(models_view(out@), parse_models(bytes@, cur as int)),
        decreases bytes@.len() - cur,
    {
        match decode_model(bytes, cur) {
            Err(e) => {
                return Err(e);
            },
            Ok((None, next)) => {
                proof {
                    lemma_prepend_end(models_view(out@), next as int);
                }
                return Ok((out, next));
            },
            Ok((Some(m), next)) => {
                proof {
                    lemma_prepend_push(models_view(out@), m@, parse_models(bytes@, next as int));
                    assert(models_view(out@.push(m)) =~= models_view(out@).push(m@));
                }
                out.push(m);
                cur = next;
            },
        }
    }
}

/// Appends the encoding of one model.
pub fn encode_model(m: &Model, out: &mut Vec<u8>)
    ensures
        final(out)@ == old(out)@ + model_bytes(m@),
{
    put_float(out, m.width);
    put_float(out, m.height);
    encode_bindings(m.groups.as_slice(), out);
    encode_frames(m.frames.as_slice(), out);
    assert(out@ =~= old(out)@ + model_bytes(m@));
}

/// Appends the encoding of a model list.
pub fn encode_models(ms: &[Model], out: &mut Vec<u8>)
    ensures
        final(out)@ == old(out)@ + models_bytes(models_view(ms@)),
{
    let ghost all = models_view(ms@);
    let mut i: usize = 0;
    assert(all.skip(0) =~= all);
    while i < ms.len()
        invariant
            i <= ms@.len(),
            all == models_view(ms@),
            old(out)@ + models_bytes(all) == out@ + models_bytes(all.skip(i as int)),
        decreases ms@.len() - i,
    {
        let ghost before = out@;
        let ghost rest = all.skip(i as int);
        encode_model(&ms[i], out);
        proof {
            assert(rest[0] == ms@[i as int]@);
            assert(rest.drop_first() =~= all.skip(i + 1));
            assert(before + (model_bytes(rest[0]) + models_bytes(rest.drop_first())) =~= (before
                + model_bytes(rest[0])) + models_bytes(rest.drop_first()));
        }
        i += 1;
    }
    put_float(out, Float { bits: NAN_BITS });
}

/// Whether a model can be encoded.
pub fn model_can_encode(m: &Model) -> (b: bool)
    ensures
        b == model_encodable(m@),
{
    !m.width.is_nan() && bindings_can_encode(m.groups.as_slice()) && frames_can_encode(m.frames.as_slice())
}

/// Whether every model of the list can be encoded.
pub fn models_can_encode(ms: &[Model]) -> (b: bool)
    ensures
        b == models_encodable(models_view(ms@)),
{
    let mut i: usize = 0;
    while i < ms.len()
        invariant
            i <= ms@.len(),
            forall|j: int| 0 <= j < i ==> model_encodable(#[trigger] models_view(ms@)[j]),
        decreases ms@.len() - i,
    {
        if !model_can_encode(&ms[i]) {
            assert(!model_encodable(models_view(ms@)[i as int]));
            return false;
        }
        assert(model_encodable(models_view(ms@)[i as int]));
        i += 1;
    }
    true
}

/// The index of every binding of every model is below `n`.
pub open spec fn models_in_range(ms: Seq<ModelView>, n: int) -> bool {
    forall|i: int| 0 <= i < ms.len() ==> bindings_in_range((#[trigger] ms[i]).groups, n)
}

/// Whether the index of every binding of every model is below `n`.
pub fn check_models(ms: &[Model], n: usize) -> (b: bool)
    ensures
        b == models_in_range(models_view(ms@), n as int),
{
    let mut i: usize = 0;
    while i < ms.len()
        invariant
            i <= ms@.len(),
            forall|j: int| 0 <= j < i ==> bindings_in_range((#[trigger] models_view(ms@)[j]).groups, n as int),
        decreases ms@.len() - i,
    {
        if !check_bindings(ms[i].groups.as_slice(), n) {
            assert(!bindings_in_range(models_view(ms@)[i as int].groups, n as int));
            return false;
        }
        assert(bindings_in_range(models_view(ms@)[i as int].groups, n as int));
        i += 1;
    }
    true
}

} // verus!
