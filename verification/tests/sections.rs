use rvg::attribute::{decode_attribute, decode_attributes, encode_attribute, encode_attributes};
use rvg::bitmap::{bitmaps_can_encode, decode_bitmap, decode_bitmaps, encode_bitmap, encode_bitmaps};
use rvg::frame::{
    decode_animation, decode_frame, decode_frames, decode_transform, decode_transforms,
    encode_animation, encode_frame, encode_frames, encode_transform, encode_transforms,
    frames_can_encode, take_float3,
};
use rvg::model::{
    check_models, decode_model, decode_models, encode_model, encode_models, model_can_encode,
    models_can_encode,
};
use rvg::path::{
    check_path, check_path_op, check_paths, decode_path, decode_path_op, decode_paths,
    encode_path, encode_path_op, encode_paths, paths_can_encode,
};
use rvg::primitive::{
    put_float, put_u16, put_u32, take_float, take_u16, take_u32, take_u8,
};
use rvg::property::{
    bindings_can_encode, check_bindings, decode_bindings, decode_properties, decode_property,
    encode_bindings, encode_properties, encode_property, take_rgba,
};
use rvg::vertex::{decode_vertices, encode_vertices, vertices_can_encode};
use rvg::{
    Animation, Attribute, Bitmap, DecodeError, Float, Frame, GroupProperty, Model, PathOp,
    Section, Transform,
};

const EOI: DecodeError = DecodeError::UnexpectedEndOfInput;

fn fl(x: f32) -> Float {
    Float::from_bits(x.to_bits())
}

#[test]
fn little_endian_readers() {
    let bytes = [0x01u8, 0x02, 0x03, 0x04, 0x05];
    assert_eq!(take_u8(&bytes, 0), Ok((0x01, 1)));
    assert_eq!(take_u8(&bytes, 4), Ok((0x05, 5)));
    assert_eq!(take_u8(&bytes, 5), Err(EOI));
    assert_eq!(take_u8(&bytes, usize::MAX), Err(EOI));
    assert_eq!(take_u16(&bytes, 0), Ok((0x0201, 2)));
    assert_eq!(take_u16(&bytes, 3), Ok((0x0504, 5)));
    assert_eq!(take_u16(&bytes, 4), Err(EOI));
    assert_eq!(take_u16(&bytes, 6), Err(EOI));
    assert_eq!(take_u32(&bytes, 0), Ok((0x0403_0201, 4)));
    assert_eq!(take_u32(&bytes, 1), Ok((0x0504_0302, 5)));
    assert_eq!(take_u32(&bytes, 2), Err(EOI));
    assert_eq!(take_u32(&[0xff, 0xff, 0xff, 0xff], 0), Ok((u32::MAX, 4)));
    assert_eq!(take_u16(&[0xff, 0xff], 0), Ok((u16::MAX, 2)));
    assert_eq!(take_float(&[0x00, 0x00, 0x80, 0x3f], 0), Ok((fl(1.0), 4)));
    assert_eq!(take_float(&[0x00, 0x00, 0x80], 0), Err(EOI));
    assert_eq!(
        take_float3(&[0, 0, 0x80, 0x3f, 0, 0, 0, 0x40, 0, 0, 0x40, 0x40], 0),
        Ok(((fl(1.0), fl(2.0), fl(3.0)), 12))
    );
    assert_eq!(take_float3(&[0, 0, 0x80, 0x3f, 0, 0, 0, 0x40, 0, 0, 0x40], 0), Err(EOI));
    assert_eq!(take_rgba(&bytes, 1), Ok(([2, 3, 4, 5], 5)));
    assert_eq!(take_rgba(&bytes, 2), Err(EOI));
}

#[test]
fn little_endian_writers_append() {
    let mut out = vec![9u8];
    put_u16(&mut out, 0x1234);
    put_u32(&mut out, 0x89ab_cdef);
    put_float(&mut out, fl(-2.0));
    put_u16(&mut out, 0);
    put_u32(&mut out, u32::MAX);
    assert_eq!(
        out,
        vec![9, 0x34, 0x12, 0xef, 0xcd, 0xab, 0x89, 0x00, 0x00, 0x00, 0xc0, 0, 0, 0xff, 0xff, 0xff, 0xff]
    );
    for x in [0u32, 1, 255, 256, 65535, 65536, 0x00ff_ffff, 0x0100_0000, 0xdead_beef, u32::MAX] {
        let mut out = vec![];
        put_u32(&mut out, x);
        assert_eq!(out, x.to_le_bytes());
        assert_eq!(take_u32(&out, 0), Ok((x, 4)));
    }
    for x in [0u16, 1, 255, 256, 0xabcd, u16::MAX] {
        let mut out = vec![];
        put_u16(&mut out, x);
        assert_eq!(out, x.to_le_bytes());
        assert_eq!(take_u16(&out, 0), Ok((x, 2)));
    }
}

#[test]
fn attribute_section() {
    let all = [
        (Attribute::Z, vec![1u8]),
        (Attribute::UvTextureCoordinates, vec![2]),
        (Attribute::Rgb, vec![3]),
        (Attribute::Rbga, vec![4]),
        (Attribute::Alpha, vec![5]),
        (Attribute::Normal2D, vec![6]),
        (Attribute::Normal3D, vec![7]),
        (Attribute::Normal4D, vec![8]),
        (Attribute::StrokeWidth, vec![9]),
        (Attribute::UserDefined(0xee), vec![10, 0xee]),
    ];
    for (a, bytes) in all.iter() {
        let mut out = vec![0x55];
        encode_attribute(*a, &mut out);
        assert_eq!(&out[1..], &bytes[..]);
        assert_eq!(decode_attribute(&out, 1), Ok((Some(*a), out.len())));
    }
    assert_eq!(decode_attribute(&[0], 0), Ok((None, 1)));
    assert_eq!(decode_attribute(&[], 0), Err(EOI));
    assert_eq!(decode_attribute(&[12], 0), Err(DecodeError::UnknownTag(Section::Attribute, 12)));

    let list = vec![Attribute::Rgb, Attribute::UserDefined(1), Attribute::Z];
    let mut out = vec![7, 7];
    encode_attributes(&list, &mut out);
    assert_eq!(out, vec![7, 7, 3, 10, 1, 1, 0]);
    assert_eq!(decode_attributes(&out, 2), Ok((list, 7)));
    assert_eq!(decode_attributes(&out[..6], 2), Err(EOI));
    assert_eq!(decode_attributes(&out, 9), Err(EOI));
}

#[test]
fn vertex_section() {
    let list = vec![fl(1.0), fl(1.0), fl(-0.0)];
    let mut out = vec![1];
    encode_vertices(&list, &mut out);
    assert_eq!(out, vec![1, 0, 0, 0x80, 0x3f, 0, 0, 0x80, 0x3f, 0, 0, 0, 0x80, 0, 0, 0xc0, 0x7f]);
    assert_eq!(decode_vertices(&out, 1), Ok((list.clone(), 17)));
    assert_eq!(decode_vertices(&out[..16], 1), Err(EOI));
    assert!(vertices_can_encode(&list));
    assert!(vertices_can_encode(&[]));
    assert!(!vertices_can_encode(&[fl(1.0), Float::from_bits(0xffc0_0001)]));
}

#[test]
fn path_section() {
    let ops = [
        (PathOp::Close(), vec![1u8]),
        (PathOp::Move(0x0a0b_0c0d), vec![2, 0x0d, 0x0c, 0x0b, 0x0a]),
        (PathOp::Line(1), vec![3, 1, 0, 0, 0]),
        (PathOp::Quad(1, 2), vec![4, 1, 0, 0, 0, 2, 0, 0, 0]),
        (PathOp::Cubic(1, 2, 3), vec![5, 1, 0, 0, 0, 2, 0, 0, 0, 3, 0, 0, 0]),
    ];
    for (op, bytes) in ops.iter() {
        let mut out = vec![];
        encode_path_op(*op, &mut out);
        assert_eq!(&out, bytes);
        assert_eq!(decode_path_op(&out, 0), Ok((Some(*op), out.len())));
        for k in 0..out.len() {
            assert_eq!(decode_path_op(&out[..k], 0), Err(EOI));
        }
    }
    assert_eq!(decode_path_op(&[0], 0), Ok((None, 1)));
    assert_eq!(decode_path_op(&[200], 0), Err(DecodeError::UnknownTag(Section::Path, 200)));

    let path = vec![PathOp::Move(0), PathOp::Close()];
    let mut out = vec![];
    encode_path(&path, &mut out);
    assert_eq!(out, vec![2, 0, 0, 0, 0, 1, 0]);
    assert_eq!(decode_path(&out, 0), Ok((path.clone(), 7)));

    let paths = vec![path.clone(), vec![PathOp::Close()]];
    let mut out = vec![];
    encode_paths(&paths, &mut out);
    assert_eq!(out, vec![2, 0, 0, 0, 0, 1, 0, 1, 0, 0]);
    assert_eq!(decode_paths(&out, 0), Ok((paths.clone(), 10)));
    assert_eq!(decode_paths(&out[..9], 0), Err(EOI));
    assert_eq!(decode_paths(&[0, 1, 0, 0], 0), Ok((vec![], 1)));
    assert!(paths_can_encode(&paths));
    assert!(paths_can_encode(&[]));
    assert!(!paths_can_encode(&[path, vec![]]));
}

#[test]
fn path_indices() {
    assert!(check_path_op(PathOp::Close(), 0));
    assert!(check_path_op(PathOp::Move(4), 5));
    assert!(!check_path_op(PathOp::Move(5), 5));
    assert!(!check_path_op(PathOp::Line(0), 0));
    assert!(check_path_op(PathOp::Quad(0, 1), 2));
    assert!(!check_path_op(PathOp::Quad(2, 1), 2));
    assert!(!check_path_op(PathOp::Quad(1, 2), 2));
    assert!(check_path_op(PathOp::Cubic(2, 1, 0), 3));
    assert!(!check_path_op(PathOp::Cubic(3, 1, 0), 3));
    assert!(!check_path_op(PathOp::Cubic(0, 3, 0), 3));
    assert!(!check_path_op(PathOp::Cubic(0, 1, 3), 3));
    assert!(check_path_op(PathOp::Move(u32::MAX - 1), u32::MAX as usize));
    assert!(check_path(&[], 0));
    assert!(check_path(&[PathOp::Move(0), PathOp::Line(1)], 2));
    assert!(!check_path(&[PathOp::Move(0), PathOp::Line(2)], 2));
    assert!(check_paths(&[], 0));
    assert!(check_paths(&[vec![PathOp::Move(0)], vec![]], 1));
    assert!(!check_paths(&[vec![PathOp::Move(0)], vec![PathOp::Move(1)]], 1));
}

#[test]
fn property_section() {
    let props = [
        (GroupProperty::FillColorRgba([1, 2, 3, 4]), vec![1u8, 1, 2, 3, 4]),
        (GroupProperty::StrokeColorRgba([5, 6, 7, 8]), vec![2, 5, 6, 7, 8]),
        (GroupProperty::StrokeWidth(fl(1.0)), vec![3, 0, 0, 0x80, 0x3f]),
        (GroupProperty::JoinStyle(9), vec![4, 9]),
        (GroupProperty::FillRule(10), vec![5, 10]),
        (GroupProperty::GlyphID(0x0102_0304), vec![6, 4, 3, 2, 1]),
        (GroupProperty::BitmapPattern(1), vec![7, 1, 0, 0, 0]),
        (GroupProperty::GroupPattern(2), vec![8, 2, 0, 0, 0]),
    ];
    let mut list = vec![];
    let mut all = vec![];
    for (p, bytes) in props.iter() {
        let mut out = vec![];
        encode_property(*p, &mut out);
        assert_eq!(&out, bytes);
        assert_eq!(decode_property(&out, 0), Ok((Some(*p), out.len())));
        for k in 0..out.len() {
            assert_eq!(decode_property(&out[..k], 0), Err(EOI));
        }
        list.push(*p);
        all.extend_from_slice(bytes);
    }
    all.push(0);
    assert_eq!(decode_property(&[0], 0), Ok((None, 1)));
    assert_eq!(decode_property(&[9], 0), Err(DecodeError::UnknownTag(Section::GroupProperty, 9)));
    let mut out = vec![];
    encode_properties(&list, &mut out);
    assert_eq!(out, all);
    assert_eq!(decode_properties(&out, 0), Ok((list.clone(), out.len())));

    let bindings = vec![(3u32, list), (0, vec![])];
    let mut out = vec![];
    encode_bindings(&bindings, &mut out);
    let mut want = vec![3, 0, 0, 0];
    want.extend_from_slice(&all);
    want.extend_from_slice(&[0, 0, 0, 0, 0, 0xff, 0xff, 0xff, 0xff]);
    assert_eq!(out, want);
    assert_eq!(decode_bindings(&out, 0), Ok((bindings.clone(), out.len())));
    assert_eq!(decode_bindings(&out[..out.len() - 1], 0), Err(EOI));
    assert_eq!(decode_bindings(&[0xff, 0xff, 0xff, 0xff, 1], 0), Ok((vec![], 4)));
    assert!(bindings_can_encode(&bindings));
    assert!(!bindings_can_encode(&[(u32::MAX, vec![])]));
    assert!(check_bindings(&bindings, 4));
    assert!(!check_bindings(&bindings, 3));
    assert!(check_bindings(&[], 0));
}

#[test]
fn frame_section() {
    let transforms = [
        (Transform::Translate(fl(1.0), fl(2.0), fl(3.0)), 1u8, 13usize),
        (Transform::Scale(fl(1.0), fl(2.0), fl(3.0)), 2, 13),
        (Transform::Rotate(fl(1.0), fl(2.0), fl(3.0), fl(4.0)), 3, 17),
    ];
    let mut list = vec![];
    for (t, tag, len) in transforms.iter() {
        let mut out = vec![];
        encode_transform(*t, &mut out);
        assert_eq!(out.len(), *len);
        assert_eq!(out[0], *tag);
        assert_eq!(&out[1..13], &[0, 0, 0x80, 0x3f, 0, 0, 0, 0x40, 0, 0, 0x40, 0x40]);
        assert_eq!(decode_transform(&out, 0), Ok((Some(*t), *len)));
        for k in 0..out.len() {
            assert_eq!(decode_transform(&out[..k], 0), Err(EOI));
        }
        list.push(*t);
    }
    assert_eq!(decode_transform(&[0], 0), Ok((None, 1)));
    assert_eq!(decode_transform(&[4], 0), Err(DecodeError::UnknownTag(Section::Transform, 4)));
    let mut out = vec![];
    encode_transforms(&list, &mut out);
    assert_eq!(out.len(), 13 + 13 + 17 + 1);
    assert_eq!(decode_transforms(&out, 0), Ok((list.clone(), 44)));

    let animations = [
        (Animation::Done, vec![0u8]),
        (Animation::Jump, vec![1]),
        (Animation::Linear, vec![2]),
        (Animation::ExpA(fl(2.0)), vec![3, 0, 0, 0, 0x40]),
        (Animation::ExpB(fl(3.0)), vec![4, 0, 0, 0x40, 0x40]),
        (Animation::Fade, vec![5]),
        (Animation::Layer, vec![6]),
    ];
    for (a, bytes) in animations.iter() {
        let mut out = vec![];
        encode_animation(*a, &mut out);
        assert_eq!(&out, bytes);
        assert_eq!(decode_animation(&out, 0), Ok((*a, out.len())));
    }
    assert_eq!(decode_animation(&[7], 0), Err(DecodeError::UnknownTag(Section::Animation, 7)));
    assert_eq!(decode_animation(&[3, 0, 0, 0], 0), Err(EOI));
    assert_eq!(decode_animation(&[], 0), Err(EOI));

    let frame = Frame { transforms: list, delay: 0x0102, animation: Animation::ExpA(fl(2.0)) };
    let mut out = vec![];
    encode_frame(&frame, &mut out);
    assert_eq!(&out[44..], &[0x02, 0x01, 3, 0, 0, 0, 0x40]);
    assert_eq!(decode_frame(&out, 0), Ok((frame.clone(), 51)));

    let done = Frame { transforms: vec![], delay: 0, animation: Animation::Done };
    let frames = vec![frame.clone(), done.clone()];
    let mut out = vec![];
    encode_frames(&frames, &mut out);
    assert_eq!(out.len(), 51 + 4);
    assert_eq!(&out[51..], &[0, 0, 0, 0]);
    assert_eq!(decode_frames(&out, 0), Ok((frames.clone(), 55)));
    assert_eq!(decode_frames(&out[..54], 0), Err(EOI));
    assert!(frames_can_encode(&frames));
    assert!(frames_can_encode(&[done.clone()]));
    assert!(!frames_can_encode(&[]));
    assert!(!frames_can_encode(&[frame.clone()]));
    assert!(!frames_can_encode(&[done.clone(), done.clone()]));
    assert!(!frames_can_encode(&[done.clone(), frame.clone()]));

    // nothing is written behind the first `Done`, and nothing for no frames
    let mut out = vec![];
    encode_frames(&[done.clone(), frame.clone(), done.clone()], &mut out);
    assert_eq!(out, vec![0, 0, 0, 0]);
    let mut out = vec![1];
    encode_frames(&[], &mut out);
    assert_eq!(out, vec![1]);
}

#[test]
fn model_section() {
    let done = Frame { transforms: vec![], delay: 0, animation: Animation::Done };
    let model = Model { width: fl(2.0), height: fl(3.0), groups: vec![(1, vec![])], frames: vec![done.clone()] };
    let mut out = vec![];
    encode_model(&model, &mut out);
    assert_eq!(
        out,
        vec![0, 0, 0, 0x40, 0, 0, 0x40, 0x40, 1, 0, 0, 0, 0, 0xff, 0xff, 0xff, 0xff, 0, 0, 0, 0]
    );
    assert_eq!(decode_model(&out, 0), Ok((Some(model.clone()), 21)));
    assert_eq!(decode_model(&[0, 0, 0xc0, 0x7f, 5], 0), Ok((None, 4)));
    for k in 0..out.len() {
        assert_eq!(decode_model(&out[..k], 0), Err(EOI));
    }
    let models = vec![model.clone(), model.clone()];
    let mut out = vec![];
    encode_models(&models, &mut out);
    assert_eq!(out.len(), 46);
    assert_eq!(&out[42..], &[0, 0, 0xc0, 0x7f]);
    assert_eq!(decode_models(&out, 0), Ok((models.clone(), 46)));
    assert!(model_can_encode(&model));
    assert!(models_can_encode(&models));
    assert!(models_can_encode(&[]));
    let mut bad = model.clone();
    bad.frames.push(done);
    assert!(!model_can_encode(&bad));
    assert!(!models_can_encode(&[model.clone(), bad]));
    assert!(check_models(&models, 2));
    assert!(!check_models(&models, 1));
    assert!(check_models(&[], 0));
}

#[test]
fn bitmap_section() {
    let a = Bitmap::new(1, 2, vec![1, 2, 3, 4, 5, 6, 7, 8]).unwrap();
    let b = Bitmap::new(0, 0, vec![]).unwrap();
    let mut out = vec![0xaa];
    encode_bitmap(&a, &mut out);
    assert_eq!(out, vec![0xaa, 1, 0, 2, 0, 1, 2, 3, 4, 5, 6, 7, 8]);
    assert_eq!(decode_bitmap(&out, 1), Ok((a.clone(), 13)));
    for k in 1..13 {
        assert_eq!(decode_bitmap(&out[..k], 1), Err(EOI));
    }
    let list = vec![a.clone(), b.clone(), a.clone()];
    let mut out = vec![];
    encode_bitmaps(&list, &mut out);
    assert_eq!(out.len(), 12 + 4 + 12);
    assert_eq!(decode_bitmaps(&out, 0), Ok((list.clone(), 28)));
    assert_eq!(decode_bitmaps(&out, 12), Ok((vec![b.clone(), a.clone()], 28)));
    assert_eq!(decode_bitmaps(&out, 28), Ok((vec![], 28)));
    assert_eq!(decode_bitmaps(&out, 40), Ok((vec![], 40)));
    assert_eq!(decode_bitmaps(&out[..27], 0), Err(EOI));
    assert_eq!(decode_bitmaps(&out[..16], 0), Ok((vec![a, b], 16)));
    assert!(bitmaps_can_encode(&list));
    assert!(bitmaps_can_encode(&[]));
}
