use rvg::{
    Animation, Attribute, Bitmap, DecodeError, Float, Frame, Graphic, GroupProperty, Model,
    PathOp, Section, Transform,
};

fn fl(x: f32) -> Float {
    Float::from_bits(x.to_bits())
}

fn example() -> Graphic {
    Graphic {
        attributes: vec![],
        vertex_list: vec![fl(0.0), fl(0.0), fl(10.0), fl(10.0)],
        group: vec![vec![PathOp::Move(0), PathOp::Line(1), PathOp::Close()]],
        models: vec![Model {
            width: fl(100.0),
            height: fl(100.0),
            groups: vec![(0, vec![GroupProperty::FillColorRgba([255, 0, 0, 255])])],
            frames: vec![Frame { transforms: vec![], delay: 0, animation: Animation::Done }],
        }],
        bitmaps: vec![],
    }
}

fn rich() -> Graphic {
    Graphic {
        attributes: vec![
            Attribute::Z,
            Attribute::UvTextureCoordinates,
            Attribute::Rgb,
            Attribute::Rbga,
            Attribute::Alpha,
            Attribute::Normal2D,
            Attribute::Normal3D,
            Attribute::Normal4D,
            Attribute::StrokeWidth,
            Attribute::UserDefined(0),
            Attribute::UserDefined(200),
        ],
        vertex_list: vec![fl(1.5), fl(-2.25), fl(0.0), fl(-0.0), fl(f32::INFINITY), fl(f32::MIN)],
        group: vec![
            vec![PathOp::Move(0), PathOp::Quad(1, 2), PathOp::Cubic(0, 1, 2), PathOp::Close()],
            vec![PathOp::Close()],
            vec![PathOp::Line(u32::MAX), PathOp::Move(0x0102_0304)],
        ],
        models: vec![
            Model {
                width: fl(640.0),
                height: fl(f32::NAN),
                groups: vec![
                    (
                        0,
                        vec![
                            GroupProperty::FillColorRgba([1, 2, 3, 4]),
                            GroupProperty::StrokeColorRgba([0, 0, 0, 0]),
                            GroupProperty::StrokeWidth(fl(2.0)),
                            GroupProperty::JoinStyle(0),
                            GroupProperty::FillRule(9),
                            GroupProperty::GlyphID(77),
                            GroupProperty::BitmapPattern(0),
                            GroupProperty::GroupPattern(u32::MAX),
                        ],
                    ),
                    (u32::MAX - 1, vec![]),
                ],
                frames: vec![
                    Frame {
                        transforms: vec![
                            Transform::Translate(fl(1.0), fl(2.0), fl(3.0)),
                            Transform::Scale(fl(0.5), fl(0.5), fl(1.0)),
                            Transform::Rotate(fl(0.0), fl(0.0), fl(1.0), fl(0.25)),
                        ],
                        delay: 0xabcd,
                        animation: Animation::ExpA(fl(1.25)),
                    },
                    Frame { transforms: vec![], delay: 1, animation: Animation::ExpB(fl(f32::NAN)) },
                    Frame { transforms: vec![], delay: 2, animation: Animation::Linear },
                    Frame { transforms: vec![], delay: 3, animation: Animation::Fade },
                    Frame { transforms: vec![], delay: 4, animation: Animation::Layer },
                    Frame { transforms: vec![], delay: 5, animation: Animation::Jump },
                    Frame { transforms: vec![], delay: 65535, animation: Animation::Done },
                ],
            },
            Model {
                width: fl(0.0),
                height: fl(0.0),
                groups: vec![],
                frames: vec![Frame { transforms: vec![], delay: 0, animation: Animation::Done }],
            },
        ],
        bitmaps: vec![
            Bitmap::new(1, 2, vec![1, 2, 3, 4, 5, 6, 7, 8]).unwrap(),
            Bitmap::new(0, 7, vec![]).unwrap(),
            Bitmap::new(1, 1, vec![9, 9, 9, 9]).unwrap(),
        ],
    }
}

const NAN: [u8; 4] = [0x00, 0x00, 0xc0, 0x7f];

#[test]
fn example_stream_is_exact() {
    let mut expected: Vec<u8> = vec![b'r', b'V', b'g', 0];
    expected.push(0);
    expected.extend_from_slice(&[0, 0, 0, 0]);
    expected.extend_from_slice(&[0, 0, 0, 0]);
    expected.extend_from_slice(&[0x00, 0x00, 0x20, 0x41]);
    expected.extend_from_slice(&[0x00, 0x00, 0x20, 0x41]);
    expected.extend_from_slice(&NAN);
    expected.extend_from_slice(&[2, 0, 0, 0, 0, 3, 1, 0, 0, 0, 1, 0]);
    expected.push(0);
    expected.extend_from_slice(&[0x00, 0x00, 0xc8, 0x42]);
    expected.extend_from_slice(&[0x00, 0x00, 0xc8, 0x42]);
    expected.extend_from_slice(&[0, 0, 0, 0, 1, 255, 0, 0, 255, 0]);
    expected.extend_from_slice(&[0xff, 0xff, 0xff, 0xff]);
    expected.extend_from_slice(&[0, 0, 0, 0]);
    expected.extend_from_slice(&NAN);
    assert_eq!(example().encode(), expected);
}

#[test]
fn example_decodes_to_every_field() {
    let g = example();
    let back = Graphic::decode(&g.encode()).unwrap();
    assert_eq!(back.attributes, vec![]);
    assert_eq!(back.vertex_list, vec![fl(0.0), fl(0.0), fl(10.0), fl(10.0)]);
    assert_eq!(back.group, vec![vec![PathOp::Move(0), PathOp::Line(1), PathOp::Close()]]);
    assert_eq!(back.models.len(), 1);
    assert_eq!(f32::from_bits(back.models[0].width.to_bits()), 100.0);
    assert_eq!(f32::from_bits(back.models[0].height.to_bits()), 100.0);
    assert_eq!(back.models[0].groups, vec![(0, vec![GroupProperty::FillColorRgba([255, 0, 0, 255])])]);
    assert_eq!(back.models[0].frames.len(), 1);
    assert_eq!(back.models[0].frames[0].transforms, vec![]);
    assert_eq!(back.models[0].frames[0].delay, 0);
    assert_eq!(back.models[0].frames[0].animation, Animation::Done);
    assert_eq!(back.bitmaps.len(), 0);
    assert_eq!(back, g);
}

#[test]
fn roundtrip_of_every_variant() {
    let g = rich();
    assert!(g.is_encodable());
    let back = Graphic::decode(&g.encode()).unwrap();
    assert_eq!(back, g);
    assert_eq!(back.bitmaps[0].width(), 1);
    assert_eq!(back.bitmaps[0].height(), 2);
    assert_eq!(back.bitmaps[0].srgba(), &[1, 2, 3, 4, 5, 6, 7, 8]);
}

#[test]
fn roundtrip_of_the_empty_graphic() {
    let g = Graphic::new();
    assert!(g.is_encodable());
    assert_eq!(Graphic::decode(&g.encode()), Ok(g));
}

#[test]
fn duplicate_vertices_are_kept() {
    let mut g = Graphic::new();
    g.vertex_list = vec![fl(3.0), fl(4.0), fl(3.0), fl(4.0), fl(3.0), fl(4.0), fl(0.0), fl(0.0), fl(0.0), fl(0.0)];
    let back = Graphic::decode(&g.encode()).unwrap();
    assert_eq!(back.vertex_list, g.vertex_list);
    assert_eq!(back.vertex_list.len(), 10);
}

#[test]
fn empty_path_list_is_one_terminator() {
    let g = Graphic::new();
    let mut expected: Vec<u8> = vec![b'r', b'V', b'g', 0, 0];
    expected.extend_from_slice(&NAN);
    expected.push(0);
    expected.extend_from_slice(&NAN);
    assert_eq!(g.encode(), expected);
    let back = Graphic::decode(&expected).unwrap();
    assert_eq!(back.group.len(), 0);

    let mut one = Graphic::new();
    one.group = vec![vec![PathOp::Close()]];
    assert_eq!(one.encode().len(), expected.len() + 2);
    assert_eq!(&one.encode()[9..12], &[1, 0, 0]);
    assert_eq!(Graphic::decode(&one.encode()).unwrap().group, vec![vec![PathOp::Close()]]);
}

#[test]
fn empty_path_ends_the_list() {
    let mut g = Graphic::new();
    g.group = vec![vec![PathOp::Close()], vec![], vec![PathOp::Move(1)]];
    assert!(!g.is_encodable());
    // the third path is then read as the start of the model list
    assert_ne!(Graphic::decode(&g.encode()), Ok(g));
}

#[test]
fn jump_then_done_is_two_frames() {
    let mut g = Graphic::new();
    g.models = vec![Model {
        width: fl(8.0),
        height: fl(6.0),
        groups: vec![],
        frames: vec![
            Frame { transforms: vec![], delay: 10, animation: Animation::Jump },
            Frame { transforms: vec![], delay: 20, animation: Animation::Done },
        ],
    }];
    let bytes = g.encode();
    let back = Graphic::decode(&bytes).unwrap();
    assert_eq!(back.models.len(), 1);
    assert_eq!(back.models[0].frames.len(), 2);
    assert_eq!(back.models[0].frames[0].animation, Animation::Jump);
    assert_eq!(back.models[0].frames[1].animation, Animation::Done);
    assert_eq!(back.models[0].frames[1].delay, 20);
    assert_eq!(back.bitmaps.len(), 0);
    assert_eq!(&bytes[bytes.len() - 4..], &NAN);
}

#[test]
fn frames_behind_done_are_not_written() {
    let done = Frame { transforms: vec![], delay: 1, animation: Animation::Done };
    let jump = Frame { transforms: vec![], delay: 2, animation: Animation::Jump };
    let mut g = Graphic::new();
    g.models = vec![Model { width: fl(1.0), height: fl(1.0), groups: vec![], frames: vec![done.clone(), jump] }];
    assert!(!g.is_encodable());
    let back = Graphic::decode(&g.encode()).unwrap();
    assert_eq!(back.models[0].frames, vec![done]);
}

#[test]
fn no_bitmaps_when_the_stream_ends_behind_the_models() {
    let bytes = example().encode();
    assert_eq!(&bytes[bytes.len() - 4..], &NAN);
    assert_eq!(Graphic::decode(&bytes).unwrap().bitmaps.len(), 0);
}

#[test]
fn corrupted_magic_is_header_mismatch() {
    let good = rich().encode();
    for i in 0..4 {
        let mut bad = good.clone();
        bad[i] ^= 0x20;
        assert_eq!(Graphic::decode(&bad), Err(DecodeError::HeaderMismatch));
    }
    assert_eq!(Graphic::decode(b"RVG\0"), Err(DecodeError::HeaderMismatch));
    // nothing behind the header is looked at
    assert_eq!(Graphic::decode(&[b'x', b'V', b'g', 0, 99]), Err(DecodeError::HeaderMismatch));
    assert_eq!(Graphic::decode(&[0, 0, 0, 0]), Err(DecodeError::HeaderMismatch));
}

#[test]
fn short_header_is_end_of_input() {
    assert_eq!(Graphic::decode(&[]), Err(DecodeError::UnexpectedEndOfInput));
    assert_eq!(Graphic::decode(b"rVg"), Err(DecodeError::UnexpectedEndOfInput));
    assert_eq!(Graphic::decode(b"xyz"), Err(DecodeError::UnexpectedEndOfInput));
    assert_eq!(Graphic::decode(b"rVg\0"), Err(DecodeError::UnexpectedEndOfInput));
}

#[test]
fn every_cut_before_the_bitmaps_is_end_of_input() {
    let mut g = rich();
    g.bitmaps = vec![];
    let bytes = g.encode();
    for k in 0..bytes.len() {
        assert_eq!(Graphic::decode(&bytes[..k]), Err(DecodeError::UnexpectedEndOfInput), "cut at {}", k);
    }
    assert_eq!(Graphic::decode(&bytes), Ok(g));
}

#[test]
fn cuts_in_the_bitmaps() {
    let g = rich();
    let bytes = g.encode();
    let mut head = rich();
    head.bitmaps = vec![];
    let start = head.encode().len();
    // the bitmaps take 12, 4 and 8 bytes
    assert_eq!(bytes.len(), start + 24);
    for k in start..=bytes.len() {
        let got = Graphic::decode(&bytes[..k]);
        let kept = match k - start {
            0 => Some(0),
            12 => Some(1),
            16 => Some(2),
            24 => Some(3),
            _ => None,
        };
        match kept {
            Some(n) => {
                let mut want = rich();
                want.bitmaps.truncate(n);
                assert_eq!(got, Ok(want));
            }
            None => assert_eq!(got, Err(DecodeError::UnexpectedEndOfInput)),
        }
    }
}

fn with_tail(tail: &[u8]) -> Vec<u8> {
    let mut bytes: Vec<u8> = vec![b'r', b'V', b'g', 0];
    bytes.extend_from_slice(tail);
    bytes
}

#[test]
fn unknown_attribute_tag() {
    assert_eq!(Graphic::decode(&with_tail(&[11])), Err(DecodeError::UnknownTag(Section::Attribute, 11)));
    assert_eq!(Graphic::decode(&with_tail(&[1, 16, 0])), Err(DecodeError::UnknownTag(Section::Attribute, 16)));
    assert_eq!(Graphic::decode(&with_tail(&[255])), Err(DecodeError::UnknownTag(Section::Attribute, 255)));
    assert_eq!(Graphic::decode(&with_tail(&[10])), Err(DecodeError::UnexpectedEndOfInput));
}

#[test]
fn user_defined_attribute_is_tag_ten() {
    let mut g = Graphic::new();
    g.attributes = vec![Attribute::UserDefined(7), Attribute::StrokeWidth];
    assert_eq!(&g.encode()[4..8], &[10, 7, 9, 0]);
}

#[test]
fn unknown_path_tag() {
    let mut tail = vec![0];
    tail.extend_from_slice(&NAN);
    tail.extend_from_slice(&[1, 6]);
    assert_eq!(Graphic::decode(&with_tail(&tail)), Err(DecodeError::UnknownTag(Section::Path, 6)));
}

fn up_to_bindings() -> Vec<u8> {
    let mut tail = vec![0];
    tail.extend_from_slice(&NAN);
    tail.push(0);
    tail.extend_from_slice(&[0, 0, 0x80, 0x3f]);
    tail.extend_from_slice(&[0, 0, 0x80, 0x3f]);
    tail
}

#[test]
fn unknown_property_tag() {
    let mut tail = up_to_bindings();
    tail.extend_from_slice(&[5, 0, 0, 0, 9]);
    assert_eq!(Graphic::decode(&with_tail(&tail)), Err(DecodeError::UnknownTag(Section::GroupProperty, 9)));
}

#[test]
fn unknown_transform_tag() {
    let mut tail = up_to_bindings();
    tail.extend_from_slice(&[0xff, 0xff, 0xff, 0xff, 4]);
    assert_eq!(Graphic::decode(&with_tail(&tail)), Err(DecodeError::UnknownTag(Section::Transform, 4)));
}

#[test]
fn unknown_animation_tag() {
    let mut tail = up_to_bindings();
    tail.extend_from_slice(&[0xff, 0xff, 0xff, 0xff, 0, 0, 0, 7]);
    assert_eq!(Graphic::decode(&with_tail(&tail)), Err(DecodeError::UnknownTag(Section::Animation, 7)));
}

#[test]
fn any_nan_ends_a_float_list() {
    for nan in [0x7fc0_0000u32, 0x7f80_0001, 0xffc0_0000, 0xffff_ffff, 0x7fff_ffff] {
        let mut tail = vec![0];
        tail.extend_from_slice(&[0, 0, 0x80, 0x3f]);
        tail.extend_from_slice(&nan.to_le_bytes());
        tail.push(0);
        tail.extend_from_slice(&nan.to_le_bytes());
        let g = Graphic::decode(&with_tail(&tail)).unwrap();
        assert_eq!(g.vertex_list, vec![fl(1.0)]);
        assert_eq!(g.models.len(), 0);
    }
}

#[test]
fn infinities_are_numbers() {
    for bits in [0x7f80_0000u32, 0xff80_0000, 0x0000_0000, 0x8000_0000, 0x7f7f_ffff] {
        assert!(!Float::from_bits(bits).is_nan());
        assert_eq!(f32::from_bits(bits).is_nan(), Float::from_bits(bits).is_nan());
    }
    for bits in [0x7f80_0001u32, 0x7fc0_0000, 0xff80_0001, 0xffff_ffff] {
        assert!(Float::from_bits(bits).is_nan());
        assert_eq!(f32::from_bits(bits).is_nan(), Float::from_bits(bits).is_nan());
    }
    assert_eq!(Float::from_bits(0x4048_f5c3).to_bits(), 0x4048_f5c3);
    assert_eq!(rvg::primitive::NAN_BITS, f32::NAN.to_bits());
}

#[test]
fn what_the_format_cannot_hold() {
    let mut g = example();
    assert!(g.is_encodable());
    g.vertex_list[2] = fl(f32::NAN);
    assert!(!g.is_encodable());
    assert_ne!(Graphic::decode(&g.encode()), Ok(g));

    let mut g = example();
    g.models[0].width = fl(f32::NAN);
    assert!(!g.is_encodable());

    let mut g = example();
    g.models[0].height = fl(f32::NAN);
    assert!(g.is_encodable());

    let mut g = example();
    g.models[0].groups[0].0 = u32::MAX;
    assert!(!g.is_encodable());

    let mut g = example();
    g.models[0].frames.clear();
    assert!(!g.is_encodable());

    let mut g = example();
    g.models[0].frames[0].animation = Animation::Jump;
    assert!(!g.is_encodable());

    let mut g = example();
    g.group.push(vec![]);
    assert!(!g.is_encodable());
}

#[test]
fn indices_are_checked_on_request() {
    let mut g = example();
    assert!(g.has_valid_indices());
    g.group[0].push(PathOp::Line(2));
    assert!(!g.has_valid_indices());
    // decoding does not refuse it
    assert_eq!(Graphic::decode(&g.encode()), Ok(g));

    let mut g = example();
    g.group[0].push(PathOp::Cubic(0, 1, 2));
    assert!(!g.has_valid_indices());
    g.vertex_list.push(fl(1.0));
    assert!(!g.has_valid_indices());
    g.vertex_list.push(fl(1.0));
    assert!(g.has_valid_indices());

    let mut g = example();
    g.models[0].groups.push((1, vec![]));
    assert!(!g.has_valid_indices());
    g.group.push(vec![PathOp::Close()]);
    assert!(g.has_valid_indices());

    let mut g = example();
    g.group[0].push(PathOp::Quad(1, 2));
    assert!(!g.has_valid_indices());
}

#[test]
fn bitmap_needs_four_bytes_a_pixel() {
    assert!(Bitmap::new(2, 3, vec![0; 24]).is_some());
    assert!(Bitmap::new(2, 3, vec![0; 23]).is_none());
    assert!(Bitmap::new(2, 3, vec![0; 25]).is_none());
    assert!(Bitmap::new(0, 0, vec![]).is_some());
    assert!(Bitmap::new(0, 65535, vec![]).is_some());
    assert!(Bitmap::new(1, 1, vec![]).is_none());
    let b = Bitmap::new(2, 1, vec![1, 2, 3, 4, 5, 6, 7, 8]).unwrap();
    assert_eq!((b.width(), b.height()), (2, 1));
    assert_eq!(b.srgba(), &[1, 2, 3, 4, 5, 6, 7, 8]);
    assert!(b.is_wf());
    assert_eq!(rvg::bitmap::pixel_bytes(65535, 65535), 17_179_344_900);
    assert_eq!(rvg::bitmap::pixel_bytes(300, 300), 360_000);
}

#[test]
fn bitmap_stream_is_exact() {
    let mut g = Graphic::new();
    g.bitmaps = vec![Bitmap::new(0x0102, 0, vec![]).unwrap(), Bitmap::new(1, 1, vec![5, 6, 7, 8]).unwrap()];
    let bytes = g.encode();
    assert_eq!(&bytes[14..], &[0x02, 0x01, 0, 0, 1, 0, 1, 0, 5, 6, 7, 8]);
}

#[test]
fn bitmap_larger_than_the_input() {
    let mut bytes = Graphic::new().encode();
    bytes.extend_from_slice(&[0xff, 0xff, 0xff, 0xff, 1, 2, 3]);
    assert_eq!(Graphic::decode(&bytes), Err(DecodeError::UnexpectedEndOfInput));
    let mut bytes = Graphic::new().encode();
    bytes.extend_from_slice(&[1, 0, 1]);
    assert_eq!(Graphic::decode(&bytes), Err(DecodeError::UnexpectedEndOfInput));
}
