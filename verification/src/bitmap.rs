//! Raster images that stand in for the paths where those cannot be drawn.
//!
//! The bitmaps are the last section of a graphic and have no terminator: the
//! list ends where the input ends. A bitmap is its width and height, two
//! bytes each, then four bytes for each pixel.

use vstd::prelude::*;
use vstd::slice::{slice_subrange, slice_to_vec};
use crate::error::DecodeError;
use crate::primitive::{
    agrees, expected, lemma_agrees_split, lemma_prepend_empty, lemma_prepend_end, lemma_prepend_push,
    lemma_read_u16, lemma_u16_bytes_len, prepend, put_u16, read_u16, take_u16, u16_bytes, Parsed,
};

verus! {

/// Pixel data: `width * height` pixels of four bytes, sRGB with alpha.
#[derive(Clone, Debug, PartialEq, Eq)]
pub struct Bitmap {
    width: u16,
    height: u16,
    srgba: Vec<u8>,
}

/// A bitmap as the format has it.
pub struct BitmapView {
    pub width: u16,
    pub height: u16,
    pub srgba: Seq<u8>,
}

impl BitmapView {
    /// The buffer holds four bytes for each pixel, and nothing else.
    pub open spec fn wf(self) -> bool {
        self.srgba.len() == self.width * self.height * 4
    }
}

impl View for Bitmap {
    type V = BitmapView;

    closed spec fn view(&self) -> BitmapView {
        BitmapView { width: self.width, height: self.height, srgba: self.srgba@ }
    }
}

impl Bitmap {
    /// A bitmap of the given size, if the buffer holds four bytes for each
    /// of its pixels and nothing else.
    pub fn new(width: u16, height: u16, srgba: Vec<u8>) -> (r: Option<Bitmap>)
        ensures
            r is Some <==> srgba@.len() == width * height * 4,
            r matches Some(b) ==> b@ == (BitmapView { width, height, srgba: srgba@ }),
    {
        let need: u64 = pixel_bytes(width, height);
        if srgba.len() as u64 == need {
            Some(Bitmap { width, height, srgba })
        } else {
            None
        }
    }

    /// The width in pixels.
    pub fn width(&self) -> (w: u16)
        ensures
            w == self@.width,
    {
        self.width
    }

    /// The height in pixels.
    pub fn height(&self) -> (h: u16)
        ensures
            h == self@.height,
    {
        self.height
    }

    /// The pixels, row by row, four bytes each.
    pub fn srgba(&self) -> (data: &[u8])
        ensures
            data@ == self@.srgba,
    {
        self.srgba.as_slice()
    }

    /// Whether the buffer holds four bytes for each pixel, and nothing else.
    pub fn is_wf(&self) -> (b: bool)
        ensures
            b == self@.wf(),
    {
        self.srgba.len() as u64 == pixel_bytes(self.width, self.height)
    }
}

/// The number of bytes that the pixels of a bitmap take.
pub fn pixel_bytes(width: u16, height: u16) -> (n: u64)
    ensures
        n == width * height * 4,
{
    assert(width * height <= 65535 * 65535) by (nonlinear_arith)
        requires
            width <= 65535,
            height <= 65535,
    ;
    width as u64 * height as u64 * 4
}

/// The bitmaps that a vector holds.
pub open spec fn bitmaps_view(v: Seq<Bitmap>) -> Seq<BitmapView> {
    Seq::new(v.len(), |i: int| v[i]@)
}

/// Every bitmap of the list is well formed.
pub open spec fn bitmaps_encodable(bs: Seq<BitmapView>) -> bool {
    forall|i: int| 0 <= i < bs.len() ==> (#[trigger] bs[i]).wf()
}

/// Width and height, two bytes each, then the buffer as it is.
pub open spec fn bitmap_bytes(b: BitmapView) -> Seq<u8> {
    u16_bytes(b.width) + u16_bytes(b.height) + b.srgba
}

/// The bitmaps in order, and nothing behind them.
pub open spec fn bitmaps_bytes(bs: Seq<BitmapView>) -> Seq<u8>
    decreases bs.len(),
{
    if bs.len() == 0 {
        Seq::empty()
    } else {
        bitmap_bytes(bs[0]) + bitmaps_bytes(bs.drop_first())
    }
}

/// The bitmap at `pos`: width, height, and four bytes for each pixel.
pub open spec fn parse_bitmap(s: Seq<u8>, pos: int) -> Parsed<BitmapView> {
    match read_u16(s, pos) {
        Err(e) => Err(e),
        Ok((width, c0)) => match read_u16(s, c0) {
            Err(e) => Err(e),
            Ok((height, c1)) => {
                let end = c1 + width * height * 4;
                if end <= s.len() {
                    Ok((BitmapView { width, height, srgba: s.subrange(c1, end) }, end))
                } else {
                    Err(DecodeError::UnexpectedEndOfInput)
                }
            },
        },
    }
}

/// The bitmaps from `pos` up to the end of the input.
pub open spec fn parse_bitmaps(s: Seq<u8>, pos: int) -> Parsed<Seq<BitmapView>>
    decreases s.len() - pos,
{
    if pos >= s.len() {
        Ok((Seq::empty(), pos))
    } else {
        match parse_bitmap(s, pos) {
            Err(e) => Err(e),
            Ok((b, next)) => prepend(seq![b], parse_bitmaps(s, next)),
        }
    }
}

/// How many of the first bitmaps of `bs` have encodings that together are
/// exactly `k` bytes long; `None` where `k` bytes end inside a bitmap or
/// behind the last.
pub open spec fn whole_bitmaps(bs: Seq<BitmapView>, k: int) -> Option<int>
    decreases bs.len(),
{
    if k == 0 {
        Some(0)
    } else if bs.len() == 0 || k < bitmap_bytes(bs[0]).len() {
        None
    } else {
        match whole_bitmaps(bs.drop_first(), k - bitmap_bytes(bs[0]).len()) {
            Some(j) => Some(j + 1),
            None => None,
        }
    }
}

/// What the parser yields on an input that agrees with the encoding of `bs`
/// and ends within it: the bitmaps that the input holds, if it ends between
/// two of them, and otherwise the end of the input.
pub open spec fn expected_bitmaps(s: Seq<u8>, pos: int, bs: Seq<BitmapView>) -> Parsed<Seq<BitmapView>> {
    match whole_bitmaps(bs, s.len() - pos) {
        Some(j) => Ok((bs.take(j), s.len() as int)),
        None => Err(DecodeError::UnexpectedEndOfInput),
    }
}

/// The encoding of a bitmap is at least four bytes long.
pub proof fn lemma_bitmap_bytes_len(b: BitmapView)
    ensures
        bitmap_bytes(b).len() == 4 + b.srgba.len(),
{
    lemma_u16_bytes_len(b.width);
    lemma_u16_bytes_len(b.height);
}

/// The whole encoding of a list holds all its bitmaps.
pub proof fn lemma_whole_bitmaps_all(bs: Seq<BitmapView>)
    ensures
        whole_bitmaps(bs, bitmaps_bytes(bs).len() as int) == Some(bs.len() as int),
    decreases bs.len(),
{
    if bs.len() > 0 {
        lemma_bitmap_bytes_len(bs[0]);
        lemma_whole_bitmaps_all(bs.drop_first());
    }
}

/// The count that `whole_bitmaps` gives is a number of bitmaps of the list.
pub proof fn lemma_whole_bitmaps_range(bs: Seq<BitmapView>, k: int)
    ensures
        whole_bitmaps(bs, k) matches Some(j) ==> 0 <= j <= bs.len(),
    decreases bs.len(),
{
    if k != 0 && bs.len() > 0 && k >= bitmap_bytes(bs[0]).len() {
        lemma_whole_bitmaps_range(bs.drop_first(), k - bitmap_bytes(bs[0]).len());
    }
}

/// On an input that agrees with the encoding of a well-formed bitmap, the
/// parser yields that bitmap, or the end of the input where the input is
/// cut.
pub proof fn lemma_parse_bitmap(s: Seq<u8>, pos: int, b: BitmapView)
    requires
        0 <= pos,
        b.wf(),
        agrees(s, pos, bitmap_bytes(b)),
    ensures
        parse_bitmap(s, pos) == expected(s, pos, b, bitmap_bytes(b).len()),
{
    reveal(agrees);
    let w = u16_bytes(b.width);
    let h = u16_bytes(b.height);
    lemma_agrees_split(s, pos, w + h, b.srgba);
    lemma_agrees_split(s, pos, w, h);
    lemma_read_u16(s, pos, b.width);
    lemma_read_u16(s, pos + 2, b.height);
    let end = pos + 4 + b.srgba.len();
    if end <= s.len() {
        assert(s.subrange(pos + 4, end) =~= b.srgba) by {
            assert forall|i: int| 0 <= i < b.srgba.len() implies s.subrange(pos + 4, end)[i] == b.srgba[i] by {
                assert(s[pos + 4 + i] == b.srgba[i]);
            }
        }
    }
}

/// On an input that agrees with the encoding of a list of well-formed
/// bitmaps and ends within it, the parser yields the bitmaps that the input
/// holds, if it ends between two of them, and otherwise the end of the
/// input.
pub proof fn lemma_parse_bitmaps(s: Seq<u8>, pos: int, bs: Seq<BitmapView>)
    requires
        0 <= pos <= s.len() <= pos + bitmaps_bytes(bs).len(),
        bitmaps_encodable(bs),
        agrees(s, pos, bitmaps_bytes(bs)),
    ensures
        parse_bitmaps(s, pos) == expected_bitmaps(s, pos, bs),
    decreases bs.len(),
{
    if pos >= s.len() {
        assert(bs.take(0) =~= Seq::empty());
    } else {
        let head = bitmap_bytes(bs[0]);
        let rest = bs.drop_first();
        lemma_bitmap_bytes_len(bs[0]);
        lemma_agrees_split(s, pos, head, bitmaps_bytes(rest));
        lemma_parse_bitmap(s, pos, bs[0]);
        if pos + head.len() <= s.len() {
            assert(bitmaps_encodable(rest)) by {
                assert forall|i: int| 0 <= i < rest.len() implies (#[trigger] rest[i]).wf() by {
                    assert(rest[i] == bs[i + 1]);
                }
            }
            lemma_parse_bitmaps(s, pos + head.len(), rest);
            let k = s.len() - pos - head.len();
            lemma_whole_bitmaps_range(rest, k);
            match whole_bitmaps(rest, k) {
                Some(j) => {
                    assert(seq![bs[0]] + rest.take(j) =~= bs.take(j + 1));
                },
                None => {},
            }
        }
    }
}

/// Every bitmap of a list that was read is well formed.
pub proof fn lemma_parsed_bitmaps_encodable(s: Seq<u8>, pos: int)
    ensures
        parse_bitmaps(s, pos) matches Ok((bs, _)) ==> bitmaps_encodable(bs),
    decreases s.len() - pos,
{
    if pos < s.len() {
        match parse_bitmap(s, pos) {
            Ok((b, next)) => {
                lemma_parsed_bitmaps_encodable(s, next);
                match parse_bitmaps(s, next) {
                    Ok((rest, _)) => {
                        let bs = seq![b] + rest;
                        assert forall|i: int| 0 <= i < bs.len() implies (#[trigger] bs[i]).wf() by {
                            if i > 0 {
                                assert(bs[i] == rest[i - 1]);
                            }
                        }
                    },
                    _ => {},
                }
            },
            _ => {},
        }
    }
}

/// Reads the bitmap at `pos`.
pub fn decode_bitmap(bytes: &[u8], pos: usize) -> (r: Result<(Bitmap, usize), DecodeError>)
    ensures
        match r {
            Ok((b, next)) => parse_bitmap(bytes@, pos as int) == Ok::<(BitmapView, int), DecodeError>(
                (b@, next as int),
            ) && pos < next <= bytes@.len() && b@.wf(),
            Err(e) => parse_bitmap(bytes@, pos as int) == Err::<(BitmapView, int), DecodeError>(e),
        },
{
    let (width, c0) = match take_u16(bytes, pos) {
        Ok(v) => v,
        Err(e) => return Err(e),
    };
    let (height, c1) = match take_u16(bytes, c0) {
        Ok(v) => v,
        Err(e) => return Err(e),
    };
    let need: u64 = pixel_bytes(width, height);
    if need > (bytes.len() - c1) as u64 {
        return Err(DecodeError::UnexpectedEndOfInput);
    }
    let end: usize = c1 + need as usize;
    let srgba: Vec<u8> = slice_to_vec(slice_subrange(bytes, c1, end));
    Ok((Bitmap { width, height, srgba }, end))
}

/// Reads the bitmaps from `pos` up to the end of the input.
pub fn decode_bitmaps(bytes: &[u8], pos: usize) -> (r: Result<(Vec<Bitmap>, usize), DecodeError>)
    ensures
        match r {
            Ok((v, next)) => parse_bitmaps(bytes@, pos as int) == Ok::<(Seq<BitmapView>, int), DecodeError>(
                (bitmaps_view(v@), next as int),
            ) && bitmaps_encodable(bitmaps_view(v@)),
            Err(e) => parse_bitmaps(bytes@, pos as int) == Err::<(Seq<BitmapView>, int), DecodeError>(e),
        },
{
    let mut out: Vec<Bitmap> = Vec::new();
    let mut cur: usize = pos;
    proof {
        lemma_prepend_empty(parse_bitmaps(bytes@, pos as int));
        assert(bitmaps_view(out@) =~= Seq::empty());
    }
    while cur < bytes.len()
        invariant
            pos <= cur,
            parse_bitmaps(bytes@, pos as int) == prepend(bitmaps_view(out@), parse_bitmaps(bytes@, cur as int)),
            bitmaps_encodable(bitmaps_view(out@)),
        decreases bytes@.len() - cur,
    {
        let (b, next) = match decode_bitmap(bytes, cur) {
            Ok(v) => v,
            Err(e) => return Err(e),
        };
        proof {
            lemma_prepend_push(bitmaps_view(out@), b@, parse_bitmaps(bytes@, next as int));
            assert(bitmaps_view(out@.push(b)) =~= bitmaps_view(out@).push(b@));
        }
        out.push(b);
        cur = next;
    }
    proof {
        lemma_prepend_end(bitmaps_view(out@), cur as int);
    }
    Ok((out, cur))
}

/// Appends the encoding of one bitmap.
pub fn encode_bitmap(b: &Bitmap, out: &mut Vec<u8>)
    ensures
        final(out)@ == old(out)@ + bitmap_bytes(b@),
{
    put_u16(out, b.width);
    put_u16(out, b.height);
    let ghost before = out@;
    let mut i: usize = 0;
    while i < b.srgba.len()
        invariant
            i <= b.srgba@.len(),
            out@ == before + b.srgba@.take(i as int),
        decreases b.srgba@.len() - i,
    {
        out.push(b.srgba[i]);
        assert(b.srgba@.take(i + 1) =~= b.srgba@.take(i as int).push(b.srgba@[i as int]));
        i += 1;
    }
    assert(b.srgba@.take(i as int) =~= b.srgba@);
    assert(out@ =~= old(out)@ + bitmap_bytes(b@));
}

/// Appends the encoding of a bitmap list.
pub fn encode_bitmaps(bs: &[Bitmap], out: &mut Vec<u8>)
    ensures
        final(out)@ == old(out)@ + bitmaps_bytes(bitmaps_view(bs@)),
{
    let ghost all = bitmaps_view(bs@);
    let mut i: usize = 0;
    assert(all.skip(0) =~= all);
    while i < bs.len()
        invariant
            i <= bs@.len(),
            all == bitmaps_view(bs@),
            old(out)@ + bitmaps_bytes(all) == out@ + bitmaps_bytes(all.skip(i as int)),
        decreases bs@.len() - i,
    {
        let ghost before = out@;
        let ghost rest = all.skip(i as int);
        encode_bitmap(&bs[i], out);
        proof {
            assert(rest[0] == bs@[i as int]@);
            assert(rest.drop_first() =~= all.skip(i + 1));
            assert(before + (bitmap_bytes(rest[0]) + bitmaps_bytes(rest.drop_first())) =~= (before
                + bitmap_bytes(rest[0])) + bitmaps_bytes(rest.drop_first()));
        }
        i += 1;
    }
    assert(out@ + bitmaps_bytes(all.skip(i as int)) =~= out@);
}

/// Whether every bitmap of the list is well formed.
pub fn bitmaps_can_encode(bs: &[Bitmap]) -> (b: bool)
    ensures
        b == bitmaps_encodable(bitmaps_view(bs@)),
{
    let mut i: usize = 0;
    while i < bs.len()
        invariant
            i <= bs@.len(),
            forall|j: int| 0 <= j < i ==> (#[trigger] bitmaps_view(bs@)[j]).wf(),
        decreases bs@.len() - i,
    {
        if !bs[i].is_wf() {
            assert(!bitmaps_view(bs@)[i as int].wf());
            return false;
        }
        assert(bitmaps_view(bs@)[i as int].wf());
        i += 1;
    }
    true
}

} // verus!
