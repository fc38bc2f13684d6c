//! Fixed-width little-endian values and the byte cursor they are read with.
//!
//! A parser of this crate is a function of the whole input and a position in
//! it; it yields the value read and the position after it, or an error.

use vstd::prelude::*;
use crate::error::DecodeError;

verus! {

/// Bit pattern of the quiet NaN that terminates float lists.
pub const NAN_BITS: u32 = 0x7fc0_0000;

/// An IEEE-754 binary32 number, held by its bit pattern.
#[derive(Clone, Copy, Debug, PartialEq, Eq)]
pub struct Float {
    pub bits: u32,
}

impl Float {
    /// Exponent all ones and a non-zero mantissa, whatever the sign.
    pub open spec fn is_nan_spec(self) -> bool {
        self.bits % 0x8000_0000 > 0x7f80_0000
    }

    /// The number with the given bit pattern.
    pub fn from_bits(bits: u32) -> (f: Float)
        ensures
            f.bits == bits,
    {
        Float { bits }
    }

    /// The bit pattern of the number.
    pub fn to_bits(self) -> (bits: u32)
        ensures
            bits == self.bits,
    {
        self.bits
    }

    /// Whether the number is a NaN.
    #[verifier::when_used_as_spec(is_nan_spec)]
    pub fn is_nan(self) -> (b: bool)
        ensures
            b == self.is_nan_spec(),
    {
        self.bits % 0x8000_0000 > 0x7f80_0000
    }
}

/// What a parser yields: the value and the position after it.
pub type Parsed<T> = Result<(T, int), DecodeError>;

/// The two bytes of `x`, least significant first.
#[verifier::opaque]
pub open spec fn u16_bytes(x: u16) -> Seq<u8> {
    seq![(x % 256) as u8, (x / 256) as u8]
}

/// The four bytes of `x`, least significant first.
#[verifier::opaque]
pub open spec fn u32_bytes(x: u32) -> Seq<u8> {
    seq![
        (x % 256) as u8,
        (x / 256 % 256) as u8,
        (x / 65536 % 256) as u8,
        (x / 16777216) as u8,
    ]
}

/// The four bytes of the bit pattern of `x`, least significant first.
pub open spec fn float_bytes(x: Float) -> Seq<u8> {
    u32_bytes(x.bits)
}

/// The number whose little-endian bytes are `b0`, `b1`.
pub open spec fn u16_of(b0: u8, b1: u8) -> u16 {
    (b0 + 256 * b1) as u16
}

/// The number whose little-endian bytes are `b0` to `b3`.
pub open spec fn u32_of(b0: u8, b1: u8, b2: u8, b3: u8) -> u32 {
    (b0 + 256 * b1 + 65536 * b2 + 16777216 * b3) as u32
}

/// A `u16` takes two bytes.
pub proof fn lemma_u16_bytes_len(x: u16)
    ensures
        u16_bytes(x).len() == 2,
{
    reveal(u16_bytes);
}

/// A float takes four bytes.
pub proof fn lemma_float_bytes_len(x: Float)
    ensures
        float_bytes(x).len() == 4,
{
    reveal(u32_bytes);
}

/// One byte at `pos`.
pub open spec fn read_u8(s: Seq<u8>, pos: int) -> Parsed<u8> {
    if 0 <= pos && pos + 1 <= s.len() {
        Ok((s[pos], pos + 1))
    } else {
        Err(DecodeError::UnexpectedEndOfInput)
    }
}

/// A little-endian `u16` at `pos`.
pub open spec fn read_u16(s: Seq<u8>, pos: int) -> Parsed<u16> {
    if 0 <= pos && pos + 2 <= s.len() {
        Ok((u16_of(s[pos], s[pos + 1]), pos + 2))
    } else {
        Err(DecodeError::UnexpectedEndOfInput)
    }
}

/// A little-endian `u32` at `pos`.
pub open spec fn read_u32(s: Seq<u8>, pos: int) -> Parsed<u32> {
    if 0 <= pos && pos + 4 <= s.len() {
        Ok((u32_of(s[pos], s[pos + 1], s[pos + 2], s[pos + 3]), pos + 4))
    } else {
        Err(DecodeError::UnexpectedEndOfInput)
    }
}

/// A float at `pos`, by the little-endian bytes of its bit pattern.
pub open spec fn read_float(s: Seq<u8>, pos: int) -> Parsed<Float> {
    match read_u32(s, pos) {
        Ok((bits, next)) => Ok((Float { bits }, next)),
        Err(e) => Err(e),
    }
}

/// As far as `s` reaches from `pos` on, it holds the bytes `b`.
#[verifier::opaque]
pub open spec fn agrees(s: Seq<u8>, pos: int, b: Seq<u8>) -> bool {
    forall|i: int| 0 <= i < b.len() && pos + i < s.len() ==> s[pos + i] == #[trigger] b[i]
}

/// What a parser yields at `pos` on an input that agrees with the encoding
/// of `value`, `len` bytes long: the value if the input holds all of the
/// encoding, and otherwise the end of the input.
pub open spec fn expected<T>(s: Seq<u8>, pos: int, value: T, len: nat) -> Parsed<T> {
    if pos + len <= s.len() {
        Ok((value, pos + len))
    } else {
        Err(DecodeError::UnexpectedEndOfInput)
    }
}

/// The list parsed behind the items `acc`: `acc` in front of what `rest` holds.
pub open spec fn prepend<T>(acc: Seq<T>, rest: Parsed<Seq<T>>) -> Parsed<Seq<T>> {
    match rest {
        Ok((xs, end)) => Ok((acc + xs, end)),
        Err(e) => Err(e),
    }
}

/// Putting nothing in front changes nothing.
pub proof fn lemma_prepend_empty<T>(rest: Parsed<Seq<T>>)
    ensures
        prepend(Seq::empty(), rest) == rest,
{
    match rest {
        Ok((xs, end)) => {
            assert(Seq::<T>::empty() + xs =~= xs);
        },
        Err(e) => {},
    }
}

/// Putting `acc` in front of a list that starts with `x` is putting
/// `acc.push(x)` in front of what follows `x`.
pub proof fn lemma_prepend_push<T>(acc: Seq<T>, x: T, rest: Parsed<Seq<T>>)
    ensures
        prepend(acc, prepend(seq![x], rest)) == prepend(acc.push(x), rest),
{
    match rest {
        Ok((xs, end)) => {
            assert(acc + (seq![x] + xs) =~= acc.push(x) + xs);
        },
        Err(e) => {},
    }
}

/// Putting `acc` in front of a list that has ended gives `acc`.
pub proof fn lemma_prepend_end<T>(acc: Seq<T>, end: int)
    ensures
        prepend(acc, Ok((Seq::empty(), end))) == Ok::<(Seq<T>, int), DecodeError>((acc, end)),
{
    assert(acc + Seq::<T>::empty() =~= acc);
}

/// An input that agrees with `a + b` agrees with `a`, and behind `a` with `b`.
pub proof fn lemma_agrees_split(s: Seq<u8>, pos: int, a: Seq<u8>, b: Seq<u8>)
    requires
        agrees(s, pos, a + b),
    ensures
        agrees(s, pos, a),
        agrees(s, pos + a.len(), b),
{
    reveal(agrees);
    assert forall|i: int| 0 <= i < a.len() && pos + i < s.len() implies s[pos + i] == #[trigger] a[i] by {
        assert((a + b)[i] == a[i]);
    }
    assert forall|i: int| 0 <= i < b.len() && pos + a.len() + i < s.len() implies s[pos + a.len() + i]
        == #[trigger] b[i] by {
        assert((a + b)[i + a.len()] == b[i]);
    }
}

/// Every input agrees with itself from the start.
pub proof fn lemma_agrees_whole(s: Seq<u8>)
    ensures
        agrees(s, 0, s),
{
    reveal(agrees);
}

/// A prefix of an input agrees with the input.
pub proof fn lemma_agrees_prefix(s: Seq<u8>, k: int)
    requires
        0 <= k <= s.len(),
    ensures
        agrees(s.take(k), 0, s),
{
    reveal(agrees);
}

/// On an input that agrees with one byte, the reader yields that byte, or
/// the end of the input where the input ends before it.
pub proof fn lemma_read_u8(s: Seq<u8>, pos: int, x: u8)
    requires
        0 <= pos,
        agrees(s, pos, seq![x]),
    ensures
        read_u8(s, pos) == expected(s, pos, x, 1),
{
    reveal(agrees);
    if pos + 1 <= s.len() {
        assert(seq![x][0] == x);
    }
}

/// On an input that agrees with the two bytes of `x`, the reader yields `x`,
/// or the end of the input where the input is cut.
pub proof fn lemma_read_u16(s: Seq<u8>, pos: int, x: u16)
    requires
        0 <= pos,
        agrees(s, pos, u16_bytes(x)),
    ensures
        u16_bytes(x).len() == 2,
        read_u16(s, pos) == expected(s, pos, x, 2),
{
    reveal(agrees);
    reveal(u16_bytes);
    let b = u16_bytes(x);
    if pos + 2 <= s.len() {
        assert(s[pos] == b[0] && s[pos + 1] == b[1]);
    }
}

/// On an input that agrees with the four bytes of `x`, the reader yields
/// `x`, or the end of the input where the input is cut.
pub proof fn lemma_read_u32(s: Seq<u8>, pos: int, x: u32)
    requires
        0 <= pos,
        agrees(s, pos, u32_bytes(x)),
    ensures
        u32_bytes(x).len() == 4,
        read_u32(s, pos) == expected(s, pos, x, 4),
{
    reveal(agrees);
    reveal(u32_bytes);
    let b = u32_bytes(x);
    if pos + 4 <= s.len() {
        assert(s[pos] == b[0] && s[pos + 1] == b[1] && s[pos + 2] == b[2] && s[pos + 3] == b[3]);
    }
}

/// On an input that agrees with the four bytes of `x`, the reader yields
/// `x`, or the end of the input where the input is cut.
pub proof fn lemma_read_float(s: Seq<u8>, pos: int, x: Float)
    requires
        0 <= pos,
        agrees(s, pos, float_bytes(x)),
    ensures
        float_bytes(x).len() == 4,
        read_float(s, pos) == expected(s, pos, x, 4),
{
    lemma_read_u32(s, pos, x.bits);
}

/// Reads one byte at `pos`.
pub fn take_u8(bytes: &[u8], pos: usize) -> (r: Result<(u8, usize), DecodeError>)
    ensures
        match r {
            Ok((x, next)) => read_u8(bytes@, pos as int) == Ok::<(u8, int), DecodeError>((x, next as int)),
            Err(e) => read_u8(bytes@, pos as int) == Err::<(u8, int), DecodeError>(e),
        },
{
    if pos < bytes.len() {
        Ok((bytes[pos], pos + 1))
    } else {
        Err(DecodeError::UnexpectedEndOfInput)
    }
}

/// Reads a little-endian `u16` at `pos`.
pub fn take_u16(bytes: &[u8], pos: usize) -> (r: Result<(u16, usize), DecodeError>)
    ensures
        match r {
            Ok((x, next)) => read_u16(bytes@, pos as int) == Ok::<(u16, int), DecodeError>((x, next as int)),
            Err(e) => read_u16(bytes@, pos as int) == Err::<(u16, int), DecodeError>(e),
        },
{
    if pos <= bytes.len() && bytes.len() - pos >= 2 {
        let x: u16 = bytes[pos] as u16 + 256 * (bytes[pos + 1] as u16);
        Ok((x, pos + 2))
    } else {
        Err(DecodeError::UnexpectedEndOfInput)
    }
}

/// Reads a little-endian `u32` at `pos`.
pub fn take_u32(bytes: &[u8], pos: usize) -> (r: Result<(u32, usize), DecodeError>)
    ensures
        match r {
            Ok((x, next)) => read_u32(bytes@, pos as int) == Ok::<(u32, int), DecodeError>((x, next as int)),
            Err(e) => read_u32(bytes@, pos as int) == Err::<(u32, int), DecodeError>(e),
        },
{
    if pos <= bytes.len() && bytes.len() - pos >= 4 {
        let x: u32 = bytes[pos] as u32 + 256 * (bytes[pos + 1] as u32) + 65536 * (bytes[pos + 2] as u32)
            + 16777216 * (bytes[pos + 3] as u32);
        Ok((x, pos + 4))
    } else {
        Err(DecodeError::UnexpectedEndOfInput)
    }
}

/// Reads a float at `pos`.
pub fn take_float(bytes: &[u8], pos: usize) -> (r: Result<(Float, usize), DecodeError>)
    ensures
        match r {
            Ok((x, next)) => read_float(bytes@, pos as int) == Ok::<(Float, int), DecodeError>((x, next as int)),
            Err(e) => read_float(bytes@, pos as int) == Err::<(Float, int), DecodeError>(e),
        },
{
    match take_u32(bytes, pos) {
        Ok((bits, next)) => Ok((Float { bits }, next)),
        Err(e) => Err(e),
    }
}

/// Appends the two little-endian bytes of `x`.
pub fn put_u16(out: &mut Vec<u8>, x: u16)
    ensures
        final(out)@ == old(out)@ + u16_bytes(x),
{
    proof {
        reveal(u16_bytes);
    }
    out.push((x % 256) as u8);
    out.push((x / 256) as u8);
    assert(out@ =~= old(out)@ + u16_bytes(x));
}

/// Appends the four little-endian bytes of `x`.
pub fn put_u32(out: &mut Vec<u8>, x: u32)
    ensures
        final(out)@ == old(out)@ + u32_bytes(x),
{
    proof {
        reveal(u32_bytes);
    }
    out.push((x % 256) as u8);
    out.push((x / 256 % 256) as u8);
    out.push((x / 65536 % 256) as u8);
    out.push((x / 16777216) as u8);
    assert(out@ =~= old(out)@ + u32_bytes(x));
}

/// Appends the four little-endian bytes of the bit pattern of `x`.
pub fn put_float(out: &mut Vec<u8>, x: Float)
    ensures
        final(out)@ == old(out)@ + float_bytes(x),
{
    put_u32(out, x.bits);
}

} // verus!
