//! Paths and the list of paths.
//!
//! A path is a list of tagged operations with `0` at the end. The list of
//! paths has no terminator of its own: it ends where a path turns out to be
//! empty, so the `0` that would close that path closes the list. An empty
//! path therefore cannot be a member of the list.

use vstd::prelude::*;
use crate::error::{DecodeError, Section};
use crate::primitive::{
    agrees, expected, lemma_agrees_split, lemma_prepend_empty, lemma_prepend_end,
    lemma_prepend_push, lemma_read_u32, lemma_read_u8, prepend, put_u32, read_u32, read_u8,
    take_u32, take_u8, u32_bytes, Parsed,
};

verus! {

/// A path operation. The numbers are indices of vertices.
#[derive(Clone, Copy, Debug, PartialEq, Eq)]
pub enum PathOp {
    /// Close path
    Close(),
    /// Move to
    Move(u32),
    /// Line to
    Line(u32),
    /// Quadratic curve to
    Quad(u32, u32),
    /// Cubic curve to
    Cubic(u32, u32, u32),
}

/// The tag byte of an operation, then its indices, four bytes each.
pub open spec fn path_op_bytes(op: PathOp) -> Seq<u8> {
    match op {
        PathOp::Close() => seq![1u8],
        PathOp::Move(a) => seq![2u8] + u32_bytes(a),
        PathOp::Line(a) => seq![3u8] + u32_bytes(a),
        PathOp::Quad(a, b) => seq![4u8] + u32_bytes(a) + u32_bytes(b),
        PathOp::Cubic(a, b, c) => seq![5u8] + u32_bytes(a) + u32_bytes(b) + u32_bytes(c),
    }
}

/// The operations in order, then the terminating `0`.
pub open spec fn path_bytes(ops: Seq<PathOp>) -> Seq<u8>
    decreases ops.len(),
{
    if ops.len() == 0 {
        seq![0u8]
    } else {
        path_op_bytes(ops[0]) + path_bytes(ops.drop_first())
    }
}

/// The paths in order, then one `0` more: an empty path.
pub open spec fn paths_bytes(paths: Seq<Seq<PathOp>>) -> Seq<u8>
    decreases paths.len(),
{
    if paths.len() == 0 {
        seq![0u8]
    } else {
        path_bytes(paths[0]) + paths_bytes(paths.drop_first())
    }
}

/// No path of the list is empty.
pub open spec fn paths_encodable(paths: Seq<Seq<PathOp>>) -> bool {
    forall|i: int| 0 <= i < paths.len() ==> (#[trigger] paths[i]).len() > 0
}

/// The operation at `pos`, or `None` where the path ends there.
pub open spec fn parse_path_op(s: Seq<u8>, pos: int) -> Parsed<Option<PathOp>> {
    match read_u8(s, pos) {
        Err(e) => Err(e),
        Ok((tag, c0)) => if tag == 0 {
            Ok((None, c0))
        } else if tag == 1 {
            Ok((Some(PathOp::Close()), c0))
        } else if tag == 2 {
            match read_u32(s, c0) {
                Err(e) => Err(e),
                Ok((a, c1)) => Ok((Some(PathOp::Move(a)), c1)),
            }
        } else if tag == 3 {
            match read_u32(s, c0) {
                Err(e) => Err(e),
                Ok((a, c1)) => Ok((Some(PathOp::Line(a)), c1)),
            }
        } else if tag == 4 {
            match read_u32(s, c0) {
                Err(e) => Err(e),
                Ok((a, c1)) => match read_u32(s, c1) {
                    Err(e) => Err(e),
                    Ok((b, c2)) => Ok((Some(PathOp::Quad(a, b)), c2)),
                },
            }
        } else if tag == 5 {
            match read_u32(s, c0) {
                Err(e) => Err(e),
                Ok((a, c1)) => match read_u32(s, c1) {
                    Err(e) => Err(e),
                    Ok((b, c2)) => match read_u32(s, c2) {
                        Err(e) => Err(e),
                        Ok((c, c3)) => Ok((Some(PathOp::Cubic(a, b, c)), c3)),
                    },
                },
            }
        } else {
            Err(DecodeError::UnknownTag(Section::Path, tag))
        },
    }
}

/// The operations from `pos` up to the terminating `0`.
pub open spec fn parse_path(s: Seq<u8>, pos: int) -> Parsed<Seq<PathOp>>
    decreases s.len() - pos,
{
    match parse_path_op(s, pos) {
        Err(e) => Err(e),
        Ok((None, next)) => Ok((Seq::empty(), next)),
        Ok((Some(op), next)) => prepend(seq![op], parse_path(s, next)),
    }
}

/// The paths from `pos` up to the first empty one, which is read and not
/// kept.
pub open spec fn parse_paths(s: Seq<u8>, pos: int) -> Parsed<Seq<Seq<PathOp>>>
    decreases s.len() - pos,
{
    match parse_path(s, pos) {
        Err(e) => Err(e),
        Ok((path, next)) => if path.len() == 0 {
            Ok((Seq::empty(), next))
        } else {
            proof {
                lemma_parse_path_advances(s, pos);
            }
            prepend(seq![path], parse_paths(s, next))
        },
    }
}

/// A path that was read ends behind the position at which it starts, and
/// within the input.
pub proof fn lemma_parse_path_advances(s: Seq<u8>, pos: int)
    ensures
        parse_path(s, pos) matches Ok((_, next)) ==> pos < next <= s.len(),
    decreases s.len() - pos,
{
    match parse_path_op(s, pos) {
        Ok((Some(op), next)) => {
            lemma_parse_path_advances(s, next);
        },
        _ => {},
    }
}

/// On an input that agrees with the encoding of an operation, the parser
/// yields that operation, or the end of the input where the input is cut.
pub proof fn lemma_parse_path_op(s: Seq<u8>, pos: int, op: PathOp)
    requires
        0 <= pos,
        agrees(s, pos, path_op_bytes(op)),
    ensures
        parse_path_op(s, pos) == expected(s, pos, Some(op), path_op_bytes(op).len()),
{
    match op {
        PathOp::Close() => {
            lemma_read_u8(s, pos, 1u8);
        },
        PathOp::Move(a) => {
            lemma_agrees_split(s, pos, seq![2u8], u32_bytes(a));
            lemma_read_u8(s, pos, 2u8);
            lemma_read_u32(s, pos + 1, a);
        },
        PathOp::Line(a) => {
            lemma_agrees_split(s, pos, seq![3u8], u32_bytes(a));
            lemma_read_u8(s, pos, 3u8);
            lemma_read_u32(s, pos + 1, a);
        },
        PathOp::Quad(a, b) => {
            lemma_agrees_split(s, pos, seq![4u8] + u32_bytes(a), u32_bytes(b));
            lemma_agrees_split(s, pos, seq![4u8], u32_bytes(a));
            lemma_read_u8(s, pos, 4u8);
            lemma_read_u32(s, pos + 1, a);
            lemma_read_u32(s, pos + 5, b);
        },
        PathOp::Cubic(a, b, c) => {
            lemma_agrees_split(s, pos, seq![5u8] + u32_bytes(a) + u32_bytes(b), u32_bytes(c));
            lemma_agrees_split(s, pos, seq![5u8] + u32_bytes(a), u32_bytes(b));
            lemma_agrees_split(s, pos, seq![5u8], u32_bytes(a));
            lemma_read_u8(s, pos, 5u8);
            lemma_read_u32(s, pos + 1, a);
            lemma_read_u32(s, pos + 5, b);
            lemma_read_u32(s, pos + 9, c);
        },
    }
}

/// On an input that agrees with the encoding of a path, the parser yields
/// that path, or the end of the input where the input is cut.
pub proof fn lemma_parse_path(s: Seq<u8>, pos: int, ops: Seq<PathOp>)
    requires
        0 <= pos,
        agrees(s, pos, path_bytes(ops)),
    ensures
        parse_path(s, pos) == expected(s, pos, ops, path_bytes(ops).len()),
    decreases ops.len(),
{
    if ops.len() == 0 {
        lemma_read_u8(s, pos, 0u8);
        assert(ops =~= Seq::empty());
    } else {
        let head = path_op_bytes(ops[0]);
        let tail = path_bytes(ops.drop_first());
        lemma_agrees_split(s, pos, head, tail);
        lemma_parse_path_op(s, pos, ops[0]);
        if pos + head.len() <= s.len() {
            lemma_parse_path(s, pos + head.len(), ops.drop_first());
            assert(seq![ops[0]] + ops.drop_first() =~= ops);
        }
    }
}

/// On an input that agrees with the encoding of a list of non-empty paths,
/// the parser yields that list, or the end of the input where the input is
/// cut.
pub proof fn lemma_parse_paths(s: Seq<u8>, pos: int, paths: Seq<Seq<PathOp>>)
    requires
        0 <= pos,
        paths_encodable(paths),
        agrees(s, pos, paths_bytes(paths)),
    ensures
        parse_paths(s, pos) == expected(s, pos, paths, paths_bytes(paths).len()),
    decreases paths.len(),
{
    if paths.len() == 0 {
        lemma_parse_path(s, pos, Seq::empty());
        assert(paths =~= Seq::empty());
    } else {
        let head = path_bytes(paths[0]);
        let tail = paths_bytes(paths.drop_first());
        lemma_agrees_split(s, pos, head, tail);
        lemma_parse_path(s, pos, paths[0]);
        assert(paths[0].len() > 0);
        if pos + head.len() <= s.len() {
            assert forall|i: int| 0 <= i < paths.drop_first().len() implies (#[trigger] paths.drop_first()[i]).len()
                > 0 by {
                assert(paths.drop_first()[i] == paths[i + 1]);
            }
            lemma_parse_paths(s, pos + head.len(), paths.drop_first());
            assert(seq![paths[0]] + paths.drop_first() =~= paths);
        }
    }
}

/// A list of paths that was read holds no empty path.
pub proof fn lemma_parsed_paths_encodable(s: Seq<u8>, pos: int)
    ensures
        parse_paths(s, pos) matches Ok((paths, _)) ==> paths_encodable(paths),
    decreases s.len() - pos,
{
    match parse_path(s, pos) {
        Ok((path, next)) => {
            if path.len() != 0 {
                lemma_parse_path_advances(s, pos);
                lemma_parsed_paths_encodable(s, next);
                match parse_paths(s, next) {
                    Ok((rest, _)) => {
                        let paths = seq![path] + rest;
                        assert forall|i: int| 0 <= i < paths.len() implies (#[trigger] paths[i]).len() > 0 by {
                            if i > 0 {
                                assert(paths[i] == rest[i - 1]);
                            }
                        }
                    },
                    _ => {},
                }
            }
        },
        _ => {},
    }
}

/// The paths that a vector of vectors holds.
pub open spec fn paths_view(v: Seq<Vec<PathOp>>) -> Seq<Seq<PathOp>> {
    Seq::new(v.len(), |i: int| v[i]@)
}

/// Reads the operation at `pos`, or `None` where the path ends there.
pub fn decode_path_op(bytes: &[u8], pos: usize) -> (r: Result<(Option<PathOp>, usize), DecodeError>)
    ensures
        match r {
            Ok((op, next)) => parse_path_op(bytes@, pos as int) == Ok::<(Option<PathOp>, int), DecodeError>(
                (op, next as int),
            ) && pos < next <= bytes@.len(),
            Err(e) => parse_path_op(bytes@, pos as int) == Err::<(Option<PathOp>, int), DecodeError>(e),
        },
{
    let (tag, c0) = match take_u8(bytes, pos) {
        Ok(x) => x,
        Err(e) => return Err(e),
    };
    match tag {
        0 => Ok((None, c0)),
        1 => Ok((Some(PathOp::Close()), c0)),
        2 => {
            let (a, c1) = match take_u32(bytes, c0) {
                Ok(x) => x,
                Err(e) => return Err(e),
            };
            Ok((Some(PathOp::Move(a)), c1))
        },
        3 => {
            let (a, c1) = match take_u32(bytes, c0) {
                Ok(x) => x,
                Err(e) => return Err(e),
            };
            Ok((Some(PathOp::Line(a)), c1))
        },
        4 => {
            let (a, c1) = match take_u32(bytes, c0) {
                Ok(x) => x,
                Err(e) => return Err(e),
            };
            let (b, c2) = match take_u32(bytes, c1) {
                Ok(x) => x,
                Err(e) => return Err(e),
            };
            Ok((Some(PathOp::Quad(a, b)), c2))
        },
        5 => {
            let (a, c1) = match take_u32(bytes, c0) {
                Ok(x) => x,
                Err(e) => return Err(e),
            };
            let (b, c2) = match take_u32(bytes, c1) {
                Ok(x) => x,
                Err(e) => return Err(e),
            };
            let (c, c3) = match take_u32(bytes, c2) {
                Ok(x) => x,
                Err(e) => return Err(e),
            };
            Ok((Some(PathOp::Cubic(a, b, c)), c3))
        },
        _ => Err(DecodeError::UnknownTag(Section::Path, tag)),
    }
}

/// Reads the path that starts at `pos`.
pub fn decode_path(bytes: &[u8], pos: usize) -> (r: Result<(Vec<PathOp>, usize), DecodeError>)
    ensures
        match r {
            Ok((v, next)) => parse_path(bytes@, pos as int) == Ok::<(Seq<PathOp>, int), DecodeError>(
                (v@, next as int),
            ) && pos < next <= bytes@.len(),
            Err(e) => parse_path(bytes@, pos as int) == Err::<(Seq<PathOp>, int), DecodeError>(e),
        },
{
    let mut out: Vec<PathOp> = Vec::new();
    let mut cur: usize = pos;
    proof {
        lemma_prepend_empty(parse_path(bytes@, pos as int));
    }
    loop
        invariant
            pos <= cur,
            parse_path(bytes@, pos as int) == prepend(out@, parse_path(bytes@, cur as int)),
        decreases bytes@.len() - cur,
    {
        match decode_path_op(bytes, cur) {
            Err(e) => {
                return Err(e);
            },
            Ok((None, next)) => {
                proof {
                    lemma_prepend_end(out@, next as int);
                }
                return Ok((out, next));
            },
            Ok((Some(op), next)) => {
                proof {
                    lemma_prepend_push(out@, op, parse_path(bytes@, next as int));
                }
                out.push(op);
                cur = next;
            },
        }
    }
}

/// Reads the list of paths that starts at `pos`.
pub fn decode_paths(bytes: &[u8], pos: usize) -> (r: Result<(Vec<Vec<PathOp>>, usize), DecodeError>)
    ensures
        match r {
            Ok((v, next)) => parse_paths(bytes@, pos as int) == Ok::<(Seq<Seq<PathOp>>, int), DecodeError>(
                (paths_view(v@), next as int),
            ) && pos < next <= bytes@.len(),
            Err(e) => parse_paths(bytes@, pos as int) == Err::<(Seq<Seq<PathOp>>, int), DecodeError>(e),
        },
{
    let mut out: Vec<Vec<PathOp>> = Vec::new();
    let mut cur: usize = pos;
    proof {
        lemma_prepend_empty(parse_paths(bytes@, pos as int));
        assert(paths_view(out@) =~= Seq::empty());
    }
    loop
        invariant
            pos <= cur,
            parse_paths(bytes@, pos as int) == prepend(paths_view(out@), parse_paths(bytes@, cur as int)),
        decreases bytes@.len() - cur,
    {
        match decode_path(bytes, cur) {
            Err(e) => {
                return Err(e);
            },
            Ok((path, next)) => {
                if path.len() == 0 {
                    proof {
                        lemma_prepend_end(paths_view(out@), next as int);
                    }
                    return Ok((out, next));
                }
                proof {
                    lemma_prepend_push(paths_view(out@), path@, parse_paths(bytes@, next as int));
                    assert(paths_view(out@.push(path)) =~= paths_view(out@).push(path@));
                }
                out.push(path);
                cur = next;
            },
        }
    }
}

/// Appends the encoding of one operation.
pub fn encode_path_op(op: PathOp, out: &mut Vec<u8>)
    ensures
        final(out)@ == old(out)@ + path_op_bytes(op),
{
    match op {
        PathOp::Close() => {
            out.push(1);
        },
        PathOp::Move(a) => {
            out.push(2);
            put_u32(out, a);
        },
        PathOp::Line(a) => {
            out.push(3);
            put_u32(out, a);
        },
        PathOp::Quad(a, b) => {
            out.push(4);
            put_u32(out, a);
            put_u32(out, b);
        },
        PathOp::Cubic(a, b, c) => {
            out.push(5);
            put_u32(out, a);
            put_u32(out, b);
            put_u32(out, c);
        },
    }
    assert(out@ =~= old(out)@ + path_op_bytes(op));
}

/// Appends the encoding of one path.
pub fn encode_path(ops: &[PathOp], out: &mut Vec<u8>)
    ensures
        final(out)@ == old(out)@ + path_bytes(ops@),
{
    let mut i: usize = 0;
    assert(ops@.skip(0) =~= ops@);
    while i < ops.len()
        invariant
            i <= ops@.len(),
            old(out)@ + path_bytes(ops@) == out@ + path_bytes(ops@.skip(i as int)),
        decreases ops@.len() - i,
    {
        let ghost before = out@;
        let ghost rest = ops@.skip(i as int);
        encode_path_op(ops[i], out);
        proof {
            assert(rest.drop_first() =~= ops@.skip(i + 1));
            assert(before + (path_op_bytes(rest[0]) + path_bytes(rest.drop_first())) =~= (before
                + path_op_bytes(rest[0])) + path_bytes(rest.drop_first()));
        }
        i += 1;
    }
    let ghost before = out@;
    out.push(0);
    assert(out@ =~= before + path_bytes(ops@.skip(i as int)));
}

/// Appends the encoding of a list of paths.
pub fn encode_paths(paths: &[Vec<PathOp>], out: &mut Vec<u8>)
    ensures
        final(out)@ == old(out)@ + paths_bytes(paths_view(paths@)),
{
    let ghost all = paths_view(paths@);
    let mut i: usize = 0;
    assert(all.skip(0) =~= all);
    while i < paths.len()
        invariant
            i <= paths@.len(),
            all == paths_view(paths@),
            old(out)@ + paths_bytes(all) == out@ + paths_bytes(all.skip(i as int)),
        decreases paths@.len() - i,
    {
        let ghost before = out@;
        let ghost rest = all.skip(i as int);
        encode_path(paths[i].as_slice(), out);
        proof {
            assert(rest[0] == paths@[i as int]@);
            assert(rest.drop_first() =~= all.skip(i + 1));
            assert(before + (path_bytes(rest[0]) + paths_bytes(rest.drop_first())) =~= (before
                + path_bytes(rest[0])) + paths_bytes(rest.drop_first()));
        }
        i += 1;
    }
    let ghost before = out@;
    out.push(0);
    assert(out@ =~= before + paths_bytes(all.skip(i as int)));
}

/// Whether no path of the list is empty.
pub fn paths_can_encode(paths: &[Vec<PathOp>]) -> (b: bool)
    ensures
        b == paths_encodable(paths_view(paths@)),
{
    let mut i: usize = 0;
    while i < paths.len()
        invariant
            i <= paths@.len(),
            forall|j: int| 0 <= j < i ==> (#[trigger] paths_view(paths@)[j]).len() > 0,
        decreases paths@.len() - i,
    {
        if paths[i].len() == 0 {
            assert(paths_view(paths@)[i as int].len() == 0);
            return false;
        }
        i += 1;
    }
    true
}

/// The indices of an operation are below `n`.
pub open spec fn path_op_in_range(op: PathOp, n: int) -> bool {
    match op {
        PathOp::Close() => true,
        PathOp::Move(a) => a < n,
        PathOp::Line(a) => a < n,
        PathOp::Quad(a, b) => a < n && b < n,
        PathOp::Cubic(a, b, c) => a < n && b < n && c < n,
    }
}

/// The indices of every operation of a path are below `n`.
pub open spec fn path_in_range(ops: Seq<PathOp>, n: int) -> bool {
    forall|j: int| 0 <= j < ops.len() ==> path_op_in_range(#[trigger] ops[j], n)
}

/// The indices of every operation of every path are below `n`.
pub open spec fn paths_in_range(paths: Seq<Seq<PathOp>>, n: int) -> bool {
    forall|i: int| 0 <= i < paths.len() ==> path_in_range(#[trigger] paths[i], n)
}

/// Whether the indices of an operation are below `n`.
pub fn check_path_op(op: PathOp, n: usize) -> (b: bool)
    ensures
        b == path_op_in_range(op, n as int),
{
    match op {
        PathOp::Close() => true,
        PathOp::Move(a) => (a as u64) < n as u64,
        PathOp::Line(a) => (a as u64) < n as u64,
        PathOp::Quad(a, b) => (a as u64) < n as u64 && (b as u64) < n as u64,
        PathOp::Cubic(a, b, c) => (a as u64) < n as u64 && (b as u64) < n as u64 && (c as u64) < n as u64,
    }
}

/// Whether the indices of every operation of a path are below `n`.
pub fn check_path(ops: &[PathOp], n: usize) -> (b: bool)
    ensures
        b == path_in_range(ops@, n as int),
{
    let mut j: usize = 0;
    while j < ops.len()
        invariant
            j <= ops@.len(),
            forall|k: int| 0 <= k < j ==> path_op_in_range(#[trigger] ops@[k], n as int),
        decreases ops@.len() - j,
    {
        if !check_path_op(ops[j], n) {
            return false;
        }
        j += 1;
    }
    true
}

/// Whether the indices of every operation of every path are below `n`.
pub fn check_paths(paths: &[Vec<PathOp>], n: usize) -> (b: bool)
    ensures
        b == paths_in_range(paths_view(paths@), n as int),
{
    let mut i: usize = 0;
    while i < paths.len()
        invariant
            i <= paths@.len(),
            forall|k: int| 0 <= k < i ==> path_in_range(#[trigger] paths_view(paths@)[k], n as int),
        decreases paths@.len() - i,
    {
        if !check_path(paths[i].as_slice(), n) {
            assert(!path_in_range(paths_view(paths@)[i as int], n as int));
            return false;
        }
        assert(path_in_range(paths_view(paths@)[i as int], n as int));
        i += 1;
    }
    true
}

} // verus!
