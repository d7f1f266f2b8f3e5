//! Reading frames: the declared length, validation without output, and
//! full decompression.
use vstd::prelude::*;

use crate::format::{
    apply_token, byte_bound, copy_back, declared_length, decoded, is_valid_frame, le_value,
    lemma_byte_bounds, lemma_copy_back_len, lemma_run_grows, parse_token, run_tokens, varint_from,
    varint_limit, Token,
};

verus! {

/// The single error of the decoding side: the bytes are not a frame this
/// codec can read.
#[derive(Debug, Clone, Copy, PartialEq, Eq)]
pub struct InvalidInput;

/// The most output space that decompression reserves ahead from the
/// header's declared length, which an untrusted frame may overstate.
const MAX_RESERVE: u64 = 0x10_0000;

/// A token as the decoder finds it in the frame.
enum Op {
    /// `len` bytes to append, found in the frame from index `start`.
    Literal { start: usize, len: usize },
    /// `len` bytes to append, each the byte `offset` places before it.
    Copy { offset: u64, len: usize },
}

/// The token that `op` stands for in the frame `src`.
spec fn op_token(src: Seq<u8>, op: Op) -> Token {
    match op {
        Op::Literal { start, len } => Token::Literal(src.subrange(start as int, start + len)),
        Op::Copy { offset, len } => Token::Copy { offset: offset as nat, len: len as nat },
    }
}

/// Reads the header varint from byte `i` on.
fn read_varint_from(src: &[u8], i: usize) -> (r: Option<(u64, usize)>)
    requires
        i <= 4,
    ensures
        match r {
            Some((v, e)) => varint_from(src@, i as nat) == Some((v as nat, e as nat))
                && v < varint_limit(i as nat) && e <= src.len(),
            None => varint_from(src@, i as nat) is None,
        },
    decreases 4 - i,
{
    if i >= src.len() {
        return None;
    }
    let b = src[i];
    if i == 4 {
        if b < 16 {
            Some((b as u64, 5))
        } else {
            None
        }
    } else if b < 128 {
        Some((b as u64, i + 1))
    } else {
        match read_varint_from(src, i + 1) {
            Some((v, e)) => Some(((b - 128) as u64 + 128 * v, e)),
            None => None,
        }
    }
}

/// The decoded length that the frame's header declares. Fails when the
/// header is missing, cut short, longer than five bytes, over 32 bits, or
/// too large for `usize`. Reads the header alone.
pub fn uncompressed_length(src: &[u8]) -> (r: Result<usize, InvalidInput>)
    ensures
        r is Ok <==> (declared_length(src@) is Some && declared_length(src@)->0 <= usize::MAX),
        r is Ok ==> declared_length(src@) == Some(r->Ok_0 as nat),
{
    match read_varint_from(src, 0) {
        Some((v, _)) => {
            if v <= usize::MAX as u64 {
                Ok(v as usize)
            } else {
                Err(InvalidInput)
            }
        },
        None => Err(InvalidInput),
    }
}

/// The value of `n` bytes from `start`, read little-endian.
fn read_le(src: &[u8], start: usize, n: usize) -> (r: u64)
    requires
        n <= 4,
        start + n <= src.len(),
    ensures
        r as nat == le_value(src@.subrange(start as int, start + n)),
        r < byte_bound(n as nat),
{
    proof {
        lemma_byte_bounds();
        reveal_with_fuel(byte_bound, 1);
    }
    let mut v: u64 = 0;
    let mut i: usize = n;
    while i > 0
        invariant
            i <= n <= 4,
            start + n <= src.len(),
            v as nat == le_value(src@.subrange(start + i, start + n)),
            v < byte_bound((n - i) as nat),
            byte_bound(1) == 0x100,
            byte_bound(2) == 0x1_0000,
            byte_bound(3) == 0x100_0000,
            byte_bound(4) == 0x1_0000_0000,
            byte_bound(0) == 1,
        decreases i,
    {
        let ghost s = src@.subrange(start + i - 1, start + n);
        assert(s.drop_first() =~= src@.subrange(start + i, start + n));
        assert(byte_bound((n - i + 1) as nat) == 256 * byte_bound((n - i) as nat));
        v = src[start + i - 1] as u64 + 256 * v;
        i = i - 1;
    }
    v
}

/// Reads the token that starts at `pos`.
fn read_token(src: &[u8], pos: usize) -> (r: Option<(Op, usize)>)
    requires
        pos < src.len(),
    ensures
        match r {
            Some((op, next)) => pos < next <= src.len() && (op matches Op::Literal { start, len }
                ==> start + len <= src.len()) && parse_token(
                src@.subrange(pos as int, src@.len() as int),
            ) == Some((op_token(src@, op), (next - pos) as nat)),
            None => parse_token(src@.subrange(pos as int, src@.len() as int)) is None,
        },
{
    let ghost rest = src@.subrange(pos as int, src@.len() as int);
    let tag = src[pos];
    assert(rest[0] == tag);
    let kind = tag % 4;
    let up = tag / 4;
    let avail = src.len() - pos;
    if kind == 0 {
        if up < 60 {
            let len = up as usize + 1;
            if len > avail - 1 {
                return None;
            }
            assert(rest.subrange(1, 1 + len) =~= src@.subrange(pos + 1, pos + 1 + len));
            Some((Op::Literal { start: pos + 1, len }, pos + 1 + len))
        } else {
            let extra = (up - 59) as usize;
            if extra > avail - 1 {
                return None;
            }
            let v = read_le(src, pos + 1, extra);
            assert(rest.subrange(1, 1 + extra) =~= src@.subrange(pos + 1, pos + 1 + extra));
            proof {
                lemma_byte_bounds();
            }
            let len64 = v + 1;
            if len64 > (avail - 1 - extra) as u64 {
                return None;
            }
            let len = len64 as usize;
            let start = pos + 1 + extra;
            assert(rest.subrange(1 + extra, 1 + extra + len) =~= src@.subrange(
                start as int,
                start + len,
            ));
            Some((Op::Literal { start, len }, start + len))
        }
    } else if kind == 1 {
        if avail < 2 {
            return None;
        }
        assert(rest[1] == src[pos + 1]);
        let offset = (up / 8) as u64 * 256 + src[pos + 1] as u64;
        Some((Op::Copy { offset, len: 4 + (up % 8) as usize }, pos + 2))
    } else if kind == 2 {
        if avail < 3 {
            return None;
        }
        let offset = read_le(src, pos + 1, 2);
        assert(rest.subrange(1, 3) =~= src@.subrange(pos + 1, pos + 3));
        Some((Op::Copy { offset, len: up as usize + 1 }, pos + 3))
    } else {
        if avail < 5 {
            return None;
        }
        let offset = read_le(src, pos + 1, 4);
        assert(rest.subrange(1, 5) =~= src@.subrange(pos + 1, pos + 5));
        Some((Op::Copy { offset, len: up as usize + 1 }, pos + 5))
    }
}

/// Decoding from a whole token on goes on from the token after it.
proof fn lemma_run_step(src: Seq<u8>, pos: nat, next: nat, out: Seq<u8>, t: Token)
    requires
        pos < next <= src.len(),
        parse_token(src.subrange(pos as int, src.len() as int)) == Some((t, (next - pos) as nat)),
    ensures
        run_tokens(src.subrange(pos as int, src.len() as int), out) == match apply_token(out, t) {
            Some(o) => run_tokens(src.subrange(next as int, src.len() as int), o),
            None => None,
        },
{
    let rest = src.subrange(pos as int, src.len() as int);
    assert(rest.subrange(next - pos, rest.len() as int) =~= src.subrange(
        next as int,
        src.len() as int,
    ));
}

/// Once the output is longer than the header declares, the frame cannot decode.
proof fn lemma_overlong(s: Seq<u8>, o: Seq<u8>, expected: nat)
    requires
        o.len() > expected,
    ensures
        !(run_tokens(s, o) matches Some(r) && r.len() == expected),
{
    if run_tokens(s, o) is Some {
        lemma_run_grows(s, o);
    }
}

/// Whether the frame decodes: walks every token and tracks only the output
/// length, writing nothing.
pub fn validate_compressed_buffer(src: &[u8]) -> (r: bool)
    ensures
        r == is_valid_frame(src@),
{
    let (expected, h) = match read_varint_from(src, 0) {
        Some(p) => p,
        None => return false,
    };
    let ghost body = src@.subrange(h as int, src@.len() as int);
    let ghost mut out: Seq<u8> = seq![];
    let mut count: u64 = 0;
    let mut pos = h;
    assert(src@.subrange(pos as int, src@.len() as int) == body);
    while pos < src.len()
        invariant
            h <= pos <= src.len(),
            varint_from(src@, 0) == Some((expected as nat, h as nat)),
            body == src@.subrange(h as int, src@.len() as int),
            count == out.len(),
            count <= expected,
            run_tokens(body, seq![]) == run_tokens(
                src@.subrange(pos as int, src@.len() as int),
                out,
            ),
        decreases src.len() - pos,
    {
        let (op, next) = match read_token(src, pos) {
            Some(p) => p,
            None => return false,
        };
        let ghost t = op_token(src@, op);
        proof {
            lemma_run_step(src@, pos as nat, next as nat, out, t);
        }
        let len = match op {
            Op::Literal { len, .. } => len,
            Op::Copy { offset, len } => {
                if offset == 0 || offset > count {
                    return false;
                }
                len
            },
        };
        proof {
            if let Token::Copy { offset, len } = t {
                lemma_copy_back_len(out, offset, len);
            }
        }
        if len as u64 > expected - count {
            proof {
                lemma_overlong(
                    src@.subrange(next as int, src@.len() as int),
                    apply_token(out, t)->0,
                    expected as nat,
                );
            }
            return false;
        }
        count = count + len as u64;
        proof {
            out = apply_token(out, t)->0;
        }
        pos = next;
    }
    assert(src@.subrange(pos as int, src@.len() as int) =~= Seq::<u8>::empty());
    count == expected
}

/// The bytes that the frame decodes to, or `None` when it is not a frame
/// this codec can read.
pub fn uncompress(src: &[u8]) -> (r: Option<Vec<u8>>)
    ensures
        match r {
            Some(v) => decoded(src@) == Some(v@),
            None => decoded(src@) is None,
        },
{
    let (expected, h) = match read_varint_from(src, 0) {
        Some(p) => p,
        None => return None,
    };
    let ghost body = src@.subrange(h as int, src@.len() as int);
    let cap = if expected <= MAX_RESERVE {
        expected as usize
    } else {
        MAX_RESERVE as usize
    };
    let mut out: Vec<u8> = Vec::with_capacity(cap);
    let mut pos = h;
    assert(src@.subrange(pos as int, src@.len() as int) == body);
    while pos < src.len()
        invariant
            h <= pos <= src.len(),
            varint_from(src@, 0) == Some((expected as nat, h as nat)),
            body == src@.subrange(h as int, src@.len() as int),
            out@.len() <= expected,
            run_tokens(body, seq![]) == run_tokens(
                src@.subrange(pos as int, src@.len() as int),
                out@,
            ),
        decreases src.len() - pos,
    {
        let (op, next) = match read_token(src, pos) {
            Some(p) => p,
            None => return None,
        };
        let ghost t = op_token(src@, op);
        let ghost before = out@;
        proof {
            lemma_run_step(src@, pos as nat, next as nat, before, t);
            if let Token::Copy { offset, len } = t {
                lemma_copy_back_len(before, offset, len);
            }
        }
        match op {
            Op::Literal { start, len } => {
                if len as u64 > expected - out.len() as u64 {
                    proof {
                        lemma_overlong(
                            src@.subrange(next as int, src@.len() as int),
                            apply_token(before, t)->0,
                            expected as nat,
                        );
                    }
                    return None;
                }
                let mut j: usize = 0;
                while j < len
                    invariant
                        j <= len,
                        start + len <= src.len(),
                        out@ == before + src@.subrange(start as int, start + j),
                    decreases len - j,
                {
                    out.push(src[start + j]);
                    j = j + 1;
                    assert(out@ =~= before + src@.subrange(start as int, start + j));
                }
            },
            Op::Copy { offset, len } => {
                if offset == 0 || offset > out.len() as u64 {
                    return None;
                }
                if len as u64 > expected - out.len() as u64 {
                    proof {
                        lemma_overlong(
                            src@.subrange(next as int, src@.len() as int),
                            apply_token(before, t)->0,
                            expected as nat,
                        );
                    }
                    return None;
                }
                let off = offset as usize;
                let mut j: usize = 0;
                while j < len
                    invariant
                        j <= len,
                        1 <= off <= before.len(),
                        off == offset,
                        out@ == copy_back(before, off as nat, j as nat),
                        out@.len() == before.len() + j,
                    decreases len - j,
                {
                    let b = out[out.len() - off];
                    out.push(b);
                    j = j + 1;
                }
            },
        }
        pos = next;
    }
    assert(src@.subrange(pos as int, src@.len() as int) =~= Seq::<u8>::empty());
    if out.len() as u64 != expected {
        return None;
    }
    Some(out)
}

} // verus!
