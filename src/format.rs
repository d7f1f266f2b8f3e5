//! The frame format as mathematics: what a frame decodes to, if anything.
//!
//! A frame is a varint header holding the decoded length, then a run of
//! tokens. The low two bits of a token's tag byte select its kind:
//!
//! - `00` literal: the upper six bits hold `len - 1` when below 60; the values
//!   60..63 say that the next 1..4 bytes hold `len - 1`, little-endian. The
//!   `len` literal bytes follow.
//! - `01` copy: length `4 + (tag >> 2) % 8`, offset `(tag >> 5) * 256` plus the
//!   next byte.
//! - `10` copy: length `1 + (tag >> 2)`, offset in the next two bytes.
//! - `11` copy: length `1 + (tag >> 2)`, offset in the next four bytes.
use vstd::prelude::*;

verus! {

/// The value of a byte string read little-endian.
pub open spec fn le_value(s: Seq<u8>) -> nat
    decreases s.len(),
{
    if s.len() == 0 {
        0
    } else {
        s[0] as nat + 256 * le_value(s.drop_first())
    }
}

/// `256` to the power `n`.
pub open spec fn byte_bound(n: nat) -> nat
    decreases n,
{
    if n == 0 {
        1
    } else {
        256 * byte_bound((n - 1) as nat)
    }
}

/// The exclusive bound on the value that a header varint may still carry
/// from its byte `i` on: the header holds a 32-bit value.
pub open spec fn varint_limit(i: nat) -> nat {
    if i == 0 {
        0x1_0000_0000
    } else if i == 1 {
        0x200_0000
    } else if i == 2 {
        0x4_0000
    } else if i == 3 {
        0x800
    } else {
        16
    }
}

/// The header varint read from byte `i` of `s` on: the value those bytes
/// carry, and the index just past the varint. At most five bytes; the fifth
/// may carry only four bits.
pub open spec fn varint_from(s: Seq<u8>, i: nat) -> Option<(nat, nat)>
    decreases 4 - i,
{
    if i > 4 || i >= s.len() {
        None
    } else if i == 4 {
        if s[4] < 16 {
            Some((s[4] as nat, 5))
        } else {
            None
        }
    } else if s[i as int] < 128 {
        Some((s[i as int] as nat, i + 1))
    } else {
        match varint_from(s, i + 1) {
            Some((v, e)) => Some((((s[i as int] - 128) + 128 * v) as nat, e)),
            None => None,
        }
    }
}

/// The decoded length that a frame's header declares, if the header is well formed.
pub open spec fn declared_length(s: Seq<u8>) -> Option<nat> {
    match varint_from(s, 0) {
        Some((v, _)) => Some(v),
        None => None,
    }
}

/// The bytes that encode `v` as a varint, least significant group first.
pub open spec fn varint_bytes(v: nat) -> Seq<u8>
    decreases v,
{
    if v < 128 {
        seq![v as u8]
    } else {
        seq![(v % 128 + 128) as u8] + varint_bytes(v / 128)
    }
}

/// One token of a frame's body.
pub enum Token {
    /// Bytes to append as they stand.
    Literal(Seq<u8>),
    /// Append `len` bytes, each the byte `offset` places before it.
    Copy { offset: nat, len: nat },
}

/// The first token of `s` and the number of bytes it takes, if `s` starts
/// with a whole token.
pub open spec fn parse_token(s: Seq<u8>) -> Option<(Token, nat)> {
    if s.len() == 0 {
        None
    } else {
        let kind = s[0] as nat % 4;
        let up = s[0] as nat / 4;
        if kind == 0 {
            let extra: nat = if up < 60 { 0 } else { (up - 59) as nat };
            if 1 + extra > s.len() {
                None
            } else {
                let len: nat = if up < 60 { up + 1 } else { le_value(s.subrange(1, 1 + extra as int)) + 1 };
                let end = 1 + extra + len;
                if end > s.len() {
                    None
                } else {
                    Some((Token::Literal(s.subrange(1 + extra as int, end as int)), end))
                }
            }
        } else if kind == 1 {
            if s.len() < 2 {
                None
            } else {
                Some((Token::Copy { offset: (up / 8) * 256 + s[1] as nat, len: 4 + up % 8 }, 2))
            }
        } else if kind == 2 {
            if s.len() < 3 {
                None
            } else {
                Some((Token::Copy { offset: le_value(s.subrange(1, 3)), len: up + 1 }, 3))
            }
        } else {
            if s.len() < 5 {
                None
            } else {
                Some((Token::Copy { offset: le_value(s.subrange(1, 5)), len: up + 1 }, 5))
            }
        }
    }
}

/// `out` followed by `len` bytes, each a copy of the byte `offset` places
/// before it. Later bytes may copy earlier ones of the same run.
pub open spec fn copy_back(out: Seq<u8>, offset: nat, len: nat) -> Seq<u8>
    decreases len,
{
    if len == 0 {
        out
    } else {
        let p = copy_back(out, offset, (len - 1) as nat);
        p.push(p[p.len() - offset])
    }
}

/// The output after one token, if the token may follow `out`.
pub open spec fn apply_token(out: Seq<u8>, t: Token) -> Option<Seq<u8>> {
    match t {
        Token::Literal(data) => Some(out + data),
        Token::Copy { offset, len } => {
            if 1 <= offset && offset <= out.len() {
                Some(copy_back(out, offset, len))
            } else {
                None
            }
        },
    }
}

/// The output after every token of `s`, starting from `out`; `None` when
/// `s` is not a run of whole, applicable tokens.
pub open spec fn run_tokens(s: Seq<u8>, out: Seq<u8>) -> Option<Seq<u8>>
    decreases s.len(),
{
    if s.len() == 0 {
        Some(out)
    } else {
        match parse_token(s) {
            Some((t, k)) => {
                if 0 < k && k <= s.len() {
                    match apply_token(out, t) {
                        Some(o) => run_tokens(s.subrange(k as int, s.len() as int), o),
                        None => None,
                    }
                } else {
                    None
                }
            },
            None => None,
        }
    }
}

/// What a frame decodes to: `None` for a malformed frame, one whose tokens
/// do not all apply, or one whose output length differs from its header.
pub open spec fn decoded(s: Seq<u8>) -> Option<Seq<u8>> {
    match varint_from(s, 0) {
        Some((n, h)) => match run_tokens(s.subrange(h as int, s.len() as int), seq![]) {
            Some(o) => if o.len() == n {
                Some(o)
            } else {
                None
            },
            None => None,
        },
        None => None,
    }
}

/// Whether a frame decodes.
pub open spec fn is_valid_frame(s: Seq<u8>) -> bool {
    decoded(s) is Some
}

/// The largest frame that compressing `n` bytes may give.
pub open spec fn max_compressed_len(n: nat) -> nat {
    32 + n + n / 6
}

/// The powers of 256 that the format uses.
pub proof fn lemma_byte_bounds()
    ensures
        byte_bound(1) == 0x100,
        byte_bound(2) == 0x1_0000,
        byte_bound(3) == 0x100_0000,
        byte_bound(4) == 0x1_0000_0000,
{
    reveal_with_fuel(byte_bound, 5);
}

/// The number of bytes that a copy adds.
pub proof fn lemma_copy_back_len(out: Seq<u8>, offset: nat, len: nat)
    ensures
        copy_back(out, offset, len).len() == out.len() + len,
    decreases len,
{
    if len > 0 {
        lemma_copy_back_len(out, offset, (len - 1) as nat);
    }
}

/// Two copies with one offset make one copy of the summed length.
pub proof fn lemma_copy_back_split(out: Seq<u8>, offset: nat, a: nat, b: nat)
    ensures
        copy_back(copy_back(out, offset, a), offset, b) == copy_back(out, offset, a + b),
    decreases b,
{
    if b > 0 {
        lemma_copy_back_split(out, offset, a, (b - 1) as nat);
    }
}

/// A copy reproduces `x` up to `pos + len` when the `len` bytes from `pos`
/// repeat the bytes `offset` places earlier.
pub proof fn lemma_copy_back_repeats(x: Seq<u8>, pos: nat, offset: nat, len: nat)
    requires
        1 <= offset <= pos,
        pos + len <= x.len(),
        forall|k: int| 0 <= k < len ==> #[trigger] x[pos + k] == x[pos - offset + k],
    ensures
        copy_back(x.subrange(0, pos as int), offset, len) == x.subrange(0, (pos + len) as int),
    decreases len,
{
    if len > 0 {
        let m = (len - 1) as nat;
        lemma_copy_back_repeats(x, pos, offset, m);
        lemma_copy_back_len(x.subrange(0, pos as int), offset, m);
        assert(x[(pos + m) as int] == x[pos - offset + m]);
        assert(x.subrange(0, (pos + m) as int).push(x[(pos + m) as int]) =~= x.subrange(0, (pos + len) as int));
    }
}

/// Whatever follows a whole token does not change how it parses.
pub proof fn lemma_parse_token_prefix(s1: Seq<u8>, s2: Seq<u8>)
    requires
        parse_token(s1) is Some,
    ensures
        parse_token(s1 + s2) == parse_token(s1),
        0 < parse_token(s1).unwrap().1 <= s1.len(),
{
    let s = s1 + s2;
    assert(s[0] == s1[0]);
    let kind = s1[0] as nat % 4;
    let up = s1[0] as nat / 4;
    if kind == 0 {
        let extra: nat = if up < 60 { 0 } else { (up - 59) as nat };
        assert(s.subrange(1, 1 + extra as int) =~= s1.subrange(1, 1 + extra as int));
        let len: nat = if up < 60 { up + 1 } else { le_value(s1.subrange(1, 1 + extra as int)) + 1 };
        let end = 1 + extra + len;
        assert(s.subrange(1 + extra as int, end as int) =~= s1.subrange(1 + extra as int, end as int));
    } else if kind == 1 {
        assert(s[1] == s1[1]);
    } else if kind == 2 {
        assert(s.subrange(1, 3) =~= s1.subrange(1, 3));
    } else {
        assert(s.subrange(1, 5) =~= s1.subrange(1, 5));
    }
}

/// Decoding a run of whole tokens and then more bytes is decoding the more
/// bytes from where the run ended.
pub proof fn lemma_run_append(s1: Seq<u8>, s2: Seq<u8>, out: Seq<u8>)
    requires
        run_tokens(s1, out) is Some,
    ensures
        run_tokens(s1 + s2, out) == run_tokens(s2, run_tokens(s1, out)->0),
    decreases s1.len(),
{
    if s1.len() == 0 {
        assert(s1 + s2 =~= s2);
    } else {
        lemma_parse_token_prefix(s1, s2);
        let (t, k) = parse_token(s1)->0;
        let o = apply_token(out, t)->0;
        let r1 = s1.subrange(k as int, s1.len() as int);
        lemma_run_append(r1, s2, o);
        assert((s1 + s2).subrange(k as int, (s1 + s2).len() as int) =~= r1 + s2);
    }
}

/// Decoding never shortens the output.
pub proof fn lemma_run_grows(s: Seq<u8>, out: Seq<u8>)
    requires
        run_tokens(s, out) is Some,
    ensures
        run_tokens(s, out)->0.len() >= out.len(),
    decreases s.len(),
{
    if s.len() > 0 {
        let (t, k) = parse_token(s)->0;
        let o = apply_token(out, t)->0;
        match t {
            Token::Copy { offset, len } => lemma_copy_back_len(out, offset, len),
            _ => {},
        }
        lemma_run_grows(s.subrange(k as int, s.len() as int), o);
    }
}

/// A single whole token decodes to what it applies.
pub proof fn lemma_run_one(s: Seq<u8>, out: Seq<u8>)
    requires
        parse_token(s) is Some,
        parse_token(s).unwrap().1 == s.len(),
    ensures
        run_tokens(s, out) == apply_token(out, parse_token(s).unwrap().0),
{
    let (t, k) = parse_token(s)->0;
    assert(s.subrange(k as int, s.len() as int) =~= Seq::<u8>::empty());
    if let Some(o) = apply_token(out, t) {
        assert(run_tokens(Seq::<u8>::empty(), o) == Some(o));
    }
}

/// A value below the limit for byte `i` is read back from its varint bytes
/// placed there.
pub proof fn lemma_varint_read_back(s: Seq<u8>, i: nat, v: nat)
    requires
        i <= 4,
        v < varint_limit(i),
        i + varint_bytes(v).len() <= s.len(),
        s.subrange(i as int, (i + varint_bytes(v).len()) as int) == varint_bytes(v),
    ensures
        varint_from(s, i) == Some((v, i + varint_bytes(v).len())),
    decreases v,
{
    let e = varint_bytes(v);
    assert(s[i as int] == s.subrange(i as int, (i + e.len()) as int)[0]);
    if v >= 128 {
        let rest = varint_bytes(v / 128);
        assert(s.subrange((i + 1) as int, (i + 1 + rest.len()) as int) =~= s.subrange(i as int, (i + e.len()) as int).subrange(1, e.len() as int));
        assert(e.subrange(1, e.len() as int) =~= rest);
        lemma_varint_read_back(s, i + 1, v / 128);
    }
}

/// A value below the limit for byte `i` takes at most the bytes left of five.
pub proof fn lemma_varint_bytes_len(v: nat, i: nat)
    requires
        i <= 4,
        v < varint_limit(i),
    ensures
        1 <= varint_bytes(v).len() <= 5 - i,
    decreases v,
{
    if v >= 128 {
        lemma_varint_bytes_len(v / 128, i + 1);
    }
}

/// The little-endian values of the short byte strings the format uses.
pub proof fn lemma_le_value_short(s: Seq<u8>)
    requires
        1 <= s.len() <= 4,
    ensures
        s.len() == 1 ==> le_value(s) == s[0],
        s.len() == 2 ==> le_value(s) == s[0] + 256 * s[1],
        s.len() == 3 ==> le_value(s) == s[0] + 256 * s[1] + 0x1_0000 * s[2],
        s.len() == 4 ==> le_value(s) == s[0] + 256 * s[1] + 0x1_0000 * s[2] + 0x100_0000 * s[3],
    decreases s.len(),
{
    let t = s.drop_first();
    if s.len() == 1 {
        assert(le_value(t) == 0);
    } else {
        lemma_le_value_short(t);
        assert(t[0] == s[1]);
        assert(t.len() >= 2 ==> t[1] == s[2]);
        assert(t.len() >= 3 ==> t[2] == s[3]);
    }
}

/// Every frame that decodes to some bytes, such as a frame that `compress`
/// made from them, passes validation.
pub proof fn lemma_decodable_frame_is_valid(x: Seq<u8>, frame: Seq<u8>)
    requires
        decoded(frame) == Some(x),
    ensures
        is_valid_frame(frame),
{
}

/// The header of a frame that decodes to `x`, such as a frame that
/// `compress` made from `x`, declares the length of `x`.
pub proof fn lemma_decodable_frame_declares_length(x: Seq<u8>, frame: Seq<u8>)
    requires
        decoded(frame) == Some(x),
    ensures
        declared_length(frame) == Some(x.len()),
{
}

} // verus!
