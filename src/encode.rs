//! Writing frames: the greedy hash-table compressor and the token writers
//! it uses.
use vstd::prelude::*;

use crate::format::{
    copy_back, le_value, lemma_copy_back_len, lemma_copy_back_split,
    lemma_copy_back_repeats, lemma_le_value_short, lemma_run_append, lemma_run_one,
    lemma_varint_bytes_len, lemma_varint_read_back, max_compressed_len, parse_token, run_tokens,
    varint_bytes, decoded, Token,
};

verus! {

/// The tag of a literal token of `v + 1` bytes: one byte where `v` is
/// below 60, else a byte that says how many of the next up to four bytes
/// hold `v`, then those bytes.
pub open spec fn literal_tag(v: nat) -> Seq<u8> {
    if v < 60 {
        seq![(4 * v) as u8]
    } else if v < 0x100 {
        seq![240u8, v as u8]
    } else if v < 0x1_0000 {
        seq![244u8, (v % 256) as u8, (v / 256) as u8]
    } else if v < 0x100_0000 {
        seq![248u8, (v % 256) as u8, (v / 256 % 256) as u8, (v / 0x1_0000) as u8]
    } else {
        seq![
            252u8,
            (v % 256) as u8,
            (v / 256 % 256) as u8,
            (v / 0x1_0000 % 256) as u8,
            (v / 0x100_0000) as u8,
        ]
    }
}

/// The literal token for the bytes `s[start..end]`, or nothing where that
/// run is empty.
pub open spec fn pending_bytes(s: Seq<u8>, start: int, end: int) -> Seq<u8> {
    if start < end {
        literal_tag((end - start - 1) as nat) + s.subrange(start, end)
    } else {
        seq![]
    }
}

/// One copy token of length 4 to 64: two bytes where the length is below
/// 12 and the offset below 2048, else three.
pub open spec fn copy_token(offset: nat, len: nat) -> Seq<u8> {
    if len < 12 && offset < 2048 {
        seq![(1 + 4 * (len - 4) + 32 * (offset / 256)) as u8, (offset % 256) as u8]
    } else {
        seq![(2 + 4 * (len - 1)) as u8, (offset % 256) as u8, (offset / 256) as u8]
    }
}

/// The copy tokens for a copy of `len` bytes: pieces of 64 while at least
/// 68 are left, then one of 60 where more than 64 are left, then the rest.
pub open spec fn copy_bytes(offset: nat, len: nat) -> Seq<u8>
    decreases len,
{
    if len >= 68 {
        copy_token(offset, 64) + copy_bytes(offset, (len - 64) as nat)
    } else if len > 64 {
        copy_token(offset, 60) + copy_token(offset, (len - 60) as nat)
    } else {
        copy_token(offset, len)
    }
}

/// The four bytes of `s` from `pos`, read little-endian.
pub open spec fn window(s: Seq<u8>, pos: int) -> u32 {
    (s[pos] + 0x100 * s[pos + 1] + 0x1_0000 * s[pos + 2] + 0x100_0000 * s[pos + 3]) as u32
}

/// The hash-table slot of a four-byte window: the top 14 bits of the low 32
/// bits of a multiplicative hash.
pub open spec fn slot_of(w: u32) -> int {
    (w as int * 0x1e35_a7bd) % 0x1_0000_0000 / 0x4_0000
}

/// Whether the four bytes from `a` equal the four bytes from `b`.
pub open spec fn same_window(s: Seq<u8>, a: int, b: int) -> bool {
    forall|k: int| 0 <= k < 4 ==> #[trigger] s[a + k] == s[b + k]
}

/// The length of the match at `pos` against `cand`, extended greedily from
/// `len` bytes while the bytes agree and input remains.
pub open spec fn match_end(s: Seq<u8>, cand: int, pos: int, len: int) -> int
    decreases s.len() - pos - len,
{
    if 0 <= len && pos + len < s.len() && s[cand + len] == s[pos + len] {
        match_end(s, cand, pos, len + 1)
    } else {
        len
    }
}

/// The table after a match that ends at `end`: the two positions before
/// `end` are entered, where a window still fits there.
pub open spec fn table_after_match(s: Seq<u8>, t: Seq<usize>, end: int) -> Seq<usize> {
    if s.len() - end >= 3 {
        let t2 = t.update(slot_of(window(s, end - 2)), (end - 1) as usize);
        t2.update(slot_of(window(s, end - 1)), end as usize)
    } else {
        t
    }
}

/// The tokens the greedy compressor writes for `s` from position `pos` on,
/// with the pending literal starting at `lit_start`, the hash table `table`
/// (each entry a position plus one, zero for none), and the skip counter
/// `skip`, whose 32nd part is the stride after a miss.
#[verifier::opaque]
pub open spec fn greedy_rest(s: Seq<u8>, table: Seq<usize>, lit_start: int, pos: int, skip: int) -> Seq<u8>
    decreases s.len() - pos,
{
    if pos < 0 || s.len() - pos < 4 {
        pending_bytes(s, lit_start, s.len() as int)
    } else {
        let slot = slot_of(window(s, pos));
        let stored = table[slot] as int;
        let t1 = table.update(slot, (pos + 1) as usize);
        if stored > 0 && stored - 1 < pos && pos - (stored - 1) <= 0xFFFF && same_window(
            s,
            stored - 1,
            pos,
        ) {
            let cand = stored - 1;
            let len = match_end(s, cand, pos, 4);
            let end = pos + len;
            if len < 4 || end > s.len() {
                seq![]
            } else {
                pending_bytes(s, lit_start, pos) + copy_bytes((pos - cand) as nat, len as nat)
                    + greedy_rest(s, table_after_match(s, t1, end), end, end, 32)
            }
        } else {
            let step = skip / 32;
            if step < 1 || step > s.len() - pos {
                pending_bytes(s, lit_start, s.len() as int)
            } else {
                greedy_rest(s, t1, lit_start, pos + step, skip + step)
            }
        }
    }
}

/// At a position where a stored candidate matches, the compressor writes
/// the pending literal and the copy, and goes on after the match.
proof fn lemma_greedy_match(
    s: Seq<u8>,
    table: Seq<usize>,
    lit_start: int,
    pos: int,
    skip: int,
    cand: int,
    len: int,
)
    requires
        0 <= pos,
        s.len() - pos >= 4,
        table[slot_of(window(s, pos))] as int == cand + 1,
        0 <= cand < pos,
        pos - cand <= 0xFFFF,
        same_window(s, cand, pos),
        len == match_end(s, cand, pos, 4),
        4 <= len,
        pos + len <= s.len(),
    ensures
        greedy_rest(s, table, lit_start, pos, skip) == pending_bytes(s, lit_start, pos)
            + copy_bytes((pos - cand) as nat, len as nat) + greedy_rest(
            s,
            table_after_match(
                s,
                table.update(slot_of(window(s, pos)), (pos + 1) as usize),
                pos + len,
            ),
            pos + len,
            pos + len,
            32,
        ),
{
    reveal(greedy_rest);
}

/// At a position where no stored candidate matches, the compressor enters
/// the position and moves on by the stride, or stops where the stride
/// passes the end.
proof fn lemma_greedy_miss(s: Seq<u8>, table: Seq<usize>, lit_start: int, pos: int, skip: int)
    requires
        0 <= pos,
        s.len() - pos >= 4,
        !({
            let stored = table[slot_of(window(s, pos))] as int;
            stored > 0 && stored - 1 < pos && pos - (stored - 1) <= 0xFFFF && same_window(
                s,
                stored - 1,
                pos,
            )
        }),
    ensures
        greedy_rest(s, table, lit_start, pos, skip) == if skip / 32 < 1 || skip / 32 > s.len()
            - pos {
            pending_bytes(s, lit_start, s.len() as int)
        } else {
            greedy_rest(
                s,
                table.update(slot_of(window(s, pos)), (pos + 1) as usize),
                lit_start,
                pos + skip / 32,
                skip + skip / 32,
            )
        },
{
    reveal(greedy_rest);
}

/// With fewer than four bytes left, the compressor writes the pending literal.
proof fn lemma_greedy_end(s: Seq<u8>, table: Seq<usize>, lit_start: int, pos: int, skip: int)
    requires
        0 <= pos,
        s.len() - pos < 4,
    ensures
        greedy_rest(s, table, lit_start, pos, skip) == pending_bytes(s, lit_start, s.len() as int),
{
    reveal(greedy_rest);
}

/// The frame that `compress` gives for `s`: the length header, then the
/// greedy compressor's tokens from an empty table.
pub open spec fn compressed(s: Seq<u8>) -> Seq<u8> {
    varint_bytes(s.len()) + greedy_rest(s, Seq::new(0x4000, |i: int| 0usize), 0, 0, 32)
}

/// Appends the varint bytes of `v`.
fn write_varint(out: &mut Vec<u8>, v: u32)
    ensures
        final(out)@ == old(out)@ + varint_bytes(v as nat),
{
    let mut rest: u32 = v;
    while rest >= 128
        invariant
            old(out)@ + varint_bytes(v as nat) == out@ + varint_bytes(rest as nat),
        decreases rest,
    {
        let ghost before = out@;
        out.push((rest % 128 + 128) as u8);
        assert(before + varint_bytes(rest as nat) =~= out@ + varint_bytes((rest / 128) as nat));
        rest = rest / 128;
    }
    out.push(rest as u8);
    assert(old(out)@ + varint_bytes(v as nat) =~= out@);
}

/// Appends one copy token of length 4 to 64 with an offset below 65536: two
/// bytes where the length is below 12 and the offset below 2048, else three.
fn write_copy_token(out: &mut Vec<u8>, offset: usize, len: usize)
    requires
        1 <= offset < 0x1_0000,
        4 <= len <= 64,
    ensures
        final(out)@.subrange(0, old(out)@.len() as int) == old(out)@,
        final(out)@ == old(out)@ + copy_token(offset as nat, len as nat),
        old(out)@.len() + 2 <= final(out)@.len() <= old(out)@.len() + 3,
        parse_token(final(out)@.subrange(old(out)@.len() as int, final(out)@.len() as int)) == Some(
            (
                Token::Copy { offset: offset as nat, len: len as nat },
                (final(out)@.len() - old(out)@.len()) as nat,
            ),
        ),
{
    let ghost start = out@.len();
    if len < 12 && offset < 2048 {
        let tag = (1 + 4 * (len - 4) + 32 * (offset / 256)) as u8;
        let low = (offset % 256) as u8;
        out.push(tag);
        out.push(low);
        assert(out@ =~= old(out)@ + copy_token(offset as nat, len as nat));
        let ghost t = out@.subrange(start as int, out@.len() as int);
        assert(t[0] == tag && t[1] == low);
        assert(tag as nat % 4 == 1);
        assert(tag as nat / 4 == (len - 4) + 8 * (offset / 256));
        assert((tag as nat / 4) % 8 == len - 4);
        assert((tag as nat / 4) / 8 == offset / 256);
    } else {
        let tag = (2 + 4 * (len - 1)) as u8;
        let low = (offset % 256) as u8;
        let high = (offset / 256) as u8;
        out.push(tag);
        out.push(low);
        out.push(high);
        assert(out@ =~= old(out)@ + copy_token(offset as nat, len as nat));
        let ghost t = out@.subrange(start as int, out@.len() as int);
        assert(t.subrange(1, 3) =~= seq![low, high]);
        proof {
            lemma_le_value_short(t.subrange(1, 3));
        }
        assert(tag as nat % 4 == 2);
        assert(tag as nat / 4 == len - 1);
    }
}

/// Decoding a run that ends in a copy, then one more copy with the same
/// offset, is one longer copy.
proof fn lemma_extend_copy(t: Seq<u8>, c: Seq<u8>, p: Seq<u8>, offset: nat, done: nat, k: nat)
    requires
        1 <= offset <= p.len(),
        run_tokens(t, p) == Some(copy_back(p, offset, done)),
        parse_token(c) == Some((Token::Copy { offset, len: k }, c.len())),
    ensures
        run_tokens(t + c, p) == Some(copy_back(p, offset, done + k)),
{
    lemma_run_append(t, c, p);
    lemma_run_one(c, copy_back(p, offset, done));
    lemma_copy_back_len(p, offset, done);
    lemma_copy_back_split(p, offset, done, k);
}

/// A run of copies from `base` on that decodes to a copy of `done`
/// bytes, followed by one more copy token with the same offset, decodes to
/// the copy of `done + k` bytes.
proof fn lemma_copy_piece(
    base: Seq<u8>,
    mid: Seq<u8>,
    after: Seq<u8>,
    p: Seq<u8>,
    offset: nat,
    done: nat,
    k: nat,
)
    requires
        1 <= offset <= p.len(),
        base.len() <= mid.len() <= after.len(),
        mid.subrange(0, base.len() as int) == base,
        after.subrange(0, mid.len() as int) == mid,
        run_tokens(mid.subrange(base.len() as int, mid.len() as int), p) == Some(
            copy_back(p, offset, done),
        ),
        parse_token(after.subrange(mid.len() as int, after.len() as int)) == Some(
            (Token::Copy { offset, len: k }, (after.len() - mid.len()) as nat),
        ),
    ensures
        after.subrange(0, base.len() as int) == base,
        run_tokens(after.subrange(base.len() as int, after.len() as int), p) == Some(
            copy_back(p, offset, done + k),
        ),
{
    let t = mid.subrange(base.len() as int, mid.len() as int);
    let c = after.subrange(mid.len() as int, after.len() as int);
    assert(after.subrange(base.len() as int, after.len() as int) =~= t + c);
    assert(after.subrange(0, base.len() as int) =~= mid.subrange(0, base.len() as int));
    lemma_extend_copy(t, c, p, offset, done, k);
}

/// Appends the copy tokens of `copy_bytes(offset, len)`, which together
/// append `len` bytes from `offset` places back when they follow the output
/// `p`.
fn write_copy(out: &mut Vec<u8>, offset: usize, len: usize, Ghost(p): Ghost<Seq<u8>>)
    requires
        1 <= offset < 0x1_0000,
        offset <= p.len(),
        len >= 4,
    ensures
        final(out)@ == old(out)@ + copy_bytes(offset as nat, len as nat),
        final(out)@.subrange(0, old(out)@.len() as int) == old(out)@,
        old(out)@.len() < final(out)@.len(),
        4 * (final(out)@.len() - old(out)@.len()) <= 3 * len,
        run_tokens(final(out)@.subrange(old(out)@.len() as int, final(out)@.len() as int), p)
            == Some(copy_back(p, offset as nat, len as nat)),
{
    let ghost base = out@;
    let mut left = len;
    assert(out@.subrange(base.len() as int, out@.len() as int) =~= Seq::<u8>::empty());
    assert(out@ + copy_bytes(offset as nat, len as nat) =~= base + copy_bytes(
        offset as nat,
        len as nat,
    ));
    while left >= 68
        invariant
            4 <= left <= len,
            1 <= offset < 0x1_0000,
            offset <= p.len(),
            out@.len() >= base.len(),
            out@.subrange(0, base.len() as int) == base,
            base + copy_bytes(offset as nat, len as nat) == out@ + copy_bytes(
                offset as nat,
                left as nat,
            ),
            4 * (out@.len() - base.len()) <= 3 * (len - left),
            run_tokens(out@.subrange(base.len() as int, out@.len() as int), p) == Some(
                copy_back(p, offset as nat, (len - left) as nat),
            ),
        decreases left,
    {
        let ghost mid = out@;
        write_copy_token(out, offset, 64);
        proof {
            lemma_copy_piece(base, mid, out@, p, offset as nat, (len - left) as nat, 64);
            assert(mid + copy_bytes(offset as nat, left as nat) =~= out@ + copy_bytes(
                offset as nat,
                (left - 64) as nat,
            ));
        }
        left = left - 64;
    }
    if left > 64 {
        let ghost mid = out@;
        write_copy_token(out, offset, 60);
        proof {
            lemma_copy_piece(base, mid, out@, p, offset as nat, (len - left) as nat, 60);
            assert(mid + copy_bytes(offset as nat, left as nat) =~= out@ + copy_token(
                offset as nat,
                (left - 60) as nat,
            ));
        }
        left = left - 60;
    }
    let ghost mid = out@;
    write_copy_token(out, offset, left);
    proof {
        lemma_copy_piece(base, mid, out@, p, offset as nat, (len - left) as nat, left as nat);
        assert(base + copy_bytes(offset as nat, len as nat) =~= out@);
    }
}

/// Appends the tag of a literal token of `v + 1` bytes: one byte where `v`
/// is below 60, else a byte that says how many of the next up to four
/// bytes hold `v`, then those bytes.
fn write_literal_tag(out: &mut Vec<u8>, v: usize) -> (extra: usize)
    requires
        v <= 0xFFFF_FFFE,
    ensures
        final(out)@ == old(out)@ + literal_tag(v as nat),
        extra <= 4,
        extra == 0 <==> v < 60,
        final(out)@.len() == old(out)@.len() + 1 + extra,
        final(out)@.subrange(0, old(out)@.len() as int) == old(out)@,
        final(out)@[old(out)@.len() as int] as nat % 4 == 0,
        extra == 0 ==> final(out)@[old(out)@.len() as int] as nat / 4 == v,
        extra > 0 ==> final(out)@[old(out)@.len() as int] as nat / 4 == 59 + extra,
        extra > 0 ==> le_value(
            final(out)@.subrange(old(out)@.len() + 1 as int, old(out)@.len() + 1 + extra as int),
        ) == v,
{
    let ghost base = out@;
    let extra: usize;
    if v < 60 {
        out.push((4 * v) as u8);
        extra = 0;
    } else if v < 0x100 {
        out.push(240);
        out.push(v as u8);
        extra = 1;
    } else if v < 0x1_0000 {
        out.push(244);
        out.push((v % 256) as u8);
        out.push((v / 256) as u8);
        extra = 2;
    } else if v < 0x100_0000 {
        out.push(248);
        out.push((v % 256) as u8);
        out.push((v / 256 % 256) as u8);
        out.push((v / 0x1_0000) as u8);
        extra = 3;
    } else {
        out.push(252);
        out.push((v % 256) as u8);
        out.push((v / 256 % 256) as u8);
        out.push((v / 0x1_0000 % 256) as u8);
        out.push((v / 0x100_0000) as u8);
        extra = 4;
    }
    proof {
        assert(out@ =~= base + literal_tag(v as nat));
        assert(out@.subrange(0, base.len() as int) =~= base);
        if extra > 0 {
            lemma_le_value_short(out@.subrange(base.len() + 1 as int, base.len() + 1 + extra as int));
        }
    }
    extra
}

/// Appends one literal token holding `src[start..end]`.
fn write_literal(out: &mut Vec<u8>, src: &[u8], start: usize, end: usize)
    requires
        start < end <= src.len(),
        end - start <= 0xFFFF_FFFF,
    ensures
        final(out)@ == old(out)@ + pending_bytes(src@, start as int, end as int),
        final(out)@.subrange(0, old(out)@.len() as int) == old(out)@,
        old(out)@.len() < final(out)@.len(),
        final(out)@.len() - old(out)@.len() <= (end - start) + 1 + if end - start > 60 {
            4int
        } else {
            0int
        },
        parse_token(final(out)@.subrange(old(out)@.len() as int, final(out)@.len() as int)) == Some(
            (
                Token::Literal(src@.subrange(start as int, end as int)),
                (final(out)@.len() - old(out)@.len()) as nat,
            ),
        ),
{
    let ghost base = out@;
    let extra = write_literal_tag(out, end - start - 1);
    let ghost mid = out@;
    let mut j: usize = start;
    while j < end
        invariant
            start <= j <= end <= src.len(),
            out@ == mid + src@.subrange(start as int, j as int),
        decreases end - j,
    {
        out.push(src[j]);
        j = j + 1;
        assert(out@ =~= mid + src@.subrange(start as int, j as int));
    }
    proof {
        let t = out@.subrange(base.len() as int, out@.len() as int);
        let data = src@.subrange(start as int, end as int);
        assert(t[0] == mid[base.len() as int]);
        assert(t.subrange(1, 1 + extra as int) =~= mid.subrange(
            base.len() + 1 as int,
            base.len() + 1 + extra as int,
        ));
        assert(t.subrange(1 + extra as int, t.len() as int) =~= data);
        assert(out@.subrange(0, base.len() as int) =~= base);
        assert(out@ =~= base + pending_bytes(src@, start as int, end as int));
    }
}

/// A body that decodes to `p`, followed by bytes that decode from `p` to
/// `q`, decodes to `q`.
proof fn lemma_body_extends(before: Seq<u8>, after: Seq<u8>, h: nat, p: Seq<u8>, q: Seq<u8>)
    requires
        h <= before.len() <= after.len(),
        after.subrange(0, before.len() as int) == before,
        run_tokens(before.subrange(h as int, before.len() as int), seq![]) == Some(p),
        run_tokens(after.subrange(before.len() as int, after.len() as int), p) == Some(q),
    ensures
        run_tokens(after.subrange(h as int, after.len() as int), seq![]) == Some(q),
        after.subrange(0, h as int) == before.subrange(0, h as int),
{
    let body = before.subrange(h as int, before.len() as int);
    let t = after.subrange(before.len() as int, after.len() as int);
    assert(after.subrange(h as int, after.len() as int) =~= body + t);
    assert(after.subrange(0, h as int) =~= before.subrange(0, h as int));
    lemma_run_append(body, t, seq![]);
}

/// Appends the pending literal run `src[lit_start..end]`, if it is not
/// empty, to a frame whose body from `h` decodes to `src[..lit_start]`.
/// The body grows by at most the run's length and a sixth of it, plus one.
fn write_pending(out: &mut Vec<u8>, src: &[u8], h: usize, lit_start: usize, end: usize)
    requires
        lit_start <= end <= src.len() <= 0xFFFF_FFFF,
        h <= old(out)@.len(),
        run_tokens(old(out)@.subrange(h as int, old(out)@.len() as int), seq![]) == Some(
            src@.subrange(0, lit_start as int),
        ),
        old(out)@.len() - h <= lit_start + lit_start / 6,
    ensures
        h <= final(out)@.len(),
        final(out)@.subrange(0, h as int) == old(out)@.subrange(0, h as int),
        run_tokens(final(out)@.subrange(h as int, final(out)@.len() as int), seq![]) == Some(
            src@.subrange(0, end as int),
        ),
        final(out)@.len() - h <= end + end / 6 + 1,
        final(out)@ == old(out)@ + pending_bytes(src@, lit_start as int, end as int),
{
    if lit_start < end {
        let ghost before = out@;
        write_literal(out, src, lit_start, end);
        proof {
            let t = out@.subrange(before.len() as int, out@.len() as int);
            let p = src@.subrange(0, lit_start as int);
            lemma_run_one(t, p);
            assert(p + src@.subrange(lit_start as int, end as int) =~= src@.subrange(
                0,
                end as int,
            ));
            lemma_body_extends(before, out@, h as nat, p, src@.subrange(0, end as int));
        }
    } else {
        assert(out@ =~= out@ + pending_bytes(src@, lit_start as int, end as int));
    }
}

/// Appends the pending literal `src[lit_start..pos]` and then a copy of the
/// `len` bytes at `pos`, which repeat those `offset` places before them.
/// Each copy saves a byte, which pays for the literal's tag.
fn write_match(
    out: &mut Vec<u8>,
    src: &[u8],
    h: usize,
    lit_start: usize,
    pos: usize,
    offset: usize,
    len: usize,
)
    requires
        lit_start <= pos,
        pos + len <= src.len() <= 0xFFFF_FFFF,
        1 <= offset <= pos,
        offset < 0x1_0000,
        len >= 4,
        forall|k: int| 0 <= k < len ==> #[trigger] src@[pos + k] == src@[pos - offset + k],
        h <= old(out)@.len(),
        run_tokens(old(out)@.subrange(h as int, old(out)@.len() as int), seq![]) == Some(
            src@.subrange(0, lit_start as int),
        ),
        old(out)@.len() - h <= lit_start + lit_start / 6,
    ensures
        h <= final(out)@.len(),
        final(out)@.subrange(0, h as int) == old(out)@.subrange(0, h as int),
        run_tokens(final(out)@.subrange(h as int, final(out)@.len() as int), seq![]) == Some(
            src@.subrange(0, pos + len),
        ),
        final(out)@.len() - h <= (pos + len) + (pos + len) / 6,
        final(out)@ == old(out)@ + pending_bytes(src@, lit_start as int, pos as int) + copy_bytes(
            offset as nat,
            len as nat,
        ),
{
    write_pending(out, src, h, lit_start, pos);
    let ghost before = out@;
    let ghost p = src@.subrange(0, pos as int);
    write_copy(out, offset, len, Ghost(p));
    proof {
        lemma_copy_back_repeats(src@, pos as nat, offset as nat, len as nat);
        lemma_body_extends(before, out@, h as nat, p, src@.subrange(0, pos + len));
        assert(out@ =~= old(out)@ + pending_bytes(src@, lit_start as int, pos as int) + copy_bytes(
            offset as nat,
            len as nat,
        ));
    }
}

/// Slots in the compressor's hash table.
const TABLE_SIZE: usize = 0x4000;

/// The largest back-reference distance the compressor emits.
const MAX_OFFSET: usize = 0xFFFF;

/// The largest frame that compressing `n` bytes may give, for sizing an
/// output buffer ahead.
pub fn max_compressed_length(n: usize) -> (r: usize)
    requires
        32 + n + n / 6 <= usize::MAX,
    ensures
        r == max_compressed_len(n as nat),
{
    32 + n + n / 6
}

/// The four bytes from `pos`, read little-endian.
fn load32(src: &[u8], pos: usize) -> (r: u32)
    requires
        pos + 4 <= src.len(),
    ensures
        r == window(src@, pos as int),
{
    src[pos] as u32 + 0x100 * src[pos + 1] as u32 + 0x1_0000 * src[pos + 2] as u32 + 0x100_0000
        * src[pos + 3] as u32
}

/// The hash-table slot for a four-byte window.
fn hash_slot(w: u32) -> (r: usize)
    ensures
        r == slot_of(w),
        r < TABLE_SIZE,
{
    let x: u64 = w as u64 * 0x1e35_a7bd;
    (x % 0x1_0000_0000 / 0x4_0000) as usize
}

/// Whether the four bytes from `a` equal the four bytes from `b`.
fn same4(src: &[u8], a: usize, b: usize) -> (r: bool)
    requires
        a + 4 <= src.len(),
        b + 4 <= src.len(),
    ensures
        r == same_window(src@, a as int, b as int),
{
    let r = src[a] == src[b] && src[a + 1] == src[b + 1] && src[a + 2] == src[b + 2] && src[a + 3]
        == src[b + 3];
    proof {
        if !r {
            if src@[a as int] != src@[b as int] {
                assert(src@[a + 0] != src@[b + 0]);
            } else if src@[a + 1] != src@[b + 1] {
                assert(src@[a + 1] != src@[b + 1]);
            } else if src@[a + 2] != src@[b + 2] {
                assert(src@[a + 2] != src@[b + 2]);
            } else {
                assert(src@[a + 3] != src@[b + 3]);
            }
        }
    }
    r
}

/// An empty hash table.
fn new_table() -> (t: Vec<usize>)
    ensures
        t@ == Seq::new(0x4000, |i: int| 0usize),
{
    let mut t: Vec<usize> = Vec::with_capacity(TABLE_SIZE);
    while t.len() < TABLE_SIZE
        invariant
            t@.len() <= TABLE_SIZE,
            t@ =~= Seq::new(t@.len(), |i: int| 0usize),
        decreases TABLE_SIZE - t.len(),
    {
        t.push(0);
        assert(t@ =~= Seq::new(t@.len(), |i: int| 0usize));
    }
    t
}

/// What holds between rounds of the compressor's scan: the header is
/// written, the body decodes to the input before the pending literal and
/// stays within the size budget, and what is written followed by what the
/// model writes from this state is the whole frame.
spec fn scan_state(
    s: Seq<u8>,
    out: Seq<u8>,
    table: Seq<usize>,
    h: int,
    lit_start: int,
    pos: int,
    skip: int,
) -> bool {
    &&& s.len() <= 0xFFFF_FFFF
    &&& 0 <= lit_start <= pos <= s.len()
    &&& 1 <= h <= 5
    &&& h <= out.len()
    &&& h == varint_bytes(s.len()).len()
    &&& out.subrange(0, h) == varint_bytes(s.len())
    &&& run_tokens(out.subrange(h, out.len() as int), seq![]) == Some(s.subrange(0, lit_start))
    &&& out.len() - h <= lit_start + lit_start / 6
    &&& table.len() == TABLE_SIZE
    &&& skip == 32 + (pos - lit_start)
    &&& (s.len() <= 4 ==> lit_start == 0 && out == varint_bytes(s.len()))
    &&& out + greedy_rest(s, table, lit_start, pos, skip) == compressed(s)
}

/// One round of the scan at `pos`: look the window up, and either write
/// the pending literal and a match and go on after it, or step on by the
/// stride. Returns the new pending-literal start, position and skip
/// counter, and whether the scan has stopped because the stride passes
/// the end.
#[verifier::rlimit(100)]
fn scan_step(
    src: &[u8],
    out: &mut Vec<u8>,
    table: &mut Vec<usize>,
    h: usize,
    lit_start: usize,
    pos: usize,
    skip: u64,
) -> (r: (usize, usize, u64, bool))
    requires
        scan_state(src@, old(out)@, old(table)@, h as int, lit_start as int, pos as int, skip as int),
        src.len() - pos >= 4,
    ensures
        scan_state(src@, final(out)@, final(table)@, h as int, r.0 as int, r.1 as int, r.2 as int),
        r.3 ==> greedy_rest(src@, final(table)@, r.0 as int, r.1 as int, r.2 as int)
            == pending_bytes(src@, r.0 as int, src@.len() as int),
        !r.3 ==> r.1 > pos,
        r.3 ==> r.1 == pos,
{
    let n = src.len();
    let ghost t0 = table@;
    let slot = hash_slot(load32(src, pos));
    let stored = table[slot];
    table.set(slot, pos + 1);
    if stored > 0 && stored - 1 < pos && pos - (stored - 1) <= MAX_OFFSET && same4(
        src,
        stored - 1,
        pos,
    ) {
        let cand = stored - 1;
        let mut len: usize = 4;
        while len < n - pos && src[cand + len] == src[pos + len]
            invariant
                n == src@.len(),
                cand < pos,
                4 <= len <= n - pos,
                forall|k: int| 0 <= k < len ==> #[trigger] src@[cand + k] == src@[pos + k],
                match_end(src@, cand as int, pos as int, 4) == match_end(
                    src@,
                    cand as int,
                    pos as int,
                    len as int,
                ),
            decreases n - pos - len,
        {
            len = len + 1;
        }
        let offset = pos - cand;
        assert forall|k: int| 0 <= k < len implies #[trigger] src@[pos + k] == src@[pos - offset
            + k] by {
            assert(src@[cand + k] == src@[pos + k]);
        }
        let ghost before = out@;
        let ghost t1 = table@;
        write_match(out, src, h, lit_start, pos, offset, len);
        let end = pos + len;
        if n - end >= 3 {
            let s2 = hash_slot(load32(src, end - 2));
            table.set(s2, end - 1);
            let s1 = hash_slot(load32(src, end - 1));
            table.set(s1, end);
        }
        proof {
            assert(table@ == table_after_match(src@, t1, end as int));
            lemma_greedy_match(
                src@,
                t0,
                lit_start as int,
                pos as int,
                skip as int,
                cand as int,
                len as int,
            );
            assert(before + greedy_rest(src@, t0, lit_start as int, pos as int, skip as int)
                =~= out@ + greedy_rest(src@, table@, end as int, end as int, 32));
            if n <= 4 {
                assert(false);
            }
        }
        (end, end, 32, false)
    } else {
        proof {
            lemma_greedy_miss(src@, t0, lit_start as int, pos as int, skip as int);
        }
        let step = (skip / 32) as usize;
        if step > n - pos {
            proof {
                lemma_greedy_miss(src@, table@, lit_start as int, pos as int, skip as int);
            }
            (lit_start, pos, skip, true)
        } else {
            (lit_start, pos + step, skip + step as u64, false)
        }
    }
}

/// Compresses `src` into one frame: the length header, then literal runs
/// and back-references found through a table of recent four-byte windows.
/// The input may hold at most `0xFFFF_FFFF` bytes, the most that the
/// 32-bit length header can declare. The frame is `compressed(src)`: it
/// starts with the shortest varint of the length, an input of one to four
/// bytes gives a single literal token, the frame decodes to `src`, and it
/// is never longer than `max_compressed_length(src.len())`.
pub fn compress(src: &[u8]) -> (r: Vec<u8>)
    requires
        src@.len() <= 0xFFFF_FFFF,
    ensures
        r@ == compressed(src@),
        r@.subrange(0, varint_bytes(src@.len()).len() as int) == varint_bytes(src@.len()),
        src@.len() == 0 ==> r@ == seq![0u8],
        1 <= src@.len() <= 4 ==> r@ == varint_bytes(src@.len()) + seq![
            (4 * (src@.len() - 1)) as u8,
        ] + src@,
        decoded(r@) == Some(src@),
        r@.len() <= max_compressed_len(src@.len()),
{
    let n = src.len();
    let cap = if n <= usize::MAX / 2 {
        max_compressed_length(n)
    } else {
        n
    };
    let mut out: Vec<u8> = Vec::with_capacity(cap);
    write_varint(&mut out, n as u32);
    let h = out.len();
    proof {
        lemma_varint_bytes_len(n as nat, 0);
        assert(out@ =~= varint_bytes(n as nat));
        assert(out@.subrange(h as int, out@.len() as int) =~= Seq::<u8>::empty());
        assert(src@.subrange(0, 0) =~= Seq::<u8>::empty());
    }
    let mut table = new_table();
    let mut lit_start: usize = 0;
    let mut pos: usize = 0;
    let mut skip: u64 = 32;
    let mut stopped = false;
    proof {
        assert(run_tokens(Seq::<u8>::empty(), seq![]) == Some(Seq::<u8>::empty()));
        assert(table@ == Seq::new(0x4000, |i: int| 0usize));
        assert(out@ + greedy_rest(src@, table@, 0, 0, 32) == compressed(src@));
        assert(h == varint_bytes(src@.len()).len());
        assert(out@.subrange(0, h as int) == varint_bytes(src@.len()));
        assert(run_tokens(out@.subrange(h as int, out@.len() as int), seq![]) == Some(
            src@.subrange(0, 0),
        ));
        assert(n <= 4 ==> out@ == varint_bytes(src@.len()));
    }
    while !stopped && n - pos >= 4
        invariant
            n == src@.len(),
            scan_state(src@, out@, table@, h as int, lit_start as int, pos as int, skip as int),
            stopped ==> greedy_rest(src@, table@, lit_start as int, pos as int, skip as int)
                == pending_bytes(src@, lit_start as int, n as int),
        decreases n - pos + if stopped {
            0int
        } else {
            1int
        },
    {
        let r = scan_step(src, &mut out, &mut table, h, lit_start, pos, skip);
        lit_start = r.0;
        pos = r.1;
        skip = r.2;
        stopped = r.3;
    }
    proof {
        if !stopped {
            lemma_greedy_end(src@, table@, lit_start as int, pos as int, skip as int);
        }
    }
    write_pending(&mut out, src, h, lit_start, n);
    proof {
        assert(src@.subrange(0, n as int) =~= src@);
        lemma_varint_read_back(out@, 0, n as nat);
        if 1 <= n <= 4 {
            assert(out@ =~= varint_bytes(n as nat) + seq![(4 * (n - 1)) as u8] + src@);
        }
        if n == 0 {
            assert(out@ =~= seq![0u8]);
        }
    }
    out
}

} // verus!
