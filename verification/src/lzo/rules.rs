//! The LZO1X format and the compressor's choices stated on their own terms:
//! from the bit layout of the instructions, what each instruction byte means
//! to the decoder and what a block copy produces; which instruction each
//! copy and literal run is written as; which match `find_better_match` keeps;
//! which matches the compressor takes; and what the chain search finds.
use vstd::prelude::*;
use super::EResult;
use super::format::{copy_match, max_255_count, parse, run, spec_decompress, zero_run, Inst};
use super::stream::{lit_header, match_bytes, zero_len_bytes};
use super::compressor::{M1_MAX_OFFSET, M2_MAX_LEN, M2_MIN_LEN, M2_MAX_OFFSET, M3_MAX_LEN, M3_MAX_OFFSET, M4_MAX_LEN};
use super::compressor::{better_match, emit, lemma_emit_prefix, step_result};
use super::dict::{bl_after, common_at, last3, walk_abs, MAX_MATCH_BY_LENGTH_LEN, MAX_MATCH_LEN};
use super::dict::{count3, key2, key3, last2, lemma_last2, lo3, search_abs, w0_of, window};
use super::stream::{is_prefix, Token};

verus! {

/// The bit fields of an instruction byte.
proof fn lemma_fields(i: u8)
    ensures
        (i >> 5u8) as int == i / 32,
        ((i >> 2u8) & 7u8) as int == (i / 4) % 8,
        (i >> 2u8) as int == i / 4,
        (i & 3u8) as int == i % 4,
        (i & 31u8) as int == i % 32,
        (i & 7u8) as int == i % 8,
        ((i >> 3u8) & 1u8) as int == (i / 8) % 2,
{
    assert((i >> 5u8) as int == i / 32) by (bit_vector);
    assert(((i >> 2u8) & 7u8) as int == (i / 4) % 8) by (bit_vector);
    assert((i >> 2u8) as int == i / 4) by (bit_vector);
    assert((i & 3u8) as int == i % 4) by (bit_vector);
    assert((i & 31u8) as int == i % 32) by (bit_vector);
    assert((i & 7u8) as int == i % 8) by (bit_vector);
    assert(((i >> 3u8) & 1u8) as int == (i / 8) % 2) by (bit_vector);
}

/// A length field closed by the byte after `z` zero bytes: the instruction
/// goes on after that byte.
pub open spec fn ext_end(src: Seq<u8>, p: int) -> int {
    p + zero_run(src, p) + 1
}

/// Its value beyond the base: 255 for each zero byte, then the closing byte.
pub open spec fn ext_value(src: Seq<u8>, p: int) -> int {
    255 * zero_run(src, p) + src[p + zero_run(src, p)]
}

/// A closed length field, within the limit on zero bytes.
pub open spec fn ext_ok(src: Seq<u8>, p: int) -> bool {
    &&& zero_run(src, p) <= max_255_count()
    &&& p + zero_run(src, p) < src.len()
}

/// `0 1 L D D D S S` and `1 L L D D D S S`, then `H`: a copy of `L + 3`
/// (resp. `L + 5`) bytes, that is `(byte >> 5) + 1`, from distance
/// `(H << 3) + D + 1`, followed by `S` literals.
pub proof fn law_m2(src: Seq<u8>, inp: int, state: int)
    requires
        0 <= inp,
        inp + 1 < src.len(),
        src[inp] >= 64,
    ensures
        ({
            let i = src[inp];
            parse(src, inp, state) == Ok::<Inst, EResult>(
                Inst::Match(inp + 2, src[inp + 1] * 8 + ((i >> 2u8) & 7u8) + 1, (i >> 5u8) + 1, (i & 3u8) as int),
            )
        }),
{
    reveal(parse);
    lemma_fields(src[inp]);
}

/// `0 0 1 L L L L L`, then the length field when `L == 0`, then the
/// little-endian 16 bits `D..D S S`: a copy of `L + 2` bytes (or
/// `33 + 255 * zeros + closing byte`, with no upper bound) from distance
/// `D + 1`, followed by `S` literals.
pub proof fn law_m3(src: Seq<u8>, inp: int, state: int)
    requires
        0 <= inp < src.len(),
        32 <= src[inp] < 64,
        src[inp] & 31u8 == 0 ==> ext_ok(src, inp + 1),
        ({
            let q = if src[inp] & 31u8 == 0 { ext_end(src, inp + 1) } else { inp + 1 };
            q + 2 <= src.len()
        }),
    ensures
        ({
            let i = src[inp];
            let l = i & 31u8;
            let q = if l == 0 { ext_end(src, inp + 1) } else { inp + 1 };
            let len = if l == 0 { 33 + ext_value(src, inp + 1) } else { l + 2 };
            parse(src, inp, state) == Ok::<Inst, EResult>(
                Inst::Match(q + 2, (src[q] >> 2u8) + 64 * src[q + 1] + 1, len, (src[q] & 3u8) as int),
            )
        }),
{
    reveal(parse);
    lemma_fields(src[inp]);
    let i = src[inp];
    let q = if i & 31u8 == 0 { ext_end(src, inp + 1) } else { inp + 1 };
    lemma_fields(src[q]);
}

/// `0 0 0 1 H L L L`, then the length field when `L == 0`, then the
/// little-endian 16 bits `D..D S S`: the end of the stream when `H` and `D`
/// are zero, else a copy of `L + 2` bytes (or `9 + 255 * zeros + closing
/// byte`) from distance `16384 + (H << 14) + D`, followed by `S` literals.
pub proof fn law_m4(src: Seq<u8>, inp: int, state: int)
    requires
        0 <= inp < src.len(),
        16 <= src[inp] < 32,
        src[inp] & 7u8 == 0 ==> ext_ok(src, inp + 1),
        ({
            let q = if src[inp] & 7u8 == 0 { ext_end(src, inp + 1) } else { inp + 1 };
            q + 2 <= src.len()
        }),
    ensures
        ({
            let i = src[inp];
            let l = i & 7u8;
            let h = (i >> 3u8) & 1u8;
            let q = if l == 0 { ext_end(src, inp + 1) } else { inp + 1 };
            let len = if l == 0 { 9 + ext_value(src, inp + 1) } else { l + 2 };
            let d = (src[q] >> 2u8) + 64 * src[q + 1];
            parse(src, inp, state) == if h == 0 && d == 0 {
                Ok::<Inst, EResult>(Inst::End(q + 2, len))
            } else {
                Ok::<Inst, EResult>(Inst::Match(q + 2, 16384 + 16384 * h + d, len, (src[q] & 3u8) as int))
            }
        }),
{
    reveal(parse);
    lemma_fields(src[inp]);
    let i = src[inp];
    let q = if i & 7u8 == 0 { ext_end(src, inp + 1) } else { inp + 1 };
    lemma_fields(src[q]);
}

/// `0 0 0 0 L L L L` after an instruction that copied no literals: a literal
/// run of `L + 3` bytes, or `18 + 255 * zeros + closing byte` when `L == 0`.
pub proof fn law_literal_run(src: Seq<u8>, inp: int)
    requires
        0 <= inp < src.len(),
        src[inp] < 16,
        src[inp] == 0 ==> ext_ok(src, inp + 1),
    ensures
        parse(src, inp, 0) == if src[inp] == 0 {
            Ok::<Inst, EResult>(Inst::Literals(ext_end(src, inp + 1), 18 + ext_value(src, inp + 1)))
        } else {
            Ok::<Inst, EResult>(Inst::Literals(inp + 1, src[inp] + 3))
        },
{
    reveal(parse);
}

/// `0 0 0 0 D D S S`, then `H`, after an instruction that copied 1 to 3
/// literals: a copy of 2 bytes from distance `(H << 2) + D + 1`; after a
/// literal run of 4 or more bytes: a copy of 3 bytes from distance
/// `(H << 2) + D + 2049`. Either is followed by `S` literals.
pub proof fn law_m1(src: Seq<u8>, inp: int, state: int)
    requires
        0 <= inp,
        inp + 1 < src.len(),
        src[inp] < 16,
        1 <= state <= 4,
    ensures
        ({
            let i = src[inp];
            parse(src, inp, state) == if state == 4 {
                Ok::<Inst, EResult>(Inst::Match(inp + 2, (i >> 2u8) + 4 * src[inp + 1] + 2049, 3, (i & 3u8) as int))
            } else {
                Ok::<Inst, EResult>(Inst::Match(inp + 2, (i >> 2u8) + 4 * src[inp + 1] + 1, 2, (i & 3u8) as int))
            }
        }),
{
    reveal(parse);
    lemma_fields(src[inp]);
}

/// The bytes of the copy instructions from their bit fields.
proof fn lemma_copy_fields(o: usize, len: usize, s: usize)
    requires
        o < 0xc000,
        2 <= len <= 0x800,
        s <= 3,
    ensures
        o < 1024 ==> ((((o & 3) << 2) | s) as u8) as int == o % 4 * 4 + s,
        o < 1024 ==> ((o >> 2) as u8) as int == o / 4,
        o < 2048 && len <= 8 ==> (((((len - 1) as usize) << 5) | ((o & 7) << 2) | s) as u8) as int == (len - 1) * 32
            + o % 8 * 4 + s,
        o < 2048 ==> ((o >> 3) as u8) as int == o / 8,
        ((((o & 63) << 2) | s) as u8) as int == o % 64 * 4 + s,
        ((o >> 6) as u8) as int == o / 64 % 256,
        len <= 33 ==> ((32 | ((len - 2) as usize)) as u8) as int == 32 + len - 2,
        len <= 9 ==> ((16 | ((o & 0x4000) >> 11) | ((len - 2) as usize)) as u8) as int == 16 + (o / 16384) % 2 * 8 + len
            - 2,
        ((16 | ((o & 0x4000) >> 11)) as u8) as int == 16 + (o / 16384) % 2 * 8,
{
    assert(o < 1024 && s <= 3 ==> ((((o & 3) << 2) | s) as u8) as int == o % 4 * 4 + s) by (bit_vector);
    assert(o < 1024 ==> ((o >> 2) as u8) as int == o / 4) by (bit_vector);
    assert(o < 2048 && 2 <= len <= 8 && s <= 3 ==> (((((len - 1) as usize) << 5) | ((o & 7) << 2) | s) as u8) as int
        == (len - 1) * 32 + o % 8 * 4 + s) by (bit_vector);
    assert(o < 2048 ==> ((o >> 3) as u8) as int == o / 8) by (bit_vector);
    assert(s <= 3 ==> ((((o & 63) << 2) | s) as u8) as int == o % 64 * 4 + s) by (bit_vector);
    assert(((o >> 6) as u8) as int == o / 64 % 256) by (bit_vector);
    assert(2 <= len <= 33 ==> ((32 | ((len - 2) as usize)) as u8) as int == 32 + len - 2) by (bit_vector);
    assert(o < 0xc000 && 2 <= len <= 9 ==> ((16 | ((o & 0x4000) >> 11) | ((len - 2) as usize)) as u8) as int == 16 + (o
        / 16384) % 2 * 8 + len - 2) by (bit_vector);
    assert(o < 0xc000 ==> ((16 | ((o & 0x4000) >> 11)) as u8) as int == 16 + (o / 16384) % 2 * 8) by (bit_vector);
}

/// A copy of 2 bytes within 1kB is the M1 instruction `0 0 0 0 D D S S`,
/// `H`, with `(H << 2) + D` the distance less one and `S` the literals after.
pub proof fn law_m1_encoding(off: usize, last: int, s: usize)
    requires
        1 <= off <= M1_MAX_OFFSET,
        s <= 3,
    ensures
        ({
            let o = (off - 1) as usize;
            match_bytes(2, off as int, last, s as int) == seq![(((o & 3) << 2) | s) as u8, (o >> 2) as u8]
        }),
{
    lemma_copy_fields((off - 1) as usize, 2, s);
}

/// A copy of 3 to 8 bytes within 2kB is the two-byte M2 instruction
/// `L L L D D D S S`, `H`, with `L` the length less one, `(H << 3) + D` the
/// distance less one and `S` the literals after.
pub proof fn law_m2_encoding(len: usize, off: usize, last: int, s: usize)
    requires
        3 <= len <= M2_MAX_LEN,
        1 <= off <= M2_MAX_OFFSET,
        s <= 3,
    ensures
        ({
            let o = (off - 1) as usize;
            match_bytes(len as int, off as int, last, s as int) == seq![
                ((((len - 1) as usize) << 5) | ((o & 7) << 2) | s) as u8,
                (o >> 3) as u8,
            ]
        }),
{
    lemma_copy_fields((off - 1) as usize, len, s);
}

/// A copy of 3 bytes from 2..3kB after a run of 4 or more literals is the
/// two-byte M1 instruction, with `(H << 2) + D` the distance less 2049.
pub proof fn law_m1_far_encoding(off: usize, last: int, s: usize)
    requires
        M2_MAX_OFFSET < off <= M1_MAX_OFFSET + M2_MAX_OFFSET,
        last >= 4,
        s <= 3,
    ensures
        ({
            let o = (off - 1 - M2_MAX_OFFSET) as usize;
            match_bytes(3, off as int, last, s as int) == seq![(((o & 3) << 2) | s) as u8, (o >> 2) as u8]
        }),
{
    lemma_copy_fields((off - 2049) as usize, 3, s);
}

/// Any other copy within 16kB is the M3 instruction: `0 0 1 L L L L L` with
/// the length less 2 (or `L == 0` and a length field worth the length less
/// 33), then the little-endian 16 bits `D..D S S` with the distance less one.
pub proof fn law_m3_encoding(len: usize, off: usize, last: int, s: usize)
    requires
        3 <= len <= 0x800,
        1 <= off <= M3_MAX_OFFSET,
        !(len <= M2_MAX_LEN && off <= M2_MAX_OFFSET),
        !(len == 3 && off <= M1_MAX_OFFSET + M2_MAX_OFFSET && last >= 4),
        s <= 3,
    ensures
        ({
            let o = (off - 1) as usize;
            let head = if len <= M3_MAX_LEN {
                seq![(32 | ((len - 2) as usize)) as u8]
            } else {
                seq![32u8] + zero_len_bytes(len - M3_MAX_LEN)
            };
            match_bytes(len as int, off as int, last, s as int) == head + seq![(((o & 63) << 2) | s) as u8, (o >> 6) as u8]
        }),
{
    lemma_copy_fields((off - 1) as usize, len, s);
}

/// A copy from 16..48kB is the M4 instruction: `0 0 0 1 H L L L` with `H`
/// bit 14 of the distance less 16384 and the length less 2 (or `L == 0` and
/// a length field worth the length less 9), then the little-endian 16 bits
/// `D..D S S` with the low 14 bits of the distance less 16384.
pub proof fn law_m4_encoding(len: usize, off: usize, last: int, s: usize)
    requires
        3 <= len <= 0x800,
        M3_MAX_OFFSET < off <= 0xbfff,
        s <= 3,
    ensures
        ({
            let o = (off - M3_MAX_OFFSET) as usize;
            let h = (o & 0x4000) >> 11;
            let head = if len <= M4_MAX_LEN {
                seq![(16 | h | ((len - 2) as usize)) as u8]
            } else {
                seq![(16 | h) as u8] + zero_len_bytes(len - M4_MAX_LEN)
            };
            match_bytes(len as int, off as int, last, s as int) == head + seq![
                (((o & 63) << 2) | s) as u8,
                ((o >> 6) & 0xff) as u8,
            ]
        }),
{
    let o = (off - M3_MAX_OFFSET) as usize;
    lemma_copy_fields(o, len, s);
    assert(((o >> 6) & 0xff) as u8 == (o >> 6) as u8) by (bit_vector);
}

/// A match of at most 3 bytes, or one within 2kB, is kept as it is.
pub proof fn law_better_keeps(best_off: Seq<usize>, len: int, off: int)
    requires
        len <= M2_MIN_LEN || off <= M2_MAX_OFFSET,
    ensures
        better_match(best_off, len, off) == (len, off),
{
}

/// A match of 4 to 9 bytes beyond 2kB gives way to the recorded match one
/// byte shorter when that one lies within 2kB: an M2 copy.
pub proof fn law_better_m2(best_off: Seq<usize>, len: int, off: int)
    requires
        M2_MIN_LEN < len <= M2_MAX_LEN + 1,
        off > M2_MAX_OFFSET,
        best_off[len - 1] != 0,
        best_off[len - 1] <= M2_MAX_OFFSET,
    ensures
        better_match(best_off, len, off) == (len - 1, best_off[len - 1] as int),
{
}

/// A 10-byte match beyond 16kB gives way to the recorded 8-byte match when
/// the recorded 10-byte one lies within 2kB: an M2 copy in place of an M4.
pub proof fn law_better_far_m2(best_off: Seq<usize>, off: int)
    requires
        off > M3_MAX_OFFSET,
        best_off[M2_MAX_LEN as int] != 0,
        best_off[M2_MAX_LEN + 2] <= M2_MAX_OFFSET,
    ensures
        better_match(best_off, M2_MAX_LEN + 2, off) == (M2_MAX_LEN as int, best_off[M2_MAX_LEN as int] as int),
{
}

/// Otherwise a match of 10 to 34 bytes beyond 16kB gives way to the
/// recorded match one byte shorter when the one two bytes shorter lies
/// within 16kB.
pub proof fn law_better_far_m3(best_off: Seq<usize>, len: int, off: int)
    requires
        off > M3_MAX_OFFSET,
        M4_MAX_LEN < len <= M3_MAX_LEN + 1,
        !(len == M2_MAX_LEN + 2 && best_off[M2_MAX_LEN as int] != 0 && best_off[M2_MAX_LEN + 2] <= M2_MAX_OFFSET),
        best_off[len - 1] != 0,
        best_off[len - 2] <= M3_MAX_OFFSET,
    ensures
        better_match(best_off, len, off) == (len - 1, best_off[len - 1] as int),
{
}

/// The match kept is the one found, or a recorded match (non-zero distance)
/// one or two bytes shorter and of at least 3 bytes.
pub proof fn law_better_shape(best_off: Seq<usize>, len: int, off: int)
    ensures
        ({
            let (l2, o2) = better_match(best_off, len, off);
            ||| (l2, o2) == (len, off)
            ||| {
                &&& l2 == len - 1 || l2 == len - 2
                &&& l2 >= M2_MIN_LEN
                &&& best_off[l2] != 0
                &&& o2 == best_off[l2] as int
            }
        }),
{
}

/// After a literal run of 1 to 3 bytes that follows an earlier token, a
/// 2-byte match within 1kB found at the walk's position is taken: the next
/// token is that copy (an M1 instruction).
pub proof fn law_short_match_taken(
    src: Seq<u8>,
    t: int,
    lit_len: int,
    toks: Seq<Token>,
    bls: Seq<int>,
    lb_off: int,
    best_off: Seq<usize>,
)
    requires
        0 <= t,
        t + 2 <= src.len(),
        toks.len() > 0,
        1 <= lit_len <= 3,
        1 <= lb_off <= M1_MAX_OFFSET,
    ensures
        is_prefix(toks.push(Token { lits: lit_len, len: 2, off: lb_off }), emit(src, t, lit_len, toks, bls, 2, lb_off, best_off)),
{
    lemma_match_taken(src, t, lit_len, toks, bls, 2, lb_off, best_off);
}

/// A match of 3 bytes or more found at the walk's position is taken (as
/// `find_better_match` leaves it), except a 3-byte one beyond 3kB after 4 or
/// more literals, and except at the very start: the next token is that copy.
pub proof fn law_long_match_taken(
    src: Seq<u8>,
    t: int,
    lit_len: int,
    toks: Seq<Token>,
    bls: Seq<int>,
    lb_len: int,
    lb_off: int,
    best_off: Seq<usize>,
)
    requires
        0 <= t,
        0 <= lit_len,
        M2_MIN_LEN <= lb_len,
        !(lb_len == M2_MIN_LEN && lb_off > M1_MAX_OFFSET + M2_MAX_OFFSET && lit_len >= 4),
        toks.len() > 0 || lit_len > 0,
        t + better_match(best_off, lb_len, lb_off).0 <= src.len(),
    ensures
        ({
            let m = better_match(best_off, lb_len, lb_off);
            is_prefix(
                toks.push(Token { lits: lit_len, len: m.0, off: m.1 }),
                emit(src, t, lit_len, toks, bls, lb_len, lb_off, best_off),
            )
        }),
{
    law_better_shape(best_off, lb_len, lb_off);
    lemma_match_taken(src, t, lit_len, toks, bls, lb_len, lb_off, best_off);
}

/// One step of the walk that takes the match: the token comes next.
proof fn lemma_match_taken(
    src: Seq<u8>,
    t: int,
    lit_len: int,
    toks: Seq<Token>,
    bls: Seq<int>,
    lb_len: int,
    lb_off: int,
    best_off: Seq<usize>,
)
    requires
        0 <= t,
        0 <= lit_len,
        2 <= lb_len,
        lb_len == 2 ==> 1 <= lit_len <= 3 && lb_off <= 1024 && toks.len() > 0,
        !(lb_len == 3 && lb_off > 3072 && lit_len >= 4),
        toks.len() > 0 || lit_len > 0,
        1 <= better_match(best_off, lb_len, lb_off).0,
        t + better_match(best_off, lb_len, lb_off).0 <= src.len(),
    ensures
        ({
            let m = better_match(best_off, lb_len, lb_off);
            is_prefix(
                toks.push(Token { lits: lit_len, len: m.0, off: m.1 }),
                emit(src, t, lit_len, toks, bls, lb_len, lb_off, best_off),
            )
        }),
{
    reveal(emit);
    let m = better_match(best_off, lb_len, lb_off);
    let t2 = t + m.0;
    let bls2 = bls + Seq::new((m.0 - 1) as nat, |i: int| (MAX_MATCH_LEN + 1) as int);
    let r = step_result(src, t2, bls2, best_off);
    let tk = toks.push(Token { lits: lit_len, len: m.0, off: m.1 });
    assert(emit(src, t, lit_len, toks, bls, lb_len, lb_off, best_off) == emit(
        src,
        t2,
        0,
        tk,
        bls2.push(bl_after(src, t2, bls2)),
        r.0,
        r.1,
        r.2,
    ));
    lemma_emit_prefix(src, t2, 0, tk, bls2.push(bl_after(src, t2, bls2)), r.0, r.1, r.2);
}

/// The `j`-th position of the chain of key `k` from `a`: each the latest
/// earlier position with that key.
pub open spec fn chain_at(src: Seq<u8>, a: int, k: int, j: int) -> int
    decreases j,
{
    if j <= 0 {
        a
    } else {
        chain_at(src, last3(src, a, k), k, j - 1)
    }
}

/// The chain search never gives less than the best match it starts from.
proof fn lemma_walk_keeps_best(
    src: Seq<u8>,
    t: int,
    w: int,
    k: int,
    a: int,
    count: int,
    lb_len: int,
    lb_off: int,
    bo: Seq<int>,
    bls: Seq<int>,
)
    ensures
        walk_abs(src, t, w, k, a, count, lb_len, lb_off, bo, bls).0 >= lb_len,
    decreases count,
{
    if count > 0 {
        let ml = common_at(src, t, a, w);
        let next = last3(src, a, k);
        let bo2 = if ml < MAX_MATCH_BY_LENGTH_LEN && bo[ml] == 0 { bo.update(ml, t - a) } else { bo };
        if ml < 2 {
            lemma_walk_keeps_best(src, t, w, k, next, count - 1, lb_len, lb_off, bo, bls);
        } else if ml > lb_len {
            lemma_walk_keeps_best(src, t, w, k, next, count - 1, ml, t - a, bo2, bls);
        } else {
            lemma_walk_keeps_best(src, t, w, k, next, count - 1, lb_len, lb_off, bo2, bls);
        }
    }
}

/// The chain search goes on past a candidate that neither fills the window
/// nor beats the best length recorded at its position. So the match it
/// gives is at least as long as the best it starts from, and as the match
/// at each position of the chain (among the `count` it visits) up to the
/// first one where it may stop.
pub proof fn law_walk_longest(
    src: Seq<u8>,
    t: int,
    w: int,
    k: int,
    a: int,
    count: int,
    lb_len: int,
    lb_off: int,
    bo: Seq<int>,
    bls: Seq<int>,
    j: int,
)
    requires
        0 <= j < count,
        forall|i: int|
            0 <= i < j ==> common_at(src, t, #[trigger] chain_at(src, a, k, i), w) < w && common_at(
                src,
                t,
                chain_at(src, a, k, i),
                w,
            ) <= bls[chain_at(src, a, k, i)],
    ensures
        walk_abs(src, t, w, k, a, count, lb_len, lb_off, bo, bls).0 >= lb_len,
        common_at(src, t, chain_at(src, a, k, j), w) >= 2 ==> walk_abs(src, t, w, k, a, count, lb_len, lb_off, bo, bls).0
            >= common_at(src, t, chain_at(src, a, k, j), w),
    decreases j,
{
    lemma_walk_keeps_best(src, t, w, k, a, count, lb_len, lb_off, bo, bls);
    let ml = common_at(src, t, a, w);
    let next = last3(src, a, k);
    let bo2 = if ml < MAX_MATCH_BY_LENGTH_LEN && bo[ml] == 0 { bo.update(ml, t - a) } else { bo };
    let (l1, o1, b1) = if ml < 2 {
        (lb_len, lb_off, bo)
    } else if ml > lb_len {
        (ml, t - a, bo2)
    } else {
        (lb_len, lb_off, bo2)
    };
    assert(chain_at(src, a, k, 0) == a);
    if j == 0 {
        if ml >= 2 && ml > lb_len && !(ml == w || ml > bls[a]) {
            lemma_walk_keeps_best(src, t, w, k, next, count - 1, l1, o1, b1, bls);
        }
    } else {
        assert(ml < w && ml <= bls[a]);
        assert forall|i: int| 0 <= i < j - 1 implies common_at(src, t, #[trigger] chain_at(src, next, k, i), w) < w
            && common_at(src, t, chain_at(src, next, k, i), w) <= bls[chain_at(src, next, k, i)] by {
            assert(chain_at(src, a, k, i + 1) == chain_at(src, next, k, i));
        }
        assert(chain_at(src, a, k, j) == chain_at(src, next, k, j - 1));
        law_walk_longest(src, t, w, k, next, count - 1, l1, o1, b1, bls, j - 1);
        assert(walk_abs(src, t, w, k, a, count, lb_len, lb_off, bo, bls) == walk_abs(src, t, w, k, next, count - 1, l1, o1, b1, bls));
    }
}

/// A length field worth `l` is `(l - 1) / 255` zero bytes, each worth 255,
/// then the byte holding the rest, 1 to 255.
pub proof fn law_length_field(l: int)
    requires
        l >= 1,
    ensures
        zero_len_bytes(l) == Seq::new(((l - 1) / 255) as nat, |i: int| 0u8) + seq![(l - 255 * ((l - 1) / 255)) as u8],
        1 <= l - 255 * ((l - 1) / 255) <= 255,
    decreases l,
{
    if l > 255 {
        law_length_field(l - 255);
        let z = Seq::new(((l - 1) / 255) as nat, |i: int| 0u8);
        let z1 = Seq::new(((l - 256) / 255) as nat, |i: int| 0u8);
        assert((l - 1) / 255 == (l - 256) / 255 + 1);
        assert(z =~= seq![0u8] + z1);
        assert(seq![0u8] + (z1 + seq![(l - 255 - 255 * ((l - 256) / 255)) as u8]) =~= z + seq![(l - 255 * ((l - 1) / 255)) as u8]);
    } else {
        assert(Seq::new(((l - 1) / 255) as nat, |i: int| 0u8) =~= Seq::<u8>::empty());
    }
}

/// The header of a literal run of `n` bytes: the first run of the stream,
/// up to 238 bytes, is the single byte `17 + n`; a later run of 1 to 3 bytes
/// has none (the copy before it carries its length); a run of 4 to 18 bytes
/// is the single byte `n - 3`; a longer one is a zero byte, then a length
/// field worth `n - 18`.
pub proof fn law_literal_header(first: bool, n: int)
    requires
        1 <= n,
    ensures
        first && n <= 238 ==> lit_header(first, n) == seq![(17 + n) as u8],
        !first && n <= 3 ==> lit_header(first, n) == Seq::<u8>::empty(),
        !(first && n <= 238) && 4 <= n <= 18 ==> lit_header(first, n) == seq![(n - 3) as u8],
        !(first && n <= 238) && n > 18 ==> lit_header(first, n) == seq![0u8] + zero_len_bytes(n - 18),
{
}

/// A distance recorded for a length during the chain search is never
/// replaced: the search records the first match of each length it meets.
pub proof fn law_walk_keeps_offsets(
    src: Seq<u8>,
    t: int,
    w: int,
    k: int,
    a: int,
    count: int,
    lb_len: int,
    lb_off: int,
    bo: Seq<int>,
    bls: Seq<int>,
    l: int,
)
    requires
        bo.len() == MAX_MATCH_BY_LENGTH_LEN,
        0 <= l < bo.len(),
        bo[l] != 0,
    ensures
        walk_abs(src, t, w, k, a, count, lb_len, lb_off, bo, bls).2.len() == bo.len(),
        walk_abs(src, t, w, k, a, count, lb_len, lb_off, bo, bls).2[l] == bo[l],
    decreases count,
{
    if count > 0 {
        let ml = common_at(src, t, a, w);
        let next = last3(src, a, k);
        let bo2 = if ml < MAX_MATCH_BY_LENGTH_LEN && bo[ml] == 0 { bo.update(ml, t - a) } else { bo };
        if ml < 2 {
            law_walk_keeps_offsets(src, t, w, k, next, count - 1, lb_len, lb_off, bo, bls, l);
        } else {
            assert(bo2.len() == bo.len() && bo2[l] == bo[l]);
            if ml > lb_len {
                law_walk_keeps_offsets(src, t, w, k, next, count - 1, ml, t - a, bo2, bls, l);
            } else {
                law_walk_keeps_offsets(src, t, w, k, next, count - 1, lb_len, lb_off, bo2, bls, l);
            }
        }
    }
}

/// The distance the chain search gives for a length `l` (2 to 33) not yet
/// recorded is that of the first position of the chain whose match has `l`
/// bytes (an earlier position than `t`), when the search reaches it: no
/// earlier position of the chain fills the window or beats the best length
/// recorded at it.
pub proof fn law_walk_first_offset(
    src: Seq<u8>,
    t: int,
    w: int,
    k: int,
    a: int,
    count: int,
    lb_len: int,
    lb_off: int,
    bo: Seq<int>,
    bls: Seq<int>,
    j: int,
    l: int,
)
    requires
        0 <= j < count,
        2 <= l < MAX_MATCH_BY_LENGTH_LEN,
        bo.len() == MAX_MATCH_BY_LENGTH_LEN,
        bo[l] == 0,
        common_at(src, t, chain_at(src, a, k, j), w) == l,
        chain_at(src, a, k, j) < t,
        forall|i: int|
            0 <= i < j ==> common_at(src, t, #[trigger] chain_at(src, a, k, i), w) != l && common_at(
                src,
                t,
                chain_at(src, a, k, i),
                w,
            ) < w && common_at(src, t, chain_at(src, a, k, i), w) <= bls[chain_at(src, a, k, i)],
    ensures
        walk_abs(src, t, w, k, a, count, lb_len, lb_off, bo, bls).2[l] == t - chain_at(src, a, k, j),
    decreases j,
{
    let ml = common_at(src, t, a, w);
    let next = last3(src, a, k);
    let bo2 = if ml < MAX_MATCH_BY_LENGTH_LEN && bo[ml] == 0 { bo.update(ml, t - a) } else { bo };
    let (l1, o1, b1) = if ml < 2 {
        (lb_len, lb_off, bo)
    } else if ml > lb_len {
        (ml, t - a, bo2)
    } else {
        (lb_len, lb_off, bo2)
    };
    assert(chain_at(src, a, k, 0) == a);
    if j == 0 {
        assert(bo2[l] == t - a);
        if ml > lb_len && (ml == w || ml > bls[a]) {
        } else {
            law_walk_keeps_offsets(src, t, w, k, next, count - 1, l1, o1, b1, bls, l);
        }
    } else {
        assert(ml != l && ml < w && ml <= bls[a]);
        assert(b1.len() == bo.len() && b1[l] == 0);
        assert forall|i: int| 0 <= i < j - 1 implies common_at(src, t, #[trigger] chain_at(src, next, k, i), w) != l
            && common_at(src, t, chain_at(src, next, k, i), w) < w && common_at(src, t, chain_at(src, next, k, i), w)
            <= bls[chain_at(src, next, k, i)] by {
            assert(chain_at(src, a, k, i + 1) == chain_at(src, next, k, i));
        }
        assert(chain_at(src, a, k, j) == chain_at(src, next, k, j - 1));
        law_walk_first_offset(src, t, w, k, next, count - 1, l1, o1, b1, bls, j - 1, l);
    }
}

/// A block copy from `dist` bytes back appends `n` bytes, each equal to the
/// byte `dist` before it (so it may repeat bytes it produced itself), and
/// leaves the output before it as it was.
pub proof fn law_block_copy(out: Seq<u8>, dist: int, n: nat)
    requires
        1 <= dist <= out.len(),
    ensures
        copy_match(out, dist, n).len() == out.len() + n,
        copy_match(out, dist, n).take(out.len() as int) == out,
        forall|j: int|
            out.len() <= j < out.len() + n ==> #[trigger] copy_match(out, dist, n)[j] == copy_match(out, dist, n)[j - dist],
    decreases n,
{
    if n > 0 {
        law_block_copy(out, dist, (n - 1) as nat);
        let c = copy_match(out, dist, (n - 1) as nat);
        let c2 = copy_match(out, dist, n);
        assert(c2 == c.push(c[c.len() - dist]));
        assert(c2.take(out.len() as int) =~= c.take(out.len() as int));
        assert forall|j: int| out.len() <= j < out.len() + n implies #[trigger] c2[j] == c2[j - dist] by {
            if j < out.len() + n - 1 {
                assert(c[j] == c[j - dist]);
            }
        }
    }
}

/// The search at position `t`, with a window of 3 bytes or more and an
/// earlier position in reach (`lo3`) that shares the next 2 bytes: it finds
/// a match of 2 bytes or more, records the 2-byte match at the latest such
/// position, and finds a match at least as long as that at each position of
/// the chain of the 3-byte key (the latest `MAX_MATCH_LEN` in reach) up to
/// the first one where it may stop: one that fills the window or beats the
/// best length recorded at it.
pub proof fn law_search_longest(src: Seq<u8>, t: int, bls: Seq<int>, j: int)
    requires
        0 <= t,
        window(src, t, w0_of(src)) >= 3,
        last2(src, t, key2(src, t)) >= lo3(t),
        0 <= j < count3(src, lo3(t), t, key3(src, t)),
        j < MAX_MATCH_LEN,
        forall|i: int|
            0 <= i < j ==> {
                let p = #[trigger] chain_at(src, last3(src, t, key3(src, t)), key3(src, t), i);
                let c = common_at(src, t, p, window(src, t, w0_of(src)));
                c < window(src, t, w0_of(src)) && c <= bls[p]
            },
    ensures
        search_abs(src, t, bls).0 >= 2,
        search_abs(src, t, bls).2[2] == t - last2(src, t, key2(src, t)),
        ({
            let p = chain_at(src, last3(src, t, key3(src, t)), key3(src, t), j);
            let c = common_at(src, t, p, window(src, t, w0_of(src)));
            c >= 2 ==> search_abs(src, t, bls).0 >= c
        }),
{
    let w = window(src, t, w0_of(src));
    let lo = lo3(t);
    let a2 = last2(src, t, key2(src, t));
    let z = Seq::new(MAX_MATCH_BY_LENGTH_LEN as nat, |l: int| 0int);
    let bo = z.update(2, t - a2);
    let k = key3(src, t);
    let c = count3(src, lo, t, k) as int;
    let cnt = if c > MAX_MATCH_LEN { MAX_MATCH_LEN as int } else { c };
    lemma_last2(src, t, key2(src, t));
    assert(search_abs(src, t, bls) == walk_abs(src, t, w, k, last3(src, t, k), cnt, 2, t - a2, bo, bls));
    law_walk_longest(src, t, w, k, last3(src, t, k), cnt, 2, t - a2, bo, bls, j);
    law_walk_keeps_offsets(src, t, w, k, last3(src, t, k), cnt, 2, t - a2, bo, bls, 2);
}

/// Where no earlier position in reach shares the next 2 bytes, or the
/// window holds at most one byte, the search finds no match.
pub proof fn law_search_none(src: Seq<u8>, t: int, bls: Seq<int>)
    requires
        window(src, t, w0_of(src)) <= 1 || last2(src, t, key2(src, t)) < lo3(t),
    ensures
        search_abs(src, t, bls).0 == 1,
        search_abs(src, t, bls).1 == 0,
{
}

/// A position where the search found no match the rules take joins the
/// literal run: no match (under 2 bytes); a 2-byte match beyond 1kB, or not
/// after a literal run of 1 to 3 bytes that follows an earlier token; a
/// 3-byte match beyond 3kB after 4 or more literals; or any match at the very
/// start of the input. The walk goes on at the next position with a literal
/// run one byte longer.
pub proof fn law_match_dropped(
    src: Seq<u8>,
    t: int,
    lit_len: int,
    toks: Seq<Token>,
    bls: Seq<int>,
    lb_len: int,
    lb_off: int,
    best_off: Seq<usize>,
)
    requires
        0 <= t < src.len(),
        ({
            ||| lb_len < 2
            ||| lb_len == 2 && (lb_off > M1_MAX_OFFSET || lit_len == 0 || lit_len >= 4 || toks.len() == 0)
            ||| lb_len == M2_MIN_LEN && lb_off > M1_MAX_OFFSET + M2_MAX_OFFSET && lit_len >= 4
            ||| toks.len() == 0 && lit_len == 0
        }),
    ensures
        ({
            let r = step_result(src, t + 1, bls, best_off);
            emit(src, t, lit_len, toks, bls, lb_len, lb_off, best_off) == emit(
                src,
                t + 1,
                lit_len + 1,
                toks,
                bls.push(bl_after(src, t + 1, bls)),
                r.0,
                r.1,
                r.2,
            )
        }),
{
    reveal(emit);
}

/// Any other match of more than 3 bytes beyond 2kB is kept as it is.
pub proof fn law_better_otherwise(best_off: Seq<usize>, len: int, off: int)
    requires
        !(len <= M2_MAX_LEN + 1 && best_off[len - 1] != 0 && best_off[len - 1] <= M2_MAX_OFFSET),
        !(off > M3_MAX_OFFSET && len == M2_MAX_LEN + 2 && best_off[M2_MAX_LEN as int] != 0 && best_off[M2_MAX_LEN + 2]
            <= M2_MAX_OFFSET),
        !(off > M3_MAX_OFFSET && M4_MAX_LEN < len <= M3_MAX_LEN + 1 && best_off[len - 1] != 0 && best_off[len - 2]
            <= M3_MAX_OFFSET),
    ensures
        better_match(best_off, len, off) == (len, off),
{
}

/// A stream whose first byte `b` is 18 or more starts with a literal run of
/// `b - 17` bytes; the instructions after it see a run of that many
/// literals (4 standing for 4 or more).
pub proof fn law_first_run(src: Seq<u8>, cap: int)
    requires
        src.len() >= 3,
        src[0] >= 18,
        src.len() - 1 >= src[0] - 17,
        cap >= src[0] - 17,
    ensures
        ({
            let n = src[0] - 17;
            spec_decompress(src, cap) == run(src, cap, 1 + n, src.subrange(1, 1 + n), if n >= 4 { 4 } else { n })
        }),
{
}

} // verus!
