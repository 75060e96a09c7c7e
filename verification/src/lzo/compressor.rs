//! The verified LZO1X compressor.
use vstd::prelude::*;
use super::EResult;
use super::dict::{found_match, valid_match, Dict, State, MAX_DIST, MAX_MATCH_BY_LENGTH_LEN, MAX_MATCH_LEN};
use super::format::spec_decompress;
use super::laws::{lemma_decompress_capacity, lemma_decompress_fits, lemma_decompress_len};
use super::decoder::copy_literals;
use super::dict::{bl_after, chains_hold, heads2_hold, key3, last3, missed, search_abs, w0_of, window};
use super::stream::{
    economic, enc_tokens, lemma_enc_len, lemma_enc_lits, lemma_enc_push, lemma_stream_len, lemma_stream_roundtrip, lemma_tok_pos_mono,
    lemma_tok_pos_push, lemma_wf_push, lemma_zero_len_bytes_len, lit_header, match_bytes, sbits, stream, tok_pos,
    wf_token, zero_len_bytes, Token, is_prefix, lemma_enc_prefix, lemma_stream_ge,
};

verus! {

pub const M1_MAX_OFFSET: usize = 0x0400;
pub const M2_MAX_OFFSET: usize = 0x0800;
pub const M3_MAX_OFFSET: usize = 0x4000;
pub const M2_MIN_LEN: usize = 3;
pub const M2_MAX_LEN: usize = 8;
pub const M3_MAX_LEN: usize = 33;
pub const M4_MAX_LEN: usize = 9;
pub const M1_MARKER: usize = 0x0;
pub const M3_MARKER: usize = 0x20;
pub const M4_MARKER: usize = 0x10;

/// Writes an extended length field worth `length` (see `zero_len_bytes`) at `*pos`.
fn write_zero_byte_length(out: &mut [u8], pos: &mut usize, length: usize)
    requires
        length >= 1,
        *old(pos) + zero_len_bytes(length as int).len() <= old(out)@.len(),
    ensures
        *final(pos) == *old(pos) + zero_len_bytes(length as int).len(),
        final(out)@ == old(out)@.take(*old(pos) as int) + zero_len_bytes(length as int) + old(out)@.skip(
            *final(pos) as int,
        ),
{
    let ghost p0 = *pos as int;
    let ghost o0 = out@;
    let mut l = length;
    proof {
        lemma_zero_len_bytes_len(length as int);
    }
    while l > 255
        invariant
            l >= 1,
            0 <= p0 <= *pos,
            out@.len() == o0.len(),
            *pos + zero_len_bytes(l as int).len() <= o0.len(),
            zero_len_bytes(length as int) == out@.subrange(p0, *pos as int) + zero_len_bytes(l as int),
            out@ == o0.take(p0) + out@.subrange(p0, *pos as int) + o0.skip(*pos as int),
        decreases l,
    {
        let ghost before = out@.subrange(p0, *pos as int);
        let ghost prev = out@;
        let ghost pp = *pos as int;
        proof {
            lemma_zero_len_bytes_len(l as int);
            lemma_zero_len_bytes_len(l - 255);
        }
        out[*pos] = 0;
        assert(out@ == prev.update(pp, 0u8));
        *pos += 1;
        l -= 255;
        assert(out@.subrange(p0, *pos as int) =~= before + seq![0u8]);
        assert(zero_len_bytes(length as int) =~= out@.subrange(p0, *pos as int) + zero_len_bytes(l as int));
        assert(out@ =~= o0.take(p0) + out@.subrange(p0, *pos as int) + o0.skip(*pos as int));
    }
    let ghost before = out@.subrange(p0, *pos as int);
    let ghost prev = out@;
    let ghost pp = *pos as int;
    out[*pos] = l as u8;
    assert(out@ == prev.update(pp, l as u8));
    *pos += 1;
    assert(out@.subrange(p0, *pos as int) =~= before + seq![l as u8]);
    assert(out@ =~= o0.take(p0) + zero_len_bytes(length as int) + o0.skip(*pos as int));
}


/// Writes `b` at `*outp` and moves past it.
fn put_byte(out: &mut [u8], outp: &mut usize, b: u8)
    requires
        *old(outp) < old(out)@.len(),
    ensures
        *final(outp) == *old(outp) + 1,
        final(out)@ == old(out)@.update(*old(outp) as int, b),
{
    out[*outp] = b;
    *outp += 1;
}

/// Byte values of the copy instructions, from bit operations to arithmetic.
proof fn lemma_match_byte_values(o: usize, len: usize)
    requires
        o < 0xc000,
        2 <= len <= MAX_MATCH_LEN,
    ensures
        o < 1024 ==> ((M1_MARKER | ((o & 0x3) << 2)) as u8) as int == o % 4 * 4,
        o < 1024 ==> ((o >> 2) as u8) as int == o / 4,
        o < 2048 && len <= 8 ==> ((((len - 1) as usize) << 5 | ((o & 0x7) << 2)) as u8) as int == (len - 1) * 32 + o % 8 * 4,
        o < 2048 ==> ((o >> 3) as u8) as int == o / 8,
        len <= 33 ==> ((M3_MARKER | ((len - 2) as usize)) as u8) as int == 32 + len - 2,
        ((o << 2) as u8) as int == o % 64 * 4,
        ((o >> 6) as u8) as int == o / 64 % 256,
        len <= 9 ==> ((M4_MARKER | ((o & 0x4000) >> 11) | ((len - 2) as usize)) as u8) as int == 16 + (o / 16384) % 2 * 8 + len - 2,
        ((M4_MARKER | ((o & 0x4000) >> 11)) as u8) as int == 16 + (o / 16384) % 2 * 8,
{
    assert(o < 1024 ==> ((0usize | ((o & 0x3) << 2)) as u8) as int == o % 4 * 4) by (bit_vector);
    assert(o < 1024 ==> ((o >> 2) as u8) as int == o / 4) by (bit_vector);
    assert(o < 2048 && 2 <= len <= 8 ==> ((((len - 1) as usize) << 5 | ((o & 0x7) << 2)) as u8) as int == (len - 1) * 32 + o % 8 * 4) by (bit_vector);
    assert(o < 2048 ==> ((o >> 3) as u8) as int == o / 8) by (bit_vector);
    assert(2 <= len <= 33 ==> ((0x20usize | ((len - 2) as usize)) as u8) as int == 32 + len - 2) by (bit_vector);
    assert(((o << 2) as u8) as int == o % 64 * 4) by (bit_vector);
    assert(((o >> 6) as u8) as int == o / 64 % 256) by (bit_vector);
    assert(o < 0xc000 && 2 <= len <= 9 ==> ((0x10usize | ((o & 0x4000) >> 11) | ((len - 2) as usize)) as u8) as int == 16 + (o / 16384) % 2 * 8 + len - 2) by (bit_vector);
    assert(o < 0xc000 ==> ((0x10usize | ((o & 0x4000) >> 11)) as u8) as int == 16 + (o / 16384) % 2 * 8) by (bit_vector);
}

/// Writes `a` and `b` at `*outp` and moves past them.
fn put_pair(out: &mut [u8], outp: &mut usize, a: u8, b: u8)
    requires
        *old(outp) + 2 <= old(out)@.len(),
    ensures
        *final(outp) == *old(outp) + 2,
        final(out)@ == old(out)@.take(*old(outp) as int) + seq![a, b] + old(out)@.skip(*final(outp) as int),
{
    let ghost o0 = out@;
    put_byte(out, outp, a);
    put_byte(out, outp, b);
    assert(out@ =~= o0.take(*old(outp) as int) + seq![a, b] + o0.skip(*outp as int));
}

/// How many bytes of the copy instruction `mb` (for a copy of `len` bytes
/// at distance `off`) `encode_lookback_match` writes before it finds that
/// `room` bytes do not hold it: none of an instruction of two bytes; of a
/// longer one, its first byte (and the extended length field of a long copy)
/// once there is room for them.
pub open spec fn match_written(mb: Seq<u8>, len: int, off: int, room: int) -> int {
    if mb.len() == 2 {
        0
    } else {
        let short = if off <= 16384 { 33int } else { 9int };
        if len <= short {
            if room < 1 { 0 } else { 1 }
        } else if room < (len - short) / 255 + 2 {
            0
        } else {
            mb.len() - 2
        }
    }
}

/// Writes the copy instruction for a match of `lb_len` bytes at distance
/// `lb_off`, after a literal run of `last_lit_len` bytes (`match_bytes` with
/// no literals after it), or fails with `OutputOverrun` when `out` has no
/// room for it.
#[verifier::rlimit(80)]
#[verifier::spinoff_prover]
pub fn encode_lookback_match(
    out: &mut [u8],
    outp: &mut usize,
    lb_len: usize,
    lb_off: usize,
    last_lit_len: usize,
) -> (r: Result<(), EResult>)
    requires
        *old(outp) <= old(out)@.len(),
        2 <= lb_len <= MAX_MATCH_LEN,
        1 <= lb_off <= MAX_DIST,
        lb_len == 2 ==> lb_off <= M1_MAX_OFFSET,
    ensures
        final(out)@.len() == old(out)@.len(),
        ({
            let mb = match_bytes(lb_len as int, lb_off as int, last_lit_len as int, 0);
            let room = old(out)@.len() - *old(outp);
            &&& room >= mb.len() ==> {
                &&& r is Ok
                &&& *final(outp) == *old(outp) + mb.len()
                &&& final(out)@ == old(out)@.take(*old(outp) as int) + mb + old(out)@.skip(*final(outp) as int)
            }
            &&& room < mb.len() ==> r == Err::<(), EResult>(EResult::OutputOverrun)
            &&& r is Err ==> {
                let w = match_written(mb, lb_len as int, lb_off as int, room);
                &&& *final(outp) == *old(outp) + w
                &&& final(out)@ == old(out)@.take(*old(outp) as int) + mb.take(w) + old(out)@.skip(*old(outp) + w)
            }
        }),
{
    let ghost o0 = out@;
    let ghost p0 = *outp as int;
    let ghost mb = match_bytes(lb_len as int, lb_off as int, last_lit_len as int, 0);
    let mut lb_len = lb_len;
    let mut lb_off = lb_off;
    if lb_len == 2 {
        lb_off -= 1;
        if out.len() - *outp < 2 {
            proof {
                assert(out@ =~= o0.take(p0) + mb.take(*outp - p0) + o0.skip(*outp as int));
            }
            return Err(EResult::OutputOverrun);
        }
        proof {
            lemma_match_byte_values(lb_off, lb_len);
        }
        put_pair(out, outp, (M1_MARKER | ((lb_off & 0x3) << 2)) as u8, (lb_off >> 2) as u8);
    } else if lb_len <= M2_MAX_LEN && lb_off <= M2_MAX_OFFSET {
        lb_off -= 1;
        if out.len() - *outp < 2 {
            proof {
                assert(out@ =~= o0.take(p0) + mb.take(*outp - p0) + o0.skip(*outp as int));
            }
            return Err(EResult::OutputOverrun);
        }
        proof {
            lemma_match_byte_values(lb_off, lb_len);
        }
        put_pair(out, outp, ((lb_len - 1) << 5 | ((lb_off & 0x7) << 2)) as u8, (lb_off >> 3) as u8);
    } else if lb_len == M2_MIN_LEN && lb_off <= M1_MAX_OFFSET + M2_MAX_OFFSET && last_lit_len >= 4 {
        lb_off -= 1 + M2_MAX_OFFSET;
        if out.len() - *outp < 2 {
            proof {
                assert(out@ =~= o0.take(p0) + mb.take(*outp - p0) + o0.skip(*outp as int));
            }
            return Err(EResult::OutputOverrun);
        }
        proof {
            lemma_match_byte_values(lb_off, lb_len);
        }
        put_pair(out, outp, (M1_MARKER | ((lb_off & 0x3) << 2)) as u8, (lb_off >> 2) as u8);
    } else if lb_off <= M3_MAX_OFFSET {
        lb_off -= 1;
        proof {
            lemma_match_byte_values(lb_off, lb_len);
        }
        let ghost hdr = if lb_len <= 33 {
            seq![(32 + lb_len - 2) as u8]
        } else {
            seq![32u8] + zero_len_bytes(lb_len - 33)
        };
        if lb_len <= M3_MAX_LEN {
            if out.len() - *outp < 1 {
                proof {
                assert(out@ =~= o0.take(p0) + mb.take(*outp - p0) + o0.skip(*outp as int));
            }
            return Err(EResult::OutputOverrun);
            }
            put_byte(out, outp, (M3_MARKER | (lb_len - 2)) as u8);
        } else {
            lb_len -= M3_MAX_LEN;
            proof {
                lemma_zero_len_bytes_len(lb_len as int);
            }
            if out.len() - *outp < lb_len / 255 + 2 {
                proof {
                assert(out@ =~= o0.take(p0) + mb.take(*outp - p0) + o0.skip(*outp as int));
            }
            return Err(EResult::OutputOverrun);
            }
            put_byte(out, outp, M3_MARKER as u8);
            write_zero_byte_length(out, outp, lb_len);
        }
        assert(out@ =~= o0.take(p0) + hdr + o0.skip(*outp as int));
        if out.len() - *outp < 2 {
            proof {
                assert(mb.take(hdr.len() as int) =~= hdr);
            }
            proof {
                assert(out@ =~= o0.take(p0) + mb.take(*outp - p0) + o0.skip(*outp as int));
            }
            return Err(EResult::OutputOverrun);
        }
        put_pair(out, outp, (lb_off << 2) as u8, (lb_off >> 6) as u8);
        assert(out@ =~= o0.take(p0) + mb + o0.skip(*outp as int));
    } else {
        lb_off -= 0x4000;
        proof {
            lemma_match_byte_values(lb_off, lb_len);
        }
        let ghost h = (lb_off / 16384) % 2 * 8;
        let ghost hdr = if lb_len <= 9 {
            seq![(16 + h + lb_len - 2) as u8]
        } else {
            seq![(16 + h) as u8] + zero_len_bytes(lb_len - 9)
        };
        if lb_len <= M4_MAX_LEN {
            if out.len() - *outp < 1 {
                proof {
                assert(out@ =~= o0.take(p0) + mb.take(*outp - p0) + o0.skip(*outp as int));
            }
            return Err(EResult::OutputOverrun);
            }
            put_byte(out, outp, (M4_MARKER | ((lb_off & 0x4000) >> 11) | (lb_len - 2)) as u8);
        } else {
            lb_len -= M4_MAX_LEN;
            proof {
                lemma_zero_len_bytes_len(lb_len as int);
            }
            if out.len() - *outp < lb_len / 255 + 2 {
                proof {
                assert(out@ =~= o0.take(p0) + mb.take(*outp - p0) + o0.skip(*outp as int));
            }
            return Err(EResult::OutputOverrun);
            }
            put_byte(out, outp, (M4_MARKER | ((lb_off & 0x4000) >> 11)) as u8);
            write_zero_byte_length(out, outp, lb_len);
        }
        assert(out@ =~= o0.take(p0) + hdr + o0.skip(*outp as int));
        if out.len() - *outp < 2 {
            proof {
                assert(mb.take(hdr.len() as int) =~= hdr);
            }
            proof {
                assert(out@ =~= o0.take(p0) + mb.take(*outp - p0) + o0.skip(*outp as int));
            }
            return Err(EResult::OutputOverrun);
        }
        put_pair(out, outp, (lb_off << 2) as u8, (lb_off >> 6) as u8);
        assert(out@ =~= o0.take(p0) + mb + o0.skip(*outp as int));
    }
    assert(out@ =~= o0.take(p0) + mb + o0.skip(*outp as int));
    Ok(())
}

/// `o` with `n` (0 to 3) added to the byte two before `outp`: a literal
/// run of up to 3 bytes after a copy is announced in the copy's low bits.
pub open spec fn patch_run(o: Seq<u8>, outp: int, n: int) -> Seq<u8> {
    if outp != 0 && n <= 3 {
        o.update(outp - 2, o[outp - 2] | (n as u8))
    } else {
        o
    }
}

/// Or-ing up to 3 into a byte whose two low bits are clear adds it.
proof fn lemma_or_low_bits(v: u8, n: u8)
    requires
        v % 4 == 0,
        n <= 3,
    ensures
        v | n == (v + n) as u8,
{
    assert(v | n == (v + n) as u8) by (bit_vector)
        requires
            v % 4 == 0,
            n <= 3,
    ;
}

/// Writes a literal run `lit` at `*outp`: its header (`lit_header`, the
/// first run of the stream when `*outp == 0`) and the bytes; a run of up to
/// 3 bytes after a copy instruction is announced in that instruction instead,
/// its length or-ed into the byte two before `*outp` (`patch_run`).
/// Fails with `OutputOverrun` when `out` has no room for it.
#[verifier::rlimit(40)]
pub fn encode_literal_run(out: &mut [u8], outp: &mut usize, lit: &[u8]) -> (r: Result<(), EResult>)
    requires
        *old(outp) <= old(out)@.len(),
        *old(outp) != 0 && lit@.len() <= 3 ==> *old(outp) >= 2,
    ensures
        final(out)@.len() == old(out)@.len(),
        ({
            let n = lit@.len() as int;
            let hdr = lit_header(*old(outp) == 0, n);
            let room = old(out)@.len() - *old(outp);
            &&& room >= hdr.len() + n ==> {
                &&& r is Ok
                &&& *final(outp) == *old(outp) + hdr.len() + n
                &&& final(out)@ == patch_run(old(out)@, *old(outp) as int, n).take(*old(outp) as int) + hdr
                    + lit@ + old(out)@.skip(*final(outp) as int)
            }
            &&& room < hdr.len() + n ==> r == Err::<(), EResult>(EResult::OutputOverrun)
        }),
{
    let ghost o0 = out@;
    let ghost p0 = *outp as int;
    let ghost n = lit@.len() as int;
    let ghost hdr = lit_header(*outp == 0, n);
    let len = lit.len();
    if *outp == 0 && len <= 238 {
        if out.len() - *outp < 1 {
            return Err(EResult::OutputOverrun);
        }
        put_byte(out, outp, 17 + len as u8);
    } else if len <= 3 {
        let v = out[*outp - 2];
        out[*outp - 2] = v | (len as u8);
    } else if len <= 18 {
        if out.len() - *outp < 1 {
            return Err(EResult::OutputOverrun);
        }
        put_byte(out, outp, len as u8 - 3);
    } else {
        proof {
            lemma_zero_len_bytes_len(n - 18);
        }
        if out.len() - *outp < (len - 18) / 255 + 2 {
            return Err(EResult::OutputOverrun);
        }
        put_byte(out, outp, 0);
        write_zero_byte_length(out, outp, len - 18);
    }
    assert(out@ =~= patch_run(o0, p0, n).take(p0) + hdr + o0.skip(*outp as int));
    if out.len() - *outp < len {
        return Err(EResult::OutputOverrun);
    }
    let ghost mid = out@;
    copy_literals(out, *outp, lit, 0, len);
    assert(lit@.subrange(0, n) =~= lit@);
    *outp += len;
    assert(out@ =~= patch_run(o0, p0, n).take(p0) + hdr + lit@ + o0.skip(*outp as int));
    Ok(())
}

/// The match `find_better_match` keeps in place of one of `len` bytes at
/// distance `off`: a match one or two bytes shorter whose distance
/// (`best_off`) lets it take a shorter instruction, or the match itself.
pub open spec fn better_match(best_off: Seq<usize>, len: int, off: int) -> (int, int) {
    if len <= 3 || off <= 2048 {
        (len, off)
    } else if len <= 9 && best_off[len - 1] != 0 && best_off[len - 1] <= 2048 {
        (len - 1, best_off[len - 1] as int)
    } else if off > 16384 && len == 10 && best_off[8] != 0 && best_off[10] <= 2048 {
        (8, best_off[8] as int)
    } else if off > 16384 && 9 < len <= 34 && best_off[len - 1] != 0 && best_off[len - 2] <= 16384 {
        (len - 1, best_off[len - 1] as int)
    } else {
        (len, off)
    }
}

/// Replaces the match of `*lb_len` bytes at distance `*lb_off` by a shorter
/// one from `best_off` (the distances of matches of each length, 0 for none)
/// where that gives a shorter instruction.
pub fn find_better_match(best_off: [usize; MAX_MATCH_BY_LENGTH_LEN], lb_len: &mut usize, lb_off: &mut usize)
    ensures
        (*final(lb_len) as int, *final(lb_off) as int) == better_match(best_off@, *old(lb_len) as int, *old(lb_off) as int),
{
    if *lb_len <= M2_MIN_LEN || *lb_off <= M2_MAX_OFFSET {
        return;
    }
    if *lb_off > M2_MAX_OFFSET && *lb_len > M2_MIN_LEN && *lb_len <= M2_MAX_LEN + 1 && best_off[*lb_len - 1] != 0
        && best_off[*lb_len - 1] <= M2_MAX_OFFSET {
        *lb_len -= 1;
        *lb_off = best_off[*lb_len];
    } else if *lb_off > M3_MAX_OFFSET && *lb_len > M4_MAX_LEN && *lb_len <= M2_MAX_LEN + 2 && best_off[*lb_len - 2] != 0
        && best_off[*lb_len] <= M2_MAX_OFFSET {
        *lb_len -= 2;
        *lb_off = best_off[*lb_len];
    } else if *lb_off > M3_MAX_OFFSET && *lb_len > M4_MAX_LEN && *lb_len <= M3_MAX_LEN + 1 && best_off[*lb_len - 1] != 0
        && best_off[*lb_len - 2] <= M3_MAX_OFFSET {
        *lb_len -= 1;
        *lb_off = best_off[*lb_len];
    }
}

/// The match `find_better_match` keeps for what `Dict::advance` found is
/// still a match of the input, of at least 3 bytes when it differs.
pub proof fn lemma_better_match_valid(src: Seq<u8>, t: int, len: int, off: int, best_off: Seq<usize>)
    requires
        2 <= len,
        found_match(src, t, len, off, best_off),
        best_off.len() == MAX_MATCH_BY_LENGTH_LEN,
    ensures
        ({
            let (l2, o2) = better_match(best_off, len, off);
            &&& valid_match(src, t, l2, o2)
            &&& 2 <= l2 <= len
            &&& l2 != len ==> l2 >= 3
            &&& l2 != len ==> l2 >= 8 || o2 <= 2048
        }),
{
    let (l2, o2) = better_match(best_off, len, off);
    if l2 != len {
        assert(best_off[l2] != 0);
    }
}

/// `x` is the stream of some economic tokens of `src`: literal runs of
/// `src` and block copies that repeat earlier bytes of it.
pub open spec fn is_stream_of(src: Seq<u8>, x: Seq<u8>) -> bool {
    exists|t: Seq<Token>| chosen(src, t) && #[trigger] stream(src, t) == x
}

/// Economic tokens whose literal runs leave no such match behind.
pub open spec fn chosen(src: Seq<u8>, t: Seq<Token>) -> bool {
    &&& economic(src, t)
    &&& forall|i: int, p: int|
        0 <= i < t.len() && tok_pos(t, i) <= p < tok_pos(t, i) + t[i].lits ==> !#[trigger] missed_in(src, t, i, p)
    &&& forall|p: int| tok_pos(t, t.len() as int) <= p < src.len() ==> !#[trigger] missed(src, p)
}

/// `missed` at position `p` of the literal run of token `i`.
pub open spec fn missed_in(src: Seq<u8>, t: Seq<Token>, i: int, p: int) -> bool {
    missed(src, p)
}

/// Some stream of economic tokens of `src` is longer than `cap` bytes.
pub open spec fn overflows(src: Seq<u8>, cap: int) -> bool {
    exists|t: Seq<Token>| economic(src, t) && #[trigger] stream(src, t).len() > cap
}

/// A compressed stream is at most 5 bytes plus one in 16 longer than its input.
pub proof fn lemma_compressed_len(src: Seq<u8>, x: Seq<u8>)
    requires
        is_stream_of(src, x),
    ensures
        x.len() <= src.len() + src.len() / 16 + 5,
{
    let t = choose|t: Seq<Token>| chosen(src, t) && #[trigger] stream(src, t) == x;
    lemma_stream_len(src, t);
}

/// A buffer of 5 bytes plus one in 16 more than the input holds any stream
/// the compressor can write for it.
pub proof fn lemma_no_overflow(src: Seq<u8>, cap: int)
    requires
        cap >= src.len() + src.len() / 16 + 5,
    ensures
        !overflows(src, cap),
{
    if overflows(src, cap) {
        let t = choose|t: Seq<Token>| economic(src, t) && #[trigger] stream(src, t).len() > cap;
        lemma_stream_len(src, t);
    }
}

/// Size of a buffer that any decompression of `x` fits in (255 bytes per
/// input byte, `lemma_decompress_fits`), or the largest addressable size when
/// that is larger.
pub open spec fn decode_cap(x: Seq<u8>) -> int {
    if 255 * x.len() <= usize::MAX {
        255 * x.len() as int
    } else {
        usize::MAX as int
    }
}

/// Decompression of `x` into a buffer of `decode_cap(x)` bytes.
pub open spec fn decoded(x: Seq<u8>) -> (Result<usize, EResult>, Seq<u8>) {
    spec_decompress(x, decode_cap(x))
}

/// A stream of economic tokens of a non-empty input decompresses back to
/// that input, into any buffer that holds it.
pub proof fn lemma_compressed_roundtrip(src: Seq<u8>, x: Seq<u8>, cap: int)
    requires
        is_stream_of(src, x),
        1 <= src.len() <= usize::MAX,
        x.len() <= usize::MAX,
        cap >= src.len(),
    ensures
        spec_decompress(x, cap) == (Ok::<usize, EResult>(src.len() as usize), src),
        decoded(x) == (Ok::<usize, EResult>(src.len() as usize), src),
{
    let t = choose|t: Seq<Token>| chosen(src, t) && #[trigger] stream(src, t) == x;
    lemma_stream_roundtrip(src, t, cap);
    let c = src.len() as int;
    let big = 255 * x.len() as int;
    lemma_stream_roundtrip(src, t, c);
    lemma_decompress_fits(x, big);
    if big < c {
        lemma_decompress_capacity(x, big, c);
        lemma_decompress_len(x, big);
        assert(false);
    }
    lemma_stream_roundtrip(src, t, decode_cap(x));
}

/// What the dictionary step finds at position `t` (`Dict::advance`): the
/// match length (0 at the end of the input), its distance, and the new
/// distances by length (`best_off`, left as `prev` where the window holds
/// at most one byte).
#[verifier::opaque]
pub open spec fn step_result(src: Seq<u8>, t: int, bls: Seq<int>, prev: Seq<usize>) -> (int, int, Seq<usize>) {
    let r = search_abs(src, t, bls);
    let bo = if window(src, t, w0_of(src)) <= 1 {
        prev
    } else {
        Seq::new(MAX_MATCH_BY_LENGTH_LEN as nat, |l: int| if l < 2 { prev[l] } else { r.2[l] as usize })
    };
    (if t >= src.len() { 0 } else { r.0 }, r.1, bo)
}

/// The compressor's walk over `src` from position `t`, where the current
/// literal run has `lit_len` bytes, `toks` are the tokens chosen so far,
/// `bls` the lengths recorded for the positions up to `t`, and the search
/// at `t` found `lb_len`, `lb_off` and `best_off`: a match that the rules
/// keep (`find_better_match` may shorten it) ends the literal run in a
/// token and the walk goes on after it, else `t` joins the literal run.
/// Gives all the tokens.
#[verifier::opaque]
pub open spec fn emit(
    src: Seq<u8>,
    t: int,
    lit_len: int,
    toks: Seq<Token>,
    bls: Seq<int>,
    lb_len: int,
    lb_off: int,
    best_off: Seq<usize>,
) -> Seq<Token>
    decreases src.len() - t,
{
    if t < 0 || t >= src.len() {
        toks
    } else {
        let first = toks.len() == 0;
        if dropped(lb_len, lb_off, lit_len, first) {
            let t2 = t + 1;
            let r = step_result(src, t2, bls, best_off);
            emit(src, t2, lit_len + 1, toks, bls.push(bl_after(src, t2, bls)), r.0, r.1, r.2)
        } else {
            let m = better_match(best_off, lb_len, lb_off);
            if m.0 < 1 || t + m.0 > src.len() {
                toks
            } else {
                let t2 = t + m.0;
                let bls2 = bls + Seq::new((m.0 - 1) as nat, |i: int| (MAX_MATCH_LEN + 1) as int);
                let r = step_result(src, t2, bls2, best_off);
                emit(
                    src,
                    t2,
                    0,
                    toks.push(Token { lits: lit_len, len: m.0, off: m.1 }),
                    bls2.push(bl_after(src, t2, bls2)),
                    r.0,
                    r.1,
                    r.2,
                )
            }
        }
    }
}

/// The tokens the compressor chooses for `src`.
#[verifier::opaque]
pub open spec fn spec_tokens(src: Seq<u8>) -> Seq<Token> {
    let bls0 = Seq::<int>::empty();
    let r = step_result(src, 0, bls0, Seq::new(MAX_MATCH_BY_LENGTH_LEN as nat, |l: int| 0usize));
    emit(src, 0, 0, Seq::empty(), bls0.push(bl_after(src, 0, bls0)), r.0, r.1, r.2)
}

/// The stream the compressor writes for `src`.
pub open spec fn compressed(src: Seq<u8>) -> Seq<u8> {
    stream(src, spec_tokens(src))
}

/// The walk only adds tokens after those chosen so far.
pub proof fn lemma_emit_prefix(
    src: Seq<u8>,
    t: int,
    lit_len: int,
    toks: Seq<Token>,
    bls: Seq<int>,
    lb_len: int,
    lb_off: int,
    best_off: Seq<usize>,
)
    ensures
        is_prefix(toks, emit(src, t, lit_len, toks, bls, lb_len, lb_off, best_off)),
    decreases src.len() - t,
{
    reveal(emit);
    if 0 <= t < src.len() {
        let first = toks.len() == 0;
        if dropped(lb_len, lb_off, lit_len, first) {
            let t2 = t + 1;
            let r = step_result(src, t2, bls, best_off);
            lemma_emit_prefix(src, t2, lit_len + 1, toks, bls.push(bl_after(src, t2, bls)), r.0, r.1, r.2);
        } else {
            let m = better_match(best_off, lb_len, lb_off);
            if m.0 >= 1 && t + m.0 <= src.len() {
                let t2 = t + m.0;
                let bls2 = bls + Seq::new((m.0 - 1) as nat, |i: int| (MAX_MATCH_LEN + 1) as int);
                let r = step_result(src, t2, bls2, best_off);
                let x = Token { lits: lit_len, len: m.0, off: m.1 };
                let t3 = toks.push(x);
                lemma_emit_prefix(src, t2, 0, t3, bls2.push(bl_after(src, t2, bls2)), r.0, r.1, r.2);
                let e = emit(src, t2, 0, t3, bls2.push(bl_after(src, t2, bls2)), r.0, r.1, r.2);
                assert forall|i: int| 0 <= i < toks.len() implies #[trigger] toks[i] == e[i] by {
                    assert(t3[i] == toks[i]);
                }
            }
        }
    }
}

/// What `Dict::advance` gives at position `t` is `step_result`.
proof fn lemma_step_matches(src: Seq<u8>, t: int, bls: Seq<int>, prev: Seq<usize>, lb: int, lo: int, bo: Seq<usize>)
    requires
        0 <= t <= src.len(),
        prev.len() == MAX_MATCH_BY_LENGTH_LEN,
        bo.len() == MAX_MATCH_BY_LENGTH_LEN,
        t < src.len() ==> lb == search_abs(src, t, bls).0 && lo == search_abs(src, t, bls).1,
        t == src.len() ==> lb == 0,
        window(src, t, w0_of(src)) <= 1 ==> bo == prev,
        window(src, t, w0_of(src)) >= 2 ==> {
            &&& bo[0] == prev[0]
            &&& bo[1] == prev[1]
            &&& forall|l: int| 2 <= l < MAX_MATCH_BY_LENGTH_LEN ==> #[trigger] bo[l] as int == search_abs(src, t, bls).2[l]
        },
    ensures
        lb == step_result(src, t, bls, prev).0,
        bo == step_result(src, t, bls, prev).2,
        t < src.len() ==> lo == step_result(src, t, bls, prev).1,
{
    reveal(step_result);
    let r = search_abs(src, t, bls);
    if window(src, t, w0_of(src)) >= 2 {
        let b2 = Seq::new(MAX_MATCH_BY_LENGTH_LEN as nat, |l: int| if l < 2 { prev[l] } else { r.2[l] as usize });
        assert forall|l: int| 0 <= l < MAX_MATCH_BY_LENGTH_LEN implies bo[l] == b2[l] by {
            if l >= 2 {
                assert(bo[l] as int == r.2[l]);
            }
        }
        assert(bo =~= b2);
    }
}

/// The rules of `compress` that turn a match away: `emit` leaves it.
pub open spec fn dropped(lb_len: int, lb_off: int, lit_len: int, first: bool) -> bool {
    lb_len < 2 || (lb_len == 2 && (lb_off > 1024 || lit_len == 0 || lit_len >= 4)) || (lb_len == 2 && first) || (first
        && lit_len == 0) || (lb_len == 3 && lb_off > 3072 && lit_len >= 4)
}

/// One step of `emit` where position `t` joins the literal run.
proof fn lemma_emit_drop(
    src: Seq<u8>,
    t: int,
    lit_len: int,
    toks: Seq<Token>,
    bls: Seq<int>,
    lb_len: int,
    lb_off: int,
    best_off: Seq<usize>,
    lb2: int,
    lo2: int,
    bo2: Seq<usize>,
)
    requires
        0 <= t < src.len(),
        dropped(lb_len, lb_off, lit_len, toks.len() == 0),
        lb2 == step_result(src, t + 1, bls, best_off).0,
        bo2 == step_result(src, t + 1, bls, best_off).2,
        t + 1 < src.len() ==> lo2 == step_result(src, t + 1, bls, best_off).1,
    ensures
        emit(src, t, lit_len, toks, bls, lb_len, lb_off, best_off) == emit(
            src,
            t + 1,
            lit_len + 1,
            toks,
            bls.push(bl_after(src, t + 1, bls)),
            lb2,
            lo2,
            bo2,
        ),
{
    reveal(emit);
    let r = step_result(src, t + 1, bls, best_off);
    let b2 = bls.push(bl_after(src, t + 1, bls));
    assert(emit(src, t, lit_len, toks, bls, lb_len, lb_off, best_off) == emit(src, t + 1, lit_len + 1, toks, b2, r.0, r.1, r.2));
    if t + 1 >= src.len() {
        assert(emit(src, t + 1, lit_len + 1, toks, b2, r.0, r.1, r.2) == toks);
        assert(emit(src, t + 1, lit_len + 1, toks, b2, lb2, lo2, bo2) == toks);
    }
}

/// One step of `emit` where the match at `t` ends the literal run in a token.
proof fn lemma_emit_keep(
    src: Seq<u8>,
    t: int,
    lit_len: int,
    toks: Seq<Token>,
    bls: Seq<int>,
    lb_len: int,
    lb_off: int,
    best_off: Seq<usize>,
    lb2: int,
    lo2: int,
    bo2: Seq<usize>,
)
    requires
        0 <= t < src.len(),
        !dropped(lb_len, lb_off, lit_len, toks.len() == 0),
        ({
            let m = better_match(best_off, lb_len, lb_off);
            let bls2 = bls + Seq::new((m.0 - 1) as nat, |i: int| (MAX_MATCH_LEN + 1) as int);
            &&& 1 <= m.0
            &&& t + m.0 <= src.len()
            &&& lb2 == step_result(src, t + m.0, bls2, best_off).0
            &&& bo2 == step_result(src, t + m.0, bls2, best_off).2
            &&& t + m.0 < src.len() ==> lo2 == step_result(src, t + m.0, bls2, best_off).1
        }),
    ensures
        ({
            let m = better_match(best_off, lb_len, lb_off);
            let bls2 = bls + Seq::new((m.0 - 1) as nat, |i: int| (MAX_MATCH_LEN + 1) as int);
            emit(src, t, lit_len, toks, bls, lb_len, lb_off, best_off) == emit(
                src,
                t + m.0,
                0,
                toks.push(Token { lits: lit_len, len: m.0, off: m.1 }),
                bls2.push(bl_after(src, t + m.0, bls2)),
                lb2,
                lo2,
                bo2,
            )
        }),
{
    reveal(emit);
    let m = better_match(best_off, lb_len, lb_off);
    let bls2 = bls + Seq::new((m.0 - 1) as nat, |i: int| (MAX_MATCH_LEN + 1) as int);
    let t2 = t + m.0;
    let r = step_result(src, t2, bls2, best_off);
    let tk = toks.push(Token { lits: lit_len, len: m.0, off: m.1 });
    let b2 = bls2.push(bl_after(src, t2, bls2));
    assert(emit(src, t, lit_len, toks, bls, lb_len, lb_off, best_off) == emit(src, t2, 0, tk, b2, r.0, r.1, r.2));
    if t2 >= src.len() {
        assert(emit(src, t2, 0, tk, b2, r.0, r.1, r.2) == tk);
        assert(emit(src, t2, 0, tk, b2, lb2, lo2, bo2) == tk);
    }
}

/// Past the end of the input the walk adds no token.
proof fn lemma_emit_end(
    src: Seq<u8>,
    t: int,
    lit_len: int,
    toks: Seq<Token>,
    bls: Seq<int>,
    lb_len: int,
    lb_off: int,
    best_off: Seq<usize>,
)
    requires
        t >= src.len(),
    ensures
        emit(src, t, lit_len, toks, bls, lb_len, lb_off, best_off) == toks,
{
    reveal(emit);
}

/// The walk starts at position 0 with what the first dictionary step finds.
proof fn lemma_spec_tokens_start(src: Seq<u8>, bls: Seq<int>, lb_len: int, lb_off: int, best_off: Seq<usize>)
    requires
        bls == Seq::<int>::empty().push(bl_after(src, 0, Seq::empty())),
        lb_len == step_result(src, 0, Seq::empty(), Seq::new(MAX_MATCH_BY_LENGTH_LEN as nat, |l: int| 0usize)).0,
        best_off == step_result(src, 0, Seq::empty(), Seq::new(MAX_MATCH_BY_LENGTH_LEN as nat, |l: int| 0usize)).2,
        0 < src.len() ==> lb_off == step_result(src, 0, Seq::empty(), Seq::new(MAX_MATCH_BY_LENGTH_LEN as nat, |l: int| 0usize)).1,
    ensures
        spec_tokens(src) == emit(src, 0, 0, Seq::empty(), bls, lb_len, lb_off, best_off),
{
    reveal(spec_tokens);
    if src.len() == 0 {
        let r = step_result(src, 0, Seq::empty(), Seq::new(MAX_MATCH_BY_LENGTH_LEN as nat, |l: int| 0usize));
        lemma_emit_end(src, 0, 0, Seq::empty(), bls, lb_len, lb_off, best_off);
        lemma_emit_end(src, 0, 0, Seq::empty(), bls, r.0, r.1, r.2);
    }
}

/// When writing the token the walk chooses at `t` does not fit in `cap`
/// bytes, neither does the whole stream.
proof fn lemma_keep_overflow(
    src: Seq<u8>,
    t: int,
    lit_len: int,
    toks: Seq<Token>,
    bls: Seq<int>,
    lb_len: int,
    lb_off: int,
    best_off: Seq<usize>,
    cap: int,
)
    requires
        0 <= t < src.len(),
        spec_tokens(src) == emit(src, t, lit_len, toks, bls, lb_len, lb_off, best_off),
        !dropped(lb_len, lb_off, lit_len, toks.len() == 0),
        ({
            let m = better_match(best_off, lb_len, lb_off);
            &&& 1 <= m.0
            &&& t + m.0 <= src.len()
            &&& enc_tokens(src, toks.push(Token { lits: lit_len, len: m.0, off: m.1 }), toks.len() + 1int, 0).len() > cap
        }),
    ensures
        compressed(src).len() > cap,
{
    reveal(emit);
    let m = better_match(best_off, lb_len, lb_off);
    let bls2 = bls + Seq::new((m.0 - 1) as nat, |i: int| (MAX_MATCH_LEN + 1) as int);
    let t2 = t + m.0;
    let r = step_result(src, t2, bls2, best_off);
    let p = toks.push(Token { lits: lit_len, len: m.0, off: m.1 });
    lemma_emit_prefix(src, t2, 0, p, bls2.push(bl_after(src, t2, bls2)), r.0, r.1, r.2);
    let tt = spec_tokens(src);
    assert(tt == emit(src, t2, 0, p, bls2.push(bl_after(src, t2, bls2)), r.0, r.1, r.2));
    lemma_enc_prefix(src, p, tt, toks.len() + 1int, 0);
    lemma_stream_ge(src, tt, toks.len() + 1int);
}

/// What the loop of `compress` keeps: the tokens chosen so far, written to
/// `out` with no literals announced by the last copy, and the current
/// literal run.
pub open spec fn written(src: Seq<u8>, o0: Seq<u8>, out: Seq<u8>, outp: int, toks: Seq<Token>, lit_len: int, t: int) -> bool {
    &&& economic(src, toks)
    &&& tok_pos(toks, toks.len() as int) + lit_len == t
    &&& 0 <= lit_len
    &&& 0 <= outp <= out.len()
    &&& out.len() == o0.len()
    &&& out.take(outp) == enc_tokens(src, toks, toks.len() as int, 0)
    &&& out.skip(outp) == o0.skip(outp)
    &&& (outp == 0) == (toks.len() == 0)
}

/// Writes the literal run at `p` (of `lit_len` bytes, up to the current
/// position) and the block copy of the token `x` that follows it; or fails
/// when `out` has no room, some stream of well-formed tokens then being
/// longer than `out`.
#[verifier::rlimit(40)]
fn encode_token(
    src: &[u8],
    out: &mut [u8],
    outp: &mut usize,
    lit_ptr: usize,
    lit_len: usize,
    lb_len: usize,
    lb_off: usize,
    Ghost(o0): Ghost<Seq<u8>>,
    Ghost(toks): Ghost<Seq<Token>>,
) -> (r: Result<(), EResult>)
    requires
        written(src@, o0, old(out)@, *old(outp) as int, toks, lit_len as int, lit_ptr + lit_len),
        lit_ptr == tok_pos(toks, toks.len() as int),
        wf_token(
            src@,
            toks.push(Token { lits: lit_len as int, len: lb_len as int, off: lb_off as int }),
            toks.len() as int,
        ),
        lb_len == 3 && lit_len >= 4 ==> lb_off <= 3072,
    ensures
        ({
            let x = Token { lits: lit_len as int, len: lb_len as int, off: lb_off as int };
            match r {
                Ok(_) => written(
                    src@,
                    o0,
                    final(out)@,
                    *final(outp) as int,
                    toks.push(x),
                    0,
                    lit_ptr + lit_len + lb_len,
                ),
                Err(e) => {
                    &&& e == EResult::OutputOverrun
                    &&& final(out)@.len() == o0.len()
                    &&& overflows(src@, o0.len() as int)
                    &&& enc_tokens(src@, toks.push(x), toks.len() + 1int, 0).len() > o0.len()
                },
            }
        }),
{
    let ghost x = Token { lits: lit_len as int, len: lb_len as int, off: lb_off as int };
    let ghost t2 = toks.push(x);
    let ghost k = toks.len() as int;
    let ghost n = lit_len as int;
    let ghost out0 = out@;
    let ghost p0 = *outp as int;
    proof {
        assert(t2[k] == x);
        assert(wf_token(src@, t2, k));
        lemma_tok_pos_push(toks, x, k);
        assert(valid_match(src@, lit_ptr + lit_len, lb_len as int, lb_off as int));
        assert(lit_ptr + lit_len + lb_len <= src@.len());
        lemma_enc_push(src@, toks, x, k, sbits(n));
        lemma_enc_push(src@, toks, x, k, 0);
        lemma_enc_len(src@, toks, k, 0, sbits(n));
        lemma_wf_push(src@, toks, x);
        assert forall|i: int| 0 <= i < t2.len() && (#[trigger] t2[i]).len == 3 && t2[i].lits >= 4 implies t2[i].off <= 3072 by {
            if i < k {
                assert(t2[i] == toks[i]);
            }
        }
        assert(economic(src@, t2));
        if k > 0 {
            assert(wf_token(src@, toks, k - 1));
            lemma_enc_lits(src@, toks, k, sbits(n));
            assert(out0[p0 - 2] == out0.take(p0)[p0 - 2]);
            if n <= 3 {
                lemma_or_low_bits(out0[p0 - 2], n as u8);
            }
        }
        lemma_tok_pos_mono(src@, t2, k + 1);
        assert(tok_pos(t2, k + 1) == tok_pos(t2, k) + n + lb_len);
        assert(stream(src@, t2).len() >= enc_tokens(src@, t2, k + 1, sbits(src@.len() - tok_pos(t2, k + 1))).len());
        lemma_enc_len(src@, t2, k + 1, 0, sbits(src@.len() - tok_pos(t2, k + 1)));
        assert(enc_tokens(src@, t2, k + 1, 0) == enc_tokens(src@, t2, k, sbits(n)) + lit_header(k == 0, n)
            + src@.subrange(lit_ptr as int, lit_ptr + n) + match_bytes(lb_len as int, lb_off as int, n, 0));
    }
    let src_len = src.len();
    assert(lit_ptr + lit_len <= src_len);
    let lit = &src[lit_ptr..lit_ptr + lit_len];
    match encode_literal_run(out, outp, lit) {
        Ok(()) => {},
        Err(e) => {
            assert(overflows(src@, o0.len() as int));
            return Err(e);
        },
    }
    let ghost out1 = out@;
    let ghost p1 = *outp as int;
    proof {
        assert(patch_run(out0, p0, n).take(p0) =~= enc_tokens(src@, toks, k, sbits(n)));
        assert(out1.take(p1) =~= enc_tokens(src@, toks, k, sbits(n)) + lit_header(k == 0, n) + lit@);
        assert forall|i: int| 0 <= i < out1.len() - p1 implies out1.skip(p1)[i] == o0.skip(p1)[i] by {
            assert(out1.skip(p1)[i] == out0.skip(p0)[p1 - p0 + i]);
        }
        assert(out1.skip(p1) =~= o0.skip(p1));
    }
    match encode_lookback_match(out, outp, lb_len, lb_off, lit_len) {
        Ok(()) => {},
        Err(e) => {
            assert(overflows(src@, o0.len() as int));
            return Err(e);
        },
    }
    proof {
        let p2 = *outp as int;
        assert(out@.take(p2) =~= out1.take(p1) + match_bytes(lb_len as int, lb_off as int, n, 0));
        assert(out@.take(p2) =~= enc_tokens(src@, t2, k + 1, 0));
        assert forall|i: int| 0 <= i < out@.len() - p2 implies out@.skip(p2)[i] == o0.skip(p2)[i] by {
            assert(out@.skip(p2)[i] == out1.skip(p1)[p2 - p1 + i]);
        }
        assert(out@.skip(p2) =~= o0.skip(p2));
    }
    Ok(())
}

/// Compresses `src` into `out` with the search structures of `dict`, and
/// returns the length of the stream written: `compressed(src)`, which depends
/// on `src` alone (the dictionary is reset first). The stream is made of
/// literal runs of `src` and block copies of earlier bytes, so it
/// decompresses back to `src` (for a non-empty `src`). Fails with
/// `OutputOverrun` exactly when `out` is too small for it, which never
/// happens when `out` has 5 bytes plus one in 16 more than `src`; `out` past
/// the stream is left as it was.
#[verifier::rlimit(100)]
#[verifier::spinoff_prover]
pub fn compress(src: &[u8], out: &mut [u8], dict: &mut Dict) -> (r: Result<usize, EResult>)
    requires
        old(dict).wf(),
    ensures
        final(dict).wf(),
        final(out)@.len() == old(out)@.len(),
        match r {
            Ok(n) => {
                &&& n <= old(out)@.len()
                &&& is_stream_of(src@, final(out)@.take(n as int))
                &&& final(out)@.skip(n as int) == old(out)@.skip(n as int)
                &&& src@.len() >= 1 ==> forall|cap: int|
                    cap >= src@.len() ==> #[trigger] spec_decompress(final(out)@.take(n as int), cap) == (
                    Ok::<usize, EResult>(src@.len() as usize),
                    src@,
                )
            },
            Err(e) => e == EResult::OutputOverrun && overflows(src@, old(out)@.len() as int),
        },
        r matches Ok(n) ==> final(out)@.take(n as int) == compressed(src@),
        r is Err ==> compressed(src@).len() > old(out)@.len(),
        old(out)@.len() >= src@.len() + src@.len() / 16 + 5 ==> r is Ok,
{
    let ghost o0 = out@;
    proof {
        if o0.len() >= src@.len() + src@.len() / 16 + 5 {
            lemma_no_overflow(src@, o0.len() as int);
        }
    }
    let src_len = src.len();
    dict.reset();
    proof {
        assert(chains_hold(dict.match3, src@, 0, 0) && heads2_hold(dict.match2, src@, 0, 0));
    }
    let mut s = State::new(src, dict);
    let ghost w0 = s.w0@;
    let mut outp: usize = 0;
    let mut lit_len: usize = 0;
    let mut lit_ptr: usize = s.inp;
    let mut lb_len: usize = 0;
    let mut lb_off: usize = 0;
    let mut best_off = [0usize; 34];
    let ghost mut toks: Seq<Token> = Seq::empty();

    let ghost bo_init = best_off@;
    proof {
        assert(bo_init =~= Seq::new(MAX_MATCH_BY_LENGTH_LEN as nat, |l: int| 0usize));
        assert(dict.bls@ =~= Seq::<int>::empty());
    }
    dict.advance(&mut s, &mut lb_off, &mut lb_len, &mut best_off, false);
    proof {
        let e = Seq::<int>::empty();
        assert(e + Seq::new(0nat, |i: int| (MAX_MATCH_LEN + 1) as int) =~= e);
        lemma_step_matches(src@, 0, e, bo_init, lb_len as int, lb_off as int, best_off@);
        lemma_spec_tokens_start(src@, dict.bls@, lb_len as int, lb_off as int, best_off@);
        assert(out@.take(0) =~= enc_tokens(src@, toks, 0, 0));
        assert(out@.skip(0) =~= o0);
    }

    while s.buf_sz > 0
        invariant
            dict.inv(&s),
            s.src@ == src@,
            src_len == src@.len(),
            o0 == old(out)@,
            o0.len() >= src@.len() + src@.len() / 16 + 5 ==> !overflows(src@, o0.len() as int),
            1 <= s.cur@ <= src@.len() + 1,
            s.cur@ - 1 == src@.len() ==> s.buf_sz == 0 && lb_len == 0,
            s.cur@ - 1 < src@.len() ==> {
                &&& s.buf_sz > 0
                &&& s.bufp == s.cur@ - 1
                &&& found_match(src@, s.cur@ - 1, lb_len as int, lb_off as int, best_off@)
            },
            written(src@, o0, out@, outp as int, toks, lit_len as int, s.cur@ - 1),
            lit_ptr <= src@.len(),
            lit_len > 0 ==> lit_ptr == tok_pos(toks, toks.len() as int),
            spec_tokens(src@) == emit(src@, s.cur@ - 1, lit_len as int, toks, dict.bls@, lb_len as int, lb_off as int, best_off@),
            s.cur@ - 1 < src@.len() && missed(src@, s.cur@ - 1) ==> lb_len >= 4,
            forall|i: int, p: int|
                0 <= i < toks.len() && tok_pos(toks, i) <= p < tok_pos(toks, i) + toks[i].lits ==> !#[trigger] missed_in(
                    src@,
                    toks,
                    i,
                    p,
                ),
            forall|p: int| tok_pos(toks, toks.len() as int) <= p < s.cur@ - 1 ==> !#[trigger] missed(src@, p),
        decreases src@.len() + 1 - s.cur@,
    {
        if lit_len == 0 {
            lit_ptr = s.bufp;
        }
        let ghost lb0 = lb_len;
        let ghost th = s.cur@ - 1;
        let ghost bls_h = dict.bls@;
        let ghost bo_h = best_off@;
        let ghost lbo0 = lb_off;
        let ghost ll0 = lit_len;
        let ghost toks_h = toks;
        if lb_len < 2 || (lb_len == 2 && (lb_off > M1_MAX_OFFSET || lit_len == 0 || lit_len >= 4)) || (lb_len == 2
            && outp == 0) || (outp == 0 && lit_len == 0) {
            lb_len = 0;
        } else if lb_len == M2_MIN_LEN && lb_off > M1_MAX_OFFSET + M2_MAX_OFFSET && lit_len >= 4 {
            lb_len = 0;
        }
        if lb_len == 0 {
            proof {
                let t = s.cur@ - 1;
                if missed(src@, t) {
                    // Only the first position of the input has no match to find.
                    assert(lb0 >= 4);
                    assert(t == 0);
                    assert(last3(src@, t, key3(src@, t)) == -1);
                }
            }
            lit_len += 1;
            dict.advance(&mut s, &mut lb_off, &mut lb_len, &mut best_off, false);
            proof {
                let t2 = th + 1;
                assert(bls_h + Seq::new(0nat, |i: int| (MAX_MATCH_LEN + 1) as int) =~= bls_h);
                lemma_step_matches(src@, t2, bls_h, bo_h, lb_len as int, lb_off as int, best_off@);
                lemma_emit_drop(src@, th, ll0 as int, toks, bls_h, lb0 as int, lbo0 as int, bo_h, lb_len as int, lb_off as int, best_off@);
            }
            continue;
        }
        let ghost t = s.cur@ - 1;
        proof {
            lemma_better_match_valid(src@, t, lb_len as int, lb_off as int, best_off@);
        }
        find_better_match(best_off, &mut lb_len, &mut lb_off);
        let ghost lb1 = lb_len as int;
        let ghost x = Token { lits: lit_len as int, len: lb_len as int, off: lb_off as int };
        proof {
            assert(toks.push(x)[toks.len() as int] == x);
            lemma_tok_pos_push(toks, x, toks.len() as int);
            assert(wf_token(src@, toks.push(x), toks.len() as int));
        }
        match encode_token(src, out, &mut outp, lit_ptr, lit_len, lb_len, lb_off, Ghost(o0), Ghost(toks)) {
            Ok(()) => {},
            Err(e) => {
                assert(out@.len() == o0.len());
                assert(overflows(src@, o0.len() as int));
                proof {
                    lemma_keep_overflow(src@, th, ll0 as int, toks, bls_h, lb0 as int, lbo0 as int, bo_h, o0.len() as int);
                }
                return Err(e);
            },
        }
        proof {
            let t2 = toks.push(x);
            let kk = toks.len() as int;
            lemma_tok_pos_push(toks, x, kk);
            assert forall|i: int, p: int|
                0 <= i < t2.len() && tok_pos(t2, i) <= p < tok_pos(t2, i) + t2[i].lits implies !#[trigger] missed_in(
                src@,
                t2,
                i,
                p,
            ) by {
                if i < kk {
                    lemma_tok_pos_push(toks, x, i);
                    assert(t2[i] == toks[i]);
                    assert(!missed_in(src@, toks, i, p));
                } else {
                    assert(!missed(src@, p));
                }
            }
            toks = t2;
        }
        lit_len = 0;
        dict.advance(&mut s, &mut lb_off, &mut lb_len, &mut best_off, true);
        proof {
            let t2 = th + lb1;
            lemma_step_matches(
                src@,
                t2,
                bls_h + Seq::new((lb1 - 1) as nat, |i: int| (MAX_MATCH_LEN + 1) as int),
                bo_h,
                lb_len as int,
                lb_off as int,
                best_off@,
            );
            lemma_emit_keep(src@, th, ll0 as int, toks_h, bls_h, lb0 as int, lbo0 as int, bo_h, lb_len as int, lb_off as int, best_off@);
        }
    }
    proof {
        lemma_emit_end(src@, s.cur@ - 1, lit_len as int, toks, dict.bls@, lb_len as int, lb_off as int, best_off@);
        assert(spec_tokens(src@) == toks);
    }
    let ghost k = toks.len() as int;
    let ghost p = tok_pos(toks, k);
    let ghost rest = src@.len() - p;
    let ghost out0 = out@;
    let ghost p0 = outp as int;
    proof {
        if k > 0 {
            assert(wf_token(src@, toks, k - 1));
            lemma_enc_lits(src@, toks, k, sbits(rest));
            assert(out0[p0 - 2] == out0.take(p0)[p0 - 2]);
            if rest <= 3 {
                lemma_or_low_bits(out0[p0 - 2], rest as u8);
            }
        }
        lemma_enc_len(src@, toks, k, 0, sbits(rest));
        assert(stream(src@, toks) == enc_tokens(src@, toks, k, sbits(rest)) + lit_header(k == 0, rest)
            + src@.subrange(p, src@.len() as int) + seq![17u8, 0u8, 0u8]);
    }
    let lit = &src[lit_ptr..lit_ptr + lit_len];
    proof {
        assert(lit@ =~= src@.subrange(p, src@.len() as int));
    }
    match encode_literal_run(out, &mut outp, lit) {
        Ok(()) => {},
        Err(e) => {
            assert(stream(src@, toks).len() == p0 + lit_header(k == 0, rest).len() + rest + 3);
            assert(economic(src@, toks) && stream(src@, toks).len() > o0.len());
            return Err(e);
        },
    }
    let ghost out1 = out@;
    let ghost p1 = outp as int;
    proof {
        assert(patch_run(out0, p0, rest).take(p0) =~= enc_tokens(src@, toks, k, sbits(rest)));
        assert(out1.take(p1) =~= enc_tokens(src@, toks, k, sbits(rest)) + lit_header(k == 0, rest) + lit@);
        assert forall|i: int| 0 <= i < out1.len() - p1 implies out1.skip(p1)[i] == o0.skip(p1)[i] by {
            assert(out1.skip(p1)[i] == out0.skip(p0)[p1 - p0 + i]);
        }
    }

    /* Terminating M4 */
    assert((M4_MARKER | 1) == 17usize) by (bit_vector);
    if out.len() - outp < 3 {
        assert(stream(src@, toks).len() == p1 + 3);
        assert(economic(src@, toks) && stream(src@, toks).len() > o0.len());
        return Err(EResult::OutputOverrun);
    }
    put_byte(out, &mut outp, (M4_MARKER | 1) as u8);
    put_byte(out, &mut outp, 0);
    put_byte(out, &mut outp, 0);
    proof {
        let n = outp as int;
        assert(out@.take(n) =~= stream(src@, toks));
        assert(is_stream_of(src@, out@.take(n)));
        assert forall|i: int| 0 <= i < out@.len() - n implies out@.skip(n)[i] == o0.skip(n)[i] by {
            assert(out@.skip(n)[i] == out1.skip(p1)[n - p1 + i]);
        }
        assert(out@.skip(n) =~= o0.skip(n));
        if src@.len() >= 1 {
            assert forall|cap: int| cap >= src@.len() implies #[trigger] spec_decompress(out@.take(n), cap) == (
                Ok::<usize, EResult>(src@.len() as usize),
                src@,
            ) by {
                lemma_stream_roundtrip(src@, toks, cap);
            }
        }
    }
    Ok(outp)
}

} // verus!
