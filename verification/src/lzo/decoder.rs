//! The verified LZO1X decompressor and its helpers.
use vstd::prelude::*;
use super::{EResult, MAX_255_COUNT};
use super::format::{
    copy_match, ext_len, finish, le16, max_255_count, parse, run, spec_decompress, zero_run, Inst,
};

verus! {

/// `zero_run` read from a suffix equals `zero_run` read from the same place.
pub proof fn lemma_zero_run_suffix(s: Seq<u8>, i: int, k: int)
    requires
        0 <= i <= s.len(),
        0 <= k,
    ensures
        zero_run(s.subrange(i, s.len() as int), k) == zero_run(s, i + k),
    decreases s.len() - i - k,
{
    if i + k < s.len() {
        lemma_zero_run_suffix(s, i, k + 1);
    }
}

/// A run of zeros ends inside the sequence.
pub proof fn lemma_zero_run_bound(s: Seq<u8>, i: int)
    requires
        0 <= i <= s.len(),
    ensures
        i + zero_run(s, i) <= s.len(),
        i + zero_run(s, i) < s.len() ==> s[i + zero_run(s, i)] != 0,
    decreases s.len() - i,
{
    if i < s.len() {
        lemma_zero_run_bound(s, i + 1);
    }
}

/// The length of `copy_match` output.
pub proof fn lemma_copy_match_len(out: Seq<u8>, dist: int, n: nat)
    ensures
        copy_match(out, dist, n).len() == out.len() + n,
    decreases n,
{
    if n > 0 {
        lemma_copy_match_len(out, dist, (n - 1) as nat);
    }
}

/// An extended length field never overflows a `usize`.
proof fn lemma_ext_len_fits(offset: int)
    requires
        0 <= offset <= max_255_count(),
    ensures
        offset * 255 + 33 + 255 + 3 <= usize::MAX,
{
    let m = usize::MAX as int;
    assert(offset * 255 <= (m / 255 - 2) * 255) by (nonlinear_arith)
        requires
            offset <= m / 255 - 2,
    ;
    assert((m / 255) * 255 <= m) by (nonlinear_arith)
        requires
            m > 0,
    ;
}

/// Facts about the bit fields of an instruction byte.
proof fn lemma_inst_fields(inst: usize)
    requires
        inst < 256,
    ensures
        ((inst & 0xC0) != 0) == (inst >= 64),
        inst < 64 ==> ((inst & 0x20) != 0) == (inst >= 32),
        inst < 32 ==> ((inst & 0x10) != 0) == (inst >= 16),
        (inst >> 2) & 0x7 == (inst / 4) % 8,
        inst >> 5 == inst / 32,
        inst >> 2 == inst / 4,
        inst & 0x3 == inst % 4,
        inst & 0x1f == inst % 32,
        inst & 0x7 == inst % 8,
        (inst & 0x8) << 11 == (inst / 8) % 2 * 16384,
{
    assert(((inst & 0xC0) != 0) == (inst >= 64)) by (bit_vector)
        requires
            inst < 256,
    ;
    assert(inst < 64 ==> ((inst & 0x20) != 0) == (inst >= 32)) by (bit_vector);
    assert(inst < 32 ==> ((inst & 0x10) != 0) == (inst >= 16)) by (bit_vector);
    assert((inst >> 2) & 0x7 == (inst / 4) % 8) by (bit_vector);
    assert(inst >> 5 == inst / 32) by (bit_vector);
    assert(inst >> 2 == inst / 4) by (bit_vector);
    assert(inst & 0x3 == inst % 4) by (bit_vector);
    assert(inst & 0x1f == inst % 32) by (bit_vector);
    assert(inst & 0x7 == inst % 8) by (bit_vector);
    assert((inst & 0x8) << 11 == (inst / 8) % 2 * 16384) by (bit_vector)
        requires
            inst < 256,
    ;
}

/// Facts about a byte shifted left, and about the fields of a 16-bit value.
proof fn lemma_shift_fields(b: usize, v: usize)
    requires
        b < 256,
        v < 65536,
    ensures
        b << 3 == b * 8,
        b << 2 == b * 4,
        v >> 2 == v / 4,
        v & 0x3 == v % 4,
{
    assert(b << 3 == b * 8) by (bit_vector)
        requires
            b < 256,
    ;
    assert(b << 2 == b * 4) by (bit_vector)
        requires
            b < 256,
    ;
    assert(v >> 2 == v / 4) by (bit_vector);
    assert(v & 0x3 == v % 4) by (bit_vector);
}

/// Reads a little-endian 16-bit value from the first two bytes of `buff`.
pub fn get_le16(buff: &[u8]) -> (r: usize)
    requires
        buff@.len() >= 2,
    ensures
        r == le16(buff@, 0),
{
    let lsb = buff[0];
    let msb = buff[1];
    let r = ((msb as usize) << 8) | lsb as usize;
    assert(r == lsb + 256 * msb) by (bit_vector)
        requires
            r == ((msb as usize) << 8) | lsb as usize,
    ;
    r
}

/// Counts the zero bytes at the start of `src`; fails with `Error` when there
/// are more than `MAX_255_COUNT` of them.
pub fn consume_zero_byte_length(src: &[u8]) -> (r: Result<usize, EResult>)
    ensures
        zero_run(src@, 0) <= max_255_count() ==> r == Ok::<usize, EResult>(zero_run(src@, 0) as usize),
        zero_run(src@, 0) > max_255_count() ==> r == Err::<usize, EResult>(EResult::Error),
{
    let mut offset: usize = 0;
    while offset < src.len() && src[offset] == 0
        invariant
            offset <= src@.len(),
            offset <= max_255_count(),
            zero_run(src@, 0) == offset + zero_run(src@, offset as int),
        decreases src@.len() - offset,
    {
        offset += 1;
        if offset > MAX_255_COUNT {
            return Err(EResult::Error);
        }
    }
    Ok(offset)
}

/// Reads an extended length field at `*inp`: each zero byte adds 255, the
/// first non-zero byte is added as is and ends the field. `*inp` is left after
/// the field, or at the end of `src` when the field does not end.
pub fn read_zero_byte_length(src: &[u8], inp: &mut usize) -> (r: Result<usize, EResult>)
    requires
        zero_run(src@, *old(inp) as int) <= usize::MAX / 255 - 1,
    ensures
        ({
            let z = zero_run(src@, *old(inp) as int);
            if *old(inp) + z >= src@.len() {
                &&& r == Err::<usize, EResult>(EResult::InputOverrun)
                &&& *final(inp) == if *old(inp) < src@.len() { src@.len() as usize } else { *old(inp) }
            } else {
                &&& r == Ok::<usize, EResult>((255 * z + src@[*old(inp) + z]) as usize)
                &&& *final(inp) == *old(inp) + z + 1
            }
        }),
{
    let ghost start = *inp as int;
    let mut length: usize = 0;
    while *inp < src.len() && src[*inp] == 0
        invariant
            start <= *inp,
            start <= src@.len() ==> *inp <= src@.len(),
            start > src@.len() ==> *inp == start,
            length == 255 * (*inp - start),
            zero_run(src@, start) == (*inp - start) + zero_run(src@, *inp as int),
            zero_run(src@, start) <= usize::MAX / 255 - 1,
        decreases src@.len() - *inp,
    {
        assert(255 * (*inp - start + 1) <= 255 * zero_run(src@, start)) by (nonlinear_arith)
            requires
                *inp - start + 1 <= zero_run(src@, start),
        ;
        length += 255;
        *inp += 1;
    }
    if *inp >= src.len() {
        return Err(EResult::InputOverrun);
    }
    assert(255 * (*inp - start) <= 255 * zero_run(src@, start)) by (nonlinear_arith)
        requires
            *inp - start <= zero_run(src@, start),
    ;
    length += src[*inp] as usize;
    *inp += 1;
    Ok(length)
}

/// Copies `len` bytes from `offset` bytes before position `outp` of `dst`,
/// one byte at a time, refusing to read at or after `outp` and to write past
/// the end of `dst`.
pub fn copy_from_lookbehind(dst: &mut [u8], outp: usize, offset: usize, len: usize) -> (r: Result<(), EResult>)
    ensures
        offset > outp ==> r == Err::<(), EResult>(EResult::LookbehindOverrun) && final(dst)@ == old(dst)@,
        offset <= outp ==> ({
            // Bytes that can be copied before a check fails.
            let room = if outp < old(dst)@.len() { old(dst)@.len() - outp } else { 0 };
            let k = if len <= offset && len <= room { len as int } else if offset <= room { offset as int } else { room };
            let start = outp - offset;
            &&& r == if len <= offset && len <= room {
                Ok::<(), EResult>(())
            } else if offset <= room {
                Err::<(), EResult>(EResult::LookbehindOverrun)
            } else {
                Err::<(), EResult>(EResult::OutputOverrun)
            }
            &&& final(dst)@.len() == old(dst)@.len()
            &&& forall|i: int| 0 <= i < k ==> #[trigger] final(dst)@[outp + i] == old(dst)@[start + i]
            &&& forall|j: int| 0 <= j < old(dst)@.len() && !(outp <= j < outp + k) ==> #[trigger] final(dst)@[j] == old(dst)@[j]
        }),
{
    if offset > outp {
        return Err(EResult::LookbehindOverrun);
    }
    let start = outp - offset;
    let ghost d0 = dst@;
    let dlen = dst.len();
    let mut i: usize = 0;
    while i < len
        invariant
            start == outp - offset,
            offset <= outp,
            dst@.len() == d0.len(),
            i <= offset,
            i <= len,
            i == 0 || outp + i <= d0.len(),
            dst@.len() == d0.len(),
            d0.len() == dlen,
            d0 == old(dst)@,
            forall|k: int| 0 <= k < i ==> #[trigger] dst@[outp + k] == d0[start + k],
            forall|j: int| 0 <= j < d0.len() && !(outp <= j < outp + i) ==> #[trigger] dst@[j] == d0[j],
        decreases len - i,
    {
        if start + i >= outp {
            return Err(EResult::LookbehindOverrun);
        }
        if outp + i >= dst.len() {
            return Err(EResult::OutputOverrun);
        }
        dst[outp + i] = dst[start + i];
        i += 1;
    }
    Ok(())
}


/// Copies `n` bytes of `src` at `inp` into `dst` at `outp`.
pub(crate) fn copy_literals(dst: &mut [u8], outp: usize, src: &[u8], inp: usize, n: usize)
    requires
        outp + n <= old(dst)@.len(),
        inp + n <= src@.len(),
    ensures
        final(dst)@ == old(dst)@.take(outp as int) + src@.subrange(inp as int, inp + n) + old(dst)@.skip(outp + n),
{
    let ghost d0 = dst@;
    let dlen = dst.len();
    let slen = src.len();
    let mut i: usize = 0;
    while i < n
        invariant
            i <= n,
            outp + n <= d0.len(),
            inp + n <= src@.len(),
            d0.len() == dlen,
            src@.len() == slen,
            dst@.len() == d0.len(),
            dst@ == d0.take(outp as int) + src@.subrange(inp as int, inp + i) + d0.skip(outp + i),
        decreases n - i,
    {
        dst[outp + i] = src[inp + i];
        assert(dst@ =~= d0.take(outp as int) + src@.subrange(inp as int, inp + i + 1) + d0.skip(outp + i + 1));
        i += 1;
    }
}

/// Appends, after the first `outp` bytes of `dst`, `n` bytes each copied from
/// `dist` bytes before it (overlapping copies repeat the pattern).
fn copy_overlapping(dst: &mut [u8], outp: usize, dist: usize, n: usize)
    requires
        1 <= dist <= outp,
        outp + n <= old(dst)@.len(),
    ensures
        final(dst)@ == copy_match(old(dst)@.take(outp as int), dist as int, n as nat) + old(dst)@.skip(outp + n),
{
    let ghost d0 = dst@;
    let start = outp - dist;
    let dlen = dst.len();
    let mut i: usize = 0;
    while i < n
        invariant
            i <= n,
            d0.len() == dlen,
            start == outp - dist,
            1 <= dist <= outp,
            outp + n <= d0.len(),
            dst@.len() == d0.len(),
            dst@ == copy_match(d0.take(outp as int), dist as int, i as nat) + d0.skip(outp + i),
        decreases n - i,
    {
        proof {
            lemma_copy_match_len(d0.take(outp as int), dist as int, i as nat);
        }
        let ghost c = copy_match(d0.take(outp as int), dist as int, i as nat);
        assert(dst@[start + i] == c[c.len() - dist]);
        dst[outp + i] = dst[start + i];
        assert(dst@ =~= copy_match(d0.take(outp as int), dist as int, (i + 1) as nat) + d0.skip(outp + i + 1));
        i += 1;
    }
}

/// Reads an extended length field at `inp` (see `ext_len`), using
/// `consume_zero_byte_length` for the zero bytes.
fn read_ext_len(src: &[u8], inp: usize, base: usize) -> (r: Result<(usize, usize), EResult>)
    requires
        inp <= src@.len(),
        base <= 33,
    ensures
        match r {
            Ok((q, len)) => ext_len(src@, inp as int, base as int) == Ok::<(int, int), EResult>((q as int, len as int))
                && len + 3 <= usize::MAX,
            Err(e) => ext_len(src@, inp as int, base as int) == Err::<(int, int), EResult>(e),
        },
{
    proof {
        lemma_zero_run_suffix(src@, inp as int, 0);
        lemma_zero_run_bound(src@, inp as int);
    }
    let offset = match consume_zero_byte_length(vstd::slice::slice_subrange(src, inp, src.len())) {
        Ok(o) => o,
        Err(e) => return Err(e),
    };
    proof {
        lemma_ext_len_fits(offset as int);
    }
    let p = inp + offset;
    if src.len() - p < 1 {
        return Err(EResult::InputOverrun);
    }
    let len = base + offset * 255 + src[p] as usize;
    Ok((p + 1, len))
}

/// A decoded instruction, as read by `read_instruction`.
pub enum Instruction {
    Literals { at: usize, len: usize },
    Match { at: usize, dist: usize, len: usize, lits: usize },
    End { at: usize, len: usize },
}

impl View for Instruction {
    type V = Inst;

    open spec fn view(&self) -> Inst {
        match *self {
            Instruction::Literals { at, len } => Inst::Literals(at as int, len as int),
            Instruction::Match { at, dist, len, lits } => Inst::Match(at as int, dist as int, len as int, lits as int),
            Instruction::End { at, len } => Inst::End(at as int, len as int),
        }
    }
}

/// Reads the instruction at input position `inp`; `state` is the number of
/// literals copied by the previous instruction.
fn read_instruction(src: &[u8], inp: usize, state: usize) -> (r: Result<Instruction, EResult>)
    requires
        inp <= src@.len(),
    ensures
        match r {
            Ok(i) => {
                &&& parse(src@, inp as int, state as int) == Ok::<Inst, EResult>(i@)
                &&& match i {
                    Instruction::Literals { at, len } => inp < at <= src@.len(),
                    Instruction::Match { at, dist, len, lits } => inp < at <= src@.len() && dist >= 1 && len + 3 <= usize::MAX && lits < 4,
                    Instruction::End { at, len } => inp < at <= src@.len(),
                }
            },
            Err(e) => parse(src@, inp as int, state as int) == Err::<Inst, EResult>(e),
        },
{
    reveal(parse);
    let mut inp = inp;
    let mut lblen: usize;
    let lbcur: usize;
    let mut nstate: usize;
    if src.len() - inp < 1 {
        return Err(EResult::InputOverrun);
    }
    let inst = src[inp] as usize;
    inp += 1;
    proof {
        lemma_inst_fields(inst);
    }
    if inst & 0xC0 != 0 {
        /* [M2] 1 L L D D D S S / 0 1 L D D D S S, then H H H H H H H H:
         * length = L + 3 (5..8 or 3..4), distance = (H << 3) + D + 1, state = S */
        if src.len() - inp < 1 {
            return Err(EResult::InputOverrun);
        }
        proof {
            lemma_shift_fields(src@[inp as int] as usize, 0);
        }
        lbcur = ((src[inp] as usize) << 3) + ((inst >> 2) & 0x7) + 1;
        inp += 1;
        lblen = (inst >> 5) + 1;
        nstate = inst & 0x3;
    } else if inst & 0x20 != 0 {
        /* [M3] 0 0 1 L L L L L, then LE16 D..D S S:
         * length = 2 + (L ?: 31 + (zero_bytes * 255) + non_zero_byte),
         * distance = D + 1, state = S */
        lblen = (inst & 0x1f) + 2;
        if lblen == 2 {
            match read_ext_len(src, inp, 33) {
                Ok((q, len)) => {
                    inp = q;
                    lblen = len;
                },
                Err(e) => return Err(e),
            }
        }
        if src.len() - inp < 2 {
            return Err(EResult::InputOverrun);
        }
        nstate = get_le16(vstd::slice::slice_subrange(src, inp, src.len()));
        proof {
            lemma_shift_fields(0, nstate);
        }
        inp += 2;
        lbcur = (nstate >> 2) + 1;
        nstate &= 0x3;
    } else if inst & 0x10 != 0 {
        /* [M4] 0 0 0 1 H L L L, then LE16 D..D S S:
         * length = 2 + (L ?: 7 + (zero_bytes * 255) + non_zero_byte),
         * distance = 16384 + (H << 14) + D, state = S;
         * the end of the stream when the distance is 16384 */
        lblen = (inst & 0x7) + 2;
        if lblen == 2 {
            match read_ext_len(src, inp, 9) {
                Ok((q, len)) => {
                    inp = q;
                    lblen = len;
                },
                Err(e) => return Err(e),
            }
        }
        if src.len() - inp < 2 {
            return Err(EResult::InputOverrun);
        }
        nstate = get_le16(vstd::slice::slice_subrange(src, inp, src.len()));
        proof {
            lemma_shift_fields(0, nstate);
        }
        inp += 2;
        let d = ((inst & 0x8) << 11) + (nstate >> 2);
        nstate &= 0x3;
        if d == 0 {
            return Ok(Instruction::End { at: inp, len: lblen });
        }
        lbcur = d + 16384;
    } else if state == 0 {
        /* [M1] after no literals: 0 0 0 0 L L L L, a literal run of
         * length = 3 + (L ?: 15 + (zero_bytes * 255) + non_zero_byte) */
        let mut len = inst + 3;
        if len == 3 {
            match read_ext_len(src, inp, 18) {
                Ok((q, l)) => {
                    inp = q;
                    len = l;
                },
                Err(e) => return Err(e),
            }
        }
        return Ok(Instruction::Literals { at: inp, len });
    } else if state != 4 {
        /* [M1] after 1..3 literals: 0 0 0 0 D D S S, then H H H H H H H H:
         * length = 2, distance = (H << 2) + D + 1, state = S */
        if src.len() - inp < 1 {
            return Err(EResult::InputOverrun);
        }
        proof {
            lemma_shift_fields(src@[inp as int] as usize, 0);
        }
        nstate = inst & 0x3;
        lbcur = (inst >> 2) + ((src[inp] as usize) << 2) + 1;
        inp += 1;
        lblen = 2;
    } else {
        /* [M1] after 4 or more literals: 0 0 0 0 D D S S, then H H H H H H H H:
         * length = 3, distance = (H << 2) + D + 2049, state = S */
        if src.len() - inp < 1 {
            return Err(EResult::InputOverrun);
        }
        proof {
            lemma_shift_fields(src@[inp as int] as usize, 0);
        }
        nstate = inst & 0x3;
        lbcur = (inst >> 2) + ((src[inp] as usize) << 2) + 2049;
        inp += 1;
        lblen = 3;
    }
    Ok(Instruction::Match { at: inp, dist: lbcur, len: lblen, lits: nstate })
}

/// Decompresses the LZO1X stream `src` into `dst`, giving the number of bytes
/// written. The bytes written to `dst` and the result are those of the
/// decoding machine `spec_decompress` with the capacity of `dst`; the rest of
/// `dst` is left as it was.
pub fn decompress(src: &[u8], dst: &mut [u8]) -> (r: Result<usize, EResult>)
    ensures
        r == spec_decompress(src@, old(dst)@.len() as int).0,
        final(dst)@ == spec_decompress(src@, old(dst)@.len() as int).1
            + old(dst)@.skip(spec_decompress(src@, old(dst)@.len() as int).1.len() as int),
{
    let ghost cap = dst@.len() as int;
    let ghost d0 = dst@;
    if src.len() < 3 {
        assert(d0 =~= Seq::<u8>::empty() + d0.skip(0));
        return Err(EResult::InputOverrun);
    }
    let mut inp: usize = 0;
    let mut outp: usize = 0;
    let mut state: usize = 0;
    let mut lblen: usize;
    let nstate: usize;

    /* First byte encoding */
    if src[inp] >= 22 {
        /* 22..255 : copy literal string, length = (byte - 17) = 4..238, state = 4 */
        let len = (src[inp] - 17) as usize;
        inp += 1;
        if src.len() - inp < len {
            assert(d0 =~= Seq::<u8>::empty() + d0.skip(0));
            return Err(EResult::InputOverrun);
        }
        if dst.len() - outp < len {
            assert(d0 =~= Seq::<u8>::empty() + d0.skip(0));
            return Err(EResult::OutputOverrun);
        }
        copy_literals(dst, outp, src, inp, len);
        inp += len;
        outp += len;
        state = 4;
    } else if src[inp] >= 18 {
        /* 18..21 : copy 1..4 literals, state = (byte - 17) */
        nstate = (src[inp] - 17) as usize;
        inp += 1;
        state = nstate;
        if src.len() - inp < nstate {
            assert(d0 =~= Seq::<u8>::empty() + d0.skip(0));
            return Err(EResult::InputOverrun);
        }
        if dst.len() - outp < nstate {
            assert(d0 =~= Seq::<u8>::empty() + d0.skip(0));
            return Err(EResult::OutputOverrun);
        }
        copy_literals(dst, outp, src, inp, nstate);
        inp += nstate;
        outp += nstate;
    }
    assert(dst@ =~= dst@.take(outp as int) + d0.skip(outp as int));
    assert(dst@.take(outp as int) =~= if outp == 0 { Seq::<u8>::empty() } else { src@.subrange(1, 1 + outp) });
    /* 0..17 : follow regular instruction encoding */
    loop
        invariant_except_break
            inp <= src@.len(),
            outp <= cap,
            dst@.len() == cap,
            cap == d0.len(),
            d0 == old(dst)@,
            state <= 4,
            dst@ == dst@.take(outp as int) + d0.skip(outp as int),
            run(src@, cap, inp as int, dst@.take(outp as int), state as int) == spec_decompress(src@, cap),
        ensures
            inp <= src@.len(),
            outp <= cap,
            dst@.len() == cap,
            cap == d0.len(),
            d0 == old(dst)@,
            dst@ == dst@.take(outp as int) + d0.skip(outp as int),
            finish(src@, inp as int, dst@.take(outp as int), lblen as int) == spec_decompress(src@, cap),
        decreases src@.len() - inp,
    {
        let ghost out = dst@.take(outp as int);
        let ghost inp0 = inp as int;
        match read_instruction(src, inp, state) {
            Err(e) => {
                return Err(e);
            },
            Ok(Instruction::End { at, len }) => {
                inp = at;
                lblen = len;
                break;  /* Stream finished */
            },
            Ok(Instruction::Literals { at, len }) => {
                /* Copy a literal run; state = 4 */
                inp = at;
                if src.len() - inp < len {
                    return Err(EResult::InputOverrun);
                }
                if dst.len() - outp < len {
                    return Err(EResult::OutputOverrun);
                }
                copy_literals(dst, outp, src, inp, len);
                outp += len;
                inp += len;
                state = 4;
                assert(dst@.take(outp as int) =~= out + src@.subrange(inp - len, inp as int));
                assert(dst@ =~= dst@.take(outp as int) + d0.skip(outp as int));
            },
            Ok(Instruction::Match { at, dist, len, lits }) => {
                inp = at;
                if dist > outp {
                    return Err(EResult::LookbehindOverrun);
                }
                if src.len() - inp < lits {
                    return Err(EResult::InputOverrun);
                }
                if dst.len() - outp < len + lits {
                    return Err(EResult::OutputOverrun);
                }
                /* Copy lookbehind; the copy may overlap the bytes it produces */
                copy_overlapping(dst, outp, dist, len);
                proof {
                    lemma_copy_match_len(out, dist as int, len as nat);
                }
                outp += len;
                state = lits;
                /* Copy literals */
                copy_literals(dst, outp, src, inp, lits);
                inp += lits;
                outp += lits;
                assert(dst@.take(outp as int) =~= copy_match(out, dist as int, len as nat) + src@.subrange(inp - lits, inp as int));
                assert(dst@ =~= dst@.take(outp as int) + d0.skip(outp as int));
            },
        }
    }

    /* Ensure terminating M4 was encountered */
    if lblen != 3 {
        return Err(EResult::Error);
    }
    if inp == src.len() {
        Ok(outp)
    } else if inp < src.len() {
        Err(EResult::InputNotConsumed(outp))
    } else {
        Err(EResult::InputOverrun)
    }
}

} // verus!
