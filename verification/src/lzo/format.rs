//! The LZO1X stream format, as a decoding machine over a byte sequence.
//!
//! A stream starts with an optional literal run (first byte 18..255), followed
//! by instructions. Each instruction copies a block from earlier output (a
//! "match" at some distance), then up to three literal bytes; a literal-run
//! instruction copies four or more literal bytes. The stream ends with the M4
//! instruction whose distance field is zero.
use vstd::prelude::*;
use super::EResult;

verus! {

/// Largest number of zero bytes accepted in one extended length field.
pub open spec fn max_255_count() -> int {
    usize::MAX as int / 255 - 2
}

/// Number of consecutive zero bytes of `s` starting at index `i`.
pub open spec fn zero_run(s: Seq<u8>, i: int) -> nat
    decreases s.len() - i,
{
    if 0 <= i < s.len() && s[i] == 0 {
        1 + zero_run(s, i + 1)
    } else {
        0
    }
}

/// Little-endian 16-bit value at index `i`.
pub open spec fn le16(s: Seq<u8>, i: int) -> int {
    s[i] + 256 * s[i + 1]
}

/// An extended length field starting at `p`: zero bytes each worth 255, closed
/// by one byte that is added as is, on top of `base`.
/// Gives the input position after the field and the length.
pub open spec fn ext_len(src: Seq<u8>, p: int, base: int) -> Result<(int, int), EResult> {
    let z = zero_run(src, p);
    if z > max_255_count() {
        Err(EResult::Error)
    } else if p + z >= src.len() {
        Err(EResult::InputOverrun)
    } else {
        Ok((p + z + 1, base + 255 * z + src[p + z]))
    }
}

/// `out` extended by `n` bytes, each copied from `dist` bytes before it
/// (the copy may overlap the bytes it produces).
pub open spec fn copy_match(out: Seq<u8>, dist: int, n: nat) -> Seq<u8>
    decreases n,
{
    if n == 0 {
        out
    } else {
        let c = copy_match(out, dist, (n - 1) as nat);
        c.push(c[c.len() - dist])
    }
}

/// What one decoding step leads to.
pub enum Decoded {
    /// Continue at input position `inp` with output `out` and literal state `state`.
    Next(int, Seq<u8>, int),
    /// The end-of-stream instruction was read: input position after it,
    /// output so far, and the length field of that instruction.
    End(int, Seq<u8>, int),
    /// Decoding fails with the error, after producing the output given.
    Fail(EResult, Seq<u8>),
}

/// A block copy of `len` bytes from `dist` bytes back, followed by `ns`
/// literal bytes read at input position `p`; `cap` is the output capacity.
pub open spec fn apply_match(
    src: Seq<u8>,
    cap: int,
    p: int,
    out: Seq<u8>,
    dist: int,
    len: int,
    ns: int,
) -> Decoded {
    if dist > out.len() {
        Decoded::Fail(EResult::LookbehindOverrun, out)
    } else if src.len() - p < ns {
        Decoded::Fail(EResult::InputOverrun, out)
    } else if cap - out.len() < len + ns {
        Decoded::Fail(EResult::OutputOverrun, out)
    } else {
        Decoded::Next(p + ns, copy_match(out, dist, len as nat) + src.subrange(p, p + ns), ns)
    }
}

/// A decoded instruction.
pub enum Inst {
    /// Copy `n` literal bytes found at input position `q`: `Literals(q, n)`.
    Literals(int, int),
    /// Copy `len` bytes from `dist` bytes back, then `ns` literal bytes found
    /// at input position `q`: `Match(q, dist, len, ns)`.
    Match(int, int, int, int),
    /// End of the stream: input position after it, and its length field.
    End(int, int),
}

/// Decodes the instruction at input position `inp`. `state` is the number of
/// literals copied by the previous instruction (4 standing for four or more).
#[verifier::opaque]
pub open spec fn parse(src: Seq<u8>, inp: int, state: int) -> Result<Inst, EResult> {
    if inp >= src.len() {
        Err(EResult::InputOverrun)
    } else {
        let inst = src[inp] as int;
        let p = inp + 1;
        if inst >= 64 {
            // M2: 3..8 bytes from within 2kB.
            if p >= src.len() {
                Err(EResult::InputOverrun)
            } else {
                Ok(Inst::Match(p + 1, src[p] * 8 + (inst / 4) % 8 + 1, inst / 32 + 1, inst % 4))
            }
        } else if inst >= 32 {
            // M3: a block within 16kB.
            let field = if inst % 32 == 0 { ext_len(src, p, 33) } else { Ok((p, inst % 32 + 2)) };
            match field {
                Err(e) => Err(e),
                Ok((q, len)) => if src.len() - q < 2 {
                    Err(EResult::InputOverrun)
                } else {
                    let v = le16(src, q);
                    Ok(Inst::Match(q + 2, v / 4 + 1, len, v % 4))
                },
            }
        } else if inst >= 16 {
            // M4: a block within 16..48kB, or the end of the stream.
            let field = if inst % 8 == 0 { ext_len(src, p, 9) } else { Ok((p, inst % 8 + 2)) };
            match field {
                Err(e) => Err(e),
                Ok((q, len)) => if src.len() - q < 2 {
                    Err(EResult::InputOverrun)
                } else {
                    let v = le16(src, q);
                    let d = (inst / 8) % 2 * 16384 + v / 4;
                    if d == 0 {
                        Ok(Inst::End(q + 2, len))
                    } else {
                        Ok(Inst::Match(q + 2, d + 16384, len, v % 4))
                    }
                },
            }
        } else if state == 0 {
            // A literal run of four or more bytes.
            let field = if inst == 0 { ext_len(src, p, 18) } else { Ok((p, inst + 3)) };
            match field {
                Err(e) => Err(e),
                Ok((q, n)) => Ok(Inst::Literals(q, n)),
            }
        } else if p >= src.len() {
            Err(EResult::InputOverrun)
        } else if state != 4 {
            // M1 after 1..3 literals: 2 bytes from within 1kB.
            Ok(Inst::Match(p + 1, inst / 4 + src[p] * 4 + 1, 2, inst % 4))
        } else {
            // M1 after a literal run: 3 bytes from 2..3kB.
            Ok(Inst::Match(p + 1, inst / 4 + src[p] * 4 + 2049, 3, inst % 4))
        }
    }
}

/// Executes the instruction at input position `inp` on the output `out`.
pub open spec fn step(src: Seq<u8>, cap: int, inp: int, out: Seq<u8>, state: int) -> Decoded {
    match parse(src, inp, state) {
        Err(e) => Decoded::Fail(e, out),
        Ok(Inst::Literals(q, n)) => if src.len() - q < n {
            Decoded::Fail(EResult::InputOverrun, out)
        } else if cap - out.len() < n {
            Decoded::Fail(EResult::OutputOverrun, out)
        } else {
            Decoded::Next(q + n, out + src.subrange(q, q + n), 4)
        },
        Ok(Inst::Match(q, dist, len, ns)) => apply_match(src, cap, q, out, dist, len, ns),
        Ok(Inst::End(q, len)) => Decoded::End(q, out, len),
    }
}

/// Outcome once the end-of-stream instruction (with length field `len`) was
/// read and the input position is `inp`.
pub open spec fn finish(src: Seq<u8>, inp: int, out: Seq<u8>, len: int) -> (Result<usize, EResult>, Seq<u8>) {
    if len != 3 {
        (Err(EResult::Error), out)
    } else if inp == src.len() {
        (Ok(out.len() as usize), out)
    } else if inp < src.len() {
        (Err(EResult::InputNotConsumed(out.len() as usize)), out)
    } else {
        (Err(EResult::InputOverrun), out)
    }
}

/// Runs the decoding machine from input position `inp` to the end.
pub open spec fn run(src: Seq<u8>, cap: int, inp: int, out: Seq<u8>, state: int) -> (Result<usize, EResult>, Seq<u8>)
    decreases src.len() - inp,
{
    match step(src, cap, inp, out, state) {
        Decoded::Next(q, o, s) => if inp < q <= src.len() {
            run(src, cap, q, o, s)
        } else {
            (Err(EResult::Error), o)
        },
        Decoded::End(q, o, len) => finish(src, q, o, len),
        Decoded::Fail(e, o) => (Err(e), o),
    }
}

/// Decompression of `src` into an output buffer of `cap` bytes: the result
/// and the bytes written to the start of the buffer.
pub open spec fn spec_decompress(src: Seq<u8>, cap: int) -> (Result<usize, EResult>, Seq<u8>) {
    if src.len() < 3 {
        (Err(EResult::InputOverrun), Seq::empty())
    } else if src[0] >= 18 {
        // The stream starts with a literal run.
        let n = src[0] - 17;
        let state = if src[0] >= 22 { 4 } else { n };
        if src.len() - 1 < n {
            (Err(EResult::InputOverrun), Seq::empty())
        } else if cap < n {
            (Err(EResult::OutputOverrun), Seq::empty())
        } else {
            run(src, cap, 1 + n, src.subrange(1, 1 + n), state)
        }
    } else {
        run(src, cap, 0, Seq::empty(), 0)
    }
}

} // verus!
