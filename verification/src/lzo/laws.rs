//! Properties of decompression that span calls: how the result depends on the
//! capacity of the output buffer.
use vstd::prelude::*;
use super::EResult;
use super::format::{ext_len, parse, run, spec_decompress, step, zero_run, Decoded, Inst};
use super::decoder::{lemma_copy_match_len, lemma_zero_run_bound};

verus! {

/// An extended length field ends after its closing byte and is worth at most
/// 255 per byte it occupies, on top of `base`.
proof fn lemma_ext_len_progress(src: Seq<u8>, p: int, base: int)
    requires
        0 <= p <= src.len(),
    ensures
        ext_len(src, p, base) matches Ok((q, len)) ==> p < q <= src.len() && base <= len <= base + 255 * (q - p),
{
    lemma_zero_run_bound(src, p);
}

/// Reading an instruction consumes input; a block copy together with its
/// literals produces at most 255 bytes per input byte it consumed.
pub proof fn lemma_parse_progress(src: Seq<u8>, inp: int, state: int)
    requires
        0 <= inp <= src.len(),
    ensures
        match parse(src, inp, state) {
            Ok(Inst::Literals(q, n)) => inp < q <= src.len() && n >= 0,
            Ok(Inst::Match(q, d, l, ns)) => inp < q <= src.len() && d >= 1 && 0 <= ns <= 3 && 0 <= l && l + 3 <= 255 * (q - inp),
            Ok(Inst::End(q, l)) => inp < q <= src.len(),
            Err(e) => e != EResult::OutputOverrun && !(e is InputNotConsumed),
        },
{
    reveal(parse);
    if inp < src.len() {
        lemma_ext_len_progress(src, inp + 1, 33);
        lemma_ext_len_progress(src, inp + 1, 9);
        lemma_ext_len_progress(src, inp + 1, 18);
    }
}

/// From a point where the output holds at most 255 bytes per input byte read,
/// a buffer of 255 bytes per input byte never runs out.
proof fn lemma_run_fits(src: Seq<u8>, cap: int, inp: int, out: Seq<u8>, state: int)
    requires
        0 <= inp <= src.len(),
        out.len() <= 255 * inp,
        cap >= 255 * src.len(),
    ensures
        run(src, cap, inp, out, state).0 != Err::<usize, EResult>(EResult::OutputOverrun),
    decreases src.len() - inp,
{
    lemma_parse_progress(src, inp, state);
    match parse(src, inp, state) {
        Ok(Inst::Literals(q, n)) => {
            if src.len() - q >= n {
                assert(cap - out.len() >= n);
                lemma_run_fits(src, cap, q + n, out + src.subrange(q, q + n), 4);
            }
        },
        Ok(Inst::Match(q, d, l, ns)) => {
            if d <= out.len() && src.len() - q >= ns {
                assert(cap - out.len() >= l + ns);
                lemma_copy_match_len(out, d, l as nat);
                let o = super::format::copy_match(out, d, l as nat) + src.subrange(q, q + ns);
                assert(step(src, cap, inp, out, state) == Decoded::Next(q + ns, o, ns));
                lemma_run_fits(src, cap, q + ns, o, ns);
            }
        },
        _ => {},
    }
}

/// Once a run does not run out of output space, a larger buffer gives the same run.
proof fn lemma_run_capacity(src: Seq<u8>, c1: int, c2: int, inp: int, out: Seq<u8>, state: int)
    requires
        c1 <= c2,
        run(src, c1, inp, out, state).0 != Err::<usize, EResult>(EResult::OutputOverrun),
    ensures
        run(src, c2, inp, out, state) == run(src, c1, inp, out, state),
    decreases src.len() - inp,
{
    match step(src, c1, inp, out, state) {
        Decoded::Next(q, o, s) => {
            if inp < q <= src.len() {
                lemma_run_capacity(src, c1, c2, q, o, s);
            }
        },
        _ => {},
    }
}

/// Decompression never needs more than 255 bytes of output per byte of input:
/// with a buffer that large it does not fail with `OutputOverrun`.
pub proof fn lemma_decompress_fits(src: Seq<u8>, cap: int)
    requires
        cap >= 255 * src.len(),
    ensures
        spec_decompress(src, cap).0 != Err::<usize, EResult>(EResult::OutputOverrun),
{
    if src.len() >= 3 {
        if src[0] >= 18 {
            let n = src[0] - 17;
            if src.len() - 1 >= n {
                let state = if src[0] >= 22 { 4int } else { n as int };
                lemma_run_fits(src, cap, 1 + n, src.subrange(1, 1 + n), state);
            }
        } else {
            lemma_run_fits(src, cap, 0, Seq::empty(), 0);
        }
    }
}

/// Decompression into a larger buffer gives the same result and the same
/// bytes, unless the smaller buffer was too small (`OutputOverrun`).
pub proof fn lemma_decompress_capacity(src: Seq<u8>, c1: int, c2: int)
    requires
        c1 <= c2,
        spec_decompress(src, c1).0 != Err::<usize, EResult>(EResult::OutputOverrun),
    ensures
        spec_decompress(src, c2) == spec_decompress(src, c1),
{
    if src.len() >= 3 {
        if src[0] >= 18 {
            let n = src[0] - 17;
            if src.len() - 1 >= n && c1 >= n {
                let state = if src[0] >= 22 { 4int } else { n as int };
                lemma_run_capacity(src, c1, c2, 1 + n, src.subrange(1, 1 + n), state);
            }
        } else {
            lemma_run_capacity(src, c1, c2, 0, Seq::empty(), 0);
        }
    }
}

/// A run never writes past the capacity, and the size it reports is what it wrote.
proof fn lemma_run_len(src: Seq<u8>, cap: int, inp: int, out: Seq<u8>, state: int)
    requires
        0 <= inp <= src.len(),
        out.len() <= cap,
    ensures
        ({
            let (r, o) = run(src, cap, inp, out, state);
            &&& o.len() <= cap
            &&& r matches Ok(n) ==> n == o.len() as usize
            &&& r matches Err(EResult::InputNotConsumed(n)) ==> n == o.len() as usize
        }),
    decreases src.len() - inp,
{
    lemma_parse_progress(src, inp, state);
    match parse(src, inp, state) {
        Ok(Inst::Literals(q, n)) => {
            if src.len() - q >= n && cap - out.len() >= n {
                lemma_run_len(src, cap, q + n, out + src.subrange(q, q + n), 4);
            }
        },
        Ok(Inst::Match(q, d, l, ns)) => {
            if d <= out.len() && src.len() - q >= ns && cap - out.len() >= l + ns {
                lemma_copy_match_len(out, d, l as nat);
                let o = super::format::copy_match(out, d, l as nat) + src.subrange(q, q + ns);
                assert(step(src, cap, inp, out, state) == Decoded::Next(q + ns, o, ns));
                lemma_run_len(src, cap, q + ns, o, ns);
            }
        },
        _ => {},
    }
}

/// Decompression writes at most `cap` bytes, and on success (or with input
/// left over) reports the number of bytes it wrote.
pub proof fn lemma_decompress_len(src: Seq<u8>, cap: int)
    requires
        0 <= cap,
    ensures
        ({
            let (r, o) = spec_decompress(src, cap);
            &&& o.len() <= cap
            &&& cap <= usize::MAX ==> (r matches Ok(n) ==> n == o.len())
            &&& cap <= usize::MAX ==> (r matches Err(EResult::InputNotConsumed(n)) ==> n == o.len())
        }),
{
    if src.len() >= 3 {
        if src[0] >= 18 {
            let n = src[0] - 17;
            if src.len() - 1 >= n && cap >= n {
                let state = if src[0] >= 22 { 4int } else { n as int };
                lemma_run_len(src, cap, 1 + n, src.subrange(1, 1 + n), state);
            }
        } else {
            lemma_run_len(src, cap, 0, Seq::empty(), 0);
        }
    }
}

/// A run that does not run out of space at capacity `c1` gives the same
/// outcome at any capacity `c2` that holds its output, and runs out of space
/// at any smaller one.
proof fn lemma_run_exact_capacity(src: Seq<u8>, c1: int, c2: int, inp: int, out: Seq<u8>, state: int)
    requires
        0 <= inp <= src.len(),
        out.len() <= c2,
        run(src, c1, inp, out, state).0 != Err::<usize, EResult>(EResult::OutputOverrun),
    ensures
        run(src, c1, inp, out, state).1.len() <= c2 ==> run(src, c2, inp, out, state) == run(src, c1, inp, out, state),
        run(src, c1, inp, out, state).1.len() > c2 ==> run(src, c2, inp, out, state).0 == Err::<usize, EResult>(
            EResult::OutputOverrun,
        ),
    decreases src.len() - inp,
{
    lemma_parse_progress(src, inp, state);
    match parse(src, inp, state) {
        Ok(Inst::Literals(q, n)) => {
            if src.len() - q >= n && c1 - out.len() >= n {
                let o = out + src.subrange(q, q + n);
                lemma_run_grows(src, c1, q + n, o, 4);
                if o.len() <= c2 {
                    lemma_run_exact_capacity(src, c1, c2, q + n, o, 4);
                }
            }
        },
        Ok(Inst::Match(q, d, l, ns)) => {
            if d <= out.len() && src.len() - q >= ns && c1 - out.len() >= l + ns {
                lemma_copy_match_len(out, d, l as nat);
                let o = super::format::copy_match(out, d, l as nat) + src.subrange(q, q + ns);
                assert(step(src, c1, inp, out, state) == Decoded::Next(q + ns, o, ns));
                lemma_run_grows(src, c1, q + ns, o, ns);
                if o.len() <= c2 {
                    assert(step(src, c2, inp, out, state) == Decoded::Next(q + ns, o, ns));
                    lemma_run_exact_capacity(src, c1, c2, q + ns, o, ns);
                }
            }
        },
        _ => {},
    }
}

/// A run never gives less output than it started with.
proof fn lemma_run_grows(src: Seq<u8>, cap: int, inp: int, out: Seq<u8>, state: int)
    requires
        0 <= inp <= src.len(),
    ensures
        run(src, cap, inp, out, state).1.len() >= out.len(),
    decreases src.len() - inp,
{
    lemma_parse_progress(src, inp, state);
    match parse(src, inp, state) {
        Ok(Inst::Literals(q, n)) => {
            if src.len() - q >= n && cap - out.len() >= n {
                lemma_run_grows(src, cap, q + n, out + src.subrange(q, q + n), 4);
            }
        },
        Ok(Inst::Match(q, d, l, ns)) => {
            if d <= out.len() && src.len() - q >= ns && cap - out.len() >= l + ns {
                lemma_copy_match_len(out, d, l as nat);
                let o = super::format::copy_match(out, d, l as nat) + src.subrange(q, q + ns);
                assert(step(src, cap, inp, out, state) == Decoded::Next(q + ns, o, ns));
                lemma_run_grows(src, cap, q + ns, o, ns);
            }
        },
        _ => {},
    }
}

/// Once decompression into `c1` bytes does not run out of space, a buffer
/// of any size that holds its output gives the same outcome, and any
/// smaller buffer gives `OutputOverrun`.
pub proof fn lemma_decompress_exact_capacity(src: Seq<u8>, c1: int, c2: int)
    requires
        0 <= c2,
        spec_decompress(src, c1).0 != Err::<usize, EResult>(EResult::OutputOverrun),
    ensures
        spec_decompress(src, c1).1.len() <= c2 ==> spec_decompress(src, c2) == spec_decompress(src, c1),
        spec_decompress(src, c1).1.len() > c2 ==> spec_decompress(src, c2).0 == Err::<usize, EResult>(
            EResult::OutputOverrun,
        ),
{
    if src.len() >= 3 {
        if src[0] >= 18 {
            let n = src[0] - 17;
            if src.len() - 1 >= n {
                let state = if src[0] >= 22 { 4int } else { n as int };
                let o = src.subrange(1, 1 + n);
                lemma_run_grows(src, c1, 1 + n, o, state);
                if c2 >= n {
                    lemma_run_exact_capacity(src, c1, c2, 1 + n, o, state);
                }
            }
        } else {
            lemma_run_exact_capacity(src, c1, c2, 0, Seq::empty(), 0);
        }
    }
}

/// A run of zero bytes that ends inside `x` is not changed by bytes after `x`.
proof fn lemma_zero_run_extend(x: Seq<u8>, y: Seq<u8>, p: int)
    requires
        0 <= p,
        p + zero_run(x, p) < x.len(),
    ensures
        zero_run(x + y, p) == zero_run(x, p),
    decreases x.len() - p,
{
    assert((x + y)[p] == x[p]);
    if x[p] == 0 {
        lemma_zero_run_extend(x, y, p + 1);
    }
}

/// An extended length field read inside `x` reads the same with bytes after `x`.
proof fn lemma_ext_len_extend(x: Seq<u8>, y: Seq<u8>, p: int, base: int)
    requires
        0 <= p,
        ext_len(x, p, base) is Ok,
    ensures
        ext_len(x + y, p, base) == ext_len(x, p, base),
{
    lemma_zero_run_extend(x, y, p);
    assert((x + y)[p + zero_run(x, p)] == x[p + zero_run(x, p)]);
}

/// An instruction read inside `x` reads the same with bytes after `x`.
proof fn lemma_parse_extend(x: Seq<u8>, y: Seq<u8>, inp: int, state: int)
    requires
        0 <= inp <= x.len(),
        parse(x, inp, state) is Ok,
    ensures
        parse(x + y, inp, state) == parse(x, inp, state),
{
    reveal(parse);
    let xy = x + y;
    let p = inp + 1;
    assert(xy[inp] == x[inp]);
    let inst = x[inp] as int;
    if p < x.len() {
        assert(xy[p] == x[p]);
    }
    if inst < 64 && inst >= 32 && inst % 32 == 0 {
        lemma_ext_len_extend(x, y, p, 33);
    }
    if inst < 32 && inst >= 16 && inst % 8 == 0 {
        lemma_ext_len_extend(x, y, p, 9);
    }
    if inst < 16 && state == 0 && inst == 0 {
        lemma_ext_len_extend(x, y, p, 18);
    }
    if inst >= 16 && inst < 64 {
        let field = if inst >= 32 {
            if inst % 32 == 0 { ext_len(x, p, 33) } else { Ok((p, inst % 32 + 2)) }
        } else {
            if inst % 8 == 0 { ext_len(x, p, 9) } else { Ok((p, inst % 8 + 2)) }
        };
        if let Ok((q, len)) = field {
            if x.len() - q >= 2 {
                assert(xy[q] == x[q] && xy[q + 1] == x[q + 1]);
            }
        }
    }
}

/// A run that ends successfully inside `x` reports the input left over,
/// with the same output, when bytes follow `x`.
proof fn lemma_run_extend(x: Seq<u8>, y: Seq<u8>, cap: int, inp: int, out: Seq<u8>, state: int)
    requires
        0 <= inp <= x.len(),
        y.len() > 0,
        run(x, cap, inp, out, state).0 is Ok,
    ensures
        run(x + y, cap, inp, out, state) == (
            Err::<usize, EResult>(EResult::InputNotConsumed(run(x, cap, inp, out, state).1.len() as usize)),
            run(x, cap, inp, out, state).1,
        ),
    decreases x.len() - inp,
{
    let xy = x + y;
    lemma_parse_progress(x, inp, state);
    if parse(x, inp, state) is Ok {
        lemma_parse_extend(x, y, inp, state);
    }
    match parse(x, inp, state) {
        Ok(Inst::Literals(q, n)) => {
            if x.len() - q >= n && cap - out.len() >= n {
                assert(xy.subrange(q, q + n) =~= x.subrange(q, q + n));
                lemma_run_extend(x, y, cap, q + n, out + x.subrange(q, q + n), 4);
            }
        },
        Ok(Inst::Match(q, d, l, ns)) => {
            if d <= out.len() && x.len() - q >= ns && cap - out.len() >= l + ns {
                assert(xy.subrange(q, q + ns) =~= x.subrange(q, q + ns));
                let o = super::format::copy_match(out, d, l as nat) + x.subrange(q, q + ns);
                assert(step(x, cap, inp, out, state) == Decoded::Next(q + ns, o, ns));
                assert(step(xy, cap, inp, out, state) == Decoded::Next(q + ns, o, ns));
                lemma_run_extend(x, y, cap, q + ns, o, ns);
            }
        },
        _ => {},
    }
}

/// A stream that decompresses successfully, followed by more bytes, gives
/// `InputNotConsumed` with the same size and the same output.
pub proof fn lemma_decompress_trailing(x: Seq<u8>, y: Seq<u8>, cap: int)
    requires
        y.len() > 0,
        spec_decompress(x, cap).0 is Ok,
    ensures
        spec_decompress(x + y, cap) == (
            Err::<usize, EResult>(EResult::InputNotConsumed(spec_decompress(x, cap).0->Ok_0)),
            spec_decompress(x, cap).1,
        ),
{
    let xy = x + y;
    if x[0] >= 18 {
        let n = x[0] - 17;
        let state = if x[0] >= 22 { 4int } else { n as int };
        assert(xy[0] == x[0]);
        assert(xy.subrange(1, 1 + n) =~= x.subrange(1, 1 + n));
        lemma_run_extend(x, y, cap, 1 + n, x.subrange(1, 1 + n), state);
        lemma_run_len_ok(x, cap, 1 + n, x.subrange(1, 1 + n), state);
    } else {
        assert(xy[0] == x[0]);
        lemma_run_extend(x, y, cap, 0, Seq::empty(), 0);
        lemma_run_len_ok(x, cap, 0, Seq::empty(), 0);
    }
}

/// A successful run reports the size of its output.
proof fn lemma_run_len_ok(src: Seq<u8>, cap: int, inp: int, out: Seq<u8>, state: int)
    requires
        0 <= inp <= src.len(),
    ensures
        run(src, cap, inp, out, state).0 matches Ok(n) ==> n == run(src, cap, inp, out, state).1.len() as usize,
    decreases src.len() - inp,
{
    lemma_parse_progress(src, inp, state);
    match parse(src, inp, state) {
        Ok(Inst::Literals(q, n)) => {
            if src.len() - q >= n && cap - out.len() >= n {
                lemma_run_len_ok(src, cap, q + n, out + src.subrange(q, q + n), 4);
            }
        },
        Ok(Inst::Match(q, d, l, ns)) => {
            if d <= out.len() && src.len() - q >= ns && cap - out.len() >= l + ns {
                lemma_copy_match_len(out, d, l as nat);
                let o = super::format::copy_match(out, d, l as nat) + src.subrange(q, q + ns);
                assert(step(src, cap, inp, out, state) == Decoded::Next(q + ns, o, ns));
                lemma_run_len_ok(src, cap, q + ns, o, ns);
            }
        },
        _ => {},
    }
}

} // verus!
