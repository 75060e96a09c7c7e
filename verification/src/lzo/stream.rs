//! The streams the compressor writes: a sequence of tokens, each a literal
//! run followed by a block copy, then a last literal run and the end marker;
//! and the proof that decoding such a stream gives back the input.
use vstd::prelude::*;
use super::dict::{valid_match, MAX_DIST, MAX_MATCH_LEN};
use super::format::{
    copy_match, ext_len, le16, max_255_count, parse, run, spec_decompress, step, zero_run, Decoded, Inst,
};
use super::EResult;
use vstd::arithmetic::div_mod::{lemma_fundamental_div_mod, lemma_fundamental_div_mod_converse, lemma_mod_bound};

verus! {

/// A literal run of `lits` bytes followed by a copy of `len` bytes from
/// `off` bytes back.
pub struct Token {
    pub lits: int,
    pub len: int,
    pub off: int,
}

/// An extended length field worth `l >= 1`: zero bytes worth 255 each, then
/// the remainder.
pub open spec fn zero_len_bytes(l: int) -> Seq<u8>
    decreases l,
{
    if l > 255 {
        seq![0u8] + zero_len_bytes(l - 255)
    } else {
        seq![l as u8]
    }
}

/// Header of a literal run of `n` bytes; `first` when it starts the stream.
/// A run of up to 3 bytes after a block copy has no header: the copy
/// instruction carries its length.
pub open spec fn lit_header(first: bool, n: int) -> Seq<u8> {
    if first && n <= 238 {
        seq![(17 + n) as u8]
    } else if n <= 3 {
        Seq::empty()
    } else if n <= 18 {
        seq![(n - 3) as u8]
    } else {
        seq![0u8] + zero_len_bytes(n - 18)
    }
}

/// Instruction copying `len` bytes from `off` bytes back, after a literal run
/// of `last_lits` bytes, and followed by `s` literal bytes (0 to 3).
pub open spec fn match_bytes(len: int, off: int, last_lits: int, s: int) -> Seq<u8> {
    if len == 2 {
        // M1: 2 bytes within 1kB.
        let o = off - 1;
        seq![(o % 4 * 4 + s) as u8, (o / 4) as u8]
    } else if len <= 8 && off <= 2048 {
        // M2: 3..8 bytes within 2kB.
        let o = off - 1;
        seq![((len - 1) * 32 + o % 8 * 4 + s) as u8, (o / 8) as u8]
    } else if len == 3 && off <= 3072 && last_lits >= 4 {
        // M1 after a literal run: 3 bytes within 2..3kB.
        let o = off - 2049;
        seq![(o % 4 * 4 + s) as u8, (o / 4) as u8]
    } else if off <= 16384 {
        // M3: within 16kB.
        let o = off - 1;
        (if len <= 33 {
            seq![(32 + len - 2) as u8]
        } else {
            seq![32u8] + zero_len_bytes(len - 33)
        }) + seq![(o % 64 * 4 + s) as u8, (o / 64) as u8]
    } else {
        // M4: within 16..48kB.
        let o = off - 16384;
        let h = (o / 16384) % 2 * 8;
        (if len <= 9 {
            seq![(16 + h + len - 2) as u8]
        } else {
            seq![(16 + h) as u8] + zero_len_bytes(len - 9)
        }) + seq![(o % 64 * 4 + s) as u8, (o / 64 % 256) as u8]
    }
}

/// Literals that a copy instruction carries for a following run of `n` bytes.
pub open spec fn sbits(n: int) -> int {
    if n <= 3 {
        n
    } else {
        0
    }
}

/// Decoder state after a literal run of `n` bytes.
pub open spec fn lit_state(n: int) -> int {
    if n <= 3 {
        n
    } else {
        4
    }
}

/// Input position where token `i` starts.
pub open spec fn tok_pos(t: Seq<Token>, i: int) -> int
    decreases i,
{
    if i <= 0 {
        0
    } else {
        tok_pos(t, i - 1) + t[i - 1].lits + t[i - 1].len
    }
}

/// Length of the literal run of token `i`, or of the last run when `i` is the
/// number of tokens.
pub open spec fn run_len(src: Seq<u8>, t: Seq<Token>, i: int) -> int {
    if i < t.len() {
        t[i].lits
    } else {
        src.len() - tok_pos(t, t.len() as int)
    }
}

/// Bytes of the first `k` tokens, the last copy carrying `s` literals.
pub open spec fn enc_tokens(src: Seq<u8>, t: Seq<Token>, k: int, s: int) -> Seq<u8>
    decreases k,
{
    if k <= 0 {
        Seq::empty()
    } else {
        let tk = t[k - 1];
        let p = tok_pos(t, k - 1);
        enc_tokens(src, t, k - 1, sbits(tk.lits)) + lit_header(k == 1, tk.lits) + src.subrange(p, p + tk.lits)
            + match_bytes(tk.len, tk.off, tk.lits, s)
    }
}

/// The whole stream for tokens `t`: the tokens, the last literal run up to
/// the end of `src`, and the end marker.
pub open spec fn stream(src: Seq<u8>, t: Seq<Token>) -> Seq<u8> {
    let n = t.len() as int;
    let p = tok_pos(t, n);
    let rest = src.len() - p;
    enc_tokens(src, t, n, sbits(rest)) + lit_header(n == 0, rest) + src.subrange(p, src.len() as int) + seq![
        17u8,
        0u8,
        0u8,
    ]
}

/// Token `i` is a literal run inside `src` and a block copy the format can
/// express, repeating earlier bytes.
pub open spec fn wf_token(src: Seq<u8>, t: Seq<Token>, i: int) -> bool {
    let tk = t[i];
    let p = tok_pos(t, i) + tk.lits;
    &&& tk.lits >= 0
    &&& i == 0 ==> tk.lits >= 1
    &&& 2 <= tk.len <= MAX_MATCH_LEN
    &&& valid_match(src, p, tk.len, tk.off)
    &&& tk.len == 2 ==> 1 <= tk.lits <= 3 && tk.off <= 1024
}

pub open spec fn wf_tokens(src: Seq<u8>, t: Seq<Token>) -> bool {
    forall|i: int| 0 <= i < t.len() ==> #[trigger] wf_token(src, t, i)
}


pub proof fn lemma_zero_len_bytes_len(l: int)
    requires
        l >= 1,
    ensures
        zero_len_bytes(l).len() == (l - 1) / 255 + 1,
    decreases l,
{
    if l > 255 {
        lemma_zero_len_bytes_len(l - 255);
    }
}

/// An extended length field written by `zero_len_bytes` reads back as written.
pub proof fn lemma_zero_len_bytes_decode(x: Seq<u8>, p: int, l: int, base: int)
    requires
        l >= 1,
        0 <= p,
        p + zero_len_bytes(l).len() <= x.len(),
        x.subrange(p, p + zero_len_bytes(l).len()) == zero_len_bytes(l),
        (l - 1) / 255 <= max_255_count(),
    ensures
        ext_len(x, p, base) == Ok::<(int, int), EResult>((p + zero_len_bytes(l).len(), base + l)),
    decreases l,
{
    lemma_zero_len_bytes_len(l);
    if l > 255 {
        let z = zero_len_bytes(l);
        lemma_zero_len_bytes_len(l - 255);
        assert(x[p] == z[0]);
        assert(x.subrange(p + 1, p + 1 + zero_len_bytes(l - 255).len()) =~= zero_len_bytes(l - 255)) by {
            assert forall|i: int| 0 <= i < zero_len_bytes(l - 255).len() implies x[p + 1 + i] == #[trigger] zero_len_bytes(l - 255)[i] by {
                assert(x[p + 1 + i] == z[1 + i]);
            }
        }
        lemma_zero_len_bytes_decode(x, p + 1, l - 255, base + 255);
        assert(zero_run(x, p) == 1 + zero_run(x, p + 1));
    } else {
        assert(x[p] == zero_len_bytes(l)[0]);
        assert(zero_run(x, p) == 0);
    }
}

/// Copying a valid match reproduces the input.
pub proof fn lemma_copy_valid_match(src: Seq<u8>, p: int, off: int, len: nat)
    requires
        valid_match(src, p, len as int, off),
    ensures
        copy_match(src.take(p), off, len) == src.take(p + len),
    decreases len,
{
    if len > 0 {
        lemma_copy_valid_match(src, p, off, (len - 1) as nat);
        let c = copy_match(src.take(p), off, (len - 1) as nat);
        assert(c == src.take(p + len - 1));
        assert(src[p + (len - 1)] == src[p - off + (len - 1)]);
        assert(c.push(c[c.len() - off]) =~= src.take(p + len));
    }
}


/// Division by `m` of `a * m + b`, for `0 <= b < m`.
pub proof fn lemma_dm(a: int, m: int, b: int)
    requires
        m > 0,
        0 <= b < m,
    ensures
        (a * m + b) / m == a,
        (a * m + b) % m == b,
{
    lemma_fundamental_div_mod_converse(a * m + b, m, a, b);
}

/// `x` split at `m`: `x == (x / m) * m + x % m` with `0 <= x % m < m`.
pub proof fn lemma_split(x: int, m: int)
    requires
        m > 0,
    ensures
        x == (x / m) * m + x % m,
        0 <= x % m < m,
{
    lemma_fundamental_div_mod(x, m);
    lemma_mod_bound(x, m);
    assert(m * (x / m) == (x / m) * m) by (nonlinear_arith);
}

/// The copy instruction written by `match_bytes` reads back as the same copy.
pub proof fn lemma_match_decode(x: Seq<u8>, q: int, len: int, off: int, last: int, s: int)
    requires
        0 <= q,
        q + match_bytes(len, off, last, s).len() <= x.len(),
        x.subrange(q, q + match_bytes(len, off, last, s).len()) == match_bytes(len, off, last, s),
        2 <= len <= MAX_MATCH_LEN,
        1 <= off <= MAX_DIST,
        0 <= s <= 3,
        last >= 0,
        len == 2 ==> 1 <= last <= 3 && off <= 1024,
    ensures
        parse(x, q, lit_state(last)) == Ok::<Inst, EResult>(
            Inst::Match(q + match_bytes(len, off, last, s).len(), off, len, s),
        ),
{
    reveal(parse);
    let mb = match_bytes(len, off, last, s);
    assert(x[q] == mb[0]);
    assert(x[q + 1] == mb[1]);
    if len == 2 {
        let o = off - 1;
        lemma_split(o, 4);
        lemma_dm(o % 4, 4, s);
        assert(o / 4 < 256);
    } else if len <= 8 && off <= 2048 {
        let o = off - 1;
        lemma_split(o, 8);
        lemma_dm((len - 1) * 8 + o % 8, 4, s);
        lemma_dm(len - 1, 8, o % 8);
        lemma_dm(len - 1, 32, o % 8 * 4 + s);
        assert(((len - 1) * 8 + o % 8) * 4 + s == (len - 1) * 32 + o % 8 * 4 + s) by (nonlinear_arith);
        assert(o / 8 < 256);
    } else if len == 3 && off <= 3072 && last >= 4 {
        let o = off - 2049;
        lemma_split(o, 4);
        lemma_dm(o % 4, 4, s);
        assert(o / 4 < 256);
    } else if off <= 16384 {
        let o = off - 1;
        lemma_split(o, 64);
        lemma_dm(o % 64 + 64 * (o / 64), 4, s);
        assert(o / 64 < 256);
        let f = if len <= 33 { seq![(32 + len - 2) as u8] } else { seq![32u8] + zero_len_bytes(len - 33) };
        let q2 = q + f.len();
        if len > 33 {
            lemma_zero_len_bytes_len(len - 33);
            assert(x.subrange(q + 1, q + 1 + zero_len_bytes(len - 33).len()) =~= zero_len_bytes(len - 33)) by {
                assert forall|i: int| 0 <= i < zero_len_bytes(len - 33).len() implies x[q + 1 + i] == #[trigger] zero_len_bytes(len - 33)[i] by {
                    assert(x[q + 1 + i] == mb[1 + i]);
                }
            }
            lemma_zero_len_bytes_decode(x, q + 1, len - 33, 33);
        } else {
            lemma_dm(1, 32, len - 2);
        }
        assert(x[q2] == mb[f.len() as int]);
        assert(x[q2 + 1] == mb[f.len() as int + 1]);
        assert(le16(x, q2) == (o % 64 + 64 * (o / 64)) * 4 + s) by (nonlinear_arith)
            requires
                x[q2] == o % 64 * 4 + s,
                x[q2 + 1] == o / 64,
        ;
    } else {
        let o = off - 16384;
        let hb = o / 16384;
        lemma_split(o, 64);
        lemma_split(o, 16384);
        lemma_split(o / 64, 256);
        assert(hb == 0 || hb == 1);
        assert(o / 64 / 256 == hb) by (nonlinear_arith)
            requires
                o == (o / 64) * 64 + o % 64,
                0 <= o % 64 < 64,
                o / 64 == (o / 64 / 256) * 256 + o / 64 % 256,
                0 <= o / 64 % 256 < 256,
                o == hb * 16384 + o % 16384,
                0 <= o % 16384 < 16384,
        ;
        lemma_dm(hb, 2, 0);
        let h = hb % 2 * 8;
        lemma_dm(o % 64 + 64 * (o / 64 % 256), 4, s);
        let f = if len <= 9 { seq![(16 + h + len - 2) as u8] } else { seq![(16 + h) as u8] + zero_len_bytes(len - 9) };
        let q2 = q + f.len();
        if len > 9 {
            lemma_zero_len_bytes_len(len - 9);
            assert(x.subrange(q + 1, q + 1 + zero_len_bytes(len - 9).len()) =~= zero_len_bytes(len - 9)) by {
                assert forall|i: int| 0 <= i < zero_len_bytes(len - 9).len() implies x[q + 1 + i] == #[trigger] zero_len_bytes(len - 9)[i] by {
                    assert(x[q + 1 + i] == mb[1 + i]);
                }
            }
            lemma_zero_len_bytes_decode(x, q + 1, len - 9, 9);
            lemma_dm(2 + hb, 8, 0);
            lemma_dm(1, 2, hb);
        } else {
            lemma_dm(2 + hb, 8, len - 2);
            lemma_dm(1, 2, hb);
        }
        assert(x[q2] == mb[f.len() as int]);
        assert(x[q2 + 1] == mb[f.len() as int + 1]);
        assert(le16(x, q2) == (o % 64 + 64 * (o / 64 % 256)) * 4 + s) by (nonlinear_arith)
            requires
                x[q2] == o % 64 * 4 + s,
                x[q2 + 1] == o / 64 % 256,
        ;
        assert((o % 64 + 64 * (o / 64 % 256)) + hb * 16384 == o) by (nonlinear_arith)
            requires
                o == (o / 64) * 64 + o % 64,
                o / 64 == hb * 256 + o / 64 % 256,
        ;
    }
}


/// A literal run of 4 or more bytes, with its header, after a copy carrying
/// no literals, reads back as a literal run.
pub proof fn lemma_lit_decode(x: Seq<u8>, q: int, n: int)
    requires
        0 <= q,
        n >= 4,
        q + lit_header(false, n).len() <= x.len(),
        x.subrange(q, q + lit_header(false, n).len()) == lit_header(false, n),
        n > 18 ==> (n - 19) / 255 <= max_255_count(),
    ensures
        parse(x, q, 0) == Ok::<Inst, EResult>(Inst::Literals(q + lit_header(false, n).len(), n)),
{
    reveal(parse);
    let h = lit_header(false, n);
    assert(x[q] == h[0]);
    if n > 18 {
        lemma_zero_len_bytes_len(n - 18);
        assert(x.subrange(q + 1, q + 1 + zero_len_bytes(n - 18).len()) =~= zero_len_bytes(n - 18)) by {
            assert forall|i: int| 0 <= i < zero_len_bytes(n - 18).len() implies x[q + 1 + i] == #[trigger] zero_len_bytes(n - 18)[i] by {
                assert(x[q + 1 + i] == h[1 + i]);
            }
        }
        lemma_zero_len_bytes_decode(x, q + 1, n - 18, 18);
    }
}

/// The end marker reads back as the end of the stream.
pub proof fn lemma_end_decode(x: Seq<u8>, q: int, state: int)
    requires
        0 <= q,
        q + 3 <= x.len(),
        x.subrange(q, q + 3) == seq![17u8, 0u8, 0u8],
    ensures
        parse(x, q, state) == Ok::<Inst, EResult>(Inst::End(q + 3, 3)),
{
    reveal(parse);
    assert(x[q] == 17u8);
    assert(x[q + 1] == 0u8);
    assert(x[q + 2] == 0u8);
}

/// A literal header fits the zero-run limit of the decoder when the stream
/// holding it fits in memory.
pub proof fn lemma_header_fits(n: int, total: int)
    requires
        n >= 19,
        (n - 19) / 255 + 2 + n <= total <= usize::MAX,
    ensures
        (n - 19) / 255 <= max_255_count(),
{
    let z = (n - 19) / 255;
    lemma_split(n - 19, 255);
    lemma_split(usize::MAX as int, 255);
    let m = usize::MAX as int;
    assert(z <= m / 255 - 2) by (nonlinear_arith)
        requires
            n - 19 == z * 255 + (n - 19) % 255,
            0 <= (n - 19) % 255,
            z + 2 + n <= m,
            m == m / 255 * 255 + m % 255,
            m % 255 < 255,
            m >= 0xffff_ffff,
            z >= 0,
    ;
}

pub proof fn lemma_lit_header_len(first: bool, n: int)
    requires
        n >= 0,
    ensures
        lit_header(first, n).len() == if first && n <= 238 {
            1
        } else if n <= 3 {
            0
        } else if n <= 18 {
            1
        } else {
            (n - 19) / 255 + 2
        },
{
    if !(first && n <= 238) && n > 18 {
        lemma_zero_len_bytes_len(n - 18);
    }
}

/// The length of the token bytes does not depend on the literals the last
/// copy carries.
pub proof fn lemma_enc_len(src: Seq<u8>, t: Seq<Token>, k: int, s1: int, s2: int)
    ensures
        enc_tokens(src, t, k, s1).len() == enc_tokens(src, t, k, s2).len(),
{
}

/// What follows the first `k` tokens in the stream.
pub open spec fn stream_tail(src: Seq<u8>, t: Seq<Token>, k: int) -> Seq<u8>
    decreases t.len() - k,
{
    let l = run_len(src, t, k);
    let p = tok_pos(t, k);
    let lits = lit_header(k == 0, l) + src.subrange(p, p + l);
    if 0 <= k < t.len() {
        lits + match_bytes(t[k].len, t[k].off, l, sbits(run_len(src, t, k + 1))) + stream_tail(src, t, k + 1)
    } else {
        lits + seq![17u8, 0u8, 0u8]
    }
}

/// The stream is the first `k` tokens followed by the rest.
pub proof fn lemma_layout(src: Seq<u8>, t: Seq<Token>, k: int)
    requires
        0 <= k <= t.len(),
    ensures
        stream(src, t) == enc_tokens(src, t, k, sbits(run_len(src, t, k))) + stream_tail(src, t, k),
    decreases t.len() - k,
{
    if k < t.len() {
        lemma_layout(src, t, k + 1);
        let l = run_len(src, t, k);
        let p = tok_pos(t, k);
        assert(enc_tokens(src, t, k + 1, sbits(run_len(src, t, k + 1))) == enc_tokens(src, t, k, sbits(l))
            + lit_header(k + 1 == 1, l) + src.subrange(p, p + l) + match_bytes(
            t[k].len,
            t[k].off,
            l,
            sbits(run_len(src, t, k + 1)),
        ));
        assert(stream(src, t) =~= enc_tokens(src, t, k, sbits(run_len(src, t, k))) + stream_tail(src, t, k));
    } else {
        assert(stream(src, t) =~= enc_tokens(src, t, k, sbits(run_len(src, t, k))) + stream_tail(src, t, k));
    }
}


/// Input position of the decoder once it has read the literal run of token
/// `k` (or the last run when `k` is the number of tokens).
pub open spec fn dec_inp(src: Seq<u8>, t: Seq<Token>, k: int) -> int {
    enc_tokens(src, t, k, 0).len() + lit_header(k == 0, run_len(src, t, k)).len() + run_len(src, t, k)
}

/// Output of the decoder at that point.
pub open spec fn dec_out(src: Seq<u8>, t: Seq<Token>, k: int) -> Seq<u8> {
    src.take(tok_pos(t, k) + run_len(src, t, k))
}

/// Where the pieces around the copy instruction of token `k` lie in the stream.
#[verifier::rlimit(90)]
#[verifier::spinoff_prover]
proof fn lemma_token_layout(src: Seq<u8>, t: Seq<Token>, k: int)
    requires
        wf_tokens(src, t),
        0 <= k < t.len(),
        tok_pos(t, t.len() as int) <= src.len(),
    ensures
        ({
            let x = stream(src, t);
            let tk = t[k];
            let l = run_len(src, t, k);
            let l2 = run_len(src, t, k + 1);
            let mb = match_bytes(tk.len, tk.off, l, sbits(l2));
            let q = dec_inp(src, t, k);
            let q2 = q + mb.len();
            let p2 = tok_pos(t, k + 1);
            let hdr2 = lit_header(false, l2);
            &&& q2 == enc_tokens(src, t, k + 1, 0).len()
            &&& 0 <= q
            &&& x.subrange(q, q2) == mb
            &&& q2 + hdr2.len() + l2 <= x.len()
            &&& x.subrange(q2, q2 + hdr2.len()) == hdr2
            &&& x.subrange(q2 + hdr2.len(), q2 + hdr2.len() + l2) == src.subrange(p2, p2 + l2)
            &&& p2 == tok_pos(t, k) + l + tk.len
            &&& 0 <= p2 && p2 + l2 <= src.len()
            &&& dec_inp(src, t, k + 1) == q2 + hdr2.len() + l2
            &&& dec_out(src, t, k) == src.take(tok_pos(t, k) + l)
            &&& dec_out(src, t, k + 1) == src.take(p2 + l2)
        }),
{
    let x = stream(src, t);
    let n = t.len() as int;
    let l = run_len(src, t, k);
    let p = tok_pos(t, k);
    let e = enc_tokens(src, t, k, sbits(l));
    let hdr = lit_header(k == 0, l);
    let lits = src.subrange(p, p + l);
    lemma_tok_pos_mono(src, t, k);
    lemma_tok_pos_mono(src, t, k + 1);
    lemma_layout(src, t, k);
    lemma_enc_len(src, t, k, sbits(l), 0);
    lemma_lit_header_len(k == 0, l);
    let tk = t[k];
    let l2 = run_len(src, t, k + 1);
    let sb = sbits(l2);
    let mb = match_bytes(tk.len, tk.off, l, sb);
    let p2 = tok_pos(t, k + 1);
    let e2 = enc_tokens(src, t, k + 1, sb);
    lemma_enc_len(src, t, k + 1, sb, 0);
    assert(e2 == e + hdr + lits + mb);
    let hdr2 = lit_header(false, l2);
    let lits2 = src.subrange(p2, p2 + l2);
    lemma_lit_header_len(false, l2);
    let rest = if k + 1 < n {
        match_bytes(t[k + 1].len, t[k + 1].off, l2, sbits(run_len(src, t, k + 2))) + stream_tail(src, t, k + 2)
    } else {
        seq![17u8, 0u8, 0u8]
    };
    assert(stream_tail(src, t, k) == hdr + lits + mb + stream_tail(src, t, k + 1));
    assert(stream_tail(src, t, k + 1) == hdr2 + lits2 + rest);
    assert(x =~= e2 + hdr2 + lits2 + rest);
    assert(x.subrange(e.len() + hdr.len() + l, e2.len() as int) =~= mb);
    assert(x.subrange(e2.len() as int, e2.len() + hdr2.len() as int) =~= hdr2);
    assert(x.subrange(e2.len() + hdr2.len() as int, e2.len() + hdr2.len() + l2) =~= lits2);
}

/// The copy instruction of token `k`, and the header of the next literal run
/// when it has one, take the decoder to the state after that run.
proof fn lemma_token_step(src: Seq<u8>, t: Seq<Token>, cap: int, k: int)
    requires
        wf_tokens(src, t),
        0 <= k < t.len(),
        tok_pos(t, t.len() as int) <= src.len(),
        cap >= src.len(),
        stream(src, t).len() <= usize::MAX,
    ensures
        run(stream(src, t), cap, dec_inp(src, t, k), dec_out(src, t, k), lit_state(run_len(src, t, k))) == run(
            stream(src, t),
            cap,
            dec_inp(src, t, k + 1),
            dec_out(src, t, k + 1),
            lit_state(run_len(src, t, k + 1)),
        ),
{
    let x = stream(src, t);
    let tk = t[k];
    let l = run_len(src, t, k);
    let l2 = run_len(src, t, k + 1);
    let sb = sbits(l2);
    let mb = match_bytes(tk.len, tk.off, l, sb);
    let q = dec_inp(src, t, k);
    let q2 = q + mb.len();
    let p = tok_pos(t, k);
    let p2 = tok_pos(t, k + 1);
    let hdr2 = lit_header(false, l2);
    let out = dec_out(src, t, k);
    lemma_token_layout(src, t, k);
    lemma_tok_pos_mono(src, t, k + 1);
    assert(wf_token(src, t, k));
    lemma_lit_header_len(false, l2);
    lemma_match_decode(x, q, tk.len, tk.off, l, sb);
    lemma_copy_valid_match(src, p + l, tk.off, tk.len as nat);
    if l2 <= 3 {
        let o2 = copy_match(out, tk.off, tk.len as nat) + x.subrange(q2, q2 + sb);
        assert(o2 =~= dec_out(src, t, k + 1));
        assert(step(x, cap, q, out, lit_state(l)) == Decoded::Next(q2 + sb, o2, sb));
        assert(run(x, cap, q, out, lit_state(l)) == run(x, cap, q2 + sb, o2, sb));
    } else {
        let o2 = copy_match(out, tk.off, tk.len as nat) + x.subrange(q2, q2);
        assert(o2 =~= src.take(p2));
        assert(step(x, cap, q, out, lit_state(l)) == Decoded::Next(q2, o2, 0));
        if l2 > 18 {
            lemma_header_fits(l2, x.len() as int);
        }
        lemma_lit_decode(x, q2, l2);
        assert(o2 + x.subrange(q2 + hdr2.len(), q2 + hdr2.len() + l2) =~= dec_out(src, t, k + 1));
        assert(step(x, cap, q2, o2, 0) == Decoded::Next(dec_inp(src, t, k + 1), dec_out(src, t, k + 1), 4));
        assert(run(x, cap, q, out, lit_state(l)) == run(x, cap, q2, o2, 0));
        assert(run(x, cap, q2, o2, 0) == run(x, cap, dec_inp(src, t, k + 1), dec_out(src, t, k + 1), 4));
    }
}

/// From the literal run of token `k` on, the decoder reproduces the rest of
/// the input and reaches the end of the stream.
proof fn lemma_run_stream(src: Seq<u8>, t: Seq<Token>, cap: int, k: int)
    requires
        wf_tokens(src, t),
        0 <= k <= t.len(),
        tok_pos(t, t.len() as int) <= src.len(),
        cap >= src.len(),
        stream(src, t).len() <= usize::MAX,
    ensures
        run(stream(src, t), cap, dec_inp(src, t, k), dec_out(src, t, k), lit_state(run_len(src, t, k)))
            == (Ok::<usize, EResult>(src.len() as usize), src),
    decreases t.len() - k,
{
    let x = stream(src, t);
    let n = t.len() as int;
    if k < n {
        lemma_token_step(src, t, cap, k);
        lemma_run_stream(src, t, cap, k + 1);
    } else {
        let l = run_len(src, t, k);
        let p = tok_pos(t, k);
        let e = enc_tokens(src, t, k, sbits(l));
        let hdr = lit_header(k == 0, l);
        let lits = src.subrange(p, p + l);
        let q = dec_inp(src, t, k);
        let out = dec_out(src, t, k);
        lemma_layout(src, t, k);
        lemma_enc_len(src, t, k, sbits(l), 0);
        lemma_tok_pos_mono(src, t, k);
        lemma_lit_header_len(k == 0, l);
        assert(x =~= e + hdr + lits + seq![17u8, 0u8, 0u8]);
        assert(x.subrange(q, q + 3) =~= seq![17u8, 0u8, 0u8]);
        lemma_end_decode(x, q, lit_state(l));
        assert(step(x, cap, q, out, lit_state(l)) == Decoded::End(q + 3, out, 3));
        assert(out =~= src);
    }
}

/// Token positions grow, and each token lies within the input.
pub proof fn lemma_tok_pos_mono(src: Seq<u8>, t: Seq<Token>, k: int)
    requires
        wf_tokens(src, t),
        0 <= k <= t.len(),
        tok_pos(t, t.len() as int) <= src.len(),
    ensures
        0 <= tok_pos(t, k),
        0 <= run_len(src, t, k),
        tok_pos(t, k) + run_len(src, t, k) <= src.len(),
        k < t.len() ==> tok_pos(t, k) + t[k].lits + t[k].len <= src.len(),
    decreases k,
{
    if k > 0 {
        lemma_tok_pos_mono(src, t, k - 1);
        assert(wf_token(src, t, k - 1));
    }
    if k < t.len() {
        assert(wf_token(src, t, k));
    }
}

/// Decoding a stream of well-formed tokens gives back the input, for any
/// non-empty input and any output capacity that holds it.
pub proof fn lemma_stream_roundtrip(src: Seq<u8>, t: Seq<Token>, cap: int)
    requires
        wf_tokens(src, t),
        src.len() >= 1,
        cap >= src.len(),
        stream(src, t).len() <= usize::MAX,
    ensures
        spec_decompress(stream(src, t), cap) == (Ok::<usize, EResult>(src.len() as usize), src),
{
    let x = stream(src, t);
    let n = t.len() as int;
    if n > 0 {
        assert(wf_token(src, t, n - 1));
        assert(tok_pos(t, n) == tok_pos(t, n - 1) + t[n - 1].lits + t[n - 1].len);
    }
    lemma_run_stream(src, t, cap, 0);
    let l = run_len(src, t, 0);
    if n > 0 {
        assert(wf_token(src, t, 0));
    }
    assert(l >= 1);
    lemma_tok_pos_mono(src, t, 0);
    lemma_layout(src, t, 0);
    let hdr = lit_header(true, l);
    lemma_lit_header_len(true, l);
    let rest = if 0 < n {
        match_bytes(t[0].len, t[0].off, l, sbits(run_len(src, t, 1))) + stream_tail(src, t, 1)
    } else {
        seq![17u8, 0u8, 0u8]
    };
    assert(x =~= hdr + src.subrange(0, l) + rest);
    if l <= 238 {
        assert(x[0] == 17 + l);
        assert(x.subrange(1, 1 + l) =~= src.take(l));
    } else {
        assert(x.subrange(0, hdr.len() as int) =~= hdr);
        lemma_header_fits(l, x.len() as int);
        lemma_lit_decode(x, 0, l);
        assert(x.subrange(hdr.len() as int, hdr.len() + l) =~= src.take(l));
        assert(step(x, cap, 0, Seq::empty(), 0) == Decoded::Next(
            dec_inp(src, t, 0),
            dec_out(src, t, 0),
            4,
        ));
    }
}

/// Adding a token leaves the positions of the earlier ones unchanged.
pub proof fn lemma_tok_pos_push(t: Seq<Token>, x: Token, i: int)
    requires
        i <= t.len(),
    ensures
        tok_pos(t.push(x), i) == tok_pos(t, i),
    decreases i,
{
    if i > 0 {
        lemma_tok_pos_push(t, x, i - 1);
        assert(t.push(x)[i - 1] == t[i - 1]);
    }
}

/// Adding a token leaves the bytes of the earlier ones unchanged.
pub proof fn lemma_enc_push(src: Seq<u8>, t: Seq<Token>, x: Token, k: int, s: int)
    requires
        k <= t.len(),
    ensures
        enc_tokens(src, t.push(x), k, s) == enc_tokens(src, t, k, s),
    decreases k,
{
    if k > 0 {
        lemma_enc_push(src, t, x, k - 1, sbits(t[k - 1].lits));
        lemma_tok_pos_push(t, x, k - 1);
        assert(t.push(x)[k - 1] == t[k - 1]);
    }
}

/// A well-formed token added to well-formed tokens keeps them well formed.
pub proof fn lemma_wf_push(src: Seq<u8>, t: Seq<Token>, x: Token)
    requires
        wf_tokens(src, t),
        wf_token(src, t.push(x), t.len() as int),
    ensures
        wf_tokens(src, t.push(x)),
{
    assert forall|i: int| 0 <= i < t.push(x).len() implies #[trigger] wf_token(src, t.push(x), i) by {
        if i < t.len() {
            assert(wf_token(src, t, i));
            lemma_tok_pos_push(t, x, i);
            assert(t.push(x)[i] == t[i]);
        }
    }
}

/// The literals a copy instruction announces only add to the low bits of its
/// second to last byte, which are zero when it announces none.
pub proof fn lemma_match_bytes_lits(len: int, off: int, last: int, s: int)
    requires
        2 <= len,
        1 <= off <= MAX_DIST,
        0 <= s <= 3,
    ensures
        ({
            let m0 = match_bytes(len, off, last, 0);
            let l = m0.len() as int;
            &&& l >= 2
            &&& m0[l - 2] % 4 == 0
            &&& match_bytes(len, off, last, s) == m0.update(l - 2, (m0[l - 2] + s) as u8)
        }),
{
    let m0 = match_bytes(len, off, last, 0);
    let ms = match_bytes(len, off, last, s);
    let l = m0.len() as int;
    if len == 2 {
        let o = off - 1;
        assert(0 <= o % 4 < 4);
        assert(ms =~= m0.update(l - 2, (m0[l - 2] + s) as u8));
    } else if len <= 8 && off <= 2048 {
        let o = off - 1;
        assert(0 <= o % 8 < 8);
        assert(ms =~= m0.update(l - 2, (m0[l - 2] + s) as u8));
    } else if len == 3 && off <= 3072 && last >= 4 {
        let o = off - 2049;
        assert(0 <= o % 4 < 4);
        assert(ms =~= m0.update(l - 2, (m0[l - 2] + s) as u8));
    } else {
        let o = if off <= 16384 { off - 1 } else { off - 16384 };
        assert(0 <= o % 64 < 64);
        assert(ms =~= m0.update(l - 2, (m0[l - 2] + s) as u8));
    }
}

/// The same for the bytes of the first `k` tokens, the last copy announcing
/// `s` literals.
pub proof fn lemma_enc_lits(src: Seq<u8>, t: Seq<Token>, k: int, s: int)
    requires
        1 <= k <= t.len(),
        wf_token(src, t, k - 1),
        0 <= s <= 3,
    ensures
        ({
            let e0 = enc_tokens(src, t, k, 0);
            let l = e0.len() as int;
            &&& l >= 2
            &&& e0[l - 2] % 4 == 0
            &&& enc_tokens(src, t, k, s) == e0.update(l - 2, (e0[l - 2] + s) as u8)
        }),
{
    let tk = t[k - 1];
    lemma_match_bytes_lits(tk.len, tk.off, tk.lits, s);
    let p = tok_pos(t, k - 1);
    let pre = enc_tokens(src, t, k - 1, sbits(tk.lits)) + lit_header(k == 1, tk.lits) + src.subrange(p, p + tk.lits);
    let m0 = match_bytes(tk.len, tk.off, tk.lits, 0);
    let e0 = enc_tokens(src, t, k, 0);
    let l = e0.len() as int;
    assert(e0 == pre + m0);
    assert(e0[l - 2] == m0[m0.len() - 2]);
    assert(enc_tokens(src, t, k, s) =~= e0.update(l - 2, (e0[l - 2] + s) as u8));
}

/// Tokens as the compressor picks them: well formed, and a 3-byte copy
/// after a run of 4 or more literals is one of the 2-byte instructions
/// (within 3kB), so that no copy takes more bytes than it covers.
pub open spec fn economic(src: Seq<u8>, t: Seq<Token>) -> bool {
    &&& wf_tokens(src, t)
    &&& forall|i: int| 0 <= i < t.len() ==> (#[trigger] t[i]).len == 3 && t[i].lits >= 4 ==> t[i].off <= 3072
}

/// Header bytes of a literal run of `n` bytes beyond the first.
pub open spec fn run_extra(n: int) -> int {
    if n >= 19 {
        1 + (n - 19) / 255
    } else {
        0
    }
}

proof fn lemma_div16_add(a: int, b: int)
    requires
        a >= 0,
        b >= 0,
    ensures
        a / 16 + b / 16 <= (a + b) / 16,
{
    lemma_split(a, 16);
    lemma_split(b, 16);
    lemma_split(a + b, 16);
}

proof fn lemma_run_extra(n: int)
    requires
        n >= 0,
    ensures
        0 <= run_extra(n) <= n / 16,
{
    if n >= 19 {
        lemma_split(n - 19, 255);
        lemma_split(n, 16);
    }
}

/// A literal run of `n` bytes and the copy of token `tk` after it take at
/// most `run_extra(n)` bytes more than they cover, one more for the first
/// run of the stream.
proof fn lemma_token_cost(tk: Token, first: bool)
    requires
        tk.lits >= 0,
        2 <= tk.len <= MAX_MATCH_LEN,
        1 <= tk.off <= MAX_DIST,
        tk.len == 2 ==> tk.lits <= 3,
        tk.len == 3 && tk.lits >= 4 ==> tk.off <= 3072,
    ensures
        lit_header(first, tk.lits).len() + tk.lits + match_bytes(tk.len, tk.off, tk.lits, 0).len() <= tk.lits + tk.len
            + run_extra(tk.lits) + if first { 1int } else { 0int },
{
    let n = tk.lits;
    let l = tk.len;
    lemma_lit_header_len(first, n);
    if n >= 19 {
        lemma_split(n - 19, 255);
    }
    if l > 33 {
        lemma_zero_len_bytes_len(l - 33);
        lemma_split(l - 34, 255);
    }
    if l > 9 {
        lemma_zero_len_bytes_len(l - 9);
        lemma_split(l - 10, 255);
    }
}

/// Bytes of the first `k` economic tokens, against the input they cover.
proof fn lemma_enc_bound(src: Seq<u8>, t: Seq<Token>, k: int)
    requires
        economic(src, t),
        0 <= k <= t.len(),
    ensures
        enc_tokens(src, t, k, 0).len() <= tok_pos(t, k) + tok_pos(t, k) / 16 + if k > 0 { 1int } else { 0int },
    decreases k,
{
    if k > 0 {
        let tk = t[k - 1];
        assert(wf_token(src, t, k - 1));
        assert(wf_token(src, t, t.len() - 1));
        lemma_enc_bound(src, t, k - 1);
        lemma_enc_len(src, t, k - 1, 0, sbits(tk.lits));
        lemma_token_cost(tk, k == 1);
        lemma_tok_pos_mono(src, t, k - 1);
        lemma_run_extra(tk.lits);
        lemma_div16_add(tok_pos(t, k - 1), tk.lits);
        lemma_div16_add(tok_pos(t, k - 1) + tk.lits, tk.len);
        let p = tok_pos(t, k - 1);
        assert(src.subrange(p, p + tk.lits).len() == tk.lits);
    }
}

/// The stream of economic tokens is at most 5 bytes plus one in 16 longer
/// than the input.
pub proof fn lemma_stream_len(src: Seq<u8>, t: Seq<Token>)
    requires
        economic(src, t),
    ensures
        stream(src, t).len() <= src.len() + src.len() / 16 + 5,
{
    let k = t.len() as int;
    let p = tok_pos(t, k);
    let rest = src.len() - p;
    lemma_enc_bound(src, t, k);
    lemma_enc_len(src, t, k, 0, sbits(rest));
    if k > 0 {
        assert(wf_token(src, t, k - 1));
    }
    lemma_tok_pos_mono(src, t, k);
    lemma_lit_header_len(k == 0, rest);
    lemma_run_extra(rest);
    if rest >= 19 {
        lemma_split(rest - 19, 255);
    }
    lemma_div16_add(p, rest);
}

/// `p` is a prefix of `t`.
pub open spec fn is_prefix(p: Seq<Token>, t: Seq<Token>) -> bool {
    &&& p.len() <= t.len()
    &&& forall|i: int| 0 <= i < p.len() ==> #[trigger] p[i] == t[i]
}

pub proof fn lemma_tok_pos_prefix(p: Seq<Token>, t: Seq<Token>, i: int)
    requires
        is_prefix(p, t),
        i <= p.len(),
    ensures
        tok_pos(t, i) == tok_pos(p, i),
    decreases i,
{
    if i > 0 {
        lemma_tok_pos_prefix(p, t, i - 1);
        assert(p[i - 1] == t[i - 1]);
    }
}

/// The first tokens of a stream are written as they would be alone.
pub proof fn lemma_enc_prefix(src: Seq<u8>, p: Seq<Token>, t: Seq<Token>, k: int, s: int)
    requires
        is_prefix(p, t),
        k <= p.len(),
    ensures
        enc_tokens(src, t, k, s) == enc_tokens(src, p, k, s),
    decreases k,
{
    if k > 0 {
        assert(p[k - 1] == t[k - 1]);
        lemma_enc_prefix(src, p, t, k - 1, sbits(p[k - 1].lits));
        lemma_tok_pos_prefix(p, t, k - 1);
    }
}

/// A stream is at least as long as the bytes of its first `k` tokens.
pub proof fn lemma_stream_ge(src: Seq<u8>, t: Seq<Token>, k: int)
    requires
        0 <= k <= t.len(),
    ensures
        stream(src, t).len() >= enc_tokens(src, t, k, 0).len(),
{
    lemma_layout(src, t, k);
    lemma_enc_len(src, t, k, 0, sbits(run_len(src, t, k)));
}

} // verus!
