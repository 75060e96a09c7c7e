//! The match finder of the compressor: a circular buffer over the input, hash
//! chains of 3-byte prefixes (`Match3`) and a table of 2-byte prefixes (`Match2`).
//!
//! Positions in the input are tracked as absolute positions in proofs; the
//! buffer holds position `a` at index `idx(a)`, and the first `MAX_MATCH_LEN`
//! indices are repeated after the end so that a match can be read without
//! wrapping.
use vstd::prelude::*;
use vstd::arithmetic::div_mod::{lemma_fundamental_div_mod, lemma_fundamental_div_mod_converse, lemma_mod_bound, lemma_mod_pos_bound};

verus! {

pub const HASH_SIZE: usize = 0x4000;
pub const MAX_DIST: usize = 0xbfff;
pub const MAX_MATCH_LEN: usize = 0x800;
pub const BUF_SIZE: usize = MAX_DIST + MAX_MATCH_LEN;
/// Size of the tables of best match positions indexed by match length.
pub const MAX_MATCH_BY_LENGTH_LEN: usize = 34;

/// The input byte at absolute position `a`, zero past the end.
pub open spec fn ext(src: Seq<u8>, a: int) -> u8 {
    if 0 <= a < src.len() {
        src[a]
    } else {
        0
    }
}

/// Buffer index of absolute position `a`.
pub open spec fn idx(a: int) -> int {
    a % (BUF_SIZE as int)
}

/// The latest absolute position before `hi` held at buffer index `i`.
pub open spec fn recent(i: int, hi: int) -> int {
    hi - 1 - (hi - 1 - i) % (BUF_SIZE as int)
}

/// Hash of a 3-byte prefix.
pub open spec fn hash3(b0: u8, b1: u8, b2: u8) -> usize {
    ((((b0 as usize) << 5usize) ^ (b1 as usize)).wrapping_shl(5) ^ (b2 as usize)).wrapping_mul(0x9F5F).wrapping_shr(
        5,
    ) & 0x3FFF
}

/// Hash key of the 3-byte prefix at absolute position `a`.
pub open spec fn key3(src: Seq<u8>, a: int) -> int {
    hash3(ext(src, a), ext(src, a + 1), ext(src, a + 2)) as int
}

pub proof fn lemma_hash3_bound(b0: u8, b1: u8, b2: u8)
    ensures
        hash3(b0, b1, b2) < HASH_SIZE,
{
    let x = ((((b0 as usize) << 5usize) ^ (b1 as usize)).wrapping_shl(5) ^ (b2 as usize)).wrapping_mul(0x9F5F).wrapping_shr(5);
    assert(x & 0x3FFF < 0x4000) by (bit_vector);
}

/// Key of the 2-byte prefix at absolute position `a`.
pub open spec fn key2(src: Seq<u8>, a: int) -> int {
    ext(src, a) + 256 * ext(src, a + 1)
}

/// Moving `k` positions forward from `a` moves the buffer index by `k`,
/// wrapping once at `BUF_SIZE`.
pub proof fn lemma_idx_add(a: int, k: int)
    requires
        0 <= a,
        0 <= k,
        idx(a) + k < 2 * BUF_SIZE,
    ensures
        0 <= idx(a) < BUF_SIZE,
        idx(a) <= a,
        idx(a + k) == if idx(a) + k < BUF_SIZE { idx(a) + k } else { idx(a) + k - BUF_SIZE },
{
    let b = BUF_SIZE as int;
    lemma_mod_pos_bound(a, b);
    lemma_fundamental_div_mod(a, b);
    let q = a / b;
    assert(q >= 0) by (nonlinear_arith)
        requires
            a == b * q + a % b,
            0 <= a,
            0 <= a % b < b,
            b > 0,
    ;
    assert(b * q >= 0) by (nonlinear_arith)
        requires
            q >= 0,
            b > 0,
    ;
    if idx(a) + k < b {
        lemma_fundamental_div_mod_converse(a + k, b, q, idx(a) + k);
    } else {
        assert(a + k == (q + 1) * b + (idx(a) + k - b)) by (nonlinear_arith)
            requires
                a == b * q + idx(a),
        ;
        lemma_fundamental_div_mod_converse(a + k, b, q + 1, idx(a) + k - b);
    }
}

/// Positions less than `BUF_SIZE` apart have different buffer indices.
pub proof fn lemma_idx_distinct(a: int, c: int)
    requires
        0 <= a < c < a + BUF_SIZE,
    ensures
        idx(a) != idx(c),
{
    lemma_mod_pos_bound(a, BUF_SIZE as int);
    lemma_idx_add(a, c - a);
}

/// `recent` inverts `idx` over the last `BUF_SIZE` positions.
pub proof fn lemma_recent(p: int, t: int)
    requires
        0 <= p < BUF_SIZE,
    ensures
        t - BUF_SIZE <= recent(p, t) < t,
        recent(p, t) >= 0 ==> idx(recent(p, t)) == p,
{
    let b = BUF_SIZE as int;
    lemma_mod_bound(t - 1 - p, b);
    lemma_fundamental_div_mod(t - 1 - p, b);
    let q = (t - 1 - p) / b;
    let r = (t - 1 - p) % b;
    if recent(p, t) >= 0 {
        assert(recent(p, t) == q * b + p) by (nonlinear_arith)
            requires
                t - 1 - p == b * q + r,
                recent(p, t) == t - 1 - r,
        ;
        lemma_fundamental_div_mod_converse(recent(p, t), b, q, p);
    }
}

/// An absolute position among the last `BUF_SIZE` is the most recent one at its index.
pub proof fn lemma_recent_idx(a: int, t: int)
    requires
        0 <= a < t <= a + BUF_SIZE,
    ensures
        recent(idx(a), t) == a,
{
    let b = BUF_SIZE as int;
    lemma_mod_pos_bound(a, b);
    lemma_fundamental_div_mod(a, b);
    let q = a / b;
    assert(t - 1 - idx(a) == q * b + (t - 1 - a)) by (nonlinear_arith)
        requires
            a == b * q + idx(a),
    ;
    lemma_fundamental_div_mod_converse(t - 1 - idx(a), b, q, t - 1 - a);
}

/// The distance back from `t` to the most recent position at index `p`, as
/// computed from buffer indices.
pub proof fn lemma_pos2off(p: int, t: int)
    requires
        0 <= p < BUF_SIZE,
        0 <= t,
    ensures
        (if idx(t) > p { idx(t) - p } else { BUF_SIZE - (p - idx(t)) }) == t - recent(p, t),
{
    let b = BUF_SIZE as int;
    let wb = idx(t);
    lemma_mod_pos_bound(t, b);
    lemma_fundamental_div_mod(t, b);
    let q = t / b;
    if wb > p {
        assert(t - 1 - p == q * b + (wb - 1 - p)) by (nonlinear_arith)
            requires
                t == b * q + wb,
        ;
        lemma_fundamental_div_mod_converse(t - 1 - p, b, q, wb - 1 - p);
    } else {
        assert(t - 1 - p == (q - 1) * b + (wb - 1 - p + b)) by (nonlinear_arith)
            requires
                t == b * q + wb,
        ;
        lemma_fundamental_div_mod_converse(t - 1 - p, b, q - 1, wb - 1 - p + b);
    }
}

/// End (exclusive) of the absolute positions whose bytes the buffer holds,
/// when the window starts at `cur` and its initial size was `w0`.
pub open spec fn buf_hi(cur: int, w0: int) -> int {
    if w0 < 3 && cur < 3 {
        w0 + 3
    } else {
        cur + w0
    }
}

/// Start of the absolute positions whose bytes the buffer holds.
pub open spec fn buf_lo(cur: int, w0: int) -> int {
    if buf_hi(cur, w0) > BUF_SIZE {
        buf_hi(cur, w0) - BUF_SIZE
    } else {
        0
    }
}

/// The buffer holds the (zero-extended) input at absolute positions
/// `lo..hi`, at their index and, for the first indices, repeated after the end.
pub open spec fn buffer_holds(buf: Seq<u8>, src: Seq<u8>, lo: int, hi: int) -> bool {
    &&& buf.len() == BUF_SIZE + MAX_MATCH_LEN
    &&& forall|a: int| lo <= a < hi ==> buf[#[trigger] idx(a)] == ext(src, a)
    &&& forall|a: int|
        lo <= a < hi && a >= BUF_SIZE && #[trigger] idx(a) < MAX_MATCH_LEN ==> buf[BUF_SIZE + idx(a)] == ext(src, a)
}

/// Reading the buffer forward from the index of `a0` gives the input from `a0` on.
pub proof fn lemma_read(buf: Seq<u8>, src: Seq<u8>, lo: int, hi: int, a0: int, j: int)
    requires
        buffer_holds(buf, src, lo, hi),
        0 <= lo <= a0,
        0 <= j,
        a0 + j < hi,
        idx(a0) + j < BUF_SIZE + MAX_MATCH_LEN,
    ensures
        buf[idx(a0) + j] == ext(src, a0 + j),
{
    lemma_idx_add(a0, j);
    if idx(a0) + j < BUF_SIZE {
        assert(buf[idx(a0 + j)] == ext(src, a0 + j));
    } else {
        assert(idx(a0 + j) < MAX_MATCH_LEN);
    }
}

/// Writing the byte of absolute position `p` keeps the buffer holding the input.
pub proof fn lemma_buffer_write(
    buf: Seq<u8>,
    buf2: Seq<u8>,
    src: Seq<u8>,
    lo: int,
    hi: int,
    lo2: int,
    hi2: int,
    p: int,
)
    requires
        buffer_holds(buf, src, lo, hi),
        0 <= lo <= lo2 <= p < hi2,
        hi2 <= hi + 1,
        hi2 == hi + 1 ==> p == hi,
        hi2 - lo2 <= BUF_SIZE,
        buf2 == if idx(p) < MAX_MATCH_LEN {
            buf.update(idx(p), ext(src, p)).update(BUF_SIZE + idx(p), ext(src, p))
        } else {
            buf.update(idx(p), ext(src, p))
        },
    ensures
        buffer_holds(buf2, src, lo2, hi2),
{
    lemma_idx_add(p, 0);
    assert forall|a: int| lo2 <= a < hi2 implies buf2[#[trigger] idx(a)] == ext(src, a) by {
        lemma_idx_add(a, 0);
        if a != p {
            if a < p {
                lemma_idx_distinct(a, p);
            } else {
                lemma_idx_distinct(p, a);
            }
        }
    }
    assert forall|a: int|
        lo2 <= a < hi2 && a >= BUF_SIZE && #[trigger] idx(a) < MAX_MATCH_LEN implies buf2[BUF_SIZE + idx(a)] == ext(src, a) by {
        lemma_idx_add(a, 0);
        if a != p {
            if a < p {
                lemma_idx_distinct(a, p);
            } else {
                lemma_idx_distinct(p, a);
            }
        }
    }
}

/// Number of positions in `lo..hi` whose 3-byte prefix has key `k`.
pub open spec fn count3(src: Seq<u8>, lo: int, hi: int, k: int) -> nat
    decreases hi - lo,
{
    if hi <= lo {
        0
    } else {
        count3(src, lo, hi - 1, k) + if key3(src, hi - 1) == k { 1nat } else { 0nat }
    }
}

/// The last position before `hi` whose 3-byte prefix has key `k`, or -1.
pub open spec fn last3(src: Seq<u8>, hi: int, k: int) -> int
    decreases hi,
{
    if hi <= 0 {
        -1
    } else if key3(src, hi - 1) == k {
        hi - 1
    } else {
        last3(src, hi - 1, k)
    }
}

/// The chains of `m3` link the positions `lo..hi` of each key, latest first.
pub open spec fn chains_hold(m3: Match3, src: Seq<u8>, lo: int, hi: int) -> bool {
    &&& m3.wf()
    &&& forall|k: int| 0 <= k < HASH_SIZE ==> #[trigger] m3.chain_sz@[k] == count3(src, lo, hi, k)
    &&& forall|k: int|
        0 <= k < HASH_SIZE && count3(src, lo, hi, k) > 0 ==> #[trigger] m3.head@[k] == idx(last3(src, hi, k))
    &&& forall|a: int|
        lo <= a < hi && last3(src, a, key3(src, a)) >= lo ==> #[trigger] m3.chain@[idx(a)] == idx(
            last3(src, a, key3(src, a)),
        )
}

/// The last position before `hi` whose 2-byte prefix has key `k`, or -1.
pub open spec fn last2(src: Seq<u8>, hi: int, k: int) -> int
    decreases hi,
{
    if hi <= 0 {
        -1
    } else if key2(src, hi - 1) == k {
        hi - 1
    } else {
        last2(src, hi - 1, k)
    }
}

pub proof fn lemma_last2(src: Seq<u8>, hi: int, k: int)
    requires
        0 <= hi,
    ensures
        -1 <= last2(src, hi, k) < hi,
        last2(src, hi, k) >= 0 ==> key2(src, last2(src, hi, k)) == k,
        forall|a: int| last2(src, hi, k) < a < hi ==> key2(src, a) != k,
    decreases hi,
{
    if hi > 0 {
        lemma_last2(src, hi - 1, k);
    }
}

/// Each entry of `m2` is the buffer index of the latest position in `lo..hi`
/// with that 2-byte prefix, or `u16::MAX` when there is none.
pub open spec fn heads2_hold(m2: Match2, src: Seq<u8>, lo: int, hi: int) -> bool {
    &&& m2.wf()
    &&& forall|k: int|
        0 <= k < 0x10000 && #[trigger] m2.head@[k] != u16::MAX ==> {
            &&& m2.head@[k] < BUF_SIZE
            &&& lo <= recent(m2.head@[k] as int, hi)
            &&& key2(src, recent(m2.head@[k] as int, hi)) == k
        }
    &&& forall|k: int|
        0 <= k < 0x10000 ==> if last2(src, hi, k) >= lo {
            #[trigger] m2.head@[k] == idx(last2(src, hi, k))
        } else {
            m2.head@[k] == u16::MAX
        }
}

pub proof fn lemma_count3_bound(src: Seq<u8>, lo: int, hi: int, k: int)
    ensures
        count3(src, lo, hi, k) <= if hi > lo { hi - lo } else { 0 },
    decreases hi - lo,
{
    if hi > lo {
        lemma_count3_bound(src, lo, hi - 1, k);
    }
}

pub proof fn lemma_last3(src: Seq<u8>, lo: int, hi: int, k: int)
    requires
        0 <= lo <= hi,
    ensures
        -1 <= last3(src, hi, k) < hi,
        last3(src, hi, k) >= 0 ==> key3(src, last3(src, hi, k)) == k,
        (count3(src, lo, hi, k) > 0) == (last3(src, hi, k) >= lo),
        last3(src, hi, k) >= lo ==> count3(src, lo, hi, k) == count3(src, lo, last3(src, hi, k), k) + 1,
    decreases hi - lo,
{
    if hi > lo {
        lemma_last3(src, lo, hi - 1, k);
    } else {
        lemma_last3_below(src, hi, k);
    }
}

proof fn lemma_last3_below(src: Seq<u8>, hi: int, k: int)
    requires
        0 <= hi,
    ensures
        -1 <= last3(src, hi, k) < hi,
        last3(src, hi, k) >= 0 ==> key3(src, last3(src, hi, k)) == k,
    decreases hi,
{
    if hi > 0 {
        lemma_last3_below(src, hi - 1, k);
    }
}

/// Counting from `lo + 1` leaves out the position `lo`.
pub proof fn lemma_count3_drop(src: Seq<u8>, lo: int, hi: int, k: int)
    requires
        lo < hi,
    ensures
        count3(src, lo, hi, k) == count3(src, lo + 1, hi, k) + if key3(src, lo) == k { 1nat } else { 0nat },
    decreases hi - lo,
{
    if hi > lo + 1 {
        lemma_count3_drop(src, lo, hi - 1, k);
    } else {
        assert(count3(src, lo, lo, k) == 0);
        assert(count3(src, lo + 1, hi, k) == 0);
    }
}

/// Adding position `t` to its chain.
pub proof fn lemma_chains_insert(m3: Match3, m3b: Match3, src: Seq<u8>, lo: int, t: int)
    requires
        chains_hold(m3, src, lo, t),
        0 <= lo <= t < lo + BUF_SIZE,
        0 <= key3(src, t) < HASH_SIZE,
        m3b.wf(),
        ({
            let k = key3(src, t);
            let h = if m3.chain_sz@[k] == 0 { u16::MAX } else { m3.head@[k] };
            &&& m3b.chain@ == m3.chain@.update(idx(t), h)
            &&& m3b.chain_sz@ == m3.chain_sz@.update(k, (m3.chain_sz@[k] + 1) as u16)
            &&& m3b.head@ == m3.head@.update(k, idx(t) as u16)
        }),
        m3.chain_sz@[key3(src, t)] < u16::MAX,
    ensures
        chains_hold(m3b, src, lo, t + 1),
{
    let k = key3(src, t);
    lemma_idx_add(t, 0);
    assert forall|k2: int| 0 <= k2 < HASH_SIZE implies #[trigger] m3b.chain_sz@[k2] == count3(src, lo, t + 1, k2) by {
        assert(count3(src, lo, t + 1, k2) == count3(src, lo, t, k2) + if key3(src, t) == k2 { 1nat } else { 0nat });
    }
    assert forall|k2: int| 0 <= k2 < HASH_SIZE && count3(src, lo, t + 1, k2) > 0 implies #[trigger] m3b.head@[k2] == idx(
        last3(src, t + 1, k2),
    ) by {
        assert(count3(src, lo, t + 1, k2) == count3(src, lo, t, k2) + if key3(src, t) == k2 { 1nat } else { 0nat });
    }
    assert forall|a: int| lo <= a < t + 1 && last3(src, a, key3(src, a)) >= lo implies #[trigger] m3b.chain@[idx(a)] == idx(
        last3(src, a, key3(src, a)),
    ) by {
        if a == t {
            lemma_last3(src, lo, t, k);
        } else {
            lemma_idx_distinct(a, t);
        }
    }
}

/// Dropping the oldest position `lo` from its chain.
pub proof fn lemma_chains_remove(m3: Match3, m3b: Match3, src: Seq<u8>, lo: int, hi: int)
    requires
        chains_hold(m3, src, lo, hi),
        0 <= lo < hi,
        0 <= key3(src, lo) < HASH_SIZE,
        m3b.wf(),
        m3b.chain == m3.chain,
        m3b.head == m3.head,
        m3b.chain_sz@ == m3.chain_sz@.update(key3(src, lo), (m3.chain_sz@[key3(src, lo)] - 1) as u16),
    ensures
        m3.chain_sz@[key3(src, lo)] > 0,
        chains_hold(m3b, src, lo + 1, hi),
{
    lemma_count3_drop(src, lo, hi, key3(src, lo));
    assert forall|k2: int| 0 <= k2 < HASH_SIZE implies #[trigger] m3b.chain_sz@[k2] == count3(src, lo + 1, hi, k2) by {
        lemma_count3_drop(src, lo, hi, k2);
    }
    assert forall|k2: int| 0 <= k2 < HASH_SIZE && count3(src, lo + 1, hi, k2) > 0 implies #[trigger] m3b.head@[k2] == idx(
        last3(src, hi, k2),
    ) by {
        lemma_count3_drop(src, lo, hi, k2);
    }
}

/// Recording position `t` as the latest of its 2-byte prefix.
pub proof fn lemma_heads2_insert(m2: Match2, m2b: Match2, src: Seq<u8>, lo: int, t: int)
    requires
        heads2_hold(m2, src, lo, t),
        0 <= lo <= t,
        t - lo < BUF_SIZE,
        0 <= key2(src, t) < 0x10000,
        m2b.wf(),
        m2b.head@ == m2.head@.update(key2(src, t), idx(t) as u16),
    ensures
        heads2_hold(m2b, src, lo, t + 1),
{
    lemma_idx_add(t, 0);
    lemma_recent_idx(t, t + 1);
    assert forall|k: int| 0 <= k < 0x10000 && #[trigger] m2b.head@[k] != u16::MAX implies {
        &&& m2b.head@[k] < BUF_SIZE
        &&& lo <= recent(m2b.head@[k] as int, t + 1)
        &&& key2(src, recent(m2b.head@[k] as int, t + 1)) == k
    } by {
        if k != key2(src, t) {
            let p = m2.head@[k] as int;
            let a = recent(p, t);
            lemma_recent(p, t);
            lemma_recent_idx(a, t + 1);
        }
    }
    assert forall|k: int| 0 <= k < 0x10000 implies if last2(src, t + 1, k) >= lo {
        #[trigger] m2b.head@[k] == idx(last2(src, t + 1, k))
    } else {
        m2b.head@[k] == u16::MAX
    } by {
        if k != key2(src, t) {
            assert(m2b.head@[k] == m2.head@[k]);
            assert(last2(src, t + 1, k) == last2(src, t, k));
        }
    }
}

/// Forgetting the oldest position `lo`.
pub proof fn lemma_heads2_remove(m2: Match2, m2b: Match2, src: Seq<u8>, lo: int, hi: int)
    requires
        heads2_hold(m2, src, lo, hi),
        0 <= lo < hi,
        hi - lo <= BUF_SIZE,
        0 <= key2(src, lo) < 0x10000,
        m2b.wf(),
        m2b.head@ == if m2.head@[key2(src, lo)] == idx(lo) as u16 {
            m2.head@.update(key2(src, lo), u16::MAX)
        } else {
            m2.head@
        },
    ensures
        heads2_hold(m2b, src, lo + 1, hi),
{
    lemma_idx_add(lo, 0);
    assert forall|k: int| 0 <= k < 0x10000 && #[trigger] m2b.head@[k] != u16::MAX implies {
        &&& m2b.head@[k] < BUF_SIZE
        &&& lo + 1 <= recent(m2b.head@[k] as int, hi)
        &&& key2(src, recent(m2b.head@[k] as int, hi)) == k
    } by {
        let p = m2.head@[k] as int;
        lemma_recent(p, hi);
    }
    let k0 = key2(src, lo);
    assert forall|k: int| 0 <= k < 0x10000 implies if last2(src, hi, k) >= lo + 1 {
        #[trigger] m2b.head@[k] == idx(last2(src, hi, k))
    } else {
        m2b.head@[k] == u16::MAX
    } by {
        lemma_last2(src, hi, k);
        assert(if last2(src, hi, k) >= lo { m2.head@[k] == idx(last2(src, hi, k)) } else { m2.head@[k] == u16::MAX });
        if k == k0 {
            if last2(src, hi, k) > lo {
                lemma_idx_distinct(lo, last2(src, hi, k));
            }
        } else {
            assert(m2b.head@[k] == m2.head@[k]);
        }
    }
}

/// Steps left before buffer entries start being reused, when the window
/// starts at absolute position `cur`.
pub open spec fn countdown(cur: int) -> int {
    if cur <= MAX_DIST {
        MAX_DIST - cur
    } else {
        0
    }
}

/// Oldest absolute position still in the hash chains when the window starts at `cur`.
pub open spec fn lo3(cur: int) -> int {
    if cur <= MAX_DIST {
        0
    } else {
        cur - MAX_DIST
    }
}

/// `len` bytes at `t` repeat the bytes `off` positions earlier, within reach.
pub open spec fn valid_match(src: Seq<u8>, t: int, len: int, off: int) -> bool {
    &&& 1 <= off <= t
    &&& off <= MAX_DIST
    &&& t + len <= src.len()
    &&& forall|j: int| 0 <= j < len ==> #[trigger] src[t + j] == src[t - off + j]
}

/// Buffer index `p` holds a position from which `len` bytes match those at `t`.
pub open spec fn valid_pos(src: Seq<u8>, t: int, p: int, len: int) -> bool {
    &&& 0 <= p < BUF_SIZE
    &&& 0 <= recent(p, t)
    &&& valid_match(src, t, len, t - recent(p, t))
}

/// What `Dict::advance` finds at position `t`: nothing (length 1), or a match
/// of 2 to `MAX_MATCH_LEN` bytes; with a match, `best_off[l]` is zero or the
/// distance of a match of length `l`.
pub open spec fn found_match(src: Seq<u8>, t: int, len: int, off: int, best_off: Seq<usize>) -> bool {
    ||| len == 1
    ||| {
        &&& 2 <= len <= MAX_MATCH_LEN
        &&& valid_match(src, t, len, off)
        &&& forall|l: int|
            2 <= l < MAX_MATCH_BY_LENGTH_LEN && #[trigger] best_off[l] != 0 ==> valid_match(src, t, l, best_off[l] as int)
    }
}

/// Length of the common prefix of `a` and `b` from index `i` on, plus `i`.
pub open spec fn common_len(a: Seq<u8>, b: Seq<u8>, i: int) -> int
    decreases a.len() - i,
{
    if 0 <= i < a.len() && i < b.len() && a[i] == b[i] {
        common_len(a, b, i + 1)
    } else {
        i
    }
}

/// A length up to which `a` and `b` agree from `i` on, and at which they
/// differ or one of them ends, is their common prefix length.
pub proof fn lemma_common_len(a: Seq<u8>, b: Seq<u8>, i: int, r: int)
    requires
        0 <= i <= r <= a.len(),
        r <= b.len(),
        forall|j: int| i <= j < r ==> a[j] == b[j],
        r < a.len() && r < b.len() ==> a[r] != b[r],
    ensures
        common_len(a, b, i) == r,
    decreases r - i,
{
    if i < r {
        lemma_common_len(a, b, i + 1, r);
    }
}

/// What the search of a hash chain finds: from buffer index `pos`, for
/// `count` chain positions, the window of `wsz` bytes at `wb` is compared
/// with the bytes at each position. A match of 2 bytes or more records its
/// position (plus one) in `best_pos` for its length when none is there yet,
/// and a match longer than `lb_len` becomes the best one, ending the search
/// when it covers the window or is longer than the longest match once found
/// at that position (`best_len`). Gives the best length and position, and
/// `best_pos`.
pub open spec fn chain_walk(
    buf: Seq<u8>,
    chain: Seq<u16>,
    best_len: Seq<u16>,
    wb: int,
    wsz: int,
    pos: int,
    count: int,
    lb_len: int,
    lb_pos: int,
    best_pos: Seq<usize>,
) -> (int, int, Seq<usize>)
    decreases count,
{
    if count <= 0 {
        (lb_len, lb_pos, best_pos)
    } else {
        let ml = common_len(buf.subrange(wb, wb + wsz), buf.subrange(pos, buf.len() as int), 0);
        let next = chain[pos] as int;
        if ml < 2 {
            chain_walk(buf, chain, best_len, wb, wsz, next, count - 1, lb_len, lb_pos, best_pos)
        } else {
            let bp = if ml < MAX_MATCH_BY_LENGTH_LEN && best_pos[ml] == 0 {
                best_pos.update(ml, (pos + 1) as usize)
            } else {
                best_pos
            };
            if ml > lb_len {
                if ml == wsz || ml > best_len[pos] {
                    (ml, pos, bp)
                } else {
                    chain_walk(buf, chain, best_len, wb, wsz, next, count - 1, ml, pos, bp)
                }
            } else {
                chain_walk(buf, chain, best_len, wb, wsz, next, count - 1, lb_len, lb_pos, bp)
            }
        }
    }
}

/// Sequences that agree on their first `l` bytes share a prefix of at
/// least `l` bytes.
pub proof fn lemma_common_len_ge(a: Seq<u8>, b: Seq<u8>, i: int, l: int)
    requires
        0 <= i <= l <= a.len(),
        l <= b.len(),
        forall|j: int| i <= j < l ==> a[j] == b[j],
    ensures
        common_len(a, b, i) >= l,
    decreases l - i,
{
    if i < l {
        lemma_common_len_ge(a, b, i + 1, l);
    } else {
        lemma_common_len_min(a, b, i);
    }
}

proof fn lemma_common_len_min(a: Seq<u8>, b: Seq<u8>, i: int)
    ensures
        common_len(a, b, i) >= i,
    decreases a.len() - i,
{
    if 0 <= i < a.len() && i < b.len() && a[i] == b[i] {
        lemma_common_len_min(a, b, i + 1);
    }
}

proof fn lemma_agree_at(src: Seq<u8>, t: int, a: int, l: int, j: int)
    requires
        agree(src, t, a, l),
        0 <= j < l,
    ensures
        src[a + j] == src[t + j],
{
}

/// The chain search never shortens the best match.
pub proof fn lemma_walk_mono(
    buf: Seq<u8>,
    chain: Seq<u16>,
    best_len: Seq<u16>,
    wb: int,
    wsz: int,
    pos: int,
    count: int,
    lb_len: int,
    lb_pos: int,
    best_pos: Seq<usize>,
)
    ensures
        chain_walk(buf, chain, best_len, wb, wsz, pos, count, lb_len, lb_pos, best_pos).0 >= lb_len,
    decreases count,
{
    if count > 0 {
        let ml = common_len(buf.subrange(wb, wb + wsz), buf.subrange(pos, buf.len() as int), 0);
        let next = chain[pos] as int;
        let bp = if ml < MAX_MATCH_BY_LENGTH_LEN && best_pos[ml] == 0 {
            best_pos.update(ml, (pos + 1) as usize)
        } else {
            best_pos
        };
        lemma_walk_mono(buf, chain, best_len, wb, wsz, next, count - 1, lb_len, lb_pos, best_pos);
        lemma_walk_mono(buf, chain, best_len, wb, wsz, next, count - 1, lb_len, lb_pos, bp);
        lemma_walk_mono(buf, chain, best_len, wb, wsz, next, count - 1, ml, pos, bp);
    }
}

/// The chain search finds a match at least as long as the one at the first
/// position of the chain.
pub proof fn lemma_walk_first(
    buf: Seq<u8>,
    chain: Seq<u16>,
    best_len: Seq<u16>,
    wb: int,
    wsz: int,
    pos: int,
    count: int,
    lb_len: int,
    lb_pos: int,
    best_pos: Seq<usize>,
    l: int,
)
    requires
        count >= 1,
        2 <= l <= common_len(buf.subrange(wb, wb + wsz), buf.subrange(pos, buf.len() as int), 0),
    ensures
        chain_walk(buf, chain, best_len, wb, wsz, pos, count, lb_len, lb_pos, best_pos).0 >= l,
{
    let ml = common_len(buf.subrange(wb, wb + wsz), buf.subrange(pos, buf.len() as int), 0);
    let next = chain[pos] as int;
    let bp = if ml < MAX_MATCH_BY_LENGTH_LEN && best_pos[ml] == 0 {
        best_pos.update(ml, (pos + 1) as usize)
    } else {
        best_pos
    };
    lemma_walk_mono(buf, chain, best_len, wb, wsz, next, count - 1, lb_len, lb_pos, bp);
    lemma_walk_mono(buf, chain, best_len, wb, wsz, next, count - 1, ml, pos, bp);
}

/// The `l` bytes at position `a` of `src` repeat those at `t`.
pub open spec fn agree(src: Seq<u8>, t: int, a: int, l: int) -> bool {
    forall|j: int| 0 <= j < l ==> #[trigger] src[a + j] == src[t + j]
}

/// Length of the common prefix of `a` and `b`.
pub fn mismatch(a: &[u8], b: &[u8]) -> (r: usize)
    ensures
        r <= a@.len(),
        r <= b@.len(),
        forall|i: int| 0 <= i < r ==> a@[i] == b@[i],
        r < a@.len() && r < b@.len() ==> a@[r as int] != b@[r as int],
{
    let min_len = if a.len() < b.len() { a.len() } else { b.len() };
    let mut i: usize = 0;
    while i < min_len
        invariant
            min_len <= a@.len(),
            min_len <= b@.len(),
            min_len == a@.len() || min_len == b@.len(),
            i <= min_len,
            forall|j: int| 0 <= j < i ==> a@[j] == b@[j],
        decreases min_len - i,
    {
        if a[i] != b[i] {
            return i;
        }
        i += 1;
    }
    min_len
}

/// Hash chains of 3-byte prefixes.
pub struct Match3 {
    /// Latest position of each key.
    pub head: Vec<u16>,
    /// Number of live positions of each key.
    pub chain_sz: Vec<u16>,
    /// Previous position with the same key, for each buffer index.
    pub chain: Vec<u16>,
    /// Longest match found at each buffer index.
    pub best_len: Vec<u16>,
}

impl Match3 {
    /// Every entry is zero.
    pub open spec fn fresh(&self) -> bool {
        &&& forall|k: int| 0 <= k < self.head@.len() ==> #[trigger] self.head@[k] == 0
        &&& forall|k: int| 0 <= k < self.chain_sz@.len() ==> #[trigger] self.chain_sz@[k] == 0
        &&& forall|i: int| 0 <= i < self.chain@.len() ==> #[trigger] self.chain@[i] == 0
        &&& forall|i: int| 0 <= i < self.best_len@.len() ==> #[trigger] self.best_len@[i] == 0
    }

    pub open spec fn wf(&self) -> bool {
        &&& self.head@.len() == HASH_SIZE
        &&& self.chain_sz@.len() == HASH_SIZE
        &&& self.chain@.len() == BUF_SIZE
        &&& self.best_len@.len() == BUF_SIZE
    }

    /// Hash of the 3-byte prefix of `data`.
    pub fn make_key(data: &[u8]) -> (r: usize)
        requires
            data@.len() >= 3,
        ensures
            r == hash3(data@[0], data@[1], data@[2]),
            r < HASH_SIZE,
    {
        let intermediate = (((data[0] as usize) << 5usize) ^ (data[1] as usize)).wrapping_shl(5) ^ (data[2] as usize);
        let y = intermediate.wrapping_mul(0x9F5F).wrapping_shr(5);
        assert(y & 0x3FFF < 0x4000) by (bit_vector);
        y & 0x3FFF
    }

    /// Latest position of `key`, or `u16::MAX` when no position has it.
    pub fn get_head(&self, key: usize) -> (r: u16)
        requires
            self.wf(),
            key < HASH_SIZE,
        ensures
            r == if self.chain_sz@[key as int] == 0 { u16::MAX } else { self.head@[key as int] },
    {
        if self.chain_sz[key] == 0 {
            u16::MAX
        } else {
            self.head[key]
        }
    }

    /// Makes the position `pos` of `b` no longer count in its chain.
    pub fn remove(&mut self, pos: usize, b: &[u8])
        requires
            old(self).wf(),
            pos + 3 <= b@.len(),
            old(self).chain_sz@[hash3(b@[pos as int], b@[pos + 1], b@[pos + 2]) as int] > 0,
        ensures
            final(self).wf(),
            final(self).head == old(self).head,
            final(self).chain == old(self).chain,
            final(self).best_len == old(self).best_len,
            ({
                let k = hash3(b@[pos as int], b@[pos + 1], b@[pos + 2]) as int;
                final(self).chain_sz@ == old(self).chain_sz@.update(k, (old(self).chain_sz@[k] - 1) as u16)
            }),
    {
        let key = Self::make_key(vstd::slice::slice_subrange(b, pos, b.len()));
        self.chain_sz[key] -= 1;
    }

    /// Adds the window start `s.wind_b` to its chain, giving the previous
    /// latest position of its key and how many positions the chain held
    /// (at most `MAX_MATCH_LEN`).
    pub fn advance(&mut self, s: &State, match_pos: &mut usize, match_count: &mut usize, b: &[u8])
        requires
            old(self).wf(),
            s.wind_b < BUF_SIZE,
            s.wind_b + 3 <= b@.len(),
            old(self).chain_sz@[hash3(b@[s.wind_b as int], b@[s.wind_b + 1], b@[s.wind_b + 2]) as int] < u16::MAX,
        ensures
            final(self).wf(),
            final(self).best_len == old(self).best_len,
            ({
                let k = hash3(b@[s.wind_b as int], b@[s.wind_b + 1], b@[s.wind_b + 2]) as int;
                let h = if old(self).chain_sz@[k] == 0 { u16::MAX } else { old(self).head@[k] };
                &&& *final(match_pos) == h as usize
                &&& *final(match_count) == if old(self).chain_sz@[k] > MAX_MATCH_LEN { MAX_MATCH_LEN } else { old(self).chain_sz@[k] as usize }
                &&& final(self).chain@ == old(self).chain@.update(s.wind_b as int, h)
                &&& final(self).chain_sz@ == old(self).chain_sz@.update(k, (old(self).chain_sz@[k] + 1) as u16)
                &&& final(self).head@ == old(self).head@.update(k, s.wind_b as u16)
            }),
    {
        let key = Self::make_key(vstd::slice::slice_subrange(b, s.wind_b, b.len()));
        let head = self.get_head(key);
        *match_pos = head as usize;
        self.chain[s.wind_b] = head;
        *match_count = self.chain_sz[key] as usize;
        self.chain_sz[key] += 1;
        if *match_count > MAX_MATCH_LEN {
            *match_count = MAX_MATCH_LEN
        }
        self.head[key] = s.wind_b as u16;
    }

    /// Adds the window start `s.wind_b` to its chain without searching it.
    pub fn skip_advance(&mut self, s: &State, b: &[u8])
        requires
            old(self).wf(),
            s.wind_b < BUF_SIZE,
            s.wind_b + 3 <= b@.len(),
            old(self).chain_sz@[hash3(b@[s.wind_b as int], b@[s.wind_b + 1], b@[s.wind_b + 2]) as int] < u16::MAX,
        ensures
            final(self).wf(),
            ({
                let k = hash3(b@[s.wind_b as int], b@[s.wind_b + 1], b@[s.wind_b + 2]) as int;
                let h = if old(self).chain_sz@[k] == 0 { u16::MAX } else { old(self).head@[k] };
                &&& final(self).chain@ == old(self).chain@.update(s.wind_b as int, h)
                &&& final(self).chain_sz@ == old(self).chain_sz@.update(k, (old(self).chain_sz@[k] + 1) as u16)
                &&& final(self).head@ == old(self).head@.update(k, s.wind_b as u16)
                &&& final(self).best_len@ == old(self).best_len@.update(s.wind_b as int, (MAX_MATCH_LEN + 1) as u16)
            }),
    {
        let key = Self::make_key(vstd::slice::slice_subrange(b, s.wind_b, b.len()));
        self.chain[s.wind_b] = self.get_head(key);
        self.head[key] = s.wind_b as u16;
        self.best_len[s.wind_b] = MAX_MATCH_LEN as u16 + 1;
        self.chain_sz[key] += 1
    }

    /// Empties all chains.
    pub fn reset(&mut self)
        requires
            old(self).wf(),
        ensures
            final(self).wf(),
            final(self).head == old(self).head,
            final(self).chain == old(self).chain,
            final(self).best_len == old(self).best_len,
            forall|k: int| 0 <= k < HASH_SIZE ==> #[trigger] final(self).chain_sz@[k] == 0,
    {
        let mut i: usize = 0;
        while i < HASH_SIZE
            invariant
                self.wf(),
                self.head == old(self).head,
                self.chain == old(self).chain,
                self.best_len == old(self).best_len,
                i <= HASH_SIZE,
                forall|k: int| 0 <= k < i ==> #[trigger] self.chain_sz@[k] == 0,
            decreases HASH_SIZE - i,
        {
            self.chain_sz[i] = 0;
            i += 1;
        }
    }

    pub fn new() -> (r: Self)
        ensures
            r.wf(),
            r.fresh(),
    {
        Match3 {
            head: vec![0u16; HASH_SIZE],
            chain_sz: vec![0u16; HASH_SIZE],
            chain: vec![0u16; BUF_SIZE],
            best_len: vec![0u16; BUF_SIZE],
        }
    }
}

/// Latest position of each 2-byte prefix.
pub struct Match2 {
    pub head: Vec<u16>,
}

impl Match2 {
    pub open spec fn wf(&self) -> bool {
        self.head@.len() == 0x10000
    }

    /// Key of the 2-byte prefix of `data`.
    pub fn make_key(data: &[u8]) -> (r: usize)
        requires
            data@.len() >= 2,
        ensures
            r == data@[0] + 256 * data@[1],
    {
        let b0 = data[0];
        let b1 = data[1];
        let r = (b0 as u16 ^ ((b1 as u16) << 8u16)) as usize;
        assert(r == b0 + 256 * b1) by (bit_vector)
            requires
                r == (b0 as u16 ^ ((b1 as u16) << 8u16)) as usize,
        ;
        r
    }

    /// Records `pos` as the latest position of its 2-byte prefix.
    pub fn add(&mut self, pos: u16, b: &[u8])
        requires
            old(self).wf(),
            pos + 2 <= b@.len(),
        ensures
            final(self).wf(),
            final(self).head@ == old(self).head@.update(b@[pos as int] + 256 * b@[pos + 1], pos),
    {
        self.head[Self::make_key(vstd::slice::slice_subrange(b, pos as usize, b.len()))] = pos;
    }

    /// Forgets `pos` if it is the latest position of its 2-byte prefix.
    pub fn remove(&mut self, pos: usize, b: &[u8])
        requires
            old(self).wf(),
            pos + 2 <= b@.len(),
        ensures
            final(self).wf(),
            ({
                let k = b@[pos as int] + 256 * b@[pos + 1];
                final(self).head@ == if old(self).head@[k] == pos as u16 {
                    old(self).head@.update(k, u16::MAX)
                } else {
                    old(self).head@
                }
            }),
    {
        let k = Self::make_key(vstd::slice::slice_subrange(b, pos, b.len()));
        if self.head[k] == pos as u16 {
            self.head[k] = u16::MAX
        }
    }

    /// Looks up the latest position with the 2-byte prefix at the window
    /// start; records it as a match of length 2 if none was found yet.
    pub fn search(
        &self,
        s: &State,
        lb_pos: &mut usize,
        lb_len: &mut usize,
        best_pos: &mut [usize; MAX_MATCH_BY_LENGTH_LEN],
        b: &[u8],
    ) -> (r: bool)
        requires
            self.wf(),
            s.wind_b + 2 <= b@.len(),
        ensures
            ({
                let p = self.head@[b@[s.wind_b as int] + 256 * b@[s.wind_b + 1]];
                &&& r == (p != u16::MAX)
                &&& !r ==> *final(lb_pos) == *old(lb_pos) && *final(lb_len) == *old(lb_len) && final(best_pos)@ == old(best_pos)@
                &&& r ==> {
                    &&& final(best_pos)@ == if old(best_pos)@[2] == 0 { old(best_pos)@.update(2, (p + 1) as usize) } else { old(best_pos)@ }
                    &&& *final(lb_len) == if *old(lb_len) < 2 { 2 } else { *old(lb_len) }
                    &&& *final(lb_pos) == if *old(lb_len) < 2 { p as usize } else { *old(lb_pos) }
                }
            }),
    {
        let pos = self.head[Self::make_key(vstd::slice::slice_subrange(b, s.wind_b, b.len()))];
        if pos == u16::MAX {
            return false;
        }
        if best_pos[2] == 0 {
            best_pos[2] = pos as usize + 1;
        }
        if *lb_len < 2 {
            *lb_len = 2;
            *lb_pos = pos as usize;
        }
        true
    }

    /// Forgets all positions.
    pub fn reset(&mut self)
        requires
            old(self).wf(),
        ensures
            final(self).wf(),
            forall|k: int| 0 <= k < 0x10000 ==> #[trigger] final(self).head@[k] == u16::MAX,
    {
        let mut i: usize = 0;
        while i < 0x10000
            invariant
                self.wf(),
                i <= 0x10000,
                forall|k: int| 0 <= k < i ==> #[trigger] self.head@[k] == u16::MAX,
            decreases 0x10000 - i,
        {
            self.head[i] = u16::MAX;
            i += 1;
        }
    }

    pub fn new() -> (r: Self)
        ensures
            r.wf(),
            forall|k: int| 0 <= k < 0x10000 ==> #[trigger] r.head@[k] == u16::MAX,
    {
        Match2 { head: vec![u16::MAX; 0x10000] }
    }
}

/// Number of input bytes in the window when it starts at position `t`.
pub open spec fn window(src: Seq<u8>, t: int, w0: int) -> int {
    if t + w0 <= src.len() {
        w0
    } else {
        src.len() - t
    }
}

/// At position `p` the latest earlier position with the same 3-byte key
/// (within reach) repeats at least the next 4 bytes: a match the compressor
/// never leaves as literals.
pub open spec fn missed(src: Seq<u8>, p: int) -> bool {
    let w0 = if src.len() < MAX_MATCH_LEN { src.len() as int } else { MAX_MATCH_LEN as int };
    let a = last3(src, p, key3(src, p));
    &&& window(src, p, w0) >= 4
    &&& a >= lo3(p)
    &&& agree(src, p, a, 4)
}

/// Where the match search guarantees a match as long as the one at the
/// latest position with the same key, a missed match gives one of 4 bytes
/// or more.
proof fn lemma_missed_found(src: Seq<u8>, t: int, w0: int, lb_len: int)
    requires
        t < src.len(),
        w0 == if src.len() < MAX_MATCH_LEN { src.len() as int } else { MAX_MATCH_LEN as int },
        missed(src, t),
        window(src, t, w0) >= 3 && last3(src, t, key3(src, t)) >= lo3(t) ==> forall|l: int|
            2 <= l <= window(src, t, w0) && #[trigger] agree(src, t, last3(src, t, key3(src, t)), l) ==> lb_len >= l,
    ensures
        lb_len >= 4,
{
    assert(agree(src, t, last3(src, t, key3(src, t)), 4));
}

/// `bls` has an entry for each position before `hi`, and those from `lo` on
/// are the lengths `m3.best_len` holds at their buffer index.
pub open spec fn best_lens_hold(m3: Match3, bls: Seq<int>, lo: int, hi: int) -> bool {
    &&& bls.len() == hi
    &&& forall|b: int| lo <= b < hi ==> m3.best_len@[#[trigger] idx(b)] as int == bls[b]
}

/// Window size of the compressor over `src`.
pub open spec fn w0_of(src: Seq<u8>) -> int {
    if src.len() < MAX_MATCH_LEN {
        src.len() as int
    } else {
        MAX_MATCH_LEN as int
    }
}

/// Length of the common prefix of the `w` bytes at positions `t` and `a`.
pub open spec fn common_at(src: Seq<u8>, t: int, a: int, w: int) -> int {
    common_len(src.subrange(t, t + w), src.subrange(a, a + w), 0)
}

/// The chain search at position `t` (window of `w` bytes, 3-byte key `k`)
/// over absolute positions: from `a`, for `count` positions of the chain,
/// each the latest earlier one with key `k`. `lb_off` is the distance of the
/// best match so far, `bo[l]` the distance of the first match of length `l`
/// found (0 for none), and `bls[a]` the best length recorded at position `a`.
pub open spec fn walk_abs(
    src: Seq<u8>,
    t: int,
    w: int,
    k: int,
    a: int,
    count: int,
    lb_len: int,
    lb_off: int,
    bo: Seq<int>,
    bls: Seq<int>,
) -> (int, int, Seq<int>)
    decreases count,
{
    if count <= 0 {
        (lb_len, lb_off, bo)
    } else {
        let ml = common_at(src, t, a, w);
        let next = last3(src, a, k);
        if ml < 2 {
            walk_abs(src, t, w, k, next, count - 1, lb_len, lb_off, bo, bls)
        } else {
            let bo2 = if ml < MAX_MATCH_BY_LENGTH_LEN && bo[ml] == 0 { bo.update(ml, t - a) } else { bo };
            if ml > lb_len {
                if ml == w || ml > bls[a] {
                    (ml, t - a, bo2)
                } else {
                    walk_abs(src, t, w, k, next, count - 1, ml, t - a, bo2, bls)
                }
            } else {
                walk_abs(src, t, w, k, next, count - 1, lb_len, lb_off, bo2, bls)
            }
        }
    }
}

/// Buffer index `p` holds the position `off` bytes before `t`, within reach.
pub open spec fn off_rel(p: int, off: int, t: int, lo: int) -> bool {
    &&& lo <= t - off < t
    &&& p == idx(t - off)
}

/// `bp` (buffer index plus one, 0 for none) and `bo` (distance, 0 for none)
/// name the same positions before `t`.
pub open spec fn offs_rel(bp: Seq<usize>, bo: Seq<int>, t: int, lo: int) -> bool {
    &&& bp.len() == MAX_MATCH_BY_LENGTH_LEN
    &&& bo.len() == MAX_MATCH_BY_LENGTH_LEN
    &&& forall|l: int|
        0 <= l < MAX_MATCH_BY_LENGTH_LEN ==> ((#[trigger] bo[l] == 0) == (bp[l] == 0)) && (bo[l] != 0 ==> off_rel(
            bp[l] - 1,
            bo[l],
            t,
            lo,
        ))
}

proof fn lemma_common_len_same(x: Seq<u8>, y1: Seq<u8>, y2: Seq<u8>, i: int)
    requires
        0 <= i <= x.len(),
        x.len() <= y1.len(),
        x.len() <= y2.len(),
        forall|j: int| i <= j < x.len() ==> y1[j] == y2[j],
    ensures
        common_len(x, y1, i) == common_len(x, y2, i),
    decreases x.len() - i,
{
    if i < x.len() {
        lemma_common_len_same(x, y1, y2, i + 1);
    }
}

/// The chain search over buffer indices is the chain search over positions.
proof fn lemma_walk_abs(
    buf: Seq<u8>,
    m3: Match3,
    src: Seq<u8>,
    t: int,
    w0: int,
    w: int,
    a: int,
    count: int,
    lb_len: int,
    lb_pos: int,
    bp: Seq<usize>,
    lb_off: int,
    bo: Seq<int>,
    bls: Seq<int>,
)
    requires
        0 <= t,
        3 <= w <= w0 <= MAX_MATCH_LEN,
        t + w <= src.len(),
        buffer_holds(buf, src, buf_lo(t, w0), buf_hi(t, w0)),
        buf_hi(t, w0) >= t + w,
        chains_hold(m3, src, lo3(t), t + 1),
        count >= 1 ==> lo3(t) <= a < t && key3(src, a) == key3(src, t) && count <= count3(src, lo3(t), a, key3(src, t)) + 1,
        forall|b: int| lo3(t) <= b < t ==> m3.best_len@[#[trigger] idx(b)] as int == bls[b],
        lb_len >= 2 ==> off_rel(lb_pos, lb_off, t, lo3(t)),
        offs_rel(bp, bo, t, lo3(t)),
    ensures
        ({
            let r1 = chain_walk(buf, m3.chain@, m3.best_len@, idx(t), w, idx(a), count, lb_len, lb_pos, bp);
            let r2 = walk_abs(src, t, w, key3(src, t), a, count, lb_len, lb_off, bo, bls);
            &&& r1.0 == r2.0
            &&& r2.0 >= 2 ==> off_rel(r1.1, r2.1, t, lo3(t))
            &&& offs_rel(r1.2, r2.2, t, lo3(t))
        }),
    decreases count,
{
    if count > 0 {
        let k = key3(src, t);
        let lo = lo3(t);
        let wb = idx(t);
        let x = buf.subrange(wb, wb + w);
        let y1 = buf.subrange(idx(a), buf.len() as int);
        let xs = src.subrange(t, t + w);
        let y2 = src.subrange(a, a + w);
        lemma_idx_add(t, 0);
        lemma_idx_add(a, 0);
        assert forall|j: int| 0 <= j < w implies x[j] == xs[j] && y1[j] == y2[j] by {
            lemma_read(buf, src, buf_lo(t, w0), buf_hi(t, w0), t, j);
            lemma_read(buf, src, buf_lo(t, w0), buf_hi(t, w0), a, j);
        }
        assert(x =~= xs);
        lemma_common_len_same(x, y1, y2, 0);
        let ml = common_at(src, t, a, w);
        let next = last3(src, a, k);
        lemma_last3(src, lo, a, k);
        if count > 1 {
            assert(m3.chain@[idx(a)] == idx(next));
        }
        let bo2 = if ml < MAX_MATCH_BY_LENGTH_LEN && bo[ml] == 0 { bo.update(ml, t - a) } else { bo };
        let bp2 = if ml < MAX_MATCH_BY_LENGTH_LEN && bp[ml] == 0 { bp.update(ml, (idx(a) + 1) as usize) } else { bp };
        if ml >= 2 {
            assert(offs_rel(bp2, bo2, t, lo)) by {
                assert forall|l: int| 0 <= l < MAX_MATCH_BY_LENGTH_LEN implies ((#[trigger] bo2[l] == 0) == (bp2[l] == 0))
                    && (bo2[l] != 0 ==> off_rel(bp2[l] - 1, bo2[l], t, lo)) by {
                    assert(bo[l] == 0 <==> bp[l] == 0);
                }
            }
            assert(m3.best_len@[idx(a)] as int == bls[a]);
        }
        if count == 1 {
            let np = m3.chain@[idx(a)] as int;
            assert(chain_walk(buf, m3.chain@, m3.best_len@, wb, w, np, 0, lb_len, lb_pos, bp) == (lb_len, lb_pos, bp));
            assert(chain_walk(buf, m3.chain@, m3.best_len@, wb, w, np, 0, lb_len, lb_pos, bp2) == (lb_len, lb_pos, bp2));
            assert(chain_walk(buf, m3.chain@, m3.best_len@, wb, w, np, 0, ml, idx(a), bp2) == (ml, idx(a), bp2));
        }
        lemma_walk_abs(buf, m3, src, t, w0, w, next, count - 1, lb_len, lb_pos, bp, lb_off, bo, bls);
        if ml >= 2 {
            lemma_walk_abs(buf, m3, src, t, w0, w, next, count - 1, lb_len, lb_pos, bp2, lb_off, bo2, bls);
            lemma_walk_abs(buf, m3, src, t, w0, w, next, count - 1, ml, idx(a), bp2, t - a, bo2, bls);
        }
    }
}

/// The search at position `t`, given the lengths `bls` recorded for the
/// positions before it: the match length (1 for none), its distance (0 for
/// none), and for each length the distance of the first match of that
/// length found (0 for none). The latest earlier position with the same
/// 2-byte prefix gives a match of length 2; the chain of positions with the
/// same 3-byte key (at most `MAX_MATCH_LEN` of them) is then searched.
pub open spec fn search_abs(src: Seq<u8>, t: int, bls: Seq<int>) -> (int, int, Seq<int>) {
    let w = window(src, t, w0_of(src));
    let lo = lo3(t);
    let a2 = last2(src, t, key2(src, t));
    let z = Seq::new(MAX_MATCH_BY_LENGTH_LEN as nat, |l: int| 0int);
    if w <= 1 || a2 < lo {
        (1, 0, z)
    } else {
        let bo = z.update(2, t - a2);
        if w >= 3 {
            let k = key3(src, t);
            let c = count3(src, lo, t, k) as int;
            let cnt = if c > MAX_MATCH_LEN { MAX_MATCH_LEN as int } else { c };
            walk_abs(src, t, w, k, last3(src, t, k), cnt, 2, t - a2, bo, bls)
        } else {
            (2, t - a2, bo)
        }
    }
}

/// The length recorded for position `t` once it has been searched.
pub open spec fn bl_after(src: Seq<u8>, t: int, bls: Seq<int>) -> int {
    if window(src, t, w0_of(src)) <= 1 {
        (MAX_MATCH_LEN + 1) as int
    } else {
        search_abs(src, t, bls).0
    }
}

/// The search of `Dict::search_window` over buffer indices is `search_abs`.
proof fn lemma_search_rel(
    buf: Seq<u8>,
    m3: Match3,
    src: Seq<u8>,
    t: int,
    w0: int,
    bls: Seq<int>,
    match_pos: int,
    match_count: int,
    found2: bool,
    lb_len1: int,
    lb_pos1: int,
    bp1: Seq<usize>,
    lb_len2: int,
    lb_pos2: int,
    bp2: Seq<usize>,
)
    requires
        0 <= t < src.len(),
        w0 == w0_of(src),
        2 <= window(src, t, w0),
        buffer_holds(buf, src, buf_lo(t, w0), buf_hi(t, w0)),
        chains_hold(m3, src, lo3(t), t + 1),
        forall|b: int| lo3(t) <= b < t ==> m3.best_len@[#[trigger] idx(b)] as int == bls[b],
        found2 == (last2(src, t, key2(src, t)) >= lo3(t)),
        bp1.len() == MAX_MATCH_BY_LENGTH_LEN,
        !found2 ==> lb_len1 == 1,
        found2 ==> lb_len1 == 2 && lb_pos1 == idx(last2(src, t, key2(src, t))),
        forall|l: int|
            0 <= l < MAX_MATCH_BY_LENGTH_LEN ==> #[trigger] bp1[l] == if found2 && l == 2 {
                (idx(last2(src, t, key2(src, t))) + 1) as usize
            } else {
                0usize
            },
        ({
            let k = key3(src, t);
            let c = count3(src, lo3(t), t, k) as int;
            &&& match_count == if c > MAX_MATCH_LEN { MAX_MATCH_LEN as int } else { c }
            &&& match_count > 0 ==> match_pos == idx(last3(src, t, k))
        }),
        found2 && window(src, t, w0) >= 3 ==> (lb_len2, lb_pos2, bp2) == chain_walk(
            buf,
            m3.chain@,
            m3.best_len@,
            idx(t),
            window(src, t, w0),
            match_pos,
            match_count,
            lb_len1,
            lb_pos1,
            bp1,
        ),
        !(found2 && window(src, t, w0) >= 3) ==> lb_len2 == lb_len1 && lb_pos2 == lb_pos1 && bp2 == bp1,
    ensures
        ({
            let r = search_abs(src, t, bls);
            &&& lb_len2 == r.0
            &&& r.0 >= 2 ==> off_rel(lb_pos2, r.1, t, lo3(t))
            &&& offs_rel(bp2, r.2, t, lo3(t))
            &&& r.0 < 2 ==> r.1 == 0
        }),
{
    let w = window(src, t, w0);
    let lo = lo3(t);
    let k = key3(src, t);
    let a2 = last2(src, t, key2(src, t));
    lemma_last2(src, t, key2(src, t));
    let z = Seq::new(MAX_MATCH_BY_LENGTH_LEN as nat, |l: int| 0int);
    let bo = if found2 { z.update(2, t - a2) } else { z };
    if found2 {
        lemma_idx_add(a2, 0);
        assert(off_rel(lb_pos1, t - a2, t, lo));
    }
    assert(offs_rel(bp1, bo, t, lo)) by {
        assert forall|l: int| 0 <= l < MAX_MATCH_BY_LENGTH_LEN implies ((#[trigger] bo[l] == 0) == (bp1[l] == 0)) && (bo[l]
            != 0 ==> off_rel(bp1[l] - 1, bo[l], t, lo)) by {
            assert(bp1[l] == if found2 && l == 2 { (idx(a2) + 1) as usize } else { 0usize });
        }
    }
    if found2 && w >= 3 {
        let a = last3(src, t, k);
        lemma_last3(src, lo, t, k);
        lemma_walk_abs(buf, m3, src, t, w0, w, a, match_count, lb_len1, lb_pos1, bp1, t - a2, bo, bls);
        lemma_walk_mono(buf, m3.chain@, m3.best_len@, idx(t), w, match_pos, match_count, lb_len1, lb_pos1, bp1);
        assert(idx(a) == match_pos || match_count == 0);
        if match_count == 0 {
            assert(chain_walk(buf, m3.chain@, m3.best_len@, idx(t), w, idx(a), 0, lb_len1, lb_pos1, bp1) == (lb_len1, lb_pos1, bp1));
            assert(chain_walk(buf, m3.chain@, m3.best_len@, idx(t), w, match_pos, 0, lb_len1, lb_pos1, bp1) == (lb_len1, lb_pos1, bp1));
        }
    }
}

/// The last `MAX_MATCH_LEN` bytes of the buffer repeat its first ones.
pub open spec fn mirrored(buf: Seq<u8>) -> bool {
    &&& buf.len() == BUF_SIZE + MAX_MATCH_LEN
    &&& forall|j: int| 0 <= j < MAX_MATCH_LEN ==> #[trigger] buf[BUF_SIZE + j] == buf[j]
}

/// The write `State::get_byte` makes at buffer index `p` (and at its copy
/// past the end, for the first indices) keeps the buffer mirrored.
pub proof fn lemma_get_byte_mirror(buf: Seq<u8>, p: int, v: u8)
    requires
        mirrored(buf),
        0 <= p < BUF_SIZE,
    ensures
        mirrored(if p < MAX_MATCH_LEN { buf.update(p, v).update(BUF_SIZE + p, v) } else { buf.update(p, v) }),
{
    let b2 = if p < MAX_MATCH_LEN { buf.update(p, v).update(BUF_SIZE + p, v) } else { buf.update(p, v) };
    assert forall|j: int| 0 <= j < MAX_MATCH_LEN implies #[trigger] b2[BUF_SIZE + j] == b2[j] by {
        assert(buf[BUF_SIZE + j] == buf[j]);
    }
}

/// Where the compressor stands in its input.
pub struct State<'a> {
    pub src: &'a [u8],
    /// Next input byte to enter the window.
    pub inp: usize,
    /// Number of input bytes in the window from `wind_b` on.
    pub wind_sz: usize,
    /// Buffer index of the window start.
    pub wind_b: usize,
    /// Buffer index of the window end.
    pub wind_e: usize,
    /// Steps left before buffer entries start being reused.
    pub cycle1_countdown: usize,
    /// Input position of the byte just looked at.
    pub bufp: usize,
    /// Number of bytes left from `bufp` on, zero at the end.
    pub buf_sz: usize,
    /// Absolute position of the window start.
    pub cur: Ghost<int>,
    /// Window size at the start.
    pub w0: Ghost<int>,
}

impl<'a> State<'a> {
    /// The window starts at absolute position `cur` and spans `wind_sz` input
    /// bytes; its buffer indices and the input cursor agree with it.
    pub open spec fn wf(&self) -> bool {
        let len = self.src@.len() as int;
        let cur = self.cur@;
        let w0 = self.w0@;
        &&& w0 == if len < MAX_MATCH_LEN { len } else { MAX_MATCH_LEN as int }
        &&& 0 <= cur <= len + 1
        &&& self.wind_b == idx(cur)
        &&& self.wind_e == idx(cur + w0)
        &&& self.inp == if cur + w0 < len { cur + w0 } else { len }
        &&& self.wind_sz == if cur + w0 <= len { w0 } else if cur <= len { len - cur } else { 0 }
    }

    /// Starts a window at the beginning of `src`, copying its first bytes to
    /// the buffer of `dict`.
    pub fn new(src: &'a [u8], dict: &mut Dict) -> (s: Self)
        requires
            old(dict).wf(),
        ensures
            s.wf(),
            s.src == src,
            s.cur@ == 0,
            s.cycle1_countdown == MAX_DIST,
            s.bufp == 0,
            s.buf_sz == 0,
            final(dict).wf(),
            final(dict).match3 == old(dict).match3,
            final(dict).match2 == old(dict).match2,
            final(dict).bls == old(dict).bls,
            buffer_holds(final(dict).buffer@, src@, 0, buf_hi(0, s.w0@)),
            forall|j: int|
                buf_hi(0, s.w0@) <= j < old(dict).buffer@.len() ==> #[trigger] final(dict).buffer@[j] == old(dict).buffer@[j],
    {
        let wind_sz = if src.len() < MAX_MATCH_LEN { src.len() } else { MAX_MATCH_LEN };
        let state = State {
            src,
            inp: wind_sz,
            wind_sz,
            wind_b: 0,
            wind_e: wind_sz,
            cycle1_countdown: MAX_DIST,
            bufp: 0,
            buf_sz: 0,
            cur: Ghost(0),
            w0: Ghost(wind_sz as int),
        };
        let mut i: usize = 0;
        while i < wind_sz
            invariant
                dict.wf(),
                dict.match3 == old(dict).match3,
                dict.match2 == old(dict).match2,
                dict.bls == old(dict).bls,
                wind_sz <= src@.len(),
                wind_sz <= MAX_MATCH_LEN,
                i <= wind_sz,
                forall|j: int| 0 <= j < i ==> dict.buffer@[j] == src@[j],
                old(dict).buffer@.len() == BUF_SIZE + MAX_MATCH_LEN,
                forall|j: int| i <= j < old(dict).buffer@.len() ==> dict.buffer@[j] == #[trigger] old(dict).buffer@[j],
            decreases wind_sz - i,
        {
            dict.buffer[i] = src[i];
            i += 1;
        }
        if wind_sz < 3 {
            let mut j: usize = wind_sz;
            while j < wind_sz + 3
                invariant
                    dict.wf(),
                    dict.match3 == old(dict).match3,
                    dict.match2 == old(dict).match2,
                    dict.bls == old(dict).bls,
                    wind_sz < 3,
                    wind_sz <= src@.len(),
                    wind_sz <= j <= wind_sz + 3,
                    forall|k: int| 0 <= k < wind_sz ==> dict.buffer@[k] == src@[k],
                    forall|k: int| wind_sz <= k < j ==> dict.buffer@[k] == 0,
                    old(dict).buffer@.len() == BUF_SIZE + MAX_MATCH_LEN,
                    forall|k: int| j <= k < old(dict).buffer@.len() ==> dict.buffer@[k] == #[trigger] old(dict).buffer@[k],
                decreases wind_sz + 3 - j,
            {
                dict.buffer[j] = 0;
                j += 1;
            }
        }
        proof {
            assert forall|a: int| 0 <= a < buf_hi(0, wind_sz as int) implies dict.buffer@[#[trigger] idx(a)] == ext(src@, a) by {
                lemma_idx_add(a, 0);
                lemma_idx_add(0, a);
            }
        }
        state
    }

    /// Moves the window one byte forward: the next input byte (zero past the
    /// end) enters the buffer at the window end.
    pub fn get_byte(&mut self, buf: &mut [u8])
        requires
            old(self).wf(),
            old(self).cur@ <= old(self).src@.len(),
            old(buf)@.len() == BUF_SIZE + MAX_MATCH_LEN,
        ensures
            final(self).wf(),
            final(self).src == old(self).src,
            final(self).w0 == old(self).w0,
            final(self).cur@ == old(self).cur@ + 1,
            final(self).cycle1_countdown == old(self).cycle1_countdown,
            final(self).bufp == old(self).bufp,
            final(self).buf_sz == old(self).buf_sz,
            ({
                let p = old(self).cur@ + old(self).w0@;
                let v = ext(old(self).src@, p);
                final(buf)@ == if idx(p) < MAX_MATCH_LEN {
                    old(buf)@.update(idx(p), v).update(BUF_SIZE + idx(p), v)
                } else {
                    old(buf)@.update(idx(p), v)
                }
            }),
    {
        proof {
            lemma_idx_add(self.cur@ + self.w0@, 1);
            lemma_idx_add(self.cur@, 1);
        }
        if self.inp >= self.src.len() {
            if self.wind_sz > 0 {
                self.wind_sz -= 1;
            }
            buf[self.wind_e] = 0;
            if self.wind_e < MAX_MATCH_LEN {
                buf[BUF_SIZE + self.wind_e] = 0;
            }
        } else {
            buf[self.wind_e] = self.src[self.inp];
            if self.wind_e < MAX_MATCH_LEN {
                buf[BUF_SIZE + self.wind_e] = self.src[self.inp];
            }
            self.inp += 1;
        }
        self.wind_e += 1;
        if self.wind_e == BUF_SIZE {
            self.wind_e = 0;
        }
        self.wind_b += 1;
        if self.wind_b == BUF_SIZE {
            self.wind_b = 0;
        }
        self.cur = Ghost(self.cur@ + 1);
    }

    /// Distance back from the window start to buffer index `pos`.
    pub fn pos2off(&self, pos: usize) -> (r: usize)
        requires
            pos < BUF_SIZE,
            self.wind_b < BUF_SIZE,
        ensures
            r == if self.wind_b > pos { self.wind_b - pos } else { BUF_SIZE - (pos - self.wind_b) },
    {
        if self.wind_b > pos {
            self.wind_b - pos
        } else {
            BUF_SIZE - (pos - self.wind_b)
        }
    }
}

/// The dictionary of the compressor.
pub struct Dict {
    pub match3: Match3,
    pub match2: Match2,
    /// Circular buffer caching enough data to access the maximum lookback
    /// distance of 48K + maximum match length of 2K. An additional 2K is
    /// allocated so the start of the buffer may be replicated at the end,
    /// therefore providing efficient circular access.
    pub buffer: Vec<u8>,
    /// For each position the window has passed, the match length recorded
    /// for it in `match3.best_len`.
    pub bls: Ghost<Seq<int>>,
}

impl Dict {
    /// A new dictionary: zero hash chains and buffer, and an empty 2-byte table.
    pub open spec fn fresh(&self) -> bool {
        &&& self.match3.fresh()
        &&& forall|k: int| 0 <= k < 0x10000 ==> #[trigger] self.match2.head@[k] == u16::MAX
        &&& forall|i: int| 0 <= i < self.buffer@.len() ==> #[trigger] self.buffer@[i] == 0
    }

    pub open spec fn wf(&self) -> bool {
        &&& self.match3.wf()
        &&& self.match2.wf()
        &&& self.buffer@.len() == BUF_SIZE + MAX_MATCH_LEN
    }

    /// What holds of the dictionary between two steps of the compressor,
    /// with the window of `s`: the buffer holds the input around the window,
    /// and the chains and the 2-byte table hold the last `MAX_DIST` positions.
    pub open spec fn inv(&self, s: &State) -> bool {
        let src = s.src@;
        let cur = s.cur@;
        let w0 = s.w0@;
        &&& self.wf()
        &&& s.wf()
        &&& s.cycle1_countdown == countdown(cur)
        &&& buffer_holds(self.buffer@, src, buf_lo(cur, w0), buf_hi(cur, w0))
        &&& chains_hold(self.match3, src, lo3(cur), cur)
        &&& heads2_hold(self.match2, src, lo3(cur), cur)
        &&& best_lens_hold(self.match3, self.bls@, lo3(cur), cur)
    }

    pub fn new() -> (d: Self)
        ensures
            d.wf(),
            d.fresh(),
    {
        Dict {
            match3: Match3::new(),
            match2: Match2::new(),
            buffer: vec![0u8; BUF_SIZE + MAX_MATCH_LEN],
            bls: Ghost(Seq::empty()),
        }
    }

    /// Empties the chains and the 2-byte table.
    pub fn reset(&mut self)
        requires
            old(self).wf(),
        ensures
            final(self).wf(),
            final(self).buffer == old(self).buffer,
            forall|src: Seq<u8>| chains_hold(final(self).match3, src, 0, 0) && heads2_hold(final(self).match2, src, 0, 0),
            best_lens_hold(final(self).match3, final(self).bls@, 0, 0),
    {
        self.match3.reset();
        self.match2.reset();
        self.bls = Ghost(Seq::empty());
    }

    /// The keys the buffer gives at the window start and, once entries are
    /// reused, at the window end (which holds the oldest position).
    proof fn lemma_keys(b: Seq<u8>, s: &State)
        requires
            s.wf(),
            buffer_holds(b, s.src@, buf_lo(s.cur@, s.w0@), buf_hi(s.cur@, s.w0@)),
            s.cur@ <= s.src@.len(),
        ensures
            ({
                let src = s.src@;
                let t = s.cur@;
                let wb = s.wind_b as int;
                let we = s.wind_e as int;
                &&& wb < BUF_SIZE
                &&& we < BUF_SIZE
                &&& hash3(b[wb], b[wb + 1], b[wb + 2]) == key3(src, t)
                &&& 0 <= key3(src, t) < HASH_SIZE
                &&& b[wb] + 256 * b[wb + 1] == key2(src, t)
                &&& 0 <= key2(src, t) < 0x10000
                &&& forall|j: int| 0 <= j < s.wind_sz ==> #[trigger] b[wb + j] == ext(src, t + j)
                &&& t >= MAX_DIST ==> {
                    &&& s.w0@ == MAX_MATCH_LEN
                    &&& lo3(t) == t - MAX_DIST
                    &&& we == idx(lo3(t))
                    &&& hash3(b[we], b[we + 1], b[we + 2]) == key3(src, lo3(t))
                    &&& 0 <= key3(src, lo3(t)) < HASH_SIZE
                    &&& b[we] + 256 * b[we + 1] == key2(src, lo3(t))
                    &&& 0 <= key2(src, lo3(t)) < 0x10000
                }
            }),
    {
        let src = s.src@;
        let t = s.cur@;
        let w0 = s.w0@;
        let lo = buf_lo(t, w0);
        let hi = buf_hi(t, w0);
        lemma_idx_add(t, 0);
        lemma_idx_add(t + w0, 0);
        lemma_read(b, src, lo, hi, t, 0);
        lemma_read(b, src, lo, hi, t, 1);
        lemma_read(b, src, lo, hi, t, 2);
        lemma_hash3_bound(b[idx(t)], b[idx(t) + 1], b[idx(t) + 2]);
        assert forall|j: int| 0 <= j < s.wind_sz implies #[trigger] b[idx(t) + j] == ext(src, t + j) by {
            lemma_read(b, src, lo, hi, t, j);
        }
        if t >= MAX_DIST {
            let a = t - MAX_DIST;
            lemma_idx_add(a, BUF_SIZE as int);
            lemma_read(b, src, lo, hi, a, 0);
            lemma_read(b, src, lo, hi, a, 1);
            lemma_read(b, src, lo, hi, a, 2);
            lemma_hash3_bound(b[idx(a)], b[idx(a) + 1], b[idx(a) + 2]);
        }
    }

    /// Follows the chain of the window start (already added to it), from
    /// `match_pos`, for `match_count` positions, keeping the longest match and
    /// the first position found for each match length.
    fn search_chain(
        &self,
        s: &State,
        match_pos: usize,
        match_count: usize,
        lb_len: &mut usize,
        lb_pos: &mut usize,
        best_pos: &mut [usize; MAX_MATCH_BY_LENGTH_LEN],
    )
        requires
            self.wf(),
            s.wf(),
            s.wind_sz >= 3,
            buffer_holds(self.buffer@, s.src@, buf_lo(s.cur@, s.w0@), buf_hi(s.cur@, s.w0@)),
            chains_hold(self.match3, s.src@, lo3(s.cur@), s.cur@ + 1),
            match_count <= count3(s.src@, lo3(s.cur@), s.cur@, key3(s.src@, s.cur@)),
            match_count > 0 ==> match_pos == idx(last3(s.src@, s.cur@, key3(s.src@, s.cur@))),
            1 <= *old(lb_len) <= s.wind_sz,
            *old(lb_len) >= 2 ==> valid_pos(s.src@, s.cur@, *old(lb_pos) as int, *old(lb_len) as int),
            forall|l: int|
                2 <= l < MAX_MATCH_BY_LENGTH_LEN && #[trigger] old(best_pos)@[l] != 0 ==> valid_pos(
                    s.src@,
                    s.cur@,
                    old(best_pos)@[l] - 1,
                    l,
                ),
        ensures
            (*final(lb_len) as int, *final(lb_pos) as int, final(best_pos)@) == chain_walk(
                self.buffer@,
                self.match3.chain@,
                self.match3.best_len@,
                s.wind_b as int,
                s.wind_sz as int,
                match_pos as int,
                match_count as int,
                *old(lb_len) as int,
                *old(lb_pos) as int,
                old(best_pos)@,
            ),
            *old(lb_len) <= *final(lb_len) <= s.wind_sz,
            *final(lb_len) >= 2 ==> valid_pos(s.src@, s.cur@, *final(lb_pos) as int, *final(lb_len) as int),
            forall|l: int|
                2 <= l < MAX_MATCH_BY_LENGTH_LEN && #[trigger] final(best_pos)@[l] != 0 ==> valid_pos(
                    s.src@,
                    s.cur@,
                    final(best_pos)@[l] - 1,
                    l,
                ),
    {
        let ghost src = s.src@;
        let ghost t = s.cur@;
        let ghost w0 = s.w0@;
        let ghost lo = lo3(t);
        let ghost k = key3(src, t);
        let ghost c = count3(src, lo, t, k);
        let ghost mut a: int = last3(src, t, k);
        proof {
            lemma_last3(src, lo, t, k);
        }
        let mut match_pos = match_pos;
        let wb = s.wind_b;
        let wsz = s.wind_sz;
        let window = vstd::slice::slice_subrange(self.buffer.as_slice(), wb, wb + wsz);
        let ghost result = chain_walk(
            self.buffer@,
            self.match3.chain@,
            self.match3.best_len@,
            wb as int,
            wsz as int,
            match_pos as int,
            match_count as int,
            *lb_len as int,
            *lb_pos as int,
            best_pos@,
        );
        let mut i: usize = 0;
        while i < match_count
            invariant_except_break
                result == chain_walk(
                    self.buffer@,
                    self.match3.chain@,
                    self.match3.best_len@,
                    wb as int,
                    wsz as int,
                    match_pos as int,
                    match_count - i,
                    *lb_len as int,
                    *lb_pos as int,
                    best_pos@,
                ),
            invariant
                self.wf(),
                s.wf(),
                src == s.src@,
                t == s.cur@,
                w0 == s.w0@,
                lo == lo3(t),
                k == key3(src, t),
                wb == s.wind_b,
                wsz == s.wind_sz,
                wsz >= 3,
                window@ == self.buffer@.subrange(wb as int, wb + wsz),
                buffer_holds(self.buffer@, src, buf_lo(t, w0), buf_hi(t, w0)),
                chains_hold(self.match3, src, lo, t + 1),
                i <= match_count,
                match_count <= c,
                i < match_count ==> {
                    &&& lo <= a < t
                    &&& match_pos == idx(a)
                    &&& key3(src, a) == k
                    &&& count3(src, lo, a, k) + i + 1 == c
                },
                *old(lb_len) <= *lb_len <= wsz,
                *lb_len >= 2 ==> valid_pos(src, t, *lb_pos as int, *lb_len as int),
                forall|l: int|
                    2 <= l < MAX_MATCH_BY_LENGTH_LEN && #[trigger] best_pos@[l] != 0 ==> valid_pos(src, t, best_pos@[l] - 1, l),
            ensures
                result == (*lb_len as int, *lb_pos as int, best_pos@),
            decreases match_count - i,
        {
            proof {
                lemma_idx_add(a, 0);
                lemma_idx_add(t, 0);
            }
            let other = vstd::slice::slice_subrange(self.buffer.as_slice(), match_pos, self.buffer.len());
            let match_len = mismatch(window, other);
            proof {
                lemma_common_len(window@, other@, 0, match_len as int);
                // The bytes compared are those of the input at `t` and at `a`.
                lemma_recent_idx(a, t);
                assert forall|j: int| 0 <= j < match_len implies #[trigger] src[t + j] == src[t - (t - recent(idx(a), t)) + j] by {
                    lemma_read(self.buffer@, src, buf_lo(t, w0), buf_hi(t, w0), t, j);
                    lemma_read(self.buffer@, src, buf_lo(t, w0), buf_hi(t, w0), a, j);
                    assert(window@[j] == self.buffer@[idx(t) + j]);
                }
                assert(valid_pos(src, t, match_pos as int, match_len as int));
                // The next position in the chain, when there is one to visit.
                if i + 1 < match_count {
                    lemma_last3(src, lo, a, k);
                }
            }
            if match_len < 2 {
                match_pos = self.match3.chain[match_pos] as usize;
                proof {
                    a = last3(src, a, k);
                }
                i += 1;
                continue;
            }
            if match_len < MAX_MATCH_BY_LENGTH_LEN && best_pos[match_len] == 0 {
                best_pos[match_len] = match_pos + 1;
            }
            if match_len > *lb_len {
                *lb_len = match_len;
                *lb_pos = match_pos;
                if match_len == s.wind_sz || match_len > self.match3.best_len[match_pos] as usize {
                    break;
                }
            }
            match_pos = self.match3.chain[match_pos] as usize;
            proof {
                a = last3(src, a, k);
            }
            i += 1;
        }
    }

    /// One step past a position covered by a match: the position enters the
    /// dictionary without being searched.
    #[verifier::rlimit(40)]
    fn skip_step(&mut self, s: &mut State)
        requires
            old(self).inv(old(s)),
            old(s).cur@ < old(s).src@.len(),
        ensures
            final(self).inv(final(s)),
            final(self).bls@ == old(self).bls@.push((MAX_MATCH_LEN + 1) as int),
            final(s).src == old(s).src,
            final(s).w0 == old(s).w0,
            final(s).cur@ == old(s).cur@ + 1,
    {
        let ghost src = s.src@;
        let ghost w0 = s.w0@;
        let ghost t = s.cur@;
        let ghost lo = lo3(t);
        let ghost m3a = self.match3;
        let ghost m2a = self.match2;
        let ghost buf0 = self.buffer@;
        proof {
            Self::lemma_keys(self.buffer@, s);
            if t >= MAX_DIST {
                lemma_count3_drop(src, lo, t, key3(src, lo));
            }
        }
        self.reset_next_input_entry(s);
        proof {
            if t >= MAX_DIST {
                lemma_chains_remove(m3a, self.match3, src, lo, t);
                lemma_heads2_remove(m2a, self.match2, src, lo, t);
            }
            lemma_count3_bound(src, lo3(t + 1), t, key3(src, t));
        }
        let ghost m3b = self.match3;
        self.match3.skip_advance(s, self.buffer.as_slice());
        self.bls = Ghost(self.bls@.push((MAX_MATCH_LEN + 1) as int));
        proof {
            lemma_idx_add(t, 0);
            assert forall|b: int| lo3(t + 1) <= b < t + 1 implies self.match3.best_len@[#[trigger] idx(b)] as int == self.bls@[b] by {
                if b < t {
                    lemma_idx_distinct(b, t);
                }
            }
        }
        proof {
            lemma_chains_insert(m3b, self.match3, src, lo3(t + 1), t);
        }
        let ghost m2b = self.match2;
        self.match2.add(s.wind_b as u16, self.buffer.as_slice());
        proof {
            lemma_heads2_insert(m2b, self.match2, src, lo3(t + 1), t);
        }
        s.get_byte(self.buffer.as_mut_slice());
        proof {
            lemma_buffer_write(
                buf0,
                self.buffer@,
                src,
                buf_lo(t, w0),
                buf_hi(t, w0),
                buf_lo(t + 1, w0),
                buf_hi(t + 1, w0),
                t + w0,
            );
        }
    }

    /// Ends the step at the window start, already added to the chains: the
    /// oldest position leaves the dictionary when its entry is about to be
    /// reused, the window start enters the 2-byte table, and the window moves.
    #[verifier::rlimit(40)]
    fn finish_step(&mut self, s: &mut State)
        requires
            old(self).wf(),
            old(s).wf(),
            old(s).cur@ <= old(s).src@.len(),
            old(s).cycle1_countdown == countdown(old(s).cur@),
            buffer_holds(old(self).buffer@, old(s).src@, buf_lo(old(s).cur@, old(s).w0@), buf_hi(old(s).cur@, old(s).w0@)),
            chains_hold(old(self).match3, old(s).src@, lo3(old(s).cur@), old(s).cur@ + 1),
            heads2_hold(old(self).match2, old(s).src@, lo3(old(s).cur@), old(s).cur@),
            best_lens_hold(old(self).match3, old(self).bls@, lo3(old(s).cur@), old(s).cur@ + 1),
        ensures
            final(self).inv(final(s)),
            final(self).bls == old(self).bls,
            final(self).match3.best_len == old(self).match3.best_len,
            final(s).src == old(s).src,
            final(s).w0 == old(s).w0,
            final(s).cur@ == old(s).cur@ + 1,
            final(s).buf_sz == old(s).buf_sz,
            final(s).bufp == old(s).bufp,
    {
        let ghost src = s.src@;
        let ghost w0 = s.w0@;
        let ghost t = s.cur@;
        let ghost lo = lo3(t);
        proof {
            Self::lemma_keys(self.buffer@, s);
        }
        let ghost m3b = self.match3;
        let ghost m2a = self.match2;
        let ghost buf0 = self.buffer@;
        proof {
            if t >= MAX_DIST {
                lemma_count3_drop(src, lo, t + 1, key3(src, lo));
            }
        }
        self.reset_next_input_entry(s);
        proof {
            if t >= MAX_DIST {
                lemma_chains_remove(m3b, self.match3, src, lo, t + 1);
                lemma_heads2_remove(m2a, self.match2, src, lo, t);
            }
        }
        let ghost m2b = self.match2;
        self.match2.add(s.wind_b as u16, self.buffer.as_slice());
        proof {
            lemma_heads2_insert(m2b, self.match2, src, lo3(t + 1), t);
        }
        s.get_byte(self.buffer.as_mut_slice());
        proof {
            lemma_buffer_write(
                buf0,
                self.buffer@,
                src,
                buf_lo(t, w0),
                buf_hi(t, w0),
                buf_lo(t + 1, w0),
                buf_hi(t + 1, w0),
                t + w0,
            );
        }

    }

    /// Adds the window start to the chains and looks for the longest match
    /// there. Gives the byte at the window start, or `None` at the end of
    /// the input.
    #[verifier::rlimit(80)]
    #[verifier::spinoff_prover]
    fn search_window(
        &mut self,
        s: &State,
        lb_off: &mut usize,
        lb_len: &mut usize,
        best_off: &mut [usize; MAX_MATCH_BY_LENGTH_LEN],
    ) -> (best_char: Option<u8>)
        requires
            old(self).inv(s),
            s.cur@ <= s.src@.len(),
        ensures
            final(self).wf(),
            final(self).buffer == old(self).buffer,
            final(self).match2 == old(self).match2,
            chains_hold(final(self).match3, s.src@, lo3(s.cur@), s.cur@ + 1),
            best_char is None <==> s.cur@ == s.src@.len(),
            s.cur@ == s.src@.len() ==> *final(lb_len) == 1,
            s.cur@ < s.src@.len() ==> found_match(s.src@, s.cur@, *final(lb_len) as int, *final(lb_off) as int, final(best_off)@),
            s.cur@ < s.src@.len() ==> *final(lb_len) <= s.wind_sz,
            s.cur@ < s.src@.len() && s.wind_sz >= 2 && last2(s.src@, s.cur@, key2(s.src@, s.cur@)) >= lo3(s.cur@)
                ==> *final(lb_len) >= 2,
            s.cur@ < s.src@.len() && s.wind_sz >= 3 && last3(s.src@, s.cur@, key3(s.src@, s.cur@)) >= lo3(s.cur@)
                ==> forall|l: int|
                2 <= l <= s.wind_sz && #[trigger] agree(s.src@, s.cur@, last3(s.src@, s.cur@, key3(s.src@, s.cur@)), l)
                    ==> *final(lb_len) >= l,
            final(self).bls@ == old(self).bls@.push(bl_after(s.src@, s.cur@, old(self).bls@)),
            best_lens_hold(final(self).match3, final(self).bls@, lo3(s.cur@), s.cur@ + 1),
            *final(lb_len) == search_abs(s.src@, s.cur@, old(self).bls@).0,
            *final(lb_off) == search_abs(s.src@, s.cur@, old(self).bls@).1,
            s.wind_sz <= 1 ==> final(best_off)@ == old(best_off)@,
            s.wind_sz >= 2 ==> final(best_off)@[0] == old(best_off)@[0] && final(best_off)@[1] == old(best_off)@[1],
            s.wind_sz >= 2 ==> forall|l: int|
                2 <= l < MAX_MATCH_BY_LENGTH_LEN ==> #[trigger] final(best_off)@[l] as int == search_abs(
                    s.src@,
                    s.cur@,
                    old(self).bls@,
                ).2[l],
    {
        let ghost src = s.src@;
        let ghost w0 = s.w0@;
        let ghost t = s.cur@;
        let ghost lo = lo3(t);
        let ghost k = key3(src, t);
        let ghost bls0 = self.bls@;
        let ghost bo0 = best_off@;
        let ghost r = search_abs(src, t, bls0);

        *lb_len = 1;
        *lb_off = 0;
        let mut lb_pos: usize = 0;

        let mut best_pos = [0usize; 34];
        let mut match_pos: usize = 0;
        let mut match_count: usize = 0;

        proof {
            Self::lemma_keys(self.buffer@, s);
            lemma_count3_bound(src, lo, t, k);
            lemma_last3(src, lo, t, k);
        }
        let ghost m3a = self.match3;
        self.match3.advance(s, &mut match_pos, &mut match_count, self.buffer.as_slice());
        proof {
            lemma_chains_insert(m3a, self.match3, src, lo, t);
        }

        let mut best_char = Some(self.buffer[s.wind_b]);
        let best_len = *lb_len;

        if *lb_len >= s.wind_sz {
            if s.wind_sz == 0 {
                best_char = None
            }
            *lb_off = 0;
            self.match3.best_len[s.wind_b] = MAX_MATCH_LEN as u16 + 1;
            self.bls = Ghost(bls0.push((MAX_MATCH_LEN + 1) as int));
            proof {
                lemma_idx_add(t, 0);
                assert forall|b: int| lo <= b < t + 1 implies self.match3.best_len@[#[trigger] idx(b)] as int == self.bls@[b] by {
                    if b < t {
                        lemma_idx_distinct(b, t);
                    }
                }
            }
        } else {
            let found2 = self.match2.search(s, &mut lb_pos, lb_len, &mut best_pos, self.buffer.as_slice());
            proof {
                if found2 {
                    // The latest position with the same 2-byte prefix.
                    let p = lb_pos as int;
                    let a = recent(p, t);
                    lemma_recent(p, t);
                    assert(ext(src, a) == ext(src, t) && ext(src, a + 1) == ext(src, t + 1));
                    assert(valid_match(src, t, 2, t - a));
                }
            }
            proof {
                lemma_last2(src, t, key2(src, t));
                if s.wind_sz >= 2 && last2(src, t, key2(src, t)) >= lo {
                    lemma_idx_add(last2(src, t, key2(src, t)), 0);
                    assert(found2);
                }
            }
            let ghost lb_len1 = *lb_len as int;
            let ghost lb_pos1 = lb_pos as int;
            let ghost best_pos1 = best_pos@;
            if found2 && s.wind_sz >= 3 {
                self.search_chain(s, match_pos, match_count, lb_len, &mut lb_pos, &mut best_pos);
            }
            proof {
                lemma_last2(src, t, key2(src, t));
                lemma_search_rel(
                    self.buffer@,
                    self.match3,
                    src,
                    t,
                    w0,
                    bls0,
                    match_pos as int,
                    match_count as int,
                    found2,
                    lb_len1,
                    lb_pos1,
                    best_pos1,
                    *lb_len as int,
                    lb_pos as int,
                    best_pos@,
                );
            }
            proof {
                let a = last3(src, t, k);
                if s.wind_sz >= 3 && a >= lo {
                    assert forall|l: int| 2 <= l <= s.wind_sz && #[trigger] agree(src, t, a, l) implies *lb_len >= l by {
                        // The 2-byte table holds a position with the prefix of `t`.
                        lemma_agree_at(src, t, a, l, 0);
                        lemma_agree_at(src, t, a, l, 1);
                        assert(key2(src, a) == key2(src, t));
                        lemma_last2(src, t, key2(src, t));
                        lemma_idx_add(last2(src, t, key2(src, t)), 0);
                        assert(found2);
                        // The chain starts at `a`.
                        lemma_last3(src, lo, t, k);
                        let buf = self.buffer@;
                        let wb = s.wind_b as int;
                        let wsz = s.wind_sz as int;
                        let x = buf.subrange(wb, wb + wsz);
                        let y = buf.subrange(idx(a), buf.len() as int);
                        lemma_idx_add(a, 0);
                        lemma_idx_add(t, 0);
                        assert forall|j: int| 0 <= j < l implies x[j] == y[j] by {
                            lemma_read(buf, src, buf_lo(t, w0), buf_hi(t, w0), t, j);
                            lemma_read(buf, src, buf_lo(t, w0), buf_hi(t, w0), a, j);
                        }
                        lemma_common_len_ge(x, y, 0, l);
                        lemma_walk_first(
                            buf,
                            self.match3.chain@,
                            self.match3.best_len@,
                            wb,
                            wsz,
                            match_pos as int,
                            match_count as int,
                            lb_len1,
                            lb_pos1,
                            best_pos1,
                            l,
                        );
                    }
                }
            }
            if *lb_len > best_len {
                *lb_off = s.pos2off(lb_pos);
                proof {
                    lemma_pos2off(lb_pos as int, t);
                    lemma_recent_idx(t - r.1, t);
                }
            }
            self.match3.best_len[s.wind_b] = *lb_len as u16;
            self.bls = Ghost(bls0.push(*lb_len as int));
            proof {
                lemma_idx_add(t, 0);
                assert forall|b: int| lo <= b < t + 1 implies self.match3.best_len@[#[trigger] idx(b)] as int == self.bls@[b] by {
                    if b < t {
                        lemma_idx_distinct(b, t);
                    }
                }
            }
            let mut i: usize = 2;
            while i < MAX_MATCH_BY_LENGTH_LEN
                invariant
                    2 <= i <= MAX_MATCH_BY_LENGTH_LEN,
                    s.wf(),
                    t == s.cur@,
                    src == s.src@,
                    forall|l: int|
                        2 <= l < MAX_MATCH_BY_LENGTH_LEN && #[trigger] best_pos@[l] != 0 ==> valid_pos(src, t, best_pos@[l] - 1, l),
                    forall|l: int| 2 <= l < i && #[trigger] best_off@[l] != 0 ==> valid_match(src, t, l, best_off@[l] as int),
                    offs_rel(best_pos@, r.2, t, lo),
                    lo == lo3(t),
                    r == search_abs(src, t, bls0),
                    forall|l: int| 2 <= l < i ==> #[trigger] best_off@[l] as int == r.2[l],
                    best_off@[0] == bo0[0],
                    best_off@[1] == bo0[1],
                decreases MAX_MATCH_BY_LENGTH_LEN - i,
            {
                best_off[i] = if best_pos[i] > 0 {
                    proof {
                        lemma_pos2off(best_pos@[i as int] - 1, t);
                        lemma_idx_add(t, 0);
                        assert(r.2[i as int] != 0);
                        assert(off_rel(best_pos@[i as int] - 1, r.2[i as int], t, lo));
                        lemma_recent_idx(t - r.2[i as int], t);
                    }
                    s.pos2off(best_pos[i].wrapping_sub(1))
                } else {
                    0
                };
                i += 1;
            }
        }
        proof {
            assert(chains_hold(self.match3, src, lo, t + 1));
        }
        best_char
    }

    /// Moves the window one position forward after a match of `*lb_len`
    /// bytes when `skip` (entering the positions it covers into the
    /// dictionary), then looks for a match at the window start and moves past
    /// it. The match found is given by `*lb_len` (1 when there is none, 0 at
    /// the end of the input) and `*lb_off`, and matches of each shorter length
    /// by `best_off`.
    pub(crate) fn advance(
        &mut self,
        s: &mut State,
        lb_off: &mut usize,
        lb_len: &mut usize,
        best_off: &mut [usize; MAX_MATCH_BY_LENGTH_LEN],
        skip: bool,
    )
        requires
            old(self).inv(old(s)),
            skip ==> 1 <= *old(lb_len) && old(s).cur@ + *old(lb_len) - 1 <= old(s).src@.len(),
            !skip ==> old(s).cur@ <= old(s).src@.len(),
        ensures
            final(self).inv(final(s)),
            final(s).src == old(s).src,
            final(s).w0 == old(s).w0,
            ({
                let t = if skip { old(s).cur@ + *old(lb_len) - 1 } else { old(s).cur@ };
                let src = old(s).src@;
                &&& final(s).cur@ == t + 1
                &&& t == src.len() ==> final(s).buf_sz == 0 && *final(lb_len) == 0 && final(s).bufp == src.len()
                &&& t < src.len() ==> {
                    &&& final(s).buf_sz == if t + 1 + old(s).w0@ <= src.len() { old(s).w0@ + 1 } else { src.len() - t }
                    &&& final(s).bufp == t
                    &&& *final(lb_len) <= final(s).buf_sz
                    &&& window(src, t, old(s).w0@) >= 2 && last2(src, t, key2(src, t)) >= lo3(t) ==> *final(lb_len) >= 2
                    &&& window(src, t, old(s).w0@) >= 3 && last3(src, t, key3(src, t)) >= lo3(t) ==> forall|l: int|
                        2 <= l <= window(src, t, old(s).w0@) && #[trigger] agree(src, t, last3(src, t, key3(src, t)), l)
                            ==> *final(lb_len) >= l
                    &&& missed(src, t) ==> *final(lb_len) >= 4
                }
            }),
            ({
                let t = if skip { old(s).cur@ + *old(lb_len) - 1 } else { old(s).cur@ };
                let src = old(s).src@;
                let bls_t = old(self).bls@ + Seq::new((t - old(s).cur@) as nat, |i: int| (MAX_MATCH_LEN + 1) as int);
                let r = search_abs(src, t, bls_t);
                &&& final(self).bls@ == bls_t.push(bl_after(src, t, bls_t))
                &&& t < src.len() ==> *final(lb_len) == r.0 && *final(lb_off) == r.1
                &&& window(src, t, old(s).w0@) <= 1 ==> final(best_off)@ == old(best_off)@
                &&& window(src, t, old(s).w0@) >= 2 ==> {
                    &&& final(best_off)@[0] == old(best_off)@[0]
                    &&& final(best_off)@[1] == old(best_off)@[1]
                    &&& forall|l: int| 2 <= l < MAX_MATCH_BY_LENGTH_LEN ==> #[trigger] final(best_off)@[l] as int == r.2[l]
                    &&& found_match(src, t, *final(lb_len) as int, *final(lb_off) as int, final(best_off)@)
                }
            }),
    {
        let ghost src = s.src@;
        let ghost w0 = s.w0@;
        if skip {
            let n = *lb_len - 1;
            let mut i: usize = 0;
            while i < n
                invariant
                    self.inv(s),
                    s.src@ == src,
                    s.w0@ == w0,
                    s.cur@ == old(s).cur@ + i,
                    self.bls@ == old(self).bls@ + Seq::new(i as nat, |j: int| (MAX_MATCH_LEN + 1) as int),
                    i <= n,
                    old(s).cur@ + n <= src.len(),
                decreases n - i,
            {
                let ghost b0 = self.bls@;
                self.skip_step(s);
                proof {
                    assert(old(self).bls@ + Seq::new((i + 1) as nat, |j: int| (MAX_MATCH_LEN + 1) as int) =~= b0.push(
                        (MAX_MATCH_LEN + 1) as int,
                    ));
                }
                i += 1;
            }
        }
        let ghost t = s.cur@;
        let best_char = self.search_window(s, lb_off, lb_len, best_off);

        self.finish_step(s);

        if best_char.is_none() {
            s.buf_sz = 0;
            *lb_len = 0
            /* Signal exit */
        } else {
            s.buf_sz = s.wind_sz + 1;
        }
        s.bufp = s.inp - s.buf_sz;
        proof {
            if t < src.len() && missed(src, t) {
                lemma_missed_found(src, t, w0, *lb_len as int);
            }
        }
    }

    /// Drops the oldest position from the chains and the 2-byte table once
    /// the buffer entry at the window end is about to be reused; counts down
    /// until then.
    pub fn reset_next_input_entry(&mut self, s: &mut State)
        requires
            old(self).wf(),
            old(s).wind_e < BUF_SIZE,
            old(s).cycle1_countdown == 0 ==> ({
                let b = old(self).buffer@;
                let we = old(s).wind_e as int;
                old(self).match3.chain_sz@[hash3(b[we], b[we + 1], b[we + 2]) as int] > 0
            }),
        ensures
            final(self).wf(),
            final(self).buffer == old(self).buffer,
            final(self).bls == old(self).bls,
            final(s).src == old(s).src,
            final(s).inp == old(s).inp,
            final(s).wind_sz == old(s).wind_sz,
            final(s).wind_b == old(s).wind_b,
            final(s).wind_e == old(s).wind_e,
            final(s).bufp == old(s).bufp,
            final(s).buf_sz == old(s).buf_sz,
            final(s).cur == old(s).cur,
            final(s).w0 == old(s).w0,
            old(s).cycle1_countdown > 0 ==> {
                &&& final(s).cycle1_countdown == old(s).cycle1_countdown - 1
                &&& final(self).match3 == old(self).match3
                &&& final(self).match2 == old(self).match2
            },
            old(s).cycle1_countdown == 0 ==> ({
                let b = old(self).buffer@;
                let we = old(s).wind_e as int;
                let k3 = hash3(b[we], b[we + 1], b[we + 2]) as int;
                let k2 = b[we] + 256 * b[we + 1];
                &&& final(s).cycle1_countdown == 0
                &&& final(self).match3.best_len == old(self).match3.best_len
                &&& final(self).match3.chain == old(self).match3.chain
                &&& final(self).match3.head == old(self).match3.head
                &&& final(self).match3.chain_sz@ == old(self).match3.chain_sz@.update(k3, (old(self).match3.chain_sz@[k3] - 1) as u16)
                &&& final(self).match2.head@ == if old(self).match2.head@[k2] == we as u16 {
                    old(self).match2.head@.update(k2, u16::MAX)
                } else {
                    old(self).match2.head@
                }
            }),
    {
        /* Remove match from about-to-be-clobbered buffer entry */
        if s.cycle1_countdown == 0 {
            self.match3.remove(s.wind_e, self.buffer.as_slice());
            self.match2.remove(s.wind_e, self.buffer.as_slice());
        } else {
            s.cycle1_countdown -= 1;
        }
    }
}

impl Default for Match3 {
    fn default() -> (r: Self)
        ensures
            r.wf(),
            r.fresh(),
    {
        Self::new()
    }
}

impl Default for Match2 {
    fn default() -> (r: Self)
        ensures
            r.wf(),
            forall|k: int| 0 <= k < 0x10000 ==> #[trigger] r.head@[k] == u16::MAX,
    {
        Self::new()
    }
}

impl Default for Dict {
    fn default() -> (d: Self)
        ensures
            d.wf(),
            d.fresh(),
    {
        Self::new()
    }
}

} // verus!
