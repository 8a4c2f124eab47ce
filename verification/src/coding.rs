//! The mathematics of boolean arithmetic coding.
//!
//! A coded stream is a sequence of symbols, each one bit written at a
//! probability. Writing narrows an interval of integers; the bytes of the
//! stream are the lower end of the last interval. Reading follows the same
//! intervals from the bytes. Nothing in this file is executable: it is the
//! model that the coder and the decoder are proved against.
use vstd::arithmetic::div_mod::*;
use vstd::arithmetic::mul::*;
use vstd::arithmetic::power2::*;
use vstd::prelude::*;

verus! {

/// One coded symbol: a bit, and the probability (of 256) that it is zero.
pub struct Sym {
    pub bit: bool,
    pub prob: u8,
}

/// The symbol `bit` at probability `prob`.
pub open spec fn sym(bit: bool, prob: u8) -> Sym {
    Sym { bit, prob }
}

/// Where an interval of `range` values is cut at probability `prob`.
pub open spec fn split_at(range: int, prob: int) -> int {
    1 + ((range - 1) * prob) / 256
}

/// The number of doublings that bring `range` back into `128..=255`.
pub open spec fn norm_shift(range: int) -> nat {
    if range >= 128 {
        0
    } else if range >= 64 {
        1
    } else if range >= 32 {
        2
    } else if range >= 16 {
        3
    } else if range >= 8 {
        4
    } else if range >= 4 {
        5
    } else if range >= 2 {
        6
    } else {
        7
    }
}

/// The interval `[low, low + range)` of integers of `bits + 8` bits.
pub struct Interval {
    pub low: int,
    pub range: int,
    pub bits: nat,
}

/// The interval that is left of `iv` once `s` has been coded.
pub open spec fn narrow(iv: Interval, s: Sym) -> Interval {
    let cut = split_at(iv.range, s.prob as int);
    let (low, range) = if s.bit {
        (iv.low + cut, iv.range - cut)
    } else {
        (iv.low, cut)
    };
    let shift = norm_shift(range);
    Interval {
        low: low * pow2(shift),
        range: range * pow2(shift),
        bits: iv.bits + shift,
    }
}

/// The interval that codes `syms`. Before the first symbol it is what the
/// marker bit, a zero at probability 128, leaves of the full range.
pub open spec fn interval(syms: Seq<Sym>) -> Interval
    decreases syms.len(),
{
    if syms.len() == 0 {
        Interval { low: 0, range: 128, bits: 0 }
    } else {
        narrow(interval(syms.drop_last()), syms.last())
    }
}

/// An interval is well formed: its range is normalised and it lies within the
/// integers of its width.
pub open spec fn proper(iv: Interval) -> bool {
    &&& 128 <= iv.range <= 255
    &&& 0 <= iv.low
    &&& iv.low + iv.range <= pow2(iv.bits + 8)
}

/// Bit `i` of `data`, most significant bit of the first byte first. Past the
/// end every bit is zero.
pub open spec fn data_bit(data: Seq<u8>, i: nat) -> int {
    if i / 8 < data.len() {
        (data[(i / 8) as int] as int / pow2((7 - i % 8) as nat) as int) % 2
    } else {
        0
    }
}

/// The integer made of the `n` bits of `data` from bit `pos` on.
pub open spec fn take_bits(data: Seq<u8>, pos: nat, n: nat) -> int
    decreases n,
{
    if n == 0 {
        0
    } else {
        2 * take_bits(data, pos, (n - 1) as nat) + data_bit(data, (pos + n - 1) as nat)
    }
}

/// The integer that `bytes` spell, most significant byte first.
pub open spec fn number(bytes: Seq<u8>) -> int
    decreases bytes.len(),
{
    if bytes.len() == 0 {
        0
    } else {
        number(bytes.drop_last()) * 256 + bytes.last()
    }
}

/// The `n` low bytes of `v`, most significant byte first.
pub open spec fn spell(v: int, n: nat) -> Seq<u8>
    decreases n,
{
    if n == 0 {
        Seq::empty()
    } else {
        spell(v / 256, (n - 1) as nat).push((v % 256) as u8)
    }
}

/// How far the closing run of 32 zeros at probability 128 shifts an interval.
pub open spec fn flush_shift(range: int) -> nat {
    if range == 255 {
        31
    } else {
        32
    }
}

/// The number of bytes of the stream whose last interval is `iv`.
pub open spec fn code_len(iv: Interval) -> nat {
    ((iv.bits + flush_shift(iv.range) - 16) / 8) as nat
}

/// The finished stream that codes `syms`: the low end of their interval,
/// written out in whole bytes.
pub open spec fn code_bytes(syms: Seq<Sym>) -> Seq<u8> {
    let iv = interval(syms);
    spell(iv.low * pow2((8 * code_len(iv) - iv.bits - 8) as nat), code_len(iv))
}

/// The state of a decoder: what it reads, the eight bits under comparison, the
/// current range, the index of the next bit to move into the window, and the
/// number of bytes fetched so far.
pub struct Cursor {
    pub data: Seq<u8>,
    pub window: int,
    pub range: int,
    pub next: nat,
    pub loaded: nat,
}

/// The number of bytes fetched once the eight bits under comparison are there:
/// bytes are fetched only when one of those bits is missing, and then as many
/// whole bytes as fit beside the bits that a 64-bit register still holds.
pub open spec fn fetched(c: Cursor) -> nat {
    if 8 * c.loaded >= c.next || c.loaded >= c.data.len() {
        c.loaded
    } else {
        let more = c.loaded + (56 + c.next - 8 * c.loaded) / 8;
        if more <= c.data.len() {
            more as nat
        } else {
            c.data.len()
        }
    }
}

/// The bit that a read at probability `prob` returns.
pub open spec fn read_bit(c: Cursor, prob: u8) -> bool {
    c.window >= split_at(c.range, prob as int)
}

/// The state after a read at probability `prob`.
pub open spec fn read_next(c: Cursor, prob: u8) -> Cursor {
    let cut = split_at(c.range, prob as int);
    let (window, range) = if c.window >= cut {
        (c.window - cut, c.range - cut)
    } else {
        (c.window, cut)
    };
    let shift = norm_shift(range);
    Cursor {
        data: c.data,
        window: (window * pow2(shift) + take_bits(c.data, c.next, shift)) % 256,
        range: range * pow2(shift),
        next: c.next + shift,
        loaded: fetched(c),
    }
}

/// The state before the marker bit: the whole range, and the first byte.
pub open spec fn unopened(data: Seq<u8>) -> Cursor {
    Cursor { data, window: take_bits(data, 0, 8), range: 255, next: 8, loaded: 0 }
}

/// The state in which a decoder of `data` starts: past the marker bit.
pub open spec fn opened(data: Seq<u8>) -> Cursor {
    read_next(unopened(data), 128)
}

/// The state after one read at each of the probabilities of `syms`.
pub open spec fn after(c: Cursor, syms: Seq<Sym>) -> Cursor
    decreases syms.len(),
{
    if syms.len() == 0 {
        c
    } else {
        after(read_next(c, syms[0].prob), syms.drop_first())
    }
}

/// Reading at the probabilities of `syms` from `c` on returns their bits.
pub open spec fn holds(c: Cursor, syms: Seq<Sym>) -> bool
    decreases syms.len(),
{
    if syms.len() == 0 {
        true
    } else {
        read_bit(c, syms[0].prob) == syms[0].bit && holds(
            read_next(c, syms[0].prob),
            syms.drop_first(),
        )
    }
}

// ---------------------------------------------------------------------------
// Bits and bytes
// ---------------------------------------------------------------------------

/// The bits of two adjoining spans make up the bits of their union.
pub proof fn lemma_take_split(data: Seq<u8>, pos: nat, a: nat, b: nat)
    ensures
        take_bits(data, pos, a + b) == take_bits(data, pos, a) * pow2(b) + take_bits(
            data,
            pos + a,
            b,
        ),
    decreases b,
{
    if b == 0 {
        lemma2_to64();
    } else {
        lemma_pow2_unfold(b);
        let c = (b - 1) as nat;
        lemma_take_split(data, pos, a, c);
        let t = take_bits(data, pos, a);
        assert(2 * (t * pow2(c)) == t * (2 * pow2(c))) by (nonlinear_arith);
        assert((a + b - 1) as nat == a + c);
        assert((pos + (a + b) - 1) as nat == ((pos + a) + b - 1) as nat);
    }
}

/// `n` bits make an integer below `2^n`.
pub proof fn lemma_take_bound(data: Seq<u8>, pos: nat, n: nat)
    ensures
        0 <= take_bits(data, pos, n) < pow2(n),
    decreases n,
{
    if n == 0 {
        lemma2_to64();
    } else {
        lemma_pow2_unfold(n);
        lemma_take_bound(data, pos, (n - 1) as nat);
    }
}

/// Past the end of the data all bits are zero.
pub proof fn lemma_take_past_end(data: Seq<u8>, pos: nat, n: nat)
    requires
        pos >= 8 * data.len(),
    ensures
        take_bits(data, pos, n) == 0,
    decreases n,
{
    if n > 0 {
        lemma_take_past_end(data, pos, (n - 1) as nat);
    }
}

/// The eight bits of a byte are the byte.
pub proof fn lemma_take_byte(data: Seq<u8>, k: nat)
    requires
        k < data.len(),
    ensures
        take_bits(data, 8 * k, 8) == data[k as int],
{
    lemma2_to64();
    let d = data[k as int] as int;
    assert forall|j: nat| j < 8 implies #[trigger] data_bit(data, 8 * k + j) == (d / pow2(
        (7 - j) as nat,
    ) as int) % 2 by {
        assert((8 * k + j) / 8 == k);
        assert((8 * k + j) % 8 == j);
    }
    let t = |n: nat| take_bits(data, 8 * k, n);
    assert(t(0) == 0);
    assert(t(1) == 2 * t(0) + data_bit(data, 8 * k + 0));
    assert(t(1) == d / 128);
    assert(t(2) == 2 * t(1) + data_bit(data, 8 * k + 1));
    assert(t(2) == d / 64);
    assert(t(3) == 2 * t(2) + data_bit(data, 8 * k + 2));
    assert(t(3) == d / 32);
    assert(t(4) == 2 * t(3) + data_bit(data, 8 * k + 3));
    assert(t(4) == d / 16);
    assert(t(5) == 2 * t(4) + data_bit(data, 8 * k + 4));
    assert(t(5) == d / 8);
    assert(t(6) == 2 * t(5) + data_bit(data, 8 * k + 5));
    assert(t(6) == d / 4);
    assert(t(7) == 2 * t(6) + data_bit(data, 8 * k + 6));
    assert(t(7) == d / 2);
    assert(t(8) == 2 * t(7) + data_bit(data, 8 * k + 7));
    assert(data_bit(data, 8 * k + 7) == (d / 1) % 2);
    assert(d / 1 == d);
}

/// Appending a byte changes none of the bits before it.
pub proof fn lemma_take_of_push(data: Seq<u8>, b: u8, pos: nat, n: nat)
    requires
        pos + n <= 8 * data.len(),
    ensures
        take_bits(data.push(b), pos, n) == take_bits(data, pos, n),
    decreases n,
{
    if n > 0 {
        lemma_take_of_push(data, b, pos, (n - 1) as nat);
    }
}

/// All the bits of some bytes make the number that the bytes spell.
pub proof fn lemma_take_all(data: Seq<u8>)
    ensures
        take_bits(data, 0, 8 * data.len()) == number(data),
    decreases data.len(),
{
    if data.len() > 0 {
        let init = data.drop_last();
        lemma_take_all(init);
        assert(data =~= init.push(data.last()));
        lemma_take_of_push(init, data.last(), 0, 8 * init.len());
        lemma_take_split(data, 0, 8 * init.len(), 8);
        lemma_take_byte(data, init.len());
        lemma2_to64();
    }
}

/// Spelling the number of some bytes gives the bytes back.
pub proof fn lemma_spell_number(bytes: Seq<u8>)
    ensures
        spell(number(bytes), bytes.len()) == bytes,
    decreases bytes.len(),
{
    if bytes.len() > 0 {
        lemma_spell_number(bytes.drop_last());
        let v = number(bytes);
        assert(v / 256 == number(bytes.drop_last()));
        assert(v % 256 == bytes.last());
        assert(spell(v, bytes.len()) =~= bytes.drop_last().push(bytes.last()));
    }
}

/// A number that fits is what its spelling says.
pub proof fn lemma_number_spell(v: int, n: nat)
    requires
        0 <= v < pow2(8 * n),
    ensures
        spell(v, n).len() == n,
        number(spell(v, n)) == v,
    decreases n,
{
    if n == 0 {
        lemma2_to64();
    } else {
        let m = (n - 1) as nat;
        lemma_pow2_adds(8 * m, 8);
        lemma2_to64();
        assert(v / 256 < pow2(8 * m));
        lemma_number_spell(v / 256, m);
        assert(spell(v, n).drop_last() =~= spell(v / 256, m));
    }
}

// ---------------------------------------------------------------------------
// Intervals
// ---------------------------------------------------------------------------

/// The cut lies strictly inside the range.
pub proof fn lemma_split_inside(range: int, prob: int)
    requires
        128 <= range <= 255,
        0 <= prob <= 255,
    ensures
        1 <= split_at(range, prob) < range,
{
    assert(0 <= (range - 1) * prob <= (range - 1) * 255) by (nonlinear_arith)
        requires
            128 <= range <= 255,
            0 <= prob <= 255,
    ;
}

/// Normalising brings a range into `128..=255`.
pub proof fn lemma_norm(range: int)
    requires
        1 <= range <= 255,
    ensures
        128 <= range * pow2(norm_shift(range)) <= 255,
        norm_shift(range) <= 7,
{
    lemma2_to64();
    let p = pow2(norm_shift(range)) as int;
    assert(128 <= range * p <= 255) by (nonlinear_arith)
        requires
            1 <= range <= 255,
            (range >= 128 && p == 1) || (64 <= range < 128 && p == 2) || (32 <= range < 64 && p
                == 4) || (16 <= range < 32 && p == 8) || (8 <= range < 16 && p == 16) || (4
                <= range < 8 && p == 32) || (2 <= range < 4 && p == 64) || (range == 1 && p
                == 128),
    ;
}

/// Narrowing keeps an interval well formed, and the narrower interval, scaled
/// back, lies within the wider one.
pub proof fn lemma_narrow(iv: Interval, s: Sym)
    requires
        proper(iv),
    ensures
        proper(narrow(iv, s)),
        narrow(iv, s).bits >= iv.bits,
        iv.low * pow2((narrow(iv, s).bits - iv.bits) as nat) <= narrow(iv, s).low,
        narrow(iv, s).low + narrow(iv, s).range <= (iv.low + iv.range) * pow2(
            (narrow(iv, s).bits - iv.bits) as nat,
        ),
{
    let cut = split_at(iv.range, s.prob as int);
    lemma_split_inside(iv.range, s.prob as int);
    let (low, range) = if s.bit {
        (iv.low + cut, iv.range - cut)
    } else {
        (iv.low, cut)
    };
    lemma_norm(range);
    let n = norm_shift(range);
    let p = pow2(n) as int;
    lemma_pow2_pos(n);
    assert(low * p >= 0) by (nonlinear_arith)
        requires
            low >= 0,
            p > 0,
    ;
    assert(iv.low * p <= low * p) by (nonlinear_arith)
        requires
            iv.low <= low,
            p > 0,
    ;
    assert(low * p + range * p == (low + range) * p) by (nonlinear_arith);
    assert((low + range) * p <= (iv.low + iv.range) * p) by (nonlinear_arith)
        requires
            low + range <= iv.low + iv.range,
            p > 0,
    ;
    lemma_pow2_adds(iv.bits + 8, n);
    assert((iv.low + iv.range) * p <= pow2(iv.bits + 8) * p) by (nonlinear_arith)
        requires
            iv.low + iv.range <= pow2(iv.bits + 8),
            p > 0,
    ;
}

/// Every coded interval is well formed.
pub proof fn lemma_interval_proper(syms: Seq<Sym>)
    ensures
        proper(interval(syms)),
    decreases syms.len(),
{
    if syms.len() == 0 {
        lemma2_to64();
    } else {
        lemma_interval_proper(syms.drop_last());
        lemma_narrow(interval(syms.drop_last()), syms.last());
    }
}

/// The interval of a whole message lies within the interval of each of its
/// beginnings.
pub proof fn lemma_interval_nested(syms: Seq<Sym>, i: int)
    requires
        0 <= i <= syms.len(),
    ensures
        interval(syms.take(i)).bits <= interval(syms).bits,
        interval(syms.take(i)).low * pow2(
            (interval(syms).bits - interval(syms.take(i)).bits) as nat,
        ) <= interval(syms).low,
        interval(syms).low + interval(syms).range <= (interval(syms.take(i)).low + interval(
            syms.take(i),
        ).range) * pow2((interval(syms).bits - interval(syms.take(i)).bits) as nat),
    decreases syms.len() - i,
{
    if i == syms.len() {
        assert(syms.take(i) =~= syms);
        lemma2_to64();
        let iv = interval(syms);
        assert(iv.low * 1 == iv.low && (iv.low + iv.range) * 1 == iv.low + iv.range);
    } else {
        lemma_interval_nested(syms, i + 1);
        let a = interval(syms.take(i));
        let b = interval(syms.take(i + 1));
        let z = interval(syms);
        assert(syms.take(i + 1).drop_last() =~= syms.take(i));
        assert(syms.take(i + 1).last() == syms[i]);
        lemma_interval_proper(syms.take(i));
        lemma_narrow(a, syms[i]);
        let d = (b.bits - a.bits) as nat;
        let e = (z.bits - b.bits) as nat;
        lemma_pow2_adds(d, e);
        let pd = pow2(d) as int;
        let pe = pow2(e) as int;
        lemma_pow2_pos(e);
        assert((z.bits - a.bits) as nat == d + e);
        assert(a.low * (pd * pe) <= b.low * pe) by (nonlinear_arith)
            requires
                a.low * pd <= b.low,
                pe > 0,
        ;
        assert((b.low + b.range) * pe <= (a.low + a.range) * (pd * pe)) by (nonlinear_arith)
            requires
                b.low + b.range <= (a.low + a.range) * pd,
                pe > 0,
        ;
    }
}

/// Zeros at probability 128 leave the low end of an interval in place, and from
/// the second on each shifts it by one bit.
pub proof fn lemma_flush(iv: Interval)
    requires
        proper(iv),
    ensures
        narrow(iv, sym(false, 128)).low == iv.low * pow2(
            (narrow(iv, sym(false, 128)).bits - iv.bits) as nat,
        ),
        narrow(iv, sym(false, 128)).bits == iv.bits + (if iv.range == 255 {
            0int
        } else {
            1
        }),
        narrow(iv, sym(false, 128)).range != 255,
{
    lemma2_to64();
    lemma_narrow(iv, sym(false, 128));
    let cut = split_at(iv.range, 128);
    assert(cut == 1 + (iv.range - 1) / 2);
    assert(cut * 1 == cut && cut * 2 == 2 * cut);
}

/// The finished stream begins with the bits of the low end of its interval.
pub proof fn lemma_code_prefix(syms: Seq<Sym>)
    ensures
        code_bytes(syms).len() == code_len(interval(syms)),
        8 * code_len(interval(syms)) >= interval(syms).bits + 8,
        take_bits(code_bytes(syms), 0, interval(syms).bits + 8) == interval(syms).low,
        take_bits(code_bytes(syms), 0, 8 * code_len(interval(syms))) == interval(syms).low * pow2(
            (8 * code_len(interval(syms)) - interval(syms).bits - 8) as nat,
        ),
{
    lemma_interval_proper(syms);
    let iv = interval(syms);
    let m = code_len(iv);
    let e = (8 * m - iv.bits - 8) as nat;
    assert(8 * m >= iv.bits + 8);
    let v = iv.low * pow2(e);
    lemma_pow2_pos(e);
    lemma_pow2_adds(iv.bits + 8, e);
    assert(0 <= v < pow2(8 * m)) by (nonlinear_arith)
        requires
            v == iv.low * pow2(e),
            0 <= iv.low < pow2(iv.bits + 8),
            pow2(e) > 0,
            pow2(iv.bits + 8) * pow2(e) == pow2(8 * m),
    ;
    lemma_number_spell(v, m);
    let data = code_bytes(syms);
    lemma_take_all(data);
    lemma_take_split(data, 0, iv.bits + 8, e);
    lemma_take_bound(data, iv.bits + 8, e);
    let t = take_bits(data, 0, iv.bits + 8);
    let r = take_bits(data, iv.bits + 8, e);
    assert(t == iv.low) by (nonlinear_arith)
        requires
            t * pow2(e) + r == iv.low * pow2(e),
            0 <= r < pow2(e),
    ;
}

// ---------------------------------------------------------------------------
// Reading back
// ---------------------------------------------------------------------------

/// A decoder of `data` that has read exactly the symbols of `iv` is in state `c`,
/// and the data lies within `iv`.
pub open spec fn tracks(c: Cursor, iv: Interval) -> bool {
    &&& c.range == iv.range
    &&& c.next == iv.bits + 8
    &&& c.window == take_bits(c.data, 0, iv.bits + 8) - iv.low
    &&& 0 <= c.window < c.range
}

/// The leading bits of some data are the leading bits of its longer prefixes.
pub proof fn lemma_prefix_shorter(data: Seq<u8>, a: nat, b: nat)
    requires
        a <= b,
    ensures
        take_bits(data, 0, a) == take_bits(data, 0, b) / pow2((b - a) as nat) as int,
{
    let e = (b - a) as nat;
    lemma_take_split(data, 0, a, e);
    lemma_take_bound(data, a, e);
    lemma_pow2_pos(e);
    let t = take_bits(data, 0, a);
    let r = take_bits(data, a, e);
    let p = pow2(e) as int;
    lemma_fundamental_div_mod_converse(t * p + r, p, t, r);
}

/// One read from a state that tracks an interval returns the coded bit and
/// leads to the state that tracks the narrower interval, as long as the data
/// lies within that.
pub proof fn lemma_read_step(c: Cursor, iv: Interval, s: Sym)
    requires
        proper(iv),
        tracks(c, iv),
        narrow(iv, s).low <= take_bits(c.data, 0, narrow(iv, s).bits + 8) < narrow(iv, s).low
            + narrow(iv, s).range,
    ensures
        read_bit(c, s.prob) == s.bit,
        tracks(read_next(c, s.prob), narrow(iv, s)),
{
    let nv = narrow(iv, s);
    let cut = split_at(iv.range, s.prob as int);
    lemma_split_inside(iv.range, s.prob as int);
    let (low, range) = if s.bit {
        (iv.low + cut, iv.range - cut)
    } else {
        (iv.low, cut)
    };
    lemma_norm(range);
    let n = norm_shift(range);
    let p = pow2(n) as int;
    lemma_pow2_pos(n);
    let t = take_bits(c.data, 0, iv.bits + 8);
    let u = take_bits(c.data, iv.bits + 8, n);
    lemma_take_split(c.data, 0, iv.bits + 8, n);
    lemma_take_bound(c.data, iv.bits + 8, n);
    assert((iv.bits + 8) + n == nv.bits + 8);
    // t * p + u lies in [low * p, (low + range) * p), so t lies in [low, low + range).
    assert(low <= t < low + range) by (nonlinear_arith)
        requires
            low * p <= t * p + u,
            t * p + u < low * p + range * p,
            0 <= u < p,
    ;
    assert(read_bit(c, s.prob) == s.bit);
    let w = t - low;
    assert(w * p + u == (t * p + u) - low * p) by (nonlinear_arith)
        requires
            w == t - low,
    ;
    assert(0 <= w * p + u < range * p);
    lemma_small_mod((w * p + u) as nat, 256);
}

/// The state from which decoding of finished data starts tracks the empty
/// message.
pub proof fn lemma_opened_tracks(data: Seq<u8>)
    requires
        0 <= take_bits(data, 0, 8) < 128,
    ensures
        tracks(opened(data), interval(Seq::empty())),
{
    lemma2_to64();
    lemma_take_bound(data, 8, 0);
    lemma_take_bound(data, 0, 8);
    assert(split_at(255, 128) == 128);
    let w = take_bits(data, 0, 8);
    assert(w * 1 == w);
    assert(take_bits(data, 8, 0) == 0);
    lemma_small_mod(take_bits(data, 0, 8) as nat, 256);
}

/// After the first `i` symbols of a message, the decoder of its finished stream
/// tracks their interval and has the rest before it.
proof fn lemma_decode_from(syms: Seq<Sym>, c: Cursor, i: int)
    requires
        0 <= i <= syms.len(),
        c.data == code_bytes(syms),
        tracks(c, interval(syms.take(i))),
    ensures
        holds(c, syms.skip(i)),
    decreases syms.len() - i,
{
    if i < syms.len() {
        let iv = interval(syms.take(i));
        let nv = interval(syms.take(i + 1));
        assert(syms.take(i + 1).drop_last() =~= syms.take(i));
        assert(syms.take(i + 1).last() == syms[i]);
        lemma_interval_proper(syms.take(i));
        lemma_code_within(syms, i + 1);
        lemma_read_step(c, iv, syms[i]);
        lemma_decode_from(syms, read_next(c, syms[i].prob), i + 1);
        assert(syms.skip(i).drop_first() =~= syms.skip(i + 1));
    }
}

/// A finished stream lies within the interval of each beginning of its message.
proof fn lemma_code_within(syms: Seq<Sym>, i: int)
    requires
        0 <= i <= syms.len(),
    ensures
        interval(syms.take(i)).low <= take_bits(
            code_bytes(syms),
            0,
            interval(syms.take(i)).bits + 8,
        ) < interval(syms.take(i)).low + interval(syms.take(i)).range,
{
    lemma_interval_nested(syms, i);
    lemma_interval_proper(syms);
    lemma_code_prefix(syms);
    let z = interval(syms);
    let a = interval(syms.take(i));
    let d = (z.bits - a.bits) as nat;
    lemma_pow2_pos(d);
    lemma_prefix_shorter(code_bytes(syms), a.bits + 8, z.bits + 8);
    let p = pow2(d) as int;
    let q = z.low / p;
    lemma_fundamental_div_mod(z.low, p);
    lemma_mod_bound(z.low, p);
    let r = z.low % p;
    assert(a.low <= q < a.low + a.range) by (nonlinear_arith)
        requires
            z.low == p * q + r,
            0 <= r < p,
            a.low * p <= z.low,
            z.low < (a.low + a.range) * p,
    ;
}

/// A finished stream has at least one byte.
pub proof fn lemma_code_len(syms: Seq<Sym>)
    ensures
        code_bytes(syms).len() > 0,
{
    lemma_code_prefix(syms);
}

/// Decoding inverts coding: a decoder opened on the finished stream of `syms`
/// reads every one of their bits back, whatever follows.
pub proof fn law_decode_inverts_code(syms: Seq<Sym>)
    ensures
        holds(opened(code_bytes(syms)), syms),
{
    assert(syms.take(0) =~= Seq::empty());
    assert(syms.skip(0) =~= syms);
    lemma_code_within(syms, 0);
    lemma_opened_tracks(code_bytes(syms));
    lemma_decode_from(syms, opened(code_bytes(syms)), 0);
}

// ---------------------------------------------------------------------------
// Composing messages
// ---------------------------------------------------------------------------

/// Reading a message is reading its parts one after the other.
pub proof fn lemma_holds_concat(c: Cursor, a: Seq<Sym>, b: Seq<Sym>)
    ensures
        holds(c, a + b) == (holds(c, a) && holds(after(c, a), b)),
        after(c, a + b) == after(after(c, a), b),
    decreases a.len(),
{
    if a.len() == 0 {
        assert(a + b =~= b);
    } else {
        assert((a + b).drop_first() =~= a.drop_first() + b);
        assert((a + b)[0] == a[0]);
        lemma_holds_concat(read_next(c, a[0].prob), a.drop_first(), b);
    }
}

/// A one-symbol message.
pub proof fn lemma_holds_one(c: Cursor, s: Sym)
    ensures
        holds(c, seq![s]) == (read_bit(c, s.prob) == s.bit),
        after(c, seq![s]) == read_next(c, s.prob),
{
    reveal_with_fuel(holds, 2);
    reveal_with_fuel(after, 2);
    assert(seq![s].drop_first() =~= Seq::<Sym>::empty());
}

/// What is read, and how much of it was fetched at most, behind any reads.
proof fn lemma_fetching(c: Cursor, syms: Seq<Sym>)
    requires
        c.loaded <= c.data.len(),
    ensures
        after(c, syms).data == c.data,
        c.loaded <= after(c, syms).loaded <= c.data.len(),
    decreases syms.len(),
{
    if syms.len() > 0 {
        lemma_fetching(read_next(c, syms[0].prob), syms.drop_first());
    }
}

/// A decoder fetches bytes in order: behind any reads it has fetched some of its data and
/// nothing else, one more read never has it fetched less, and a read that needs a bit
/// behind the end has all of it fetched.
pub proof fn law_fetching_goes_forward(data: Seq<u8>, syms: Seq<Sym>, prob: u8)
    ensures
        ({
            let c = after(opened(data), syms);
            let d = read_next(c, prob);
            &&& c.data == data && d.data == data
            &&& c.loaded <= d.loaded <= data.len()
            &&& c.next > 8 * data.len() ==> d.loaded == data.len()
        }),
{
    lemma_fetching(unopened(data), Seq::empty());
    lemma_fetching(opened(data), syms);
}

/// An interval is cut in the ratio of the probability: what a zero keeps of the values but
/// one is `prob` of 256 parts, rounded down, so more the likelier a zero is.
pub proof fn law_split_follows_probability(range: int, prob: int, likelier: int)
    requires
        1 <= range,
        0 <= prob <= likelier,
    ensures
        ({
            let kept = split_at(range, prob);
            &&& 256 * (kept - 1) <= (range - 1) * prob < 256 * kept
            &&& kept <= split_at(range, likelier)
        }),
{
    assert((range - 1) * prob <= (range - 1) * likelier) by (nonlinear_arith)
        requires
            1 <= range,
            0 <= prob <= likelier,
    ;
}

} // verus!
