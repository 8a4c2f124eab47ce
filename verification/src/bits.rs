//! The two readers of the format: plain bits, most significant first, for the
//! uncompressed header, and arithmetic-coded booleans for everything else.
use vstd::arithmetic::div_mod::*;
use vstd::arithmetic::mul::*;
use vstd::arithmetic::power2::*;
use vstd::bits::*;
use vstd::prelude::*;

use crate::coding;
use crate::coding::Cursor;
use crate::error::{Error, Result};

verus! {

/// A reader of plain bits, most significant bit of each byte first.
pub struct BitReader<'a> {
    data: &'a [u8],
    pos: usize,
}

/// The value of an `n`-bit magnitude at `pos`, as a 32-bit register holds it,
/// negated if the bit behind it is set.
pub open spec fn signed_at(data: Seq<u8>, pos: nat, n: nat) -> int {
    let raw = coding::take_bits(data, pos, n) % 0x1_0000_0000;
    let value = if raw < 0x8000_0000 {
        raw
    } else {
        raw - 0x1_0000_0000
    };
    if coding::data_bit(data, pos + n) == 1 {
        -value
    } else {
        value
    }
}

impl<'a> BitReader<'a> {
    /// The bytes under the reader.
    pub closed spec fn data(&self) -> Seq<u8> {
        self.data@
    }

    /// The index of the next bit.
    pub closed spec fn pos(&self) -> nat {
        self.pos as nat
    }

    /// The reader stands inside its bytes or right behind them.
    pub open spec fn wf(&self) -> bool {
        &&& self.pos() <= 8 * self.data().len()
        &&& 8 * self.data().len() <= usize::MAX
    }

    /// A reader at the first bit of `data`.
    pub fn new(data: &'a [u8]) -> (r: BitReader<'a>)
        requires
            8 * data@.len() <= usize::MAX,
        ensures
            r.wf(),
            r.data() == data@,
            r.pos() == 0,
    {
        BitReader { data, pos: 0 }
    }

    /// The number of bits read so far.
    pub fn bit_pos(&self) -> (r: usize)
        ensures
            r == self.pos(),
    {
        self.pos
    }

    /// Moves to where `s` stands.
    pub(crate) fn follow(&mut self, s: &Scan<'a>)
        requires
            old(self).wf(),
            s.wf(),
            s.data() == old(self).data(),
            s.at() <= 8 * s.data().len(),
        ensures
            final(self).wf(),
            final(self).data() == old(self).data(),
            final(self).pos() == s.at(),
    {
        self.pos = s.pos;
    }

    /// Reads one bit.
    pub fn f1(&mut self) -> (r: Result<u32>)
        requires
            old(self).wf(),
        ensures
            final(self).wf(),
            final(self).data() == old(self).data(),
            match r {
                Ok(v) => old(self).pos() < 8 * old(self).data().len() && v == coding::data_bit(
                    old(self).data(),
                    old(self).pos(),
                ) && final(self).pos() == old(self).pos() + 1,
                Err(e) => old(self).pos() == 8 * old(self).data().len() && e == Error::PastEnd
                    && final(self).pos() == old(self).pos(),
            },
    {
        let byte: usize = self.pos / 8;
        if byte >= self.data.len() {
            return Err(Error::PastEnd);
        }
        let d: u8 = self.data[byte];
        let k: u8 = (7 - self.pos % 8) as u8;
        let bit: u8 = (d >> k) & 1;
        proof {
            lemma_u8_shr_is_div(d, k);
            let q: u8 = d >> k;
            assert(q & 1 == q % 2) by (bit_vector);
        }
        self.pos = self.pos + 1;
        Ok(bit as u32)
    }

    /// Reads `n` bits, most significant first. A 32-bit result keeps the last
    /// 32 of them.
    pub fn f(&mut self, n: u32) -> (r: Result<u32>)
        requires
            old(self).wf(),
        ensures
            final(self).wf(),
            final(self).data() == old(self).data(),
            match r {
                Ok(v) => old(self).pos() + n <= 8 * old(self).data().len() && v == coding::take_bits(
                    old(self).data(),
                    old(self).pos(),
                    n as nat,
                ) % 0x1_0000_0000 && final(self).pos() == old(self).pos() + n,
                Err(e) => old(self).pos() + n > 8 * old(self).data().len() && e == Error::PastEnd
                    && final(self).pos() == 8 * old(self).data().len(),
            },
    {
        let mut v: u32 = 0;
        let mut i: u32 = 0;
        while i < n
            invariant
                i <= n,
                self.wf(),
                self.data() == old(self).data(),
                self.pos() == old(self).pos() + i,
                v == coding::take_bits(old(self).data(), old(self).pos(), i as nat) % 0x1_0000_0000,
            decreases n - i,
        {
            let bit: u32 = match self.f1() {
                Ok(b) => b,
                Err(e) => {
                    return Err(e);
                },
            };
            proof {
                assert(bit <= 1 ==> (v << 1u32) | bit == (v % 0x8000_0000) * 2 + bit)
                    by (bit_vector);
            }
            v = (v << 1) | bit;
            i = i + 1;
        }
        Ok(v)
    }

    /// Reads a signed value: `n` magnitude bits, then a sign bit. The magnitude
    /// `2^31` has no negative counterpart to return and is left out.
    pub fn s(&mut self, n: u32) -> (r: Result<i32>)
        requires
            old(self).wf(),
            signed_at(old(self).data(), old(self).pos(), n as nat) <= i32::MAX,
        ensures
            final(self).wf(),
            final(self).data() == old(self).data(),
            match r {
                Ok(v) => old(self).pos() + n + 1 <= 8 * old(self).data().len() && v == signed_at(
                    old(self).data(),
                    old(self).pos(),
                    n as nat,
                ) && final(self).pos() == old(self).pos() + n + 1,
                Err(e) => old(self).pos() + n + 1 > 8 * old(self).data().len() && e
                    == Error::PastEnd && final(self).pos() == 8 * old(self).data().len(),
            },
    {
        let raw: u32 = match self.f(n) {
            Ok(v) => v,
            Err(e) => {
                return Err(e);
            },
        };
        proof {
            assert((raw as i32) == if raw < 0x8000_0000 {
                raw as int
            } else {
                raw - 0x1_0000_0000
            }) by (bit_vector);
        }
        let value: i32 = raw as i32;
        let sign: u32 = match self.f1() {
            Ok(b) => b,
            Err(e) => {
                return Err(e);
            },
        };
        if sign == 1 {
            Ok(-value)
        } else {
            Ok(value)
        }
    }
}

/// A reader of plain bits that reads zeros past the end and remembers that it did.
pub(crate) struct Scan<'a> {
    data: &'a [u8],
    pos: usize,
    at: Ghost<nat>,
}

impl<'a> Scan<'a> {
    /// The bytes under the reader.
    pub closed spec fn data(&self) -> Seq<u8> {
        self.data@
    }

    /// The number of bits read so far, those past the end among them.
    pub closed spec fn at(&self) -> nat {
        self.at@
    }

    pub closed spec fn wf(&self) -> bool {
        &&& 8 * self.data@.len() < usize::MAX
        &&& self.pos == if self.at@ <= 8 * self.data@.len() {
            self.at@
        } else {
            8 * self.data@.len() + 1
        }
    }

    /// A reader that starts where `r` stands.
    pub(crate) fn new(r: &BitReader<'a>) -> (s: Scan<'a>)
        requires
            r.wf(),
        ensures
            s.wf(),
            s.data() == r.data(),
            s.at() == r.pos(),
    {
        Scan { data: r.data, pos: r.pos, at: Ghost(r.pos as nat) }
    }

    /// Whether a bit past the end was read.
    pub(crate) fn ended(&self) -> (r: bool)
        requires
            self.wf(),
        ensures
            r == (self.at() > 8 * self.data().len()),
    {
        self.pos > 8 * self.data.len()
    }

    /// Reads one bit.
    pub(crate) fn bit(&mut self) -> (r: bool)
        requires
            old(self).wf(),
        ensures
            final(self).wf(),
            final(self).data() == old(self).data(),
            final(self).at() == old(self).at() + 1,
            r == (coding::data_bit(old(self).data(), old(self).at()) == 1),
    {
        let len: usize = self.data.len();
        let ghost at = self.at@;
        self.at = Ghost((at + 1) as nat);
        if self.pos < 8 * len {
            let d: u8 = self.data[self.pos / 8];
            let k: u8 = (7 - self.pos % 8) as u8;
            proof {
                lemma_u8_shr_is_div(d, k);
                let q: u8 = d >> k;
                assert(q & 1 == q % 2) by (bit_vector);
            }
            self.pos = self.pos + 1;
            (d >> k) & 1 == 1
        } else {
            self.pos = 8 * len + 1;
            false
        }
    }

    /// Reads `n` bits, most significant first.
    pub(crate) fn uint(&mut self, n: u32) -> (r: u32)
        requires
            old(self).wf(),
            n <= 31,
        ensures
            final(self).wf(),
            final(self).data() == old(self).data(),
            final(self).at() == old(self).at() + n,
            r == coding::take_bits(old(self).data(), old(self).at(), n as nat),
            r < pow2(n as nat),
    {
        let mut v: u32 = 0;
        let mut i: u32 = 0;
        proof {
            lemma2_to64();
        }
        while i < n
            invariant
                i <= n <= 31,
                self.wf(),
                self.data() == old(self).data(),
                self.at() == old(self).at() + i,
                v == coding::take_bits(old(self).data(), old(self).at(), i as nat),
                v < pow2(i as nat),
            decreases n - i,
        {
            proof {
                lemma2_to64();
                if i < 31 {
                    lemma_pow2_strictly_increases(i as nat, 31);
                }
                lemma_pow2_unfold((i + 1) as nat);
            }
            let b: bool = self.bit();
            v = 2 * v + if b {
                1
            } else {
                0
            };
            i = i + 1;
        }
        v
    }

    /// Reads a signed value: `n` magnitude bits, then a sign bit.
    pub(crate) fn sint(&mut self, n: u32) -> (r: i32)
        requires
            old(self).wf(),
            n <= 30,
        ensures
            final(self).wf(),
            final(self).data() == old(self).data(),
            final(self).at() == old(self).at() + n + 1,
            r == signed_at(old(self).data(), old(self).at(), n as nat),
    {
        let v: u32 = self.uint(n);
        proof {
            lemma2_to64();
            if n < 30 {
                lemma_pow2_strictly_increases(n as nat, 30);
            }
            lemma_small_mod(v as nat, 0x1_0000_0000);
        }
        if self.bit() {
            -(v as i32)
        } else {
            v as i32
        }
    }
}

/// Added to the bit count once the input is exhausted: from there on reads
/// return zero bits and fetch nothing.
const LOTS_OF_BITS: i32 = 0x4000_0000;

/// A decoder of arithmetic-coded booleans: a 64-bit register with the bits under
/// comparison in its top byte, refilled by whole bytes.
pub struct BoolDecoder<'a> {
    data: &'a [u8],
    pos: usize,
    value: u64,
    count: i32,
    range: u32,
    st: Ghost<Cursor>,
}

/// The integer read as `n` bits at probability 128 each, most significant first.
pub open spec fn literal_value(c: Cursor, n: nat) -> int
    decreases n,
{
    if n == 0 {
        0
    } else {
        2 * literal_value(c, (n - 1) as nat) + (if coding::read_bit(
            literal_after(c, (n - 1) as nat),
            128,
        ) {
            1int
        } else {
            0
        })
    }
}

/// The state after `n` reads at probability 128.
pub open spec fn literal_after(c: Cursor, n: nat) -> Cursor
    decreases n,
{
    if n == 0 {
        c
    } else {
        coding::read_next(literal_after(c, (n - 1) as nat), 128)
    }
}

/// Shifting a 64-bit register left by at most seven places drops what overflows.
proof fn lemma_shl_drops(v: u64, s: u64)
    requires
        s <= 7,
    ensures
        (v << s) as int == (v * pow2(s as nat)) % 0x1_0000_0000_0000_0000,
{
    lemma2_to64();
    assert((s == 0 ==> v << s == v) && (s == 1 ==> v << s == (v % 0x8000_0000_0000_0000) * 2) && (s
        == 2 ==> v << s == (v % 0x4000_0000_0000_0000) * 4) && (s == 3 ==> v << s == (v
        % 0x2000_0000_0000_0000) * 8) && (s == 4 ==> v << s == (v % 0x1000_0000_0000_0000) * 16)
        && (s == 5 ==> v << s == (v % 0x0800_0000_0000_0000) * 32) && (s == 6 ==> v << s == (v
        % 0x0400_0000_0000_0000) * 64) && (s == 7 ==> v << s == (v % 0x0200_0000_0000_0000) * 128))
        by (bit_vector)
        requires
            s <= 7,
    ;
    let p = pow2(s as nat) as int;
    assert(p == 1 || p == 2 || p == 4 || p == 8 || p == 16 || p == 32 || p == 64 || p == 128);
    assert(p == 1 ==> v * p == v);
    assert(p == 2 ==> v * p == 2 * v);
    assert(p == 4 ==> v * p == 4 * v);
    assert(p == 8 ==> v * p == 8 * v);
    assert(p == 16 ==> v * p == 16 * v);
    assert(p == 32 ==> v * p == 32 * v);
    assert(p == 64 ==> v * p == 64 * v);
    assert(p == 128 ==> v * p == 128 * v);
}

/// Putting a byte into the empty places of the register adds it.
proof fn lemma_or_byte(v: u64, b: u8, shift: u64)
    requires
        shift <= 56,
        v as int % pow2((shift + 8) as nat) as int == 0,
    ensures
        (v | ((b as u64) << shift)) as int == v + b * pow2(shift as nat),
        v + b * pow2(shift as nat) <= u64::MAX,
{
    let g = (shift + 8) as nat;
    lemma_pow2_pos(g);
    lemma_pow2_pos(shift as nat);
    lemma_pow2_adds(shift as nat, 8);
    lemma2_to64();
    lemma2_to64_rest();
    let q = v as int / pow2(g) as int;
    lemma_fundamental_div_mod(v as int, pow2(g) as int);
    let p = pow2(shift as nat) as int;
    assert(0 <= b * p <= 255 * p) by (nonlinear_arith)
        requires
            0 <= b <= 255,
            p > 0,
    ;
    if shift < 56 {
        lemma_pow2_strictly_increases(shift as nat, 56);
    }
    assert(b * p <= u64::MAX) by {
        assert(255 * p <= 255 * pow2(56));
        assert(pow2(56) == 0x100_0000_0000_0000);
    }
    lemma_u64_shl_is_mul(b as u64, shift);
    let w = (b as u64) << shift;
    if shift == 56 {
        assert(q == 0) by (nonlinear_arith)
            requires
                v == pow2(g) * q,
                0 <= v <= u64::MAX,
                pow2(g) == 0x1_0000_0000_0000_0000,
        ;
        assert(v == 0);
        assert(v | w == w) by (bit_vector)
            requires
                v == 0,
        ;
    } else {
        let gg = (shift + 8) as u64;
        lemma_u64_shr_is_div(v, gg);
        assert((v >> gg) as int == q);
        lemma_pow2_adds(shift as nat, 8);
        lemma_mul_is_commutative(q, pow2(g) as int);
        lemma_u64_shl_is_mul(v >> gg, gg);
        assert((v >> gg) << gg == v);
        assert((v | w) as int == v + w) by (bit_vector)
            requires
                (v >> gg) << gg == v,
                gg == shift + 8,
                shift < 56,
                w == (b as u64) << shift,
        ;
    }
}

/// Moving the window forward by `s` places: `value` is the register, whose top
/// byte is `w`, and `gap` the number of its places that hold no fetched bit.
proof fn lemma_advance(data: Seq<u8>, pos: nat, next: nat, gap: nat, value: u64, w: int, s: u32)
    requires
        s <= 7,
        0 <= w < 256,
        gap == 56 + next - 8 * pos,
        pos <= data.len(),
        value == w * pow2(56) + coding::take_bits(data, next, 56) - coding::take_bits(
            data,
            8 * pos,
            gap,
        ),
        pos < data.len() ==> gap <= 56 && value as int % pow2(gap) as int == 0,
    ensures
        ({
            let window = (w * pow2(s as nat) + coding::take_bits(data, next, s as nat)) % 256;
            &&& (value << (s as u64)) + coding::take_bits(data, 8 * pos, gap + s as nat) == window
                * pow2(56) + coding::take_bits(data, next + s as nat, 56)
            &&& pos < data.len() ==> (value << (s as u64)) as int % pow2(gap + s as nat) as int == 0
        }),
{
    let n = s as nat;
    let p = pow2(n) as int;
    let big = pow2(56) as int;
    let t = coding::take_bits(data, next, 56);
    let b = coding::take_bits(data, 8 * pos, gap);
    let u = coding::take_bits(data, next, n);
    let x = coding::take_bits(data, next + n, 56);
    let y = coding::take_bits(data, next + 56, n);
    let g = coding::take_bits(data, 8 * pos, gap + n);
    lemma2_to64_rest();
    lemma2_to64();
    lemma_pow2_pos(n);
    coding::lemma_take_split(data, next, 56, n);
    coding::lemma_take_split(data, next, n, 56);
    coding::lemma_take_split(data, 8 * pos, gap, n);
    assert(56 + n == n + 56);
    coding::lemma_take_bound(data, next + n, 56);
    coding::lemma_take_bound(data, 8 * pos, gap + n);
    coding::lemma_take_bound(data, next, n);
    let sum = w * p + u;
    let window = sum % 256;
    let q = sum / 256;
    assert(value * p == sum * big + x - g) by (nonlinear_arith)
        requires
            value == w * big + t - b,
            t * p + y == u * big + x,
            g == b * p + y,
            sum == w * p + u,
    ;
    assert(w * p >= 0) by (nonlinear_arith)
        requires
            w >= 0,
            p > 0,
    ;
    lemma_fundamental_div_mod(sum, 256);
    let low = window * big + x - g;
    assert(value * p == 0x1_0000_0000_0000_0000 * q + low) by (nonlinear_arith)
        requires
            value * p == sum * big + x - g,
            sum == 256 * q + window,
            low == window * big + x - g,
            big == 0x100_0000_0000_0000,
    ;
    assert(window * big <= 255 * big) by (nonlinear_arith)
        requires
            window <= 255,
            big > 0,
    ;
    assert(low >= 0) by {
        if pos >= data.len() {
            coding::lemma_take_past_end(data, 8 * pos, gap + n);
            assert(window * big >= 0) by (nonlinear_arith)
                requires
                    window >= 0,
                    big > 0,
            ;
        } else if gap + n <= 56 {
            let k = (56 - gap - n) as nat;
            coding::lemma_take_split(data, next + n, k, gap + n);
            assert(next + n + k == 8 * pos);
            coding::lemma_take_bound(data, next + n, k);
            lemma_pow2_pos(gap + n);
            assert(coding::take_bits(data, next + n, k) * pow2(gap + n) >= 0) by (nonlinear_arith)
                requires
                    coding::take_bits(data, next + n, k) >= 0,
                    pow2(gap + n) > 0,
            ;
            assert(window * big >= 0) by (nonlinear_arith)
                requires
                    window >= 0,
                    big > 0,
            ;
        } else {
            let d = (gap + n - 56) as nat;
            let k = (n - d) as nat;
            coding::lemma_take_split(data, 8 * pos, d, 56);
            assert(8 * pos + d == next + n);
            coding::lemma_take_split(data, next, k, d);
            assert(next + k == 8 * pos);
            let z = coding::take_bits(data, 8 * pos, d);
            coding::lemma_take_bound(data, 8 * pos, d);
            lemma_pow2_pos(d);
            lemma_pow2_adds(k, d);
            let pd = pow2(d) as int;
            // The last d bits of the window are the first d missing bits.
            let m = w * pow2(k) + coding::take_bits(data, next, k);
            assert(sum == pd * m + z) by (nonlinear_arith)
                requires
                    sum == w * p + u,
                    p == pow2(k) * pd,
                    u == coding::take_bits(data, next, k) * pd + z,
                    m == w * pow2(k) + coding::take_bits(data, next, k),
            ;
            lemma_fundamental_div_mod_converse(sum, pd, m, z);
            lemma_pow2_adds(d, (8 - d) as nat);
            lemma_mod_mod(sum, pd, pow2((8 - d) as nat) as int);
            assert(window % pd == z);
            lemma_pow2_pos((8 - d) as nat);
            lemma_mod_decreases(window as nat, pd as nat);
            assert(window * big >= z * big) by (nonlinear_arith)
                requires
                    window >= z,
                    big > 0,
            ;
        }
    }
    lemma_shl_drops(value, s as u64);
    lemma_fundamental_div_mod_converse(value * p, 0x1_0000_0000_0000_0000, q, low);
    assert((value << (s as u64)) == low);
    if pos < data.len() {
        let e = gap + n;
        lemma_pow2_pos(gap);
        lemma_pow2_pos(e);
        lemma_pow2_adds(gap, n);
        lemma_pow2_adds(e, (64 - e) as nat);
        let pg = pow2(gap) as int;
        let pe = pow2(e) as int;
        let pr = pow2((64 - e) as nat) as int;
        let a = value as int / pg;
        lemma_fundamental_div_mod(value as int, pg);
        assert(low == pe * (a - pr * q)) by (nonlinear_arith)
            requires
                value == pg * a,
                pe == pg * p,
                pe * pr == 0x1_0000_0000_0000_0000,
                value * p == 0x1_0000_0000_0000_0000 * q + low,
        ;
        lemma_mul_is_commutative(pe, a - pr * q);
        lemma_mod_multiples_basic(a - pr * q, pe);
    }
}

impl<'a> BoolDecoder<'a> {
    /// The state of the decoder.
    pub closed spec fn view(&self) -> Cursor {
        self.st@
    }

    /// The number of places of the register that hold no fetched bit.
    spec fn gap(&self) -> int {
        56 + self.st@.next - 8 * self.pos
    }

    /// The register holds the fetched bits of the window and of what follows it.
    pub closed spec fn wf(&self) -> bool {
        let c = self.st@;
        &&& c.data == self.data@
        &&& c.loaded == self.pos
        &&& self.pos <= self.data@.len()
        &&& c.range == self.range
        &&& 128 <= self.range <= 255
        &&& 0 <= c.window < 256
        &&& 0 <= self.gap()
        &&& self.value + coding::take_bits(c.data, 8 * self.pos as nat, self.gap() as nat)
            == c.window * pow2(56) + coding::take_bits(c.data, c.next, 56)
        &&& -8 <= self.count <= LOTS_OF_BITS + 64
        &&& self.pos < self.data@.len() ==> {
            &&& self.count == 8 * self.pos - c.next
            &&& self.value as int % pow2(self.gap() as nat) as int == 0
        }
    }

    /// A decoder past the marker bit of `data`. An empty section is refused.
    pub fn new(data: &'a [u8]) -> (r: Result<BoolDecoder<'a>>)
        ensures
            match r {
                Ok(d) => data@.len() > 0 && d.wf() && d@ == coding::opened(data@),
                Err(e) => data@.len() == 0 && e == Error::EmptyInput,
            },
    {
        if data.len() == 0 {
            return Err(Error::EmptyInput);
        }
        let mut d = BoolDecoder {
            data,
            pos: 0,
            value: 0,
            count: -8,
            range: 255,
            st: Ghost(coding::unopened(data@)),
        };
        proof {
            coding::lemma_take_split(data@, 0, 8, 56);
            coding::lemma_take_bound(data@, 0, 8);
            lemma2_to64();
            lemma_pow2_pos(64);
            lemma_small_mod(0, pow2(64));
        }
        let _marker: u32 = d.read_bool(128);
        Ok(d)
    }

    /// The number of bits fetched so far: a whole number of bytes, up to the end
    /// of the data.
    pub fn bit_pos(&self) -> (r: usize)
        requires
            self.wf(),
            8 * self@.data.len() <= usize::MAX,
        ensures
            r == 8 * self@.loaded,
            r % 8 == 0,
            r <= 8 * self@.data.len(),
    {
        self.pos * 8
    }

    /// The current range, which lies in `128..=255`.
    pub fn range(&self) -> (r: u32)
        requires
            self.wf(),
        ensures
            r == self@.range,
            128 <= r <= 255,
    {
        self.range
    }

    /// Fetches as many whole bytes as fit into the register.
    fn fill(&mut self)
        requires
            old(self).wf(),
            old(self).count < 0,
        ensures
            final(self).wf(),
            final(self).count >= 0,
            final(self)@ == (Cursor { loaded: coding::fetched(old(self)@), ..old(self)@ }),
    {
        let ghost c = self.st@;
        let bytes_left: usize = self.data.len() - self.pos;
        if bytes_left == 0 {
            self.count = self.count + LOTS_OF_BITS;
            return;
        }
        let mut shift: i32 = 48 - self.count;
        let want: usize = (shift / 8 + 1) as usize;
        let mut todo: usize = want;
        let mut extra: i32 = 0;
        if bytes_left <= want {
            extra = LOTS_OF_BITS;
            todo = bytes_left;
        }
        let ghost end = self.pos + todo;
        assert(end == coding::fetched(c));
        while todo > 0
            invariant
                end == self.pos + todo,
                end <= self.data@.len(),
                self.data == old(self).data,
                self.range == old(self).range,
                self.st == old(self).st,
                c == self.st@,
                c.data == self.data@,
                shift == self.gap() - 8,
                self.count == 8 * self.pos - c.next,
                -8 <= self.count <= 56,
                0 <= self.gap() <= 64,
                8 * todo <= shift + 8,
                self.value as int % pow2(self.gap() as nat) as int == 0,
                self.value + coding::take_bits(c.data, 8 * self.pos as nat, self.gap() as nat)
                    == c.window * pow2(56) + coding::take_bits(c.data, c.next, 56),
            decreases todo,
        {
            let byte: u8 = self.data[self.pos];
            let ghost g = self.gap() as nat;
            let ghost h = (g - 8) as nat;
            let ghost v = self.value;
            proof {
                coding::lemma_take_split(c.data, 8 * self.pos as nat, 8, h);
                coding::lemma_take_byte(c.data, self.pos as nat);
                lemma_or_byte(self.value, byte, shift as u64);
                lemma_pow2_adds(h, 8);
                lemma_pow2_pos(h);
                lemma_pow2_pos(g);
                lemma2_to64();
                // The register stays a multiple of the weight of its last place.
                let q = v as int / pow2(g) as int;
                lemma_fundamental_div_mod(v as int, pow2(g) as int);
                assert(v + byte * pow2(h) == pow2(h) * (256 * q + byte)) by (nonlinear_arith)
                    requires
                        v == pow2(g) * q,
                        pow2(g) == pow2(h) * 256,
                ;
                lemma_mul_is_commutative(pow2(h) as int, 256 * q + byte);
                lemma_mod_multiples_basic(256 * q + byte, pow2(h) as int);
            }
            self.value = self.value | ((byte as u64) << (shift as u64));
            self.count = self.count + 8;
            self.pos = self.pos + 1;
            shift = shift - 8;
            todo = todo - 1;
        }
        self.count = self.count + extra;
        self.st = Ghost(Cursor { loaded: coding::fetched(c), ..c });
    }

    /// Decodes one boolean at probability `prob` (of 256) of being zero.
    pub fn read_bool(&mut self, prob: u8) -> (r: u32)
        requires
            old(self).wf(),
        ensures
            final(self).wf(),
            r == if coding::read_bit(old(self)@, prob) {
                1u32
            } else {
                0u32
            },
            final(self)@ == coding::read_next(old(self)@, prob),
    {
        let ghost c0 = self.st@;
        proof {
            let (r, p) = (self.range as int, prob as int);
            coding::lemma_split_inside(r, p);
            assert(r * p + (256 - p) == (r - 1) * p + 256) by (nonlinear_arith);
            assert(0 <= (r - 1) * p <= 254 * 255) by (nonlinear_arith)
                requires
                    128 <= r <= 255,
                    0 <= p <= 255,
            ;
            assert(r * p <= 255 * 255) by (nonlinear_arith)
                requires
                    128 <= r <= 255,
                    0 <= p <= 255,
            ;
        }
        let scaled: u32 = self.range * (prob as u32) + (256 - prob as u32);
        let split: u32 = scaled >> 8;
        assert(scaled >> 8 == scaled / 256) by (bit_vector);
        if self.count < 0 {
            self.fill();
        }
        let ghost c = self.st@;
        let ghost cut = coding::split_at(c.range, prob as int);
        assert(split == cut);
        let bigsplit: u64 = (split as u64) << 56;
        assert(split < 256 ==> (split as u64) << 56 == split * 0x100_0000_0000_0000) by (bit_vector);
        let ghost gap = self.gap() as nat;
        let ghost rest = coding::take_bits(c.data, c.next, 56) - coding::take_bits(
            c.data,
            8 * self.pos as nat,
            gap,
        );
        proof {
            lemma2_to64_rest();
            coding::lemma_take_bound(c.data, c.next, 56);
            coding::lemma_take_bound(c.data, 8 * self.pos as nat, gap);
            if self.pos < self.data@.len() {
                let k = (56 - gap) as nat;
                coding::lemma_take_split(c.data, c.next, k, gap);
                coding::lemma_take_bound(c.data, c.next, k);
                assert(c.next + k == 8 * self.pos);
                lemma_pow2_pos(gap);
                assert(coding::take_bits(c.data, c.next, k) * pow2(gap) >= 0) by (nonlinear_arith)
                    requires
                        coding::take_bits(c.data, c.next, k) >= 0,
                        pow2(gap) > 0,
                ;
            } else {
                coding::lemma_take_past_end(c.data, 8 * self.pos as nat, gap);
            }
            assert(0 <= rest < pow2(56));
            assert(self.value == c.window * 0x100_0000_0000_0000 + rest);
        }
        let mut range: u32 = split;
        let mut value: u64 = self.value;
        let mut bit: u32 = 0;
        if value >= bigsplit {
            range = self.range - split;
            value = value - bigsplit;
            bit = 1;
        }
        let s: u32 = shift_of(range);
        proof {
            coding::lemma_norm(range as int);
            let w = if bit == 1 {
                c.window - cut
            } else {
                c.window
            };
            assert(value == w * 0x100_0000_0000_0000 + rest);
            lemma_u32_shl_is_mul(range, s);
            if self.pos < self.data@.len() && bit == 1 {
                // The part taken off is a multiple of the weight of the last place, too.
                let k = (56 - gap) as nat;
                lemma_pow2_adds(gap, k);
                lemma_pow2_pos(gap);
                let pg = pow2(gap) as int;
                let a = self.value as int / pg;
                lemma_fundamental_div_mod(self.value as int, pg);
                assert(value == pg * (a - cut * pow2(k))) by (nonlinear_arith)
                    requires
                        value == pg * a - cut * 0x100_0000_0000_0000,
                        pg * pow2(k) == 0x100_0000_0000_0000,
                ;
                lemma_mul_is_commutative(pg, a - cut * pow2(k));
                lemma_mod_multiples_basic(a - cut * pow2(k), pg);
            }
            lemma_advance(c.data, self.pos as nat, c.next, gap, value, w, s);
        }
        self.range = range << s;
        self.value = value << (s as u64);
        self.count = self.count - s as i32;
        self.st = Ghost(coding::read_next(c0, prob));
        bit
    }

    /// Decodes an integer of `n` bits, most significant first, each at
    /// probability 128. A 32-bit result keeps the last 32 of them.
    pub fn literal(&mut self, n: u32) -> (r: u32)
        requires
            old(self).wf(),
        ensures
            final(self).wf(),
            r == literal_value(old(self)@, n as nat) % 0x1_0000_0000,
            final(self)@ == literal_after(old(self)@, n as nat),
    {
        let mut v: u32 = 0;
        let mut i: u32 = 0;
        while i < n
            invariant
                i <= n,
                self.wf(),
                v == literal_value(old(self)@, i as nat) % 0x1_0000_0000,
                self@ == literal_after(old(self)@, i as nat),
            decreases n - i,
        {
            let bit: u32 = self.read_bool(128);
            proof {
                assert(bit <= 1 ==> (v << 1u32) | bit == (v % 0x8000_0000) * 2 + bit)
                    by (bit_vector);
            }
            v = (v << 1) | bit;
            i = i + 1;
        }
        v
    }
}

/// The number of doublings that bring `range` back into `128..=255`.
pub(crate) fn shift_of(range: u32) -> (s: u32)
    requires
        1 <= range <= 255,
    ensures
        s == coding::norm_shift(range as int),
{
    if range >= 128 {
        0
    } else if range >= 64 {
        1
    } else if range >= 32 {
        2
    } else if range >= 16 {
        3
    } else if range >= 8 {
        4
    } else if range >= 4 {
        5
    } else if range >= 2 {
        6
    } else {
        7
    }
}

} // verus!
