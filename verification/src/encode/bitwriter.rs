//! The two writers of the format, each the inverse of a reader.
//!
//! [`BoolEncoder`] writes arithmetic-coded booleans, [`BitWriter`] plain bits.
use vstd::arithmetic::div_mod::*;
use vstd::arithmetic::mul::*;
use vstd::arithmetic::power2::*;
use vstd::bits::*;
use vstd::prelude::*;

use crate::bits;
use crate::bits::shift_of;
use crate::coding;
use crate::coding::{Cursor, Sym};
use crate::token;

verus! {

/// The symbols that spell the low `n` bits of `v`, most significant first.
pub open spec fn literal_syms(v: int, n: nat) -> Seq<Sym>
    decreases n,
{
    if n == 0 {
        Seq::empty()
    } else {
        literal_syms(v / 2, (n - 1) as nat).push(coding::sym(v % 2 == 1, 128))
    }
}

/// An encoder of booleans: a 32-bit accumulator and an 8-bit range. Bytes leave
/// the accumulator as it fills; a carry ripples back over trailing `0xff`s.
pub struct BoolEncoder {
    low: u32,
    range: u32,
    count: i32,
    out: Vec<u8>,
    syms: Ghost<Seq<Sym>>,
}

/// A carry into bytes that are not all `0xff`: the number they spell grows by
/// one. Here the bytes from `x + 1` on are `0xff` and byte `x` is not.
proof fn lemma_carry(old_bytes: Seq<u8>, new_bytes: Seq<u8>, x: int)
    requires
        0 <= x < old_bytes.len(),
        new_bytes.len() == old_bytes.len(),
        old_bytes[x] < 255,
        new_bytes[x] == old_bytes[x] + 1,
        forall|j: int| 0 <= j < x ==> new_bytes[j] == old_bytes[j],
        forall|j: int| x < j < old_bytes.len() ==> old_bytes[j] == 255 && new_bytes[j] == 0,
    ensures
        coding::number(new_bytes) == coding::number(old_bytes) + 1,
    decreases old_bytes.len(),
{
    let a = old_bytes.drop_last();
    let b = new_bytes.drop_last();
    if x == old_bytes.len() - 1 {
        assert(a =~= b);
    } else {
        lemma_carry(a, b, x);
    }
}

/// Bytes that are all `0xff` spell the largest number of their length.
proof fn lemma_all_ones(bytes: Seq<u8>)
    requires
        forall|j: int| 0 <= j < bytes.len() ==> bytes[j] == 255,
    ensures
        coding::number(bytes) == pow2(8 * bytes.len()) - 1,
    decreases bytes.len(),
{
    if bytes.len() == 0 {
        lemma2_to64();
    } else {
        lemma_all_ones(bytes.drop_last());
        lemma_pow2_adds(8 * (bytes.len() - 1) as nat, 8);
        lemma2_to64();
    }
}

/// Adds one to the number that `out` spells.
fn carry(out: &mut Vec<u8>)
    requires
        coding::number(old(out)@) + 1 < pow2(8 * old(out)@.len()),
    ensures
        final(out)@.len() == old(out)@.len(),
        coding::number(final(out)@) == coding::number(old(out)@) + 1,
{
    let ghost before = out@;
    let mut x: usize = out.len();
    while x > 0 && out[x - 1] == 0xff
        invariant
            x <= out@.len(),
            out@.len() == before.len(),
            forall|j: int| 0 <= j < x ==> out@[j] == before[j],
            forall|j: int| x <= j < out@.len() ==> before[j] == 255 && out@[j] == 0,
        decreases x,
    {
        out.set(x - 1, 0);
        x = x - 1;
    }
    proof {
        if x == 0 {
            lemma_all_ones(before);
        }
    }
    let b: u8 = out[x - 1];
    out.set(x - 1, b + 1);
    proof {
        lemma_carry(before, out@, x - 1);
    }
}

impl BoolEncoder {
    /// The symbols written so far.
    pub closed spec fn view(&self) -> Seq<Sym> {
        self.syms@
    }

    /// The number of low-order bits of the interval's low end that are still in
    /// the accumulator.
    spec fn width(&self) -> nat {
        (self.count + 32) as nat
    }

    /// The bytes sent out and the accumulator together make the low end of the
    /// interval of the symbols.
    pub closed spec fn wf(&self) -> bool {
        let iv = coding::interval(self.syms@);
        &&& -24 <= self.count < 0
        &&& self.range == iv.range
        &&& iv.low == coding::number(self.out@) * pow2(self.width()) + self.low
        &&& iv.bits + 8 == 8 * self.out@.len() + self.width()
        &&& self.low + self.range <= 2 * pow2(self.width())
    }

    /// An encoder that has written nothing but the marker bit.
    pub fn new() -> (e: BoolEncoder)
        ensures
            e.wf(),
            e@ == Seq::<Sym>::empty(),
    {
        proof {
            lemma2_to64();
        }
        BoolEncoder { low: 0, range: 128, count: -24, out: Vec::new(), syms: Ghost(Seq::empty()) }
    }

    /// Writes one symbol.
    fn push(&mut self, bit: bool, prob: u8)
        requires
            old(self).wf(),
        ensures
            final(self).wf(),
            final(self)@ == old(self)@.push(coding::sym(bit, prob)),
            final(self).out@.len() >= old(self).out@.len(),
            final(self).out@.len() == old(self).out@.len() ==> final(self).low * pow2(
                old(self).width(),
            ) == (if bit {
                old(self).low + coding::split_at(old(self).range as int, prob as int)
            } else {
                old(self).low as int
            }) * pow2(final(self).width()),
            final(self).out@.len() == old(self).out@.len() ==> final(self).width() >= old(
                self,
            ).width(),
            final(self).out@.len() > old(self).out@.len() ==> final(self).low < pow2(
                final(self).width(),
            ) && final(self).width() >= 24,
    {
        let ghost iv = coding::interval(self.syms@);
        let ghost s = coding::sym(bit, prob);
        let ghost nv = coding::narrow(iv, s);
        let ghost w = self.width();
        proof {
            coding::lemma_interval_proper(self.syms@);
            coding::lemma_narrow(iv, s);
            coding::lemma_split_inside(self.range as int, prob as int);
            assert(self.syms@.push(s).drop_last() =~= self.syms@);
            assert(coding::interval(self.syms@.push(s)) == nv);
            assert(0 <= (self.range - 1) * prob <= 254 * 255) by (nonlinear_arith)
                requires
                    128 <= self.range <= 255,
                    0 <= prob <= 255,
            ;
            lemma2_to64();
            if w < 31 {
                lemma_pow2_strictly_increases(w, 31);
            }
        }
        let scaled: u32 = (self.range - 1) * (prob as u32);
        assert(scaled >> 8 == scaled / 256) by (bit_vector);
        let split: u32 = 1 + (scaled >> 8);
        let mut low: u32 = self.low;
        let mut range: u32 = split;
        if bit {
            low = low + split;
            range = self.range - split;
        }
        let shift: u32 = shift_of(range);
        let ghost low1 = low;
        proof {
            coding::lemma_norm(range as int);
            lemma_u32_shl_is_mul(range, shift);
            lemma_pow2_pos(shift as nat);
            lemma_pow2_adds(w, shift as nat);
        }
        let ghost p = pow2(shift as nat) as int;
        let ghost num = coding::number(self.out@);
        assert(nv.low == (num * pow2(w) + low1) * p);
        assert(low1 + range <= 2 * pow2(w));
        let mut count: i32 = self.count + shift as i32;
        if count >= 0 {
            let offset: u32 = (-self.count) as u32;
            let wide: u64 = (low as u64) << (offset as u64);
            proof {
                lemma_pow2_adds(w, offset as nat);
                lemma_pow2_adds(offset as nat, count as nat);
                lemma_pow2_adds(24, count as nat);
                lemma_pow2_pos(offset as nat);
                lemma_pow2_pos(count as nat);
                lemma_pow2_pos(w);
                assert(w + offset == 32);
                assert(offset + count == shift);
                let po = pow2(offset as nat) as int;
                assert(0 <= low1 * po < 0x2_0000_0000) by (nonlinear_arith)
                    requires
                        0 <= low1 < 2 * pow2(w),
                        pow2(w) * po == 0x1_0000_0000,
                        po > 0,
                ;
                lemma_u64_shl_is_mul(low as u64, offset as u64);
                assert(wide == low1 * po);
                assert(wide >> 32 == wide / 0x1_0000_0000 && (wide >> 24) & 0xff == (wide
                    / 0x100_0000) % 256 && wide & 0xff_ffff == wide % 0x100_0000) by (bit_vector);
                // A carry never runs past the first byte.
                assert(low1 >= pow2(w) ==> num + 1 < pow2(8 * self.out@.len())) by {
                    let pl = pow2(8 * self.out@.len()) as int;
                    lemma_pow2_adds(8 * self.out@.len(), w);
                    let pw = pow2(w) as int;
                    assert(iv.low + self.range <= pl * pw);
                    if low1 >= pw {
                        assert(num + 1 < pl) by (nonlinear_arith)
                            requires
                                num * pw + low1 < pl * pw,
                                low1 >= pw,
                                pw > 0,
                        ;
                    }
                }
                assert(wide >= 0x1_0000_0000 ==> low1 >= pow2(w)) by (nonlinear_arith)
                    requires
                        wide == low1 * po,
                        pow2(w) * po == 0x1_0000_0000,
                        po > 0,
                ;
            }
            if (wide >> 32) != 0 {
                carry(&mut self.out);
            }
            let byte: u8 = ((wide >> 24) & 0xff) as u8;
            let ghost num1 = coding::number(self.out@);
            let ghost sent = self.out@;
            self.out.push(byte);
            low = (wide & 0xff_ffff) as u32;
            let ghost rest = low;
            proof {
                assert(self.out@.drop_last() =~= sent);
                assert(num1 == num + wide / 0x1_0000_0000);
                let po = pow2(offset as nat) as int;
                let pc = pow2(count as nat) as int;
                let num2 = coding::number(self.out@);
                assert(num2 == num1 * 256 + byte);
                assert(wide == 0x1_0000_0000 * (num1 - num) + 0x100_0000 * byte + rest);
                assert(nv.low == num2 * (0x100_0000 * pc) + rest * pc) by (nonlinear_arith)
                    requires
                        nv.low == (num * pow2(w) + low1) * p,
                        p == po * pc,
                        pow2(w) * po == 0x1_0000_0000,
                        low1 * po == 0x1_0000_0000 * (num1 - num) + 0x100_0000 * byte + rest,
                        num2 == num1 * 256 + byte,
                ;
                assert(rest * pc < 0x100_0000 * pc) by (nonlinear_arith)
                    requires
                        rest < 0x100_0000,
                        pc > 0,
                ;
                assert(0x100_0000 * pc <= 0x100_0000 * 64);
                lemma_u32_shl_is_mul(low, count as u32);
            }
            low = low << (count as u32);
            count = count - 8;
            proof {
                assert((count + 32) as nat == 24 + (count + 8));
                assert(nv.range <= 255 && pow2((count + 32) as nat) >= 0x100_0000);
            }
        } else {
            proof {
                let w1 = (count + 32) as nat;
                assert(w1 == w + shift);
                assert((low1 + range) * p <= 2 * pow2(w1)) by (nonlinear_arith)
                    requires
                        low1 + range <= 2 * pow2(w),
                        pow2(w1) == pow2(w) * p,
                        p > 0,
                ;
                assert((low1 + range) * p == low1 * p + range * p) by (nonlinear_arith);
                if w1 < 31 {
                    lemma_pow2_strictly_increases(w1, 31);
                }
                assert(low1 * p >= 0) by (nonlinear_arith)
                    requires
                        low1 >= 0,
                        p > 0,
                ;
                lemma_u32_shl_is_mul(low, shift);
                assert((num * pow2(w) + low1) * p == num * pow2(w1) + low1 * p)
                    by (nonlinear_arith)
                    requires
                        pow2(w1) == pow2(w) * p,
                ;
                assert((low1 * p) * pow2(w) == low1 * pow2(w1)) by (nonlinear_arith)
                    requires
                        pow2(w1) == pow2(w) * p,
                ;
            }
            low = low << shift;
        }
        self.count = count;
        self.low = low;
        self.range = range << shift;
        self.syms = Ghost(self.syms@.push(s));
    }

    /// Writes one boolean, true for any `bit` but zero, at probability `prob` (of
    /// 256) of being zero.
    pub fn write_bool(&mut self, bit: u32, prob: u8)
        requires
            old(self).wf(),
        ensures
            final(self).wf(),
            final(self)@ == old(self)@.push(coding::sym(bit != 0, prob)),
    {
        self.push(bit != 0, prob);
    }

    /// Writes the low `n` bits of `v`, most significant first, each at
    /// probability 128.
    pub fn write_literal(&mut self, v: u32, n: u32)
        requires
            old(self).wf(),
            n <= 32,
        ensures
            final(self).wf(),
            final(self)@ == old(self)@ + literal_syms(v as int, n as nat),
    {
        let mut i: u32 = n;
        proof {
            assert(old(self)@ + Seq::<Sym>::empty() =~= old(self)@);
        }
        while i > 0
            invariant
                i <= n <= 32,
                self.wf(),
                self@ == old(self)@ + literal_syms(v as int / pow2(i as nat) as int, (n - i) as nat),
            decreases i,
        {
            i = i - 1;
            let bit: u32 = (v >> i) & 1;
            proof {
                lemma_u32_shr_is_div(v, i);
                let q: u32 = v >> i;
                assert(q & 1 == q % 2) by (bit_vector);
                lemma_pow2_unfold((i + 1) as nat);
                lemma_pow2_pos(i as nat);
                lemma_div_denominator(v as int, pow2(i as nat) as int, 2);
                lemma_mul_is_commutative(pow2(i as nat) as int, 2);
                let a = literal_syms(v as int / pow2((i + 1) as nat) as int, (n - i - 1) as nat);
                let b = literal_syms(v as int / pow2(i as nat) as int, (n - i) as nat);
                assert(b == a.push(coding::sym(bit != 0, 128)));
                assert(old(self)@ + b =~= (old(self)@ + a).push(coding::sym(bit != 0, 128)));
            }
            self.push(bit != 0, 128);
        }
        proof {
            lemma2_to64();
            assert(v as int / 1 == v);
        }
    }

    /// Writes `symbol` through a tree: the branches that lead to its leaf.
    pub fn write_tree(&mut self, tree: &[i8], probs: &[u8], symbol: i32)
        requires
            old(self).wf(),
            token::is_tree(tree@, probs@.len()),
            token::in_tree(tree@, symbol as int),
        ensures
            final(self).wf(),
            final(self)@ == old(self)@ + token::tree_syms(tree@, probs@, symbol as int),
    {
        let mut path: Vec<(usize, u32)> = Vec::new();
        let _found: bool = find_tree_path(
            tree,
            0,
            symbol,
            &mut path,
            Ghost(probs@),
            Ghost(tree@.len()),
        );
        proof {
            token::lemma_leaf_has_path(tree@, probs@, symbol as int, 0, tree@.len());
        }
        let ghost all = path_syms(path@, probs@);
        assert(all =~= token::tree_syms(tree@, probs@, symbol as int));
        let mut i: usize = 0;
        assert(old(self)@ + all.take(0) =~= old(self)@);
        while i < path.len()
            invariant
                i <= path@.len(),
                self.wf(),
                all == path_syms(path@, probs@),
                path_fits(path@, probs@.len()),
                self@ == old(self)@ + all.take(i as int),
            decreases path@.len() - i,
        {
            let step: (usize, u32) = path[i];
            self.push(step.1 != 0, probs[step.0 / 2]);
            i = i + 1;
            assert(all.take(i as int) =~= all.take(i - 1).push(all[i - 1]));
            assert(old(self)@ + all.take(i as int) =~= (old(self)@ + all.take(i - 1)).push(
                all[i - 1],
            ));
        }
        assert(all.take(i as int) =~= all);
    }

    /// Ends the stream and returns its bytes: the low end of the interval of all
    /// symbols, written out in full.
    pub fn finish(self) -> (out: Vec<u8>)
        requires
            self.wf(),
        ensures
            out@ == coding::code_bytes(self@),
            out@.len() > 0,
    {
        proof {
            coding::lemma_code_len(self@);
        }
        let mut e = self;
        let ghost syms = e.syms@;
        let ghost iv = coding::interval(syms);
        let mut i: u32 = 0;
        let ghost mut k: nat = 0;
        proof {
            coding::lemma_interval_proper(syms);
            lemma2_to64();
        }
        // 32 zeros force every bit of the message out of the accumulator.
        while i < 32
            invariant
                i <= 32,
                e.wf(),
                iv == coding::interval(syms),
                coding::proper(iv),
                k == if iv.range == 255 && i > 0 {
                    (i - 1) as nat
                } else {
                    i as nat
                },
                coding::interval(e.syms@).low == iv.low * pow2(k),
                coding::interval(e.syms@).bits == iv.bits + k,
                i == 0 ==> coding::interval(e.syms@).range == iv.range,
                i > 0 ==> coding::interval(e.syms@).range != 255,
                e.out@.len() >= self.out@.len(),
                e.out@.len() == self.out@.len() ==> e.width() == self.width() + k,
                e.out@.len() > self.out@.len() ==> e.low < pow2(e.width()) && e.width() >= 24,
                self.width() >= 8,
            decreases 32 - i,
        {
            let ghost before = e;
            let ghost jv = coding::interval(e.syms@);
            proof {
                coding::lemma_interval_proper(e.syms@);
                coding::lemma_flush(jv);
            }
            e.push(false, 128);
            proof {
                let s = coding::sym(false, 128);
                assert(e.syms@ == before.syms@.push(s));
                assert(e.syms@.drop_last() =~= before.syms@);
                assert(coding::interval(e.syms@) == coding::narrow(jv, s));
                let d = (coding::interval(e.syms@).bits - jv.bits) as nat;
                lemma_pow2_adds(k, d);
                assert((iv.low * pow2(k)) * pow2(d) == iv.low * pow2(k + d)) by (nonlinear_arith)
                    requires
                        pow2(k + d) == pow2(k) * pow2(d),
                ;
                if e.out@.len() == before.out@.len() && before.out@.len() > self.out@.len() {
                    lemma_pow2_pos(before.width());
                    lemma_pow2_pos(e.width());
                    assert(e.low < pow2(e.width())) by (nonlinear_arith)
                        requires
                            e.low * pow2(before.width()) == before.low * pow2(e.width()),
                            before.low < pow2(before.width()),
                            pow2(e.width()) > 0,
                            pow2(before.width()) > 0,
                    ;
                }
                k = k + d;
            }
            i = i + 1;
        }
        proof {
            let w = e.width();
            assert(e.out@.len() > self.out@.len());
            let num = coding::number(e.out@);
            lemma_pow2_pos(w);
            lemma_pow2_adds(w, (k - w) as nat);
            let a = iv.low * pow2((k - w) as nat);
            assert(iv.low * pow2(k) == a * pow2(w)) by (nonlinear_arith)
                requires
                    a == iv.low * pow2((k - w) as nat),
                    pow2(k) == pow2(w) * pow2((k - w) as nat),
            ;
            assert(num == a) by (nonlinear_arith)
                requires
                    a * pow2(w) == num * pow2(w) + e.low,
                    0 <= e.low < pow2(w),
            ;
            assert(e.out@.len() == coding::code_len(iv));
            coding::lemma_spell_number(e.out@);
        }
        e.out
    }
}

impl Default for BoolEncoder {
    /// The same as [`BoolEncoder::new`].
    fn default() -> (e: BoolEncoder)
        ensures
            e.wf(),
            e@ == Seq::<Sym>::empty(),
    {
        BoolEncoder::new()
    }
}

/// The symbols of a path of nodes and bits.
pub(crate) open spec fn path_syms(path: Seq<(usize, u32)>, probs: Seq<u8>) -> Seq<Sym> {
    path.map_values(|s: (usize, u32)| coding::sym(s.1 != 0, probs[(s.0 / 2) as int]))
}

/// Every node of a path has a probability.
pub(crate) open spec fn path_fits(path: Seq<(usize, u32)>, nprobs: nat) -> bool {
    forall|j: int| 0 <= j < path.len() ==> (#[trigger] path[j]).0 / 2 < nprobs
}

/// Searches the tree below `node`, zero branches first, for the leaf that stands
/// for `symbol`, and appends the branches that lead there.
pub(crate) fn find_tree_path(
    tree: &[i8],
    node: usize,
    symbol: i32,
    path: &mut Vec<(usize, u32)>,
    Ghost(probs): Ghost<Seq<u8>>,
    Ghost(depth): Ghost<nat>,
) -> (found: bool)
    requires
        token::tree_ok(tree@, probs.len(), node as int, depth),
        path_fits(old(path)@, probs.len()),
    ensures
        path_fits(final(path)@, probs.len()),
        match token::tree_path(tree@, probs, symbol as int, node as int, depth) {
            Some(p) => found && path_syms(final(path)@, probs) == path_syms(old(path)@, probs) + p,
            None => !found && final(path)@ == old(path)@,
        },
    decreases depth,
{
    let ghost start = path@;
    let len: usize = tree.len();
    let mut bit: u32 = 0;
    while bit < 2
        invariant
            bit <= 2,
            len == tree@.len(),
            path@ == start,
            start == old(path)@,
            path_fits(start, probs.len()),
            token::tree_ok(tree@, probs.len(), node as int, depth),
            bit > 0 ==> token::branch_path(
                tree@,
                probs,
                symbol as int,
                node as int,
                false,
                depth,
            ) is None,
            bit > 1 ==> token::branch_path(
                tree@,
                probs,
                symbol as int,
                node as int,
                true,
                depth,
            ) is None,
        decreases 2 - bit,
    {
        let to: i8 = tree[node + bit as usize];
        path.push((node, bit));
        let ghost head = coding::sym(bit != 0, probs[(node / 2) as int]);
        assert(path_syms(path@, probs) =~= path_syms(start, probs) + seq![head]);
        if to <= 0 {
            if -(to as i32) == symbol {
                return true;
            }
        } else {
            let ghost deeper = (depth - 1) as nat;
            if find_tree_path(tree, to as usize, symbol, path, Ghost(probs), Ghost(deeper)) {
                proof {
                    let p = token::tree_path(tree@, probs, symbol as int, to as int, deeper)
                        .unwrap();
                    assert(path_syms(start, probs) + seq![head] + p =~= path_syms(start, probs) + (
                    seq![head] + p));
                }
                return true;
            }
        }
        path.pop();
        assert(path@ =~= start);
        bit = bit + 1;
    }
    false
}

/// Reading a literal inverts writing it: where the symbols that spell the low `n`
/// bits of `v` come next, `n` literal bits read that value and stop right behind
/// them.
pub proof fn law_literal_read_inverts_write(c: Cursor, v: int, n: nat)
    requires
        v >= 0,
        coding::holds(c, literal_syms(v, n)),
    ensures
        bits::literal_value(c, n) == v % pow2(n) as int,
        bits::literal_after(c, n) == coding::after(c, literal_syms(v, n)),
    decreases n,
{
    if n == 0 {
        lemma2_to64();
    } else {
        let m = (n - 1) as nat;
        let a = literal_syms(v / 2, m);
        let s = coding::sym(v % 2 == 1, 128);
        assert(literal_syms(v, n) =~= a + seq![s]);
        coding::lemma_holds_concat(c, a, seq![s]);
        coding::lemma_holds_one(coding::after(c, a), s);
        law_literal_read_inverts_write(c, v / 2, m);
        lemma_pow2_unfold(n);
        lemma_pow2_pos(m);
        lemma_mod_breakdown(v, 2, pow2(m) as int);
    }
}

/// The low `n` bits of `v`, most significant first.
pub open spec fn bits_of(v: int, n: nat) -> Seq<bool>
    decreases n,
{
    if n == 0 {
        Seq::empty()
    } else {
        bits_of(v / 2, (n - 1) as nat).push(v % 2 == 1)
    }
}

/// The magnitude of `v` in `n` bits, then its sign.
pub open spec fn signed_bits(v: int, n: nat) -> Seq<bool> {
    bits_of(
        if v < 0 {
            -v
        } else {
            v
        },
        n,
    ).push(v < 0)
}

/// The bits of `data` from `pos` on begin with `bits`.
pub open spec fn has_bits(data: Seq<u8>, pos: nat, bits: Seq<bool>) -> bool {
    forall|i: nat| i < bits.len() ==> (#[trigger] coding::data_bit(data, pos + i) == 1) == bits[i as int]
}

/// `bytes` hold exactly `bits`, filled up with zeros to whole bytes.
pub open spec fn packs(bytes: Seq<u8>, bits: Seq<bool>) -> bool {
    &&& bytes.len() == (bits.len() + 7) / 8
    &&& forall|i: nat|
        i < 8 * bytes.len() ==> (#[trigger] coding::data_bit(bytes, i) == 1) == (i < bits.len()
            && bits[i as int])
}

/// A writer of plain bits, most significant bit of each byte first.
pub struct BitWriter {
    out: Vec<u8>,
    nbits: usize,
    bits: Ghost<Seq<bool>>,
}

/// Setting bit `k` of a byte sets that bit and no other.
proof fn lemma_set_bit(b: u8, k: u8, j: u8)
    requires
        k < 8,
        j < 8,
    ensures
        ((b | (1u8 << k)) as int / pow2(j as nat) as int) % 2 == (if j == k {
            1int
        } else {
            (b as int / pow2(j as nat) as int) % 2
        }),
{
    let x: u8 = b | (1u8 << k);
    lemma_u8_shr_is_div(x, j);
    lemma_u8_shr_is_div(b, j);
    assert((x >> j) % 2 == if j == k {
        1u8
    } else {
        (b >> j) % 2
    }) by (bit_vector)
        requires
            k < 8,
            j < 8,
            x == b | (1u8 << k),
    ;
}

impl BitWriter {
    /// The bits written so far.
    pub closed spec fn view(&self) -> Seq<bool> {
        self.bits@
    }

    /// The bytes hold the bits.
    pub closed spec fn wf(&self) -> bool {
        &&& self.nbits == self.bits@.len()
        &&& packs(self.out@, self.bits@)
    }

    /// A writer that has written nothing.
    pub fn new() -> (w: BitWriter)
        ensures
            w.wf(),
            w@ == Seq::<bool>::empty(),
    {
        BitWriter { out: Vec::new(), nbits: 0, bits: Ghost(Seq::empty()) }
    }

    /// The number of bits written so far.
    pub fn bit_len(&self) -> (r: usize)
        requires
            self.wf(),
        ensures
            r == self@.len(),
    {
        self.nbits
    }

    /// Writes the low bit of `bit`.
    pub fn put_bit(&mut self, bit: u32)
        requires
            old(self).wf(),
            old(self)@.len() < usize::MAX,
        ensures
            final(self).wf(),
            final(self)@ == old(self)@.push(bit % 2 == 1),
    {
        let ghost start = self.out@;
        if self.nbits % 8 == 0 {
            self.out.push(0);
        }
        let ghost grown = self.out@;
        proof {
            let n = self.nbits as nat;
            assert(grown.len() == (n + 8) / 8);
            assert forall|i: nat| i < 8 * grown.len() implies (#[trigger] coding::data_bit(grown, i)
                == 1) == (i < n && self.bits@[i as int]) by {
                if i / 8 < start.len() {
                    assert(coding::data_bit(start, i) == coding::data_bit(grown, i));
                } else {
                    assert(grown[(i / 8) as int] == 0);
                    lemma_pow2_pos((7 - i % 8) as nat);
                    lemma_basic_div(0, pow2((7 - i % 8) as nat) as int);
                }
            }
            assert(bit & 1 == bit % 2) by (bit_vector);
        }
        let byte: usize = self.nbits / 8;
        if bit & 1 != 0 {
            let k: u8 = (7 - self.nbits % 8) as u8;
            let b: u8 = self.out[byte];
            self.out.set(byte, b | (1u8 << k));
            proof {
                assert forall|i: nat| i < 8 * self.out@.len() implies (#[trigger] coding::data_bit(
                    self.out@,
                    i,
                ) == 1) == (i == self.nbits || coding::data_bit(grown, i) == 1) by {
                    if i / 8 == byte {
                        lemma_set_bit(b, k, (7 - i % 8) as u8);
                    }
                }
            }
        }
        proof {
            let bits = self.bits@.push(bit % 2 == 1);
            assert forall|i: nat| i < 8 * self.out@.len() implies (#[trigger] coding::data_bit(
                self.out@,
                i,
            ) == 1) == (i < bits.len() && bits[i as int]) by {
                assert((coding::data_bit(grown, i) == 1) == (i < self.nbits
                    && self.bits@[i as int]));
            }
        }
        self.bits = Ghost(self.bits@.push(bit % 2 == 1));
        self.nbits = self.nbits + 1;
    }

    /// Writes the low `n` bits of `v`, most significant first.
    pub fn put(&mut self, v: u32, n: u32)
        requires
            old(self).wf(),
            n <= 32,
            old(self)@.len() + n <= usize::MAX,
        ensures
            final(self).wf(),
            final(self)@ == old(self)@ + bits_of(v as int, n as nat),
    {
        let mut i: u32 = n;
        assert(old(self)@ + Seq::<bool>::empty() =~= old(self)@);
        while i > 0
            invariant
                i <= n <= 32,
                self.wf(),
                old(self)@.len() + n <= usize::MAX,
                self@.len() == old(self)@.len() + (n - i),
                self@ == old(self)@ + bits_of(v as int / pow2(i as nat) as int, (n - i) as nat),
            decreases i,
        {
            i = i - 1;
            let bit: u32 = (v >> i) & 1;
            proof {
                lemma_u32_shr_is_div(v, i);
                let q: u32 = v >> i;
                assert(q & 1 == q % 2) by (bit_vector);
                lemma_pow2_unfold((i + 1) as nat);
                lemma_pow2_pos(i as nat);
                lemma_div_denominator(v as int, pow2(i as nat) as int, 2);
                lemma_mul_is_commutative(pow2(i as nat) as int, 2);
                let a = bits_of(v as int / pow2((i + 1) as nat) as int, (n - i - 1) as nat);
                let b = bits_of(v as int / pow2(i as nat) as int, (n - i) as nat);
                assert(b == a.push(bit % 2 == 1));
                assert(old(self)@ + b =~= (old(self)@ + a).push(bit % 2 == 1));
            }
            self.put_bit(bit);
        }
        proof {
            lemma2_to64();
            assert(v as int / 1 == v);
        }
    }

    /// Writes a signed value: the low `n` bits of its magnitude, then its sign.
    pub fn put_signed(&mut self, v: i32, n: u32)
        requires
            old(self).wf(),
            n <= 32,
            old(self)@.len() + n + 1 <= usize::MAX,
        ensures
            final(self).wf(),
            final(self)@ == old(self)@ + signed_bits(v as int, n as nat),
    {
        let magnitude: u32 = if v < 0 {
            (-(v as i64)) as u32
        } else {
            v as u32
        };
        proof {
            lemma_bits_len(magnitude as int, n as nat);
        }
        self.put(magnitude, n);
        let sign: u32 = if v < 0 {
            1
        } else {
            0
        };
        self.put_bit(sign);
        assert(final(self)@ =~= old(self)@ + signed_bits(v as int, n as nat));
    }

    /// The bytes written, the last one filled up with zeros.
    pub fn into_bytes(self) -> (out: Vec<u8>)
        requires
            self.wf(),
        ensures
            packs(out@, self@),
    {
        self.out
    }
}

impl Default for BitWriter {
    /// The same as [`BitWriter::new`].
    fn default() -> (w: BitWriter)
        ensures
            w.wf(),
            w@ == Seq::<bool>::empty(),
    {
        BitWriter::new()
    }
}

/// `bits_of` has as many bits as it is asked for.
pub broadcast proof fn lemma_bits_len(v: int, n: nat)
    ensures
        #[trigger] bits_of(v, n).len() == n,
    decreases n,
{
    if n > 0 {
        lemma_bits_len(v / 2, (n - 1) as nat);
    }
}

/// Appending two stretches is appending the first and then the second.
pub broadcast proof fn lemma_add_assoc(x: Seq<bool>, a: Seq<bool>, b: Seq<bool>)
    ensures
        #[trigger] (x + (a + b)) == (x + a) + b,
{
    assert(x + (a + b) =~= (x + a) + b);
}

/// A stretch of bits is its first part followed by its second.
pub broadcast proof fn lemma_has_concat(data: Seq<u8>, pos: nat, a: Seq<bool>, b: Seq<bool>)
    ensures
        #[trigger] has_bits(data, pos, a + b) == (has_bits(data, pos, a) && has_bits(data, pos + a.len(), b)),
{
    if has_bits(data, pos, a + b) {
        assert forall|i: nat| i < a.len() implies (#[trigger] coding::data_bit(data, pos + i) == 1)
            == a[i as int] by {
            assert((a + b)[i as int] == a[i as int]);
        }
        assert forall|i: nat| i < b.len() implies (#[trigger] coding::data_bit(
            data,
            pos + a.len() + i,
        ) == 1) == b[i as int] by {
            assert((a + b)[a.len() + i as int] == b[i as int]);
            assert(pos + a.len() + i == pos + (a.len() + i) as nat);
        }
    } else if has_bits(data, pos, a) && has_bits(data, pos + a.len(), b) {
        assert forall|i: nat| i < (a + b).len() implies (#[trigger] coding::data_bit(data, pos + i)
            == 1) == (a + b)[i as int] by {
            if i >= a.len() {
                let k = (i - a.len()) as nat;
                assert(pos + i == pos + a.len() + k);
            }
        }
        assert(false);
    }
}

/// Reading `n` plain bits inverts writing them.
pub proof fn law_bits_read_inverts_write(data: Seq<u8>, pos: nat, v: int, n: nat)
    requires
        v >= 0,
        has_bits(data, pos, bits_of(v, n)),
    ensures
        coding::take_bits(data, pos, n) == v % pow2(n) as int,
    decreases n,
{
    if n == 0 {
        lemma2_to64();
    } else {
        let m = (n - 1) as nat;
        lemma_bits_len(v / 2, m);
        assert(bits_of(v, n) =~= bits_of(v / 2, m) + seq![v % 2 == 1]);
        lemma_has_concat(data, pos, bits_of(v / 2, m), seq![v % 2 == 1]);
        law_bits_read_inverts_write(data, pos, v / 2, m);
        assert((coding::data_bit(data, pos + m + 0) == 1) == seq![v % 2 == 1][0]);
        assert(0 <= coding::data_bit(data, pos + m) < 2);
        lemma_pow2_unfold(n);
        lemma_pow2_pos(m);
        lemma_mod_breakdown(v, 2, pow2(m) as int);
    }
}

/// Reading a signed value inverts writing it, where the magnitude has at most `n`
/// bits. The value zero is written with a clear sign bit.
pub proof fn law_signed_read_inverts_write(data: Seq<u8>, pos: nat, v: int, n: nat)
    requires
        n <= 31,
        -pow2(n) < v < pow2(n),
        has_bits(data, pos, signed_bits(v, n)),
    ensures
        bits::signed_at(data, pos, n) == v,
{
    let m = if v < 0 {
        -v
    } else {
        v
    };
    lemma_bits_len(m, n);
    assert(signed_bits(v, n) =~= bits_of(m, n) + seq![v < 0]);
    lemma_has_concat(data, pos, bits_of(m, n), seq![v < 0]);
    law_bits_read_inverts_write(data, pos, m, n);
    assert((coding::data_bit(data, pos + n + 0) == 1) == seq![v < 0][0]);
    lemma_small_mod(m as nat, pow2(n));
    lemma2_to64();
    if n < 31 {
        lemma_pow2_strictly_increases(n, 31);
    }
    lemma_small_mod(m as nat, 0x1_0000_0000);
}

/// The bits of a list of fields, each a value and its number of bits.
pub open spec fn fields_bits(fields: Seq<(int, nat)>) -> Seq<bool>
    decreases fields.len(),
{
    if fields.len() == 0 {
        Seq::empty()
    } else {
        fields_bits(fields.drop_last()) + bits_of(fields.last().0, fields.last().1)
    }
}

/// The bits of a list of fields are those of its first `k` and then those of the others.
proof fn lemma_fields_split(fields: Seq<(int, nat)>, k: int) -> (rest: Seq<bool>)
    requires
        0 <= k <= fields.len(),
    ensures
        fields_bits(fields) == fields_bits(fields.take(k)) + rest,
    decreases fields.len(),
{
    if k == fields.len() {
        assert(fields.take(k) =~= fields);
        assert(fields_bits(fields) =~= fields_bits(fields) + Seq::<bool>::empty());
        Seq::empty()
    } else {
        let most = fields.drop_last();
        let rest = lemma_fields_split(most, k);
        assert(most.take(k) =~= fields.take(k));
        let last = bits_of(fields.last().0, fields.last().1);
        lemma_add_assoc(fields_bits(fields.take(k)), rest, last);
        rest + last
    }
}

/// Reading a list of fields inverts writing it: where `bytes` hold what a writer packed of
/// the fields, each of them is read in turn with its value, right behind those before it,
/// and none of them lies behind the end.
pub proof fn law_fields_read_inverts_write(bytes: Seq<u8>, fields: Seq<(int, nat)>, k: int)
    requires
        packs(bytes, fields_bits(fields)),
        0 <= k < fields.len(),
        forall|i: int|
            0 <= i < fields.len() ==> (#[trigger] fields[i]).1 <= 32 && 0 <= fields[i].0 < pow2(
                fields[i].1,
            ),
    ensures
        ({
            let (v, n) = fields[k];
            let pos = fields_bits(fields.take(k)).len();
            &&& pos + n <= 8 * bytes.len()
            &&& coding::take_bits(bytes, pos, n) % 0x1_0000_0000 == v
            &&& fields_bits(fields.take(k + 1)).len() == pos + n
        }),
{
    let (v, n) = fields[k];
    let all = fields_bits(fields);
    let before = fields_bits(fields.take(k));
    let own = bits_of(v, n);
    let rest = lemma_fields_split(fields, k + 1);
    let next = fields.take(k + 1);
    assert(next.drop_last() =~= fields.take(k));
    assert(next.last() == fields[k]);
    lemma_bits_len(v, n);
    assert(has_bits(bytes, 0, all)) by {
        assert forall|i: nat| i < all.len() implies (#[trigger] coding::data_bit(bytes, 0 + i)
            == 1) == all[i as int] by {
            assert((coding::data_bit(bytes, i) == 1) == (i < all.len() && all[i as int]));
        }
    }
    lemma_has_concat(bytes, 0, before + own, rest);
    lemma_has_concat(bytes, 0, before, own);
    law_bits_read_inverts_write(bytes, before.len(), v, n);
    lemma_small_mod(v as nat, pow2(n));
    lemma2_to64();
    if n < 32 {
        lemma_pow2_strictly_increases(n, 32);
    }
    assert(pow2(32) == 0x1_0000_0000) by {
        lemma2_to64();
    }
    lemma_small_mod(v as nat, 0x1_0000_0000);
}

} // verus!
