//! Arithmetic and comparison circuits: ripple-carry addition, subtraction by
//! two's complement, comparison by the borrow, shift-and-add multiplication
//! and restoring division.
use crate::bits::{
    bit, bits_signed, bits_value, flip_top, lemma_flip_top_value, lemma_bits_value_bound, lemma_bits_value_double, lemma_bits_value_first, lemma_bits_value_injective,
    lemma_bits_value_drop_top, lemma_bits_value_not, lemma_bits_value_push, lemma_bits_value_zeros,
};
use crate::builder::{BitwiseOp, CircuitBuilder};
use vstd::arithmetic::div_mod::{
    lemma_add_mod_noop_right, lemma_fundamental_div_mod_converse,
    lemma_fundamental_div_mod_converse_mod, lemma_mul_mod_noop_right,
};
use vstd::arithmetic::power2::{lemma_pow2_pos, lemma_pow2_strictly_increases, lemma_pow2_unfold, pow2};
use vstd::prelude::*;

verus! {

/// One step of shift-and-add from the top bit: doubling the product so far
/// and adding the next partial product keeps it equal to `a * b_hi` modulo `m`.
pub proof fn lemma_mul_step(a: int, b_hi: int, b: int, m: int)
    requires
        m > 0,
    ensures
        ((2 * ((a * b_hi) % m)) % m + b * a) % m == (a * (b + 2 * b_hi)) % m,
{
    lemma_mul_mod_noop_right(2, a * b_hi, m);
    lemma_add_mod_noop_right(b * a, 2 * (a * b_hi), m);
    assert(b * a + 2 * (a * b_hi) == a * (b + 2 * b_hi)) by (nonlinear_arith);
}

/// One step of restoring division: bringing down the next bit `x` of the
/// dividend and subtracting the divisor where it fits keeps quotient and
/// remainder exact.
pub proof fn lemma_div_step(ahi: int, q: int, r: int, b: int, x: int)
    requires
        b > 0,
        0 <= x <= 1,
        ahi == q * b + r,
        0 <= r < b,
    ensures
        2 * r + x >= b ==> (2 * ahi + x) / b == 2 * q + 1 && (2 * ahi + x) % b == 2 * r + x - b,
        2 * r + x < b ==> (2 * ahi + x) / b == 2 * q && (2 * ahi + x) % b == 2 * r + x,
{
    if 2 * r + x >= b {
        assert(2 * ahi + x == (2 * q + 1) * b + (2 * r + x - b)) by (nonlinear_arith)
            requires
                ahi == q * b + r,
        ;
        lemma_fundamental_div_mod_converse(2 * ahi + x, b, 2 * q + 1, 2 * r + x - b);
    } else {
        assert(2 * ahi + x == (2 * q) * b + (2 * r + x)) by (nonlinear_arith)
            requires
                ahi == q * b + r,
        ;
        lemma_fundamental_div_mod_converse(2 * ahi + x, b, 2 * q, 2 * r + x);
    }
}

impl CircuitBuilder {
    /// One full adder, five gates: `s = x ^ y ^ c`, `carry = (x & y) ^ ((x ^ y) & c)`.
    fn full_adder(&mut self, x: u32, y: u32, c: u32) -> (r: (u32, u32))
        requires
            old(self).wf(),
            x < old(self).gates().len(),
            y < old(self).gates().len(),
            c < old(self).gates().len(),
            old(self).room(5),
        ensures
            final(self).wf(),
            final(self).extends(old(self)),
            final(self).gates().len() == old(self).gates().len() + 5,
            r.0 < final(self).gates().len(),
            r.1 < final(self).gates().len(),
            bit(final(self).wires()[r.0 as int]) + 2 * bit(final(self).wires()[r.1 as int]) == bit(
                old(self).wires()[x as int],
            ) + bit(old(self).wires()[y as int]) + bit(old(self).wires()[c as int]),
    {
        let ghost s0 = *self;
        let t = self.xor(x, y);
        let ghost s1 = *self;
        let s = self.xor(t, c);
        let ghost s2 = *self;
        let g = self.and(x, y);
        let ghost s3 = *self;
        let p = self.and(t, c);
        let ghost s4 = *self;
        let carry = self.xor(g, p);
        proof {
            s1.lemma_extends_wire(&s0, c);
            s1.lemma_extends_wire(&s0, x);
            s1.lemma_extends_wire(&s0, y);
            s2.lemma_extends_wire(&s1, x);
            s2.lemma_extends_wire(&s1, y);
            s2.lemma_extends_wire(&s1, t);
            s2.lemma_extends_wire(&s1, c);
            s3.lemma_extends_wire(&s2, t);
            s3.lemma_extends_wire(&s2, c);
            s3.lemma_extends_wire(&s2, s);
            s4.lemma_extends_wire(&s3, g);
            s4.lemma_extends_wire(&s3, s);
            self.lemma_extends_wire(&s4, s);
            s2.lemma_extends_trans(&s1, &s0);
            s3.lemma_extends_trans(&s2, &s0);
            s4.lemma_extends_trans(&s3, &s0);
            self.lemma_extends_trans(&s4, &s0);
        }
        (s, carry)
    }

    /// Ripple-carry addition of equal-width operands with carry-in `cin`:
    /// the sum bits and the final carry together are `a + b + cin`.
    pub fn add_with_carry(&mut self, a: &Vec<u32>, b: &Vec<u32>, cin: u32) -> (r: (Vec<u32>, u32))
        requires
            old(self).wf(),
            a@.len() == b@.len(),
            old(self).valid(a@),
            old(self).valid(b@),
            cin < old(self).gates().len(),
            old(self).room(5 * a@.len()),
        ensures
            final(self).wf(),
            final(self).extends(old(self)),
            final(self).gates().len() == old(self).gates().len() + 5 * a@.len(),
            r.0@.len() == a@.len(),
            final(self).valid(r.0@),
            r.1 < final(self).gates().len(),
            bits_value(final(self).read(r.0@)) + bit(final(self).wires()[r.1 as int]) * pow2(
                a@.len() as nat,
            ) == bits_value(old(self).read(a@)) + bits_value(old(self).read(b@)) + bit(
                old(self).wires()[cin as int],
            ),
    {
        let n = a.len();
        let ghost av = old(self).read(a@);
        let ghost bv = old(self).read(b@);
        let ghost cv = bit(old(self).wires()[cin as int]);
        let mut r: Vec<u32> = Vec::new();
        let mut c = cin;
        let mut i: usize = 0;
        proof {
            assert(self.gates().subrange(0, self.gates().len() as int) =~= self.gates());
            assert(av.subrange(0, 0) =~= Seq::<bool>::empty());
            assert(bv.subrange(0, 0) =~= Seq::<bool>::empty());
            assert(self.read(r@) =~= Seq::<bool>::empty());
            vstd::arithmetic::power2::lemma2_to64();
        }
        while i < n
            invariant
                n == a@.len(),
                n == b@.len(),
                0 <= i <= n,
                av == old(self).read(a@),
                bv == old(self).read(b@),
                old(self).wf(),
                old(self).valid(a@),
                old(self).valid(b@),
                old(self).room(5 * n as nat),
                self.wf(),
                self.extends(old(self)),
                self.gates().len() == old(self).gates().len() + 5 * i,
                r@.len() == i,
                self.valid(r@),
                c < self.gates().len(),
                bits_value(self.read(r@)) + bit(self.wires()[c as int]) * pow2(i as nat) == bits_value(
                    av.subrange(0, i as int),
                ) + bits_value(bv.subrange(0, i as int)) + cv,
            decreases n - i,
        {
            let ghost prev = *self;
            let ghost r0 = r@;
            let ghost c0 = c;
            proof {
                self.lemma_extends_read(old(self), a@);
                self.lemma_extends_read(old(self), b@);
                assert(a@[i as int] < self.gates().len());
                assert(b@[i as int] < self.gates().len());
            }
            let (s, carry) = self.full_adder(a[i], b[i], c);
            r.push(s);
            c = carry;
            proof {
                self.lemma_extends_trans(&prev, old(self));
                self.lemma_extends_read(&prev, r0);
                assert(r@.drop_last() =~= r0);
                assert(self.read(r@) =~= prev.read(r0).push(self.wires()[s as int]));
                lemma_bits_value_push(prev.read(r0), self.wires()[s as int]);
                assert(av.subrange(0, i + 1) =~= av.subrange(0, i as int).push(av[i as int]));
                assert(bv.subrange(0, i + 1) =~= bv.subrange(0, i as int).push(bv[i as int]));
                lemma_bits_value_push(av.subrange(0, i as int), av[i as int]);
                lemma_bits_value_push(bv.subrange(0, i as int), bv[i as int]);
                assert(prev.read(a@)[i as int] == av[i as int]);
                assert(prev.read(b@)[i as int] == bv[i as int]);
                lemma_pow2_unfold((i + 1) as nat);
                let p = pow2(i as nat);
                let bs = bit(self.wires()[s as int]);
                let bc = bit(self.wires()[c as int]);
                let ba = bit(av[i as int]);
                let bb = bit(bv[i as int]);
                let bp = bit(prev.wires()[c0 as int]);
                assert(bs * p + bc * (2 * p) == (ba + bb + bp) * p) by (nonlinear_arith)
                    requires
                        bs + 2 * bc == ba + bb + bp,
                ;
            }
            i += 1;
        }
        proof {
            assert(av.subrange(0, n as int) =~= av);
            assert(bv.subrange(0, n as int) =~= bv);
        }
        (r, c)
    }

    /// `a + b` modulo `2^n`: a ripple-carry adder whose carry-in is the false
    /// wire and whose final carry is dropped.
    pub fn add(&mut self, a: &Vec<u32>, b: &Vec<u32>) -> (r: Vec<u32>)
        requires
            old(self).wf(),
            a@.len() == b@.len(),
            a@.len() > 0,
            old(self).valid(a@),
            old(self).valid(b@),
            old(self).room(5 * a@.len() + 1),
        ensures
            final(self).wf(),
            final(self).extends(old(self)),
            final(self).gates().len() <= old(self).gates().len() + 5 * a@.len() + 1,
            old(self).constants_ready() ==> final(self).gates().len() == old(self).gates().len() + 5 * a@.len(),
            r@.len() == a@.len(),
            final(self).valid(r@),
            bits_value(final(self).read(r@)) == (bits_value(old(self).read(a@)) + bits_value(
                old(self).read(b@),
            )) % pow2(a@.len() as nat),
    {
        let ghost s0 = *self;
        proof {
            assert(a@[0] < self.gates().len());
        }
        let z = self.constant_false();
        let ghost s1 = *self;
        proof {
            s1.lemma_extends_read(&s0, a@);
            s1.lemma_extends_read(&s0, b@);
        }
        let (r, c) = self.add_with_carry(a, b, z);
        proof {
            self.lemma_extends_trans(&s1, &s0);
            lemma_bits_value_bound(self.read(r@));
            lemma_pow2_pos(a@.len() as nat);
            lemma_fundamental_div_mod_converse_mod(
                (bits_value(s0.read(a@)) + bits_value(s0.read(b@))) as int,
                pow2(a@.len() as nat) as int,
                bit(self.wires()[c as int]) as int,
                bits_value(self.read(r@)) as int,
            );
        }
        r
    }

    /// `a - b` as `a + NOT b + 1`: the difference bits and the final carry
    /// together are `a - b + 2^n`; the carry is set exactly when `a >= b`.
    pub fn sub_with_carry(&mut self, a: &Vec<u32>, b: &Vec<u32>) -> (r: (Vec<u32>, u32))
        requires
            old(self).wf(),
            a@.len() == b@.len(),
            a@.len() > 0,
            old(self).valid(a@),
            old(self).valid(b@),
            old(self).room(6 * a@.len() + 2),
        ensures
            final(self).wf(),
            final(self).extends(old(self)),
            final(self).gates().len() <= old(self).gates().len() + 6 * a@.len() + 2,
            old(self).constants_ready() ==> final(self).gates().len() == old(self).gates().len() + 6 * a@.len(),
            r.0@.len() == a@.len(),
            final(self).valid(r.0@),
            r.1 < final(self).gates().len(),
            bits_value(final(self).read(r.0@)) + bit(final(self).wires()[r.1 as int]) * pow2(
                a@.len() as nat,
            ) == bits_value(old(self).read(a@)) - bits_value(old(self).read(b@)) + pow2(
                a@.len() as nat,
            ),
            final(self).wires()[r.1 as int] == (bits_value(old(self).read(a@)) >= bits_value(
                old(self).read(b@),
            )),
    {
        let ghost s0 = *self;
        proof {
            assert(a@[0] < self.gates().len());
        }
        let one = self.constant_true();
        let ghost s1 = *self;
        proof {
            s1.lemma_extends_read(&s0, a@);
            s1.lemma_extends_read(&s0, b@);
        }
        let nb = self.not_bits(b);
        let ghost s2 = *self;
        proof {
            s2.lemma_extends_read(&s1, a@);
            s2.lemma_extends_wire(&s1, one);
            s2.lemma_extends_trans(&s1, &s0);
        }
        let (r, c) = self.add_with_carry(a, &nb, one);
        proof {
            self.lemma_extends_trans(&s2, &s0);
            lemma_bits_value_not(s0.read(b@));
            assert(s2.read(nb@) =~= Seq::new(s0.read(b@).len(), |i: int| !s0.read(b@)[i]));
            lemma_bits_value_bound(self.read(r@));
            lemma_bits_value_bound(s0.read(a@));
            lemma_bits_value_bound(s0.read(b@));
            let p = pow2(a@.len() as nat);
            if self.wires()[c as int] {
                assert(bit(self.wires()[c as int]) * p == p);
            } else {
                assert(bit(self.wires()[c as int]) * p == 0);
            }
        }
        (r, c)
    }

    /// `a - b` modulo `2^n`.
    pub fn sub(&mut self, a: &Vec<u32>, b: &Vec<u32>) -> (r: Vec<u32>)
        requires
            old(self).wf(),
            a@.len() == b@.len(),
            a@.len() > 0,
            old(self).valid(a@),
            old(self).valid(b@),
            old(self).room(6 * a@.len() + 2),
        ensures
            final(self).wf(),
            final(self).extends(old(self)),
            final(self).gates().len() <= old(self).gates().len() + 6 * a@.len() + 2,
            old(self).constants_ready() ==> final(self).gates().len() == old(self).gates().len() + 6 * a@.len(),
            r@.len() == a@.len(),
            final(self).valid(r@),
            bits_value(final(self).read(r@)) as int == (bits_value(old(self).read(a@)) - bits_value(
                old(self).read(b@),
            )) % (pow2(a@.len() as nat) as int),
    {
        let (r, c) = self.sub_with_carry(a, b);
        proof {
            lemma_bits_value_bound(self.read(r@));
            let p = pow2(a@.len() as nat) as int;
            let cb = bit(self.wires()[c as int]) as int;
            assert(cb * p == p && (cb - 1) * p == 0 || cb * p == 0 && (cb - 1) * p == -p) by (nonlinear_arith)
                requires
                    cb == 0 || cb == 1,
            ;
            lemma_fundamental_div_mod_converse_mod(
                bits_value(old(self).read(a@)) - bits_value(old(self).read(b@)),
                pow2(a@.len() as nat) as int,
                bit(self.wires()[c as int]) - 1,
                bits_value(self.read(r@)) as int,
            );
        }
        r
    }

    /// Unsigned `a < b`: the borrow of `a - b`.
    pub fn lt(&mut self, a: &Vec<u32>, b: &Vec<u32>) -> (w: u32)
        requires
            old(self).wf(),
            a@.len() == b@.len(),
            a@.len() > 0,
            old(self).valid(a@),
            old(self).valid(b@),
            old(self).room(6 * a@.len() + 3),
        ensures
            final(self).wf(),
            final(self).extends(old(self)),
            final(self).gates().len() <= old(self).gates().len() + 6 * a@.len() + 3,
            old(self).constants_ready() ==> final(self).gates().len() == old(self).gates().len() + 6 * a@.len() + 1,
            w < final(self).gates().len(),
            final(self).wires()[w as int] == (bits_value(old(self).read(a@)) < bits_value(
                old(self).read(b@),
            )),
    {
        let ghost s0 = *self;
        let (_d, c) = self.sub_with_carry(a, b);
        let ghost s1 = *self;
        let w = self.not(c);
        proof {
            self.lemma_extends_trans(&s1, &s0);
        }
        w
    }

    /// `a == b`: XNOR of each pair of bits, joined by a chain of ANDs.
    pub fn eq(&mut self, a: &Vec<u32>, b: &Vec<u32>) -> (w: u32)
        requires
            old(self).wf(),
            a@.len() == b@.len(),
            a@.len() > 0,
            old(self).valid(a@),
            old(self).valid(b@),
            old(self).room(3 * a@.len()),
        ensures
            final(self).wf(),
            final(self).extends(old(self)),
            final(self).gates().len() == old(self).gates().len() + 3 * a@.len() - 1,
            w < final(self).gates().len(),
            final(self).wires()[w as int] == (old(self).read(a@) == old(self).read(b@)),
    {
        let n = a.len();
        let ghost av = old(self).read(a@);
        let ghost bv = old(self).read(b@);
        let ghost s0 = *self;
        proof {
            assert(BitwiseOp::Xnor.cost() == 2);
            assert(a@.len() * BitwiseOp::Xnor.cost() == 2 * a@.len());
        }
        let x = self.bitwise(BitwiseOp::Xnor, a, b);
        let ghost s1 = *self;
        let mut acc = x[0];
        let mut i: usize = 1;
        proof {
            assert(self.gates().subrange(0, self.gates().len() as int) =~= self.gates());
            assert(s1.read(x@)[0] == (av[0] == bv[0]));
        }
        while i < n
            invariant
                n == a@.len(),
                n == x@.len(),
                av.len() == n,
                bv.len() == n,
                1 <= i <= n,
                s1.wf(),
                s1.valid(x@),
                s1.read(x@) == BitwiseOp::Xnor.apply_bits(av, bv),
                s1.gates().len() == old(self).gates().len() + 2 * n,
                old(self).room(3 * n as nat),
                self.wf(),
                self.extends(&s1),
                self.gates().len() == s1.gates().len() + i - 1,
                acc < self.gates().len(),
                self.wires()[acc as int] == (forall|k: int| 0 <= k < i ==> av[k] == bv[k]),
            decreases n - i,
        {
            let ghost prev = *self;
            proof {
                self.lemma_extends_read(&s1, x@);
                assert(x@[i as int] < self.gates().len());
                assert(BitwiseOp::Xnor.apply_bits(av, bv)[i as int] == (av[i as int] == bv[i as int]));
                assert(self.read(x@)[i as int] == (av[i as int] == bv[i as int]));
            }
            acc = self.and(acc, x[i]);
            proof {
                self.lemma_extends_trans(&prev, &s1);
                assert(self.wires()[acc as int] == (forall|k: int| 0 <= k < i + 1 ==> av[k] == bv[k])) by {
                    if forall|k: int| 0 <= k < i ==> av[k] == bv[k] {
                        if av[i as int] == bv[i as int] {
                            assert forall|k: int| 0 <= k < i + 1 implies av[k] == bv[k] by {
                                if k < i {
                                }
                            }
                        }
                    }
                }
            }
            i += 1;
        }
        proof {
            self.lemma_extends_trans(&s1, &s0);
            if forall|k: int| 0 <= k < n ==> av[k] == bv[k] {
                assert(av =~= bv);
            }
        }
        acc
    }

    /// `a * b` modulo `2^n` by shift-and-add, from the top bit of `b` down:
    /// each step shifts the product left by one (no gates), selects `a` or
    /// zero by the bit of `b` with a multiplexer, and adds with a ripple adder.
    pub fn mul(&mut self, a: &Vec<u32>, b: &Vec<u32>) -> (r: Vec<u32>)
        requires
            old(self).wf(),
            a@.len() == b@.len(),
            a@.len() > 0,
            old(self).valid(a@),
            old(self).valid(b@),
            old(self).room(9 * a@.len() * a@.len() + 1),
        ensures
            final(self).wf(),
            final(self).extends(old(self)),
            final(self).gates().len() <= old(self).gates().len() + 9 * a@.len() * a@.len() + 1,
            old(self).constants_ready() ==> final(self).gates().len() == old(self).gates().len() + 8 * a@.len() * a@.len(),
            r@.len() == a@.len(),
            final(self).valid(r@),
            bits_value(final(self).read(r@)) == (bits_value(old(self).read(a@)) * bits_value(
                old(self).read(b@),
            )) % pow2(a@.len() as nat),
    {
        let n = a.len();
        let ghost av = bits_value(old(self).read(a@));
        let ghost bs = old(self).read(b@);
        let ghost m = pow2(n as nat);
        let ghost s0 = *self;
        proof {
            assert(a@[0] < self.gates().len());
        }
        let z = self.constant_false();
        let ghost s1 = *self;
        let mut zeros: Vec<u32> = Vec::new();
        let mut k: usize = 0;
        while k < n
            invariant
                0 <= k <= n,
                z < self.gates().len(),
                zeros@.len() == k,
                forall|j: int| 0 <= j < k ==> zeros@[j] == z,
            decreases n - k,
        {
            zeros.push(z);
            k += 1;
        }
        let mut acc = zeros.clone();
        let mut i: usize = n;
        proof {
            lemma_pow2_pos(n as nat);
            assert(self.read(zeros@) =~= Seq::new(n as nat, |j: int| false));
            lemma_bits_value_zeros(n as nat);
            assert(bs.subrange(n as int, n as int) =~= Seq::<bool>::empty());
            assert(self.gates().subrange(0, self.gates().len() as int) =~= self.gates());
            s1.lemma_extends_read(&s0, a@);
            s1.lemma_extends_read(&s0, b@);
            assert(acc@ == zeros@);
            assert(bits_value(bs.subrange(n as int, n as int)) == 0);
            assert(av * 0 == 0);
            assert(n * (9 * n) == 9 * n * n) by (nonlinear_arith);
            assert((n - n) * (8 * n) == 0) by (nonlinear_arith);
        }
        while i > 0
            invariant
                n == a@.len(),
                n == b@.len(),
                n > 0,
                0 <= i <= n,
                m == pow2(n as nat),
                m > 0,
                bs.len() == n,
                s1.wf(),
                s1.extends(old(self)),
                s1.gates().len() <= old(self).gates().len() + 1,
                s1.valid(a@),
                s1.valid(b@),
                s1.valid(zeros@),
                av == bits_value(s1.read(a@)),
                bs == s1.read(b@),
                s1.read(zeros@) == Seq::new(n as nat, |j: int| false),
                zeros@.len() == n,
                old(self).room(9 * a@.len() * a@.len() + 1),
                self.wf(),
                self.extends(&s1),
                self.gates().len() + i * (9 * n) <= s1.gates().len() + 9 * n * n,
                old(self).constants_ready() ==> s1.constants_ready() && s1.gates().len() == old(self).gates().len(),
                s1.constants_ready() ==> self.gates().len() == s1.gates().len() + (n - i) * (8 * n),
                acc@.len() == n,
                self.valid(acc@),
                bits_value(self.read(acc@)) == (av * bits_value(bs.subrange(i as int, n as int))) % m,
            decreases i,
        {
            i -= 1;
            let ghost prev = *self;
            let mut shifted: Vec<u32> = Vec::new();
            shifted.push(zeros[0]);
            let mut k: usize = 0;
            while k + 1 < n
                invariant
                    n == acc@.len(),
                    0 <= k < n,
                    shifted@.len() == k + 1,
                    shifted@[0] == zeros@[0],
                    forall|j: int| 1 <= j <= k ==> shifted@[j] == acc@[j - 1],
                decreases n - k,
            {
                shifted.push(acc[k]);
                k += 1;
            }
            proof {
                self.lemma_extends_read(&s1, a@);
                self.lemma_extends_read(&s1, b@);
                self.lemma_extends_read(&s1, zeros@);
                assert(b@[i as int] < self.gates().len());
                assert(self.read(zeros@)[0] == false);
                assert(self.read(shifted@) =~= seq![false] + self.read(acc@).subrange(0, n - 1));
                lemma_bits_value_double(self.read(acc@));
                assert(self.valid(shifted@));
                assert(self.gates().len() + 9 * n <= s1.gates().len() + 9 * n * n) by (nonlinear_arith)
                    requires
                        self.gates().len() + (i + 1) * (9 * n) <= s1.gates().len() + 9 * n * n,
                ;
            }
            let pp = self.mux(b[i], a, &zeros);
            let ghost mid = *self;
            proof {
                mid.lemma_extends_read(&prev, shifted@);
                mid.lemma_extends_trans(&prev, &s1);
                assert(self.read(b@)[i as int] == self.wires()[b@[i as int] as int]);
                assert(prev.read(b@)[i as int] == prev.wires()[b@[i as int] as int]);
            }
            acc = self.add(&shifted, &pp);
            proof {
                self.lemma_extends_trans(&mid, &s1);
                let bi = bs[i as int];
                let hi = bits_value(bs.subrange(i + 1, n as int));
                assert(bs.subrange(i as int, n as int).drop_first() =~= bs.subrange(i + 1, n as int));
                lemma_bits_value_first(bs.subrange(i as int, n as int));
                lemma_bits_value_zeros(n as nat);
                if bi {
                    assert(bits_value(mid.read(pp@)) == av);
                } else {
                    assert(bits_value(mid.read(pp@)) == 0);
                }
                lemma_mul_step(av as int, hi as int, bit(bi) as int, m as int);
                assert(self.gates().len() + i * (9 * n) <= s1.gates().len() + 9 * n * n) by (nonlinear_arith)
                    requires
                        self.gates().len() <= prev.gates().len() + 8 * n + 1,
                        prev.gates().len() + (i + 1) * (9 * n) <= s1.gates().len() + 9 * n * n,
                        n > 0,
                ;
                if s1.constants_ready() {
                    assert((n - i) * (8 * n) == (n - (i + 1)) * (8 * n) + 8 * n) by (nonlinear_arith)
                        requires
                            i < n,
                    ;
                }
            }
        }
        proof {
            assert(bs.subrange(0, n as int) =~= bs);
            self.lemma_extends_trans(&s1, old(self));
            assert(0 * (9 * n) == 0);
            assert((n - 0) * (8 * n) == 8 * n * n) by (nonlinear_arith);
        }
        acc
    }

    /// Unsigned division and remainder by restoring long division, from the
    /// top bit of `a` down: bring the next bit into the running remainder,
    /// subtract `b`, and keep the difference where there was no borrow. The
    /// quotient bit is that no-borrow bit. Dividing by zero gives the
    /// all-ones quotient and the dividend as remainder.
    /// `a != b`: the negation of equality.
    pub fn ne(&mut self, a: &Vec<u32>, b: &Vec<u32>) -> (w: u32)
        requires
            old(self).wf(),
            a@.len() == b@.len(),
            a@.len() > 0,
            old(self).valid(a@),
            old(self).valid(b@),
            old(self).room(3 * a@.len() + 1),
        ensures
            final(self).wf(),
            final(self).extends(old(self)),
            final(self).gates().len() == old(self).gates().len() + 3 * a@.len(),
            w < final(self).gates().len(),
            final(self).wires()[w as int] == (old(self).read(a@) != old(self).read(b@)),
    {
        let ghost s0 = *self;
        let e = self.eq(a, b);
        let ghost s1 = *self;
        let w = self.not(e);
        proof {
            self.lemma_extends_trans(&s1, &s0);
        }
        w
    }

    /// Unsigned `a <= b`: `(a < b) OR (a == b)`.
    pub fn le(&mut self, a: &Vec<u32>, b: &Vec<u32>) -> (w: u32)
        requires
            old(self).wf(),
            a@.len() == b@.len(),
            a@.len() > 0,
            old(self).valid(a@),
            old(self).valid(b@),
            old(self).room(9 * a@.len() + 6),
        ensures
            final(self).wf(),
            final(self).extends(old(self)),
            final(self).gates().len() <= old(self).gates().len() + 9 * a@.len() + 6,
            old(self).constants_ready() ==> final(self).gates().len() == old(self).gates().len() + 9 * a@.len() + 3,
            w < final(self).gates().len(),
            final(self).wires()[w as int] == (bits_value(old(self).read(a@)) <= bits_value(
                old(self).read(b@),
            )),
    {
        let ghost s0 = *self;
        let l = self.lt(a, b);
        let ghost s1 = *self;
        proof {
            s1.lemma_extends_read(&s0, a@);
            s1.lemma_extends_read(&s0, b@);
        }
        let e = self.eq(a, b);
        let ghost s2 = *self;
        proof {
            s2.lemma_extends_wire(&s1, l);
            s2.lemma_extends_trans(&s1, &s0);
        }
        let w = self.bit_op(BitwiseOp::Or, l, e);
        proof {
            self.lemma_extends_trans(&s2, &s0);
            lemma_bits_value_injective(s0.read(a@), s0.read(b@));
        }
        w
    }

    /// Unsigned `a > b`: `b < a`.
    pub fn gt(&mut self, a: &Vec<u32>, b: &Vec<u32>) -> (w: u32)
        requires
            old(self).wf(),
            a@.len() == b@.len(),
            a@.len() > 0,
            old(self).valid(a@),
            old(self).valid(b@),
            old(self).room(6 * a@.len() + 3),
        ensures
            final(self).wf(),
            final(self).extends(old(self)),
            final(self).gates().len() <= old(self).gates().len() + 6 * a@.len() + 3,
            old(self).constants_ready() ==> final(self).gates().len() == old(self).gates().len() + 6 * a@.len() + 1,
            w < final(self).gates().len(),
            final(self).wires()[w as int] == (bits_value(old(self).read(a@)) > bits_value(
                old(self).read(b@),
            )),
    {
        self.lt(b, a)
    }

    /// Unsigned `a >= b`: the negation of `a < b`.
    pub fn ge(&mut self, a: &Vec<u32>, b: &Vec<u32>) -> (w: u32)
        requires
            old(self).wf(),
            a@.len() == b@.len(),
            a@.len() > 0,
            old(self).valid(a@),
            old(self).valid(b@),
            old(self).room(6 * a@.len() + 4),
        ensures
            final(self).wf(),
            final(self).extends(old(self)),
            final(self).gates().len() <= old(self).gates().len() + 6 * a@.len() + 4,
            old(self).constants_ready() ==> final(self).gates().len() == old(self).gates().len() + 6 * a@.len() + 2,
            w < final(self).gates().len(),
            final(self).wires()[w as int] == (bits_value(old(self).read(a@)) >= bits_value(
                old(self).read(b@),
            )),
    {
        let ghost s0 = *self;
        let l = self.lt(a, b);
        let ghost s1 = *self;
        let w = self.not(l);
        proof {
            self.lemma_extends_trans(&s1, &s0);
        }
        w
    }

    /// The wires of `a` with the top one negated.
    fn flip_top_wire(&mut self, a: &Vec<u32>) -> (r: Vec<u32>)
        requires
            old(self).wf(),
            a@.len() > 0,
            old(self).valid(a@),
            old(self).room(1),
        ensures
            final(self).wf(),
            final(self).extends(old(self)),
            final(self).gates().len() == old(self).gates().len() + 1,
            r@.len() == a@.len(),
            final(self).valid(r@),
            final(self).read(r@) == flip_top(old(self).read(a@)),
    {
        let n = a.len();
        let ghost s0 = *self;
        let top = self.not(a[n - 1]);
        let mut r: Vec<u32> = Vec::new();
        let mut k: usize = 0;
        while k + 1 < n
            invariant
                n == a@.len(),
                0 <= k < n,
                r@.len() == k,
                forall|j: int| 0 <= j < k ==> r@[j] == a@[j],
            decreases n - k,
        {
            r.push(a[k]);
            k += 1;
        }
        r.push(top);
        proof {
            self.lemma_extends_read(&s0, a@);
            assert(self.read(r@) =~= flip_top(s0.read(a@)));
        }
        r
    }

    /// Signed `a < b`: flip both sign bits, then compare unsigned.
    pub fn lt_signed(&mut self, a: &Vec<u32>, b: &Vec<u32>) -> (w: u32)
        requires
            old(self).wf(),
            a@.len() == b@.len(),
            a@.len() > 0,
            old(self).valid(a@),
            old(self).valid(b@),
            old(self).room(6 * a@.len() + 5),
        ensures
            final(self).wf(),
            final(self).extends(old(self)),
            final(self).gates().len() <= old(self).gates().len() + 6 * a@.len() + 5,
            old(self).constants_ready() ==> final(self).gates().len() == old(self).gates().len() + 6 * a@.len() + 3,
            w < final(self).gates().len(),
            final(self).wires()[w as int] == (bits_signed(old(self).read(a@)) < bits_signed(
                old(self).read(b@),
            )),
    {
        let ghost s0 = *self;
        let fa = self.flip_top_wire(a);
        let ghost s1 = *self;
        proof {
            s1.lemma_extends_read(&s0, b@);
        }
        let fb = self.flip_top_wire(b);
        let ghost s2 = *self;
        proof {
            s2.lemma_extends_read(&s1, fa@);
            s2.lemma_extends_trans(&s1, &s0);
        }
        let w = self.lt(&fa, &fb);
        proof {
            self.lemma_extends_trans(&s2, &s0);
            lemma_flip_top_value(s0.read(a@));
            lemma_flip_top_value(s0.read(b@));
        }
        w
    }

    /// Unary minus: `NOT a + 1` modulo `2^n`.
    pub fn neg(&mut self, a: &Vec<u32>) -> (r: Vec<u32>)
        requires
            old(self).wf(),
            a@.len() > 0,
            old(self).valid(a@),
            old(self).room(6 * a@.len() + 3),
        ensures
            final(self).wf(),
            final(self).extends(old(self)),
            final(self).gates().len() <= old(self).gates().len() + 6 * a@.len() + 3,
            old(self).constants_ready() ==> final(self).gates().len() == old(self).gates().len() + 6 * a@.len(),
            r@.len() == a@.len(),
            final(self).valid(r@),
            bits_value(final(self).read(r@)) as int == (0 - bits_value(old(self).read(a@))) % (pow2(
                a@.len() as nat,
            ) as int),
    {
        let n = a.len();
        let ghost s0 = *self;
        let z = self.constant_false();
        let ghost s1 = *self;
        let mut zeros: Vec<u32> = Vec::new();
        let mut k: usize = 0;
        while k < n
            invariant
                0 <= k <= n,
                z < self.gates().len(),
                zeros@.len() == k,
                forall|j: int| 0 <= j < k ==> zeros@[j] == z,
            decreases n - k,
        {
            zeros.push(z);
            k += 1;
        }
        proof {
            s1.lemma_extends_read(&s0, a@);
            assert(self.read(zeros@) =~= Seq::new(n as nat, |j: int| false));
            lemma_bits_value_zeros(n as nat);
        }
        let r = self.sub(&zeros, a);
        proof {
            self.lemma_extends_trans(&s1, &s0);
        }
        r
    }

    #[verifier::rlimit(100)]
    pub fn div_rem(&mut self, a: &Vec<u32>, b: &Vec<u32>) -> (r: (Vec<u32>, Vec<u32>))
        requires
            old(self).wf(),
            a@.len() == b@.len(),
            a@.len() > 0,
            old(self).valid(a@),
            old(self).valid(b@),
            old(self).room(17 * a@.len() * a@.len() + 1),
        ensures
            final(self).wf(),
            final(self).extends(old(self)),
            final(self).gates().len() <= old(self).gates().len() + 17 * a@.len() * a@.len() + 1,
            old(self).constants_ready() ==> final(self).gates().len() == old(self).gates().len() + a@.len() * (9 * a@.len() + 6),
            r.0@.len() == a@.len(),
            r.1@.len() == a@.len(),
            final(self).valid(r.0@),
            final(self).valid(r.1@),
            bits_value(old(self).read(b@)) > 0 ==> bits_value(final(self).read(r.0@)) == bits_value(
                old(self).read(a@),
            ) / bits_value(old(self).read(b@)) && bits_value(final(self).read(r.1@)) == bits_value(
                old(self).read(a@),
            ) % bits_value(old(self).read(b@)),
            bits_value(old(self).read(b@)) > 0 ==> bits_value(old(self).read(a@)) == bits_value(
                final(self).read(r.0@),
            ) * bits_value(old(self).read(b@)) + bits_value(final(self).read(r.1@)) && bits_value(
                final(self).read(r.1@),
            ) < bits_value(old(self).read(b@)),
            bits_value(old(self).read(b@)) == 0 ==> bits_value(final(self).read(r.0@)) == pow2(
                a@.len() as nat,
            ) - 1 && bits_value(final(self).read(r.1@)) == bits_value(old(self).read(a@)),
    {
        let n = a.len();
        let ghost asq = old(self).read(a@);
        let ghost bv = bits_value(old(self).read(b@));
        let ghost s0 = *self;
        proof {
            assert(a@[0] < self.gates().len());
        }
        let z = self.constant_false();
        let ghost s1 = *self;
        let mut rem: Vec<u32> = Vec::new();
        let mut k: usize = 0;
        while k < n
            invariant
                0 <= k <= n,
                z < self.gates().len(),
                rem@.len() == k,
                forall|j: int| 0 <= j < k ==> rem@[j] == z,
            decreases n - k,
        {
            rem.push(z);
            k += 1;
        }
        let mut bx: Vec<u32> = Vec::new();
        let mut k: usize = 0;
        while k < n
            invariant
                0 <= k <= n,
                n == b@.len(),
                bx@.len() == k,
                forall|j: int| 0 <= j < k ==> bx@[j] == b@[j],
            decreases n - k,
        {
            bx.push(b[k]);
            k += 1;
        }
        bx.push(z);
        let mut quo: Vec<u32> = Vec::new();
        let mut i: usize = n;
        proof {
            s1.lemma_extends_read(&s0, a@);
            s1.lemma_extends_read(&s0, b@);
            assert(self.read(rem@) =~= Seq::new(n as nat, |j: int| false));
            lemma_bits_value_zeros(n as nat);
            assert(asq.subrange(n as int, n as int) =~= Seq::<bool>::empty());
            assert(self.read(quo@) =~= Seq::<bool>::empty());
            assert(self.read(bx@) =~= s0.read(b@).push(false));
            lemma_bits_value_push(s0.read(b@), false);
            assert(bit(false) * pow2(n as nat) == 0) by (nonlinear_arith)
                requires
                    bit(false) == 0,
            ;
            assert(bits_value(self.read(bx@)) == bv);
            lemma_bits_value_bound(s0.read(b@));
            if bv > 0 {
                lemma_fundamental_div_mod_converse(0, bv as int, 0, 0);
            }
            assert(self.gates().subrange(0, self.gates().len() as int) =~= self.gates());
            vstd::arithmetic::power2::lemma2_to64();
            assert(n * (17 * n) == 17 * n * n) by (nonlinear_arith);
            assert((n - n) * (9 * n + 6) == 0) by (nonlinear_arith);
        }
        while i > 0
            invariant
                n == a@.len(),
                n == b@.len(),
                n > 0,
                0 <= i <= n,
                asq.len() == n,
                s1.wf(),
                s1.extends(old(self)),
                s1.gates().len() <= old(self).gates().len() + 1,
                s1.valid(a@),
                s1.valid(bx@),
                asq == s1.read(a@),
                bits_value(s1.read(bx@)) == bv,
                bv < pow2(n as nat),
                bx@.len() == n + 1,
                old(self).room(17 * a@.len() * a@.len() + 1),
                self.wf(),
                self.extends(&s1),
                self.gates().len() + i * (17 * n) <= s1.gates().len() + 17 * n * n,
                old(self).constants_ready() ==> s1.constants_ready() && s1.gates().len() == old(self).gates().len(),
                s1.constants_ready() ==> self.gates().len() == s1.gates().len() + (n - i) * (9 * n + 6),
                rem@.len() == n,
                quo@.len() == n - i,
                self.valid(rem@),
                self.valid(quo@),
                bv > 0 ==> bits_value(self.read(rem@)) == bits_value(asq.subrange(i as int, n as int)) % bv,
                bv > 0 ==> bits_value(self.read(quo@)) == bits_value(asq.subrange(i as int, n as int)) / bv,
                bv == 0 ==> bits_value(self.read(rem@)) == bits_value(asq.subrange(i as int, n as int)),
                bv == 0 ==> bits_value(self.read(quo@)) == pow2((n - i) as nat) - 1,
            decreases i,
        {
            i -= 1;
            let ghost prev = *self;
            let ghost hi = bits_value(asq.subrange(i + 1, n as int));
            let ghost rv = bits_value(self.read(rem@));
            let ghost q0 = quo@;
            let mut t: Vec<u32> = Vec::new();
            t.push(a[i]);
            let mut k: usize = 0;
            while k < n
                invariant
                    n == rem@.len(),
                    n == a@.len(),
                    i < n,
                    t@[0] == a@[i as int],
                    0 <= k <= n,
                    t@.len() == k + 1,
                    forall|j: int| 1 <= j <= k ==> t@[j] == rem@[j - 1],
                decreases n - k,
            {
                t.push(rem[k]);
                k += 1;
            }
            proof {
                self.lemma_extends_read(&s1, a@);
                self.lemma_extends_read(&s1, bx@);
                assert(a@[i as int] < self.gates().len());
                assert(t@[0] == a@[i as int]);
                assert(self.read(t@) =~= seq![asq[i as int]] + self.read(rem@));
                lemma_bits_value_first(self.read(t@));
                assert(self.read(t@).drop_first() =~= self.read(rem@));
                assert(asq.subrange(i as int, n as int).drop_first() =~= asq.subrange(i + 1, n as int));
                lemma_bits_value_first(asq.subrange(i as int, n as int));
                assert(asq.subrange(i as int, n as int)[0] == asq[i as int]);
                assert(self.valid(t@));
                assert(self.gates().len() + 17 * n <= s1.gates().len() + 17 * n * n) by (nonlinear_arith)
                    requires
                        self.gates().len() + (i + 1) * (17 * n) <= s1.gates().len() + 17 * n * n,
                ;
            }
            let (d, c) = self.sub_with_carry(&t, &bx);
            let ghost mid = *self;
            let mut d_low: Vec<u32> = Vec::new();
            let mut t_low: Vec<u32> = Vec::new();
            let mut k: usize = 0;
            while k < n
                invariant
                    n + 1 == d@.len(),
                    n + 1 == t@.len(),
                    0 <= k <= n,
                    d_low@.len() == k,
                    t_low@.len() == k,
                    forall|j: int| 0 <= j < k ==> d_low@[j] == d@[j],
                    forall|j: int| 0 <= j < k ==> t_low@[j] == t@[j],
                decreases n - k,
            {
                d_low.push(d[k]);
                t_low.push(t[k]);
                k += 1;
            }
            proof {
                mid.lemma_extends_read(&prev, t@);
                assert(mid.read(d_low@) =~= mid.read(d@).subrange(0, n as int));
                assert(mid.read(t_low@) =~= mid.read(t@).subrange(0, n as int));
                assert(mid.valid(d_low@));
                assert(mid.valid(t_low@));
                mid.lemma_extends_trans(&prev, &s1);
                mid.lemma_extends_read(&s1, bx@);
                lemma_pow2_unfold((n + 1) as nat);
                lemma_pow2_pos(n as nat);
                lemma_bits_value_bound(asq.subrange(i + 1, n as int));
                if i > 0 {
                    lemma_pow2_strictly_increases((n - i) as nat, n as nat);
                }
                let tv = bits_value(prev.read(t@));
                let ax = bit(asq[i as int]) as int;
                assert(bits_value(prev.read(bx@)) == bv);
                assert(tv == 2 * rv + ax);
                if bv > 0 {
                    vstd::arithmetic::div_mod::lemma_fundamental_div_mod(hi as int, bv as int);
                    vstd::arithmetic::div_mod::lemma_mod_bound(hi as int, bv as int);
                    lemma_div_step(hi as int, (hi / bv) as int, (hi % bv) as int, bv as int, ax);
                    assert(rv < bv);
                } else {
                    assert(tv == 2 * hi + ax);
                    lemma_pow2_unfold((n - i) as nat);
                    assert(tv < pow2(n as nat));
                }
                if mid.wires()[c as int] {
                    assert(bit(mid.wires()[c as int]) * pow2((n + 1) as nat) == pow2((n + 1) as nat));
                    assert(bits_value(mid.read(d@)) == tv - bv);
                    lemma_bits_value_drop_top(mid.read(d@));
                    assert(mid.read(d@).subrange(0, n as int) == mid.read(d_low@));
                } else {
                    lemma_bits_value_drop_top(mid.read(t@));
                    assert(mid.read(t@).subrange(0, n as int) == mid.read(t_low@));
                }
            }
            let next = self.mux(c, &d_low, &t_low);
            let ghost mid2 = *self;
            quo.insert(0, c);
            rem = next;
            proof {
                self.lemma_extends_trans(&mid, &s1);
                self.lemma_extends_wire(&mid, c);
                mid.lemma_extends_read(&prev, quo@.drop_first());
                self.lemma_extends_read(&mid, quo@.drop_first());
                assert(quo@.drop_first() =~= q0);
                assert(self.read(quo@) =~= seq![self.wires()[c as int]] + prev.read(quo@.drop_first()));
                lemma_bits_value_first(self.read(quo@));
                assert(self.read(quo@).drop_first() =~= prev.read(quo@.drop_first()));
                assert(self.valid(quo@));
                lemma_pow2_unfold((n - i) as nat);
                assert(self.gates().len() + i * (17 * n) <= s1.gates().len() + 17 * n * n) by (nonlinear_arith)
                    requires
                        self.gates().len() <= prev.gates().len() + 9 * n + 8,
                        prev.gates().len() + (i + 1) * (17 * n) <= s1.gates().len() + 17 * n * n,
                        n > 0,
                ;
                if s1.constants_ready() {
                    assert((n - i) * (9 * n + 6) == (n - (i + 1)) * (9 * n + 6) + 9 * n + 6) by (nonlinear_arith)
                        requires
                            i < n,
                    ;
                }
            }
        }
        proof {
            assert(asq.subrange(0, n as int) =~= asq);
            self.lemma_extends_trans(&s1, old(self));
            assert((n - 0) * (9 * n + 6) == n * (9 * n + 6));
            if bv > 0 {
                vstd::arithmetic::div_mod::lemma_fundamental_div_mod(bits_value(asq) as int, bv as int);
                vstd::arithmetic::div_mod::lemma_mod_bound(bits_value(asq) as int, bv as int);
            }
        }
        (quo, rem)
    }
}

} // verus!
