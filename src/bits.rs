//! The mathematical model of a bit vector: its unsigned and two's-complement
//! values, and the bit vector of a number.
use vstd::arithmetic::div_mod::{
    lemma_breakdown, lemma_fundamental_div_mod_converse_div, lemma_mod_add_multiples_vanish,
    lemma_mod_mod, lemma_small_mod,
};
use vstd::arithmetic::power2::{
    lemma2_to64, lemma2_to64_rest, lemma_pow2_adds, lemma_pow2_pos, lemma_pow2_strictly_increases, lemma_pow2_unfold,
    pow2,
};
use vstd::prelude::*;

verus! {

/// Unsigned value of a little-endian bit sequence: the sum of `2^i` over the set bits.
pub open spec fn bits_value(s: Seq<bool>) -> nat
    decreases s.len(),
{
    if s.len() == 0 {
        0
    } else {
        bits_value(s.drop_last()) + if s.last() {
            pow2((s.len() - 1) as nat)
        } else {
            0
        }
    }
}

/// Two's-complement value of a bit sequence: the last bit is the sign.
pub open spec fn bits_signed(s: Seq<bool>) -> int {
    if s.len() > 0 && s.last() {
        bits_value(s) - pow2(s.len())
    } else {
        bits_value(s) as int
    }
}

/// The low `n` bits of `v`, least significant first.
pub open spec fn bits_of(v: nat, n: nat) -> Seq<bool> {
    Seq::new(n, |i: int| (v / pow2(i as nat)) % 2 == 1)
}

/// The `n`-bit two's-complement encoding of `v` (wrapping modulo `2^n`).
pub open spec fn bits_of_int(v: int, n: nat) -> Seq<bool> {
    bits_of((v % (pow2(n) as int)) as nat, n)
}

/// Logical left shift by `k` within the width: zeros enter at the low end.
pub open spec fn shl_bits(s: Seq<bool>, k: nat) -> Seq<bool> {
    Seq::new(s.len(), |i: int| if i < k { false } else { s[i - k] })
}

/// Logical right shift by `k` within the width: zeros enter at the high end.
pub open spec fn shr_bits(s: Seq<bool>, k: nat) -> Seq<bool> {
    Seq::new(s.len(), |i: int| if i + k < s.len() { s[i + k] } else { false })
}

pub proof fn lemma_bits_value_bound(s: Seq<bool>)
    ensures
        bits_value(s) < pow2(s.len()),
    decreases s.len(),
{
    if s.len() == 0 {
        lemma2_to64();
    } else {
        lemma_bits_value_bound(s.drop_last());
        lemma_pow2_unfold(s.len());
    }
}

/// The bit vector of `v` has the value `v` modulo `2^n`.
pub proof fn lemma_bits_of_value(v: nat, n: nat)
    ensures
        bits_value(bits_of(v, n)) == v % pow2(n),
    decreases n,
{
    lemma_pow2_pos(n);
    if n == 0 {
        lemma2_to64();
    } else {
        let m = (n - 1) as nat;
        assert(bits_of(v, n).drop_last() =~= bits_of(v, m));
        lemma_bits_of_value(v, m);
        lemma_pow2_unfold(n);
        lemma_pow2_pos(m);
        lemma_breakdown(v as int, pow2(m) as int, 2);
        assert(pow2(m) * 2 == pow2(n));
    }
}

/// The bits of `v` below `n` are those of `v` modulo `2^n`.
pub proof fn lemma_bits_of_mod(v: nat, n: nat)
    ensures
        bits_of(v, n) == bits_of(v % pow2(n), n),
{
    lemma_pow2_pos(n);
    assert forall|i: int| 0 <= i < n implies #[trigger] bits_of(v, n)[i] == bits_of(v % pow2(n), n)[i] by {
        let d = pow2(i as nat) as int;
        let k = (n - i) as nat;
        lemma_pow2_adds(i as nat, k);
        lemma_pow2_pos(i as nat);
        lemma_pow2_pos(k);
        lemma_breakdown(v as int, d, pow2(k) as int);
        // v % 2^n == d * ((v / d) % 2^k) + v % d
        let q = (v as int / d) % (pow2(k) as int);
        lemma_fundamental_div_mod_converse_div((v % pow2(n)) as int, d, q, v as int % d);
        lemma_pow2_unfold(k);
        lemma_pow2_pos((k - 1) as nat);
        lemma_mod_mod(v as int / d, 2, pow2((k - 1) as nat) as int);
    }
    assert(bits_of(v, n) =~= bits_of(v % pow2(n), n));
}

/// The last of `n` bits is set exactly when the value reaches `2^(n-1)`.
pub proof fn lemma_bits_value_last(s: Seq<bool>)
    requires
        s.len() > 0,
    ensures
        s.last() <==> bits_value(s) >= pow2((s.len() - 1) as nat),
{
    lemma_bits_value_bound(s.drop_last());
}

/// A bit vector and its complement add up to `2^n - 1`.
pub proof fn lemma_bits_value_not(s: Seq<bool>)
    ensures
        bits_value(s) + bits_value(Seq::new(s.len(), |i: int| !s[i])) + 1 == pow2(s.len()),
    decreases s.len(),
{
    let t = Seq::new(s.len(), |i: int| !s[i]);
    if s.len() == 0 {
        lemma2_to64();
    } else {
        let p = s.drop_last();
        assert(t.drop_last() =~= Seq::new(p.len(), |i: int| !p[i]));
        lemma_bits_value_not(p);
        lemma_pow2_unfold(s.len());
    }
}

/// `2^128` is one more than the largest `u128`.
pub proof fn lemma_pow2_128()
    ensures
        pow2(128) == u128::MAX + 1,
        pow2(127) == i128::MAX + 1,
        pow2(64) == u64::MAX + 1,
        pow2(63) == i64::MAX + 1,
{
    lemma2_to64();
    lemma2_to64_rest();
    lemma_pow2_adds(64, 64);
    lemma_pow2_adds(64, 63);
}

/// A two's-complement value of `n` bits lies in `[-2^(n-1), 2^(n-1))`.
pub proof fn lemma_bits_signed_bound(s: Seq<bool>)
    requires
        s.len() > 0,
    ensures
        -pow2((s.len() - 1) as nat) <= bits_signed(s) < pow2((s.len() - 1) as nat),
{
    lemma_bits_value_last(s);
    lemma_bits_value_bound(s);
    lemma_pow2_unfold(s.len());
}

/// `1` for a set bit, `0` for a clear one.
pub open spec fn bit(b: bool) -> nat {
    if b {
        1
    } else {
        0
    }
}

/// Appending a bit adds it at weight `2^len`.
pub proof fn lemma_bits_value_push(s: Seq<bool>, b: bool)
    ensures
        bits_value(s.push(b)) == bits_value(s) + bit(b) * pow2(s.len()),
{
    assert(s.push(b).drop_last() =~= s);
}

/// Splitting off the lowest bit: `value(s) == s[0] + 2 * value(s[1..])`.
pub proof fn lemma_bits_value_first(s: Seq<bool>)
    requires
        s.len() > 0,
    ensures
        bits_value(s) == bit(s[0]) + 2 * bits_value(s.drop_first()),
    decreases s.len(),
{
    if s.len() == 1 {
        lemma2_to64();
        assert(s.drop_last() =~= Seq::<bool>::empty());
        assert(s.drop_first() =~= Seq::<bool>::empty());
    } else {
        let p = s.drop_last();
        lemma_bits_value_first(p);
        assert(p.drop_first() =~= s.drop_first().drop_last());
        lemma_pow2_unfold((s.len() - 1) as nat);
    }
}

/// All-clear bits are worth zero.
pub proof fn lemma_bits_value_zeros(n: nat)
    ensures
        bits_value(Seq::new(n, |i: int| false)) == 0,
    decreases n,
{
    if n > 0 {
        assert(Seq::new(n, |i: int| false).drop_last() =~= Seq::new((n - 1) as nat, |i: int| false));
        lemma_bits_value_zeros((n - 1) as nat);
    }
}

/// Shifting left by one within the width doubles the value modulo `2^n`.
pub proof fn lemma_bits_value_double(s: Seq<bool>)
    requires
        s.len() > 0,
    ensures
        bits_value(seq![false] + s.subrange(0, s.len() - 1)) == (2 * bits_value(s)) % pow2(s.len()),
{
    let n = s.len();
    let t = s.subrange(0, n - 1);
    let d = seq![false] + t;
    lemma_bits_value_first(d);
    assert(d.drop_first() =~= t);
    assert(s.drop_last() =~= t);
    lemma_bits_value_bound(d);
    lemma_pow2_unfold(n);
    lemma_pow2_pos(n);
    vstd::arithmetic::div_mod::lemma_fundamental_div_mod_converse_mod(
        (2 * bits_value(s)) as int,
        pow2(n) as int,
        bit(s.last()) as int,
        bits_value(d) as int,
    );
}

/// Dropping a top bit that is clear keeps the value.
pub proof fn lemma_bits_value_drop_top(s: Seq<bool>)
    requires
        s.len() > 0,
        bits_value(s) < pow2((s.len() - 1) as nat),
    ensures
        bits_value(s.subrange(0, s.len() - 1)) == bits_value(s),
{
    lemma_bits_value_last(s);
    assert(s.drop_last() =~= s.subrange(0, s.len() - 1));
}

/// The bits with the top one flipped: two's-complement order becomes
/// unsigned order.
pub open spec fn flip_top(s: Seq<bool>) -> Seq<bool> {
    s.update(s.len() - 1, !s.last())
}

/// Flipping the sign bit adds `2^(n-1)` to the two's-complement value.
pub proof fn lemma_flip_top_value(s: Seq<bool>)
    requires
        s.len() > 0,
    ensures
        bits_value(flip_top(s)) == bits_signed(s) + pow2((s.len() - 1) as nat),
{
    let f = flip_top(s);
    assert(f.drop_last() =~= s.drop_last());
    lemma_pow2_unfold(s.len());
}

/// Bit vectors of one length with one value are equal.
pub proof fn lemma_bits_value_injective(s: Seq<bool>, t: Seq<bool>)
    requires
        s.len() == t.len(),
    ensures
        bits_value(s) == bits_value(t) <==> s == t,
    decreases s.len(),
{
    if s.len() > 0 && bits_value(s) == bits_value(t) {
        lemma_bits_value_last(s);
        lemma_bits_value_last(t);
        let n = (s.len() - 1) as nat;
        lemma_bits_value_bound(s.drop_last());
        lemma_bits_value_bound(t.drop_last());
        assert(s.last() == t.last());
        lemma_bits_value_injective(s.drop_last(), t.drop_last());
        assert(s =~= t.drop_last().push(t.last()));
        assert(t =~= t.drop_last().push(t.last()));
    }
    if s.len() == 0 {
        assert(s =~= t);
    }
}

/// A bit vector is the encoding of its own value.
pub proof fn lemma_bits_of_own_value(s: Seq<bool>)
    ensures
        bits_of(bits_value(s), s.len()) == s,
{
    lemma_bits_of_value(bits_value(s), s.len());
    lemma_bits_value_bound(s);
    lemma_small_mod(bits_value(s), pow2(s.len()));
    lemma_bits_value_injective(bits_of(bits_value(s), s.len()), s);
}

/// The low bits of a two's-complement encoding do not depend on its width.
pub proof fn lemma_bits_of_int_prefix(v: int, m: nat, n: nat, i: int)
    requires
        m <= n,
        0 <= i < m,
    ensures
        bits_of_int(v, n)[i] == bits_of_int(v, m)[i],
{
    let k = (n - m) as nat;
    lemma_pow2_adds(m, k);
    lemma_pow2_pos(m);
    lemma_pow2_pos(k);
    lemma_pow2_pos(n);
    let x = (v % (pow2(n) as int)) as nat;
    lemma_bits_of_mod(x, m);
    lemma_mod_mod(v, pow2(m) as int, pow2(k) as int);
    assert(bits_of(x, n)[i] == bits_of(x, m)[i]);
}

/// Past a value's own bits, its two's-complement encoding repeats the sign.
pub proof fn lemma_bits_of_int_high(v: int, n: nat, i: int)
    requires
        0 <= i < n,
        -pow2(i as nat) <= v < pow2(i as nat),
    ensures
        bits_of_int(v, n)[i] == (v < 0),
{
    let d = pow2(i as nat) as int;
    let k = (n - i) as nat;
    let m = pow2(n) as int;
    lemma_pow2_adds(i as nat, k);
    lemma_pow2_pos(i as nat);
    lemma_pow2_pos(k);
    lemma_pow2_unfold(k);
    lemma_pow2_pos((k - 1) as nat);
    let h = pow2((k - 1) as nat) as int;
    assert(m == d * (2 * h));
    if v >= 0 {
        assert(d <= m) by (nonlinear_arith)
            requires
                m == d * (2 * h),
                h >= 1,
                d > 0,
        ;
        lemma_small_mod(v as nat, m as nat);
        lemma_fundamental_div_mod_converse_div(v, d, 0, v);
    } else {
        assert(d <= m) by (nonlinear_arith)
            requires
                m == d * (2 * h),
                h >= 1,
                d > 0,
        ;
        lemma_mod_add_multiples_vanish(v, m);
        lemma_small_mod((m + v) as nat, m as nat);
        assert(m + v == (2 * h - 1) * d + (d + v)) by (nonlinear_arith)
            requires
                m == d * (2 * h),
        ;
        lemma_fundamental_div_mod_converse_div(m + v, d, 2 * h - 1, d + v);
        vstd::arithmetic::div_mod::lemma_fundamental_div_mod_converse_mod(2 * h - 1, 2, h - 1, 1);
    }
}

} // verus!
