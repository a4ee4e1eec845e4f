//! Laws that relate the circuits' bit-level results to native integer
//! arithmetic and to each other.
use crate::bits::{
    bits_of, bits_of_int, bits_signed, bits_value, flip_top, lemma_bits_of_value,
    lemma_bits_value_injective, lemma_bits_value_last, lemma_flip_top_value,
};
use vstd::arithmetic::div_mod::{
    lemma_add_mod_noop, lemma_mod_add_multiples_vanish, lemma_mod_bound,
    lemma_mod_multiples_vanish, lemma_mod_twice, lemma_mul_mod_noop_general, lemma_small_mod,
    lemma_sub_mod_noop,
};
use vstd::arithmetic::power2::{lemma_pow2_pos, lemma_pow2_unfold, pow2};
use crate::builder::BitwiseOp;
use crate::frontend::{arith_value, cost, eval, lemma_eval_width, widths, ArithOp, Expr};
use vstd::bits::lemma_u128_shr_is_div;
use vstd::prelude::*;

verus! {

proof fn lemma_u128_bit(v: u128, i: u128)
    requires
        i < 128,
    ensures
        bits_of(v as nat, 128)[i as int] == ((v >> i) & 1 == 1),
{
    lemma_u128_shr_is_div(v, i);
    let s = v >> i;
    assert((s & 1 == 1) == (s % 2 == 1)) by (bit_vector);
}

proof fn lemma_bitwise_bits(x: u128, y: u128, i: u128)
    by (bit_vector)
    requires
        i < 128,
    ensures
        (((x & y) >> i) & 1 == 1) == (((x >> i) & 1 == 1) && ((y >> i) & 1 == 1)),
        (((x | y) >> i) & 1 == 1) == (((x >> i) & 1 == 1) || ((y >> i) & 1 == 1)),
        (((x ^ y) >> i) & 1 == 1) == (((x >> i) & 1 == 1) != ((y >> i) & 1 == 1)),
        (((!x) >> i) & 1 == 1) == !((x >> i) & 1 == 1),
{
}

/// The bits of a `u128`, any number of them up to 128, are a prefix of all 128.
proof fn lemma_bits_of_prefix(v: nat, n: nat, i: int)
    requires
        0 <= i < n <= 128,
    ensures
        bits_of(v, n)[i] == bits_of(v, 128)[i],
{
}

/// Bit `i` of each native bitwise result, in terms of bit `i` of the operands.
proof fn lemma_bitwise_index(x: u128, y: u128, n: nat, i: int)
    requires
        n <= 128,
        0 <= i < n,
    ensures
        bits_of((x & y) as nat, n)[i] == (bits_of(x as nat, n)[i] && bits_of(y as nat, n)[i]),
        bits_of((x | y) as nat, n)[i] == (bits_of(x as nat, n)[i] || bits_of(y as nat, n)[i]),
        bits_of((x ^ y) as nat, n)[i] == (bits_of(x as nat, n)[i] != bits_of(y as nat, n)[i]),
        bits_of((!(x & y)) as nat, n)[i] == !(bits_of(x as nat, n)[i] && bits_of(y as nat, n)[i]),
        bits_of((!(x | y)) as nat, n)[i] == !(bits_of(x as nat, n)[i] || bits_of(y as nat, n)[i]),
        bits_of((!(x ^ y)) as nat, n)[i] == (bits_of(x as nat, n)[i] == bits_of(y as nat, n)[i]),
        bits_of((!x) as nat, n)[i] == !bits_of(x as nat, n)[i],
{
        let j = i as u128;
        lemma_bitwise_bits(x, y, j);
        lemma_bitwise_bits(x & y, x & y, j);
        lemma_bitwise_bits(x | y, x | y, j);
        lemma_bitwise_bits(x ^ y, x ^ y, j);
        lemma_u128_bit(x, j);
        lemma_u128_bit(y, j);
        lemma_u128_bit(x & y, j);
        lemma_u128_bit(x | y, j);
        lemma_u128_bit(x ^ y, j);
        lemma_u128_bit(!(x & y), j);
        lemma_u128_bit(!(x | y), j);
        lemma_u128_bit(!(x ^ y), j);
        lemma_u128_bit(!x, j);
        lemma_bits_of_prefix(x as nat, n, i);
        lemma_bits_of_prefix(y as nat, n, i);
        lemma_bits_of_prefix((x & y) as nat, n, i);
        lemma_bits_of_prefix((x | y) as nat, n, i);
        lemma_bits_of_prefix((x ^ y) as nat, n, i);
        lemma_bits_of_prefix((!(x & y)) as nat, n, i);
        lemma_bits_of_prefix((!(x | y)) as nat, n, i);
        lemma_bits_of_prefix((!(x ^ y)) as nat, n, i);
        lemma_bits_of_prefix((!x) as nat, n, i);
}

/// Bitwise circuits agree with native integers: on the low `n` bits of two
/// `u128` values, each bitwise operation gives the low `n` bits of the native
/// result, and so does negation.
pub proof fn law_bitwise_matches_native(x: u128, y: u128, n: nat)
    requires
        n <= 128,
    ensures
        BitwiseOp::And.apply_bits(bits_of(x as nat, n), bits_of(y as nat, n)) == bits_of((x & y) as nat, n),
        BitwiseOp::Or.apply_bits(bits_of(x as nat, n), bits_of(y as nat, n)) == bits_of((x | y) as nat, n),
        BitwiseOp::Xor.apply_bits(bits_of(x as nat, n), bits_of(y as nat, n)) == bits_of((x ^ y) as nat, n),
        BitwiseOp::Nand.apply_bits(bits_of(x as nat, n), bits_of(y as nat, n)) == bits_of(
            (!(x & y)) as nat,
            n,
        ),
        BitwiseOp::Nor.apply_bits(bits_of(x as nat, n), bits_of(y as nat, n)) == bits_of(
            (!(x | y)) as nat,
            n,
        ),
        BitwiseOp::Xnor.apply_bits(bits_of(x as nat, n), bits_of(y as nat, n)) == bits_of(
            (!(x ^ y)) as nat,
            n,
        ),
        Seq::new(n, |i: int| !bits_of(x as nat, n)[i]) == bits_of((!x) as nat, n),
{
    let bx = bits_of(x as nat, n);
    let by = bits_of(y as nat, n);
    assert forall|i: int| 0 <= i < n implies #[trigger] bits_of((x & y) as nat, n)[i] == (bx[i] && by[i]) by {
        lemma_bitwise_index(x, y, n, i);
    }
    assert forall|i: int| 0 <= i < n implies #[trigger] bits_of((x | y) as nat, n)[i] == (bx[i] || by[i]) by {
        lemma_bitwise_index(x, y, n, i);
    }
    assert forall|i: int| 0 <= i < n implies #[trigger] bits_of((x ^ y) as nat, n)[i] == (bx[i] != by[i]) by {
        lemma_bitwise_index(x, y, n, i);
    }
    assert forall|i: int| 0 <= i < n implies #[trigger] bits_of((!(x & y)) as nat, n)[i] == !(bx[i] && by[i]) by {
        lemma_bitwise_index(x, y, n, i);
    }
    assert forall|i: int| 0 <= i < n implies #[trigger] bits_of((!(x | y)) as nat, n)[i] == !(bx[i] || by[i]) by {
        lemma_bitwise_index(x, y, n, i);
    }
    assert forall|i: int| 0 <= i < n implies #[trigger] bits_of((!(x ^ y)) as nat, n)[i] == (bx[i] == by[i]) by {
        lemma_bitwise_index(x, y, n, i);
    }
    assert forall|i: int| 0 <= i < n implies #[trigger] bits_of((!x) as nat, n)[i] == !bx[i] by {
        lemma_bitwise_index(x, y, n, i);
    }
    assert(BitwiseOp::And.apply_bits(bx, by) =~= bits_of((x & y) as nat, n));
    assert(BitwiseOp::Or.apply_bits(bx, by) =~= bits_of((x | y) as nat, n));
    assert(BitwiseOp::Xor.apply_bits(bx, by) =~= bits_of((x ^ y) as nat, n));
    assert(BitwiseOp::Nand.apply_bits(bx, by) =~= bits_of((!(x & y)) as nat, n));
    assert(BitwiseOp::Nor.apply_bits(bx, by) =~= bits_of((!(x | y)) as nat, n));
    assert(BitwiseOp::Xnor.apply_bits(bx, by) =~= bits_of((!(x ^ y)) as nat, n));
    assert(Seq::new(n, |i: int| !bx[i]) =~= bits_of((!x) as nat, n));
}

/// Comparison is total: of `a < b`, `a == b` and `a > b` exactly one holds,
/// whether the bits are read unsigned or in two's complement.
pub proof fn law_comparison_trichotomy(a: Seq<bool>, b: Seq<bool>)
    requires
        a.len() == b.len(),
        a.len() > 0,
    ensures
        (bits_value(a) < bits_value(b)) as int + (a == b) as int + (bits_value(a) > bits_value(b)) as int
            == 1,
        (bits_signed(a) < bits_signed(b)) as int + (a == b) as int + (bits_signed(a) > bits_signed(b)) as int
            == 1,
{
    lemma_bits_value_injective(a, b);
    lemma_flip_top_value(a);
    lemma_flip_top_value(b);
    lemma_bits_value_injective(flip_top(a), flip_top(b));
    if flip_top(a) == flip_top(b) {
        assert(a =~= flip_top(flip_top(a)));
        assert(b =~= flip_top(flip_top(b)));
    }
}

/// Unsigned round trip: `n` bits of `v` read back as `v` when `v < 2^n`.
pub proof fn law_round_trip_unsigned(v: nat, n: nat)
    requires
        v < pow2(n),
    ensures
        bits_value(bits_of(v, n)) == v,
        bits_of(v, n).len() == n,
{
    lemma_bits_of_value(v, n);
    lemma_small_mod(v, pow2(n));
}

/// Signed round trip: the two's-complement encoding of `v` in `n` bits reads
/// back as `v` when `-2^(n-1) <= v < 2^(n-1)`.
pub proof fn law_round_trip_signed(v: int, n: nat)
    requires
        n > 0,
        -pow2((n - 1) as nat) <= v < pow2((n - 1) as nat),
    ensures
        bits_signed(bits_of_int(v, n)) == v,
        bits_of_int(v, n).len() == n,
{
    let m = (n - 1) as nat;
    lemma_pow2_unfold(n);
    lemma_pow2_pos(n);
    let s = bits_of_int(v, n);
    let u = (v % (pow2(n) as int)) as nat;
    lemma_bits_of_value(u, n);
    lemma_small_mod(u, pow2(n));
    lemma_bits_value_last(s);
    if v >= 0 {
        lemma_small_mod(v as nat, pow2(n));
    } else {
        lemma_mod_add_multiples_vanish(v, pow2(n) as int);
        lemma_small_mod((v + pow2(n)) as nat, pow2(n));
    }
}

/// The two's-complement value differs from the unsigned value by a multiple
/// of `2^n`, and lies in `[-2^(n-1), 2^(n-1))`.
proof fn lemma_signed_offset(s: Seq<bool>) -> (k: int)
    requires
        s.len() > 0,
    ensures
        bits_signed(s) == bits_value(s) - k * pow2(s.len()),
        -pow2((s.len() - 1) as nat) <= bits_signed(s) < pow2((s.len() - 1) as nat),
{
    crate::bits::lemma_bits_signed_bound(s);
    if s.last() {
        1
    } else {
        0
    }
}

/// The value of `bits_of(v mod 2^n, n)` is `v mod 2^n`.
proof fn lemma_wrapped_value(v: int, n: nat)
    ensures
        bits_value(bits_of((v % (pow2(n) as int)) as nat, n)) == v % (pow2(n) as int),
{
    lemma_pow2_pos(n);
    lemma_mod_bound(v, pow2(n) as int);
    let w = (v % (pow2(n) as int)) as nat;
    lemma_bits_of_value(w, n);
    lemma_small_mod(w, pow2(n));
}

/// Numbers with one residue differ by a multiple.
proof fn lemma_zero_residue(a: int, b: int, m: int)
    requires
        m > 0,
        a % m == b % m,
    ensures
        (a - b) % m == 0,
{
    lemma_sub_mod_noop(a, b, m);
    lemma_small_mod(0, m as nat);
}

/// The two's-complement and unsigned values agree modulo `2^n`.
proof fn lemma_signed_residue(s: Seq<bool>)
    requires
        s.len() > 0,
    ensures
        bits_signed(s) % (pow2(s.len()) as int) == (bits_value(s) as int) % (pow2(s.len()) as int),
{
    let k = lemma_signed_offset(s);
    let m = pow2(s.len()) as int;
    lemma_pow2_pos(s.len());
    assert(m * (-k) == -(k * m)) by (nonlinear_arith);
    lemma_mod_multiples_vanish(-k, bits_value(s) as int, m);
}

/// Signed arithmetic wraps: read in two's complement, the circuits' sum,
/// difference and product are the native signed results modulo `2^n`, and
/// lie in the signed range, so they are the native wrapping results.
pub proof fn law_signed_arithmetic_wraps(x: Seq<bool>, y: Seq<bool>)
    requires
        x.len() == y.len(),
        x.len() > 0,
    ensures
        (bits_signed(arith_value(ArithOp::Add, x, y)) - (bits_signed(x) + bits_signed(y))) % (pow2(
            x.len(),
        ) as int) == 0,
        (bits_signed(arith_value(ArithOp::Sub, x, y)) - (bits_signed(x) - bits_signed(y))) % (pow2(
            x.len(),
        ) as int) == 0,
        (bits_signed(arith_value(ArithOp::Mul, x, y)) - bits_signed(x) * bits_signed(y)) % (pow2(
            x.len(),
        ) as int) == 0,
{
    let n = x.len();
    let m = pow2(n) as int;
    lemma_pow2_pos(n);
    let vx = bits_value(x) as int;
    let vy = bits_value(y) as int;
    let sx = bits_signed(x);
    let sy = bits_signed(y);
    lemma_signed_residue(x);
    lemma_signed_residue(y);
    let sum = arith_value(ArithOp::Add, x, y);
    let dif = arith_value(ArithOp::Sub, x, y);
    let prd = arith_value(ArithOp::Mul, x, y);
    lemma_wrapped_value(vx + vy, n);
    lemma_wrapped_value(vx - vy, n);
    lemma_wrapped_value(vx * vy, n);
    assert(sum == bits_of(((vx + vy) % m) as nat, n));
    assert(prd == bits_of(((vx * vy) % m) as nat, n));
    lemma_signed_residue(sum);
    lemma_signed_residue(dif);
    lemma_signed_residue(prd);
    lemma_mod_twice(vx + vy, m);
    lemma_mod_twice(vx - vy, m);
    lemma_mod_twice(vx * vy, m);
    lemma_add_mod_noop(sx, sy, m);
    lemma_add_mod_noop(vx, vy, m);
    lemma_sub_mod_noop(sx, sy, m);
    lemma_sub_mod_noop(vx, vy, m);
    lemma_mul_mod_noop_general(sx, sy, m);
    lemma_mul_mod_noop_general(vx, vy, m);
    lemma_zero_residue(bits_signed(sum), sx + sy, m);
    lemma_zero_residue(bits_signed(dif), sx - sy, m);
    lemma_zero_residue(bits_signed(prd), sx * sy, m);
}

/// `if c { t } else { f }` evaluates both branches: lowering it appends the
/// gates of the condition, of both branches and of one multiplexer, three
/// gates per bit of the result; and the count is the same for any inputs of
/// the same widths, whatever the condition's value.
pub proof fn law_if_else_gate_count(c: Expr, t: Expr, f: Expr, env: Seq<Seq<bool>>, other: Seq<Seq<bool>>)
    requires
        eval(Expr::If(Box::new(c), Box::new(t), Box::new(f)), env) is Some,
        widths(other) == widths(env),
    ensures
        cost(Expr::If(Box::new(c), Box::new(t), Box::new(f)), widths(env)) == cost(c, widths(env)) + cost(
            t,
            widths(env),
        ) + cost(f, widths(env)) + 3 * eval(t, env)->0.len(),
        cost(Expr::If(Box::new(c), Box::new(t), Box::new(f)), widths(other)) == cost(
            Expr::If(Box::new(c), Box::new(t), Box::new(f)),
            widths(env),
        ),
{
    lemma_eval_width(t, env);
}

/// The two's-complement bits of an `i128` are the bits of its `u128` cast.
proof fn lemma_bits_of_int_cast(x: i128, n: nat)
    requires
        n <= 128,
    ensures
        bits_of_int(x as int, n) == bits_of((x as u128) as nat, n),
{
    crate::bits::lemma_pow2_128();
    lemma_pow2_pos(n);
    let u = (x as u128) as nat;
    if x < 0 {
        let y = (-(x + 1)) as i128;
        assert(x as u128 == u128::MAX - (y as u128)) by (bit_vector)
            requires
                x < 0,
                y == -(x + 1),
        ;
        let k = (128 - n) as nat;
        vstd::arithmetic::power2::lemma_pow2_adds(n, k);
        lemma_pow2_pos(k);
        assert(u as int == pow2(n) * pow2(k) + x);
        lemma_mod_multiples_vanish(pow2(k) as int, x as int, pow2(n) as int);
    }
    crate::bits::lemma_bits_of_mod(u, n);
}

proof fn lemma_cast_bitwise(x: i128, y: i128)
    by (bit_vector)
    ensures
        (x & y) as u128 == (x as u128) & (y as u128),
        (x | y) as u128 == (x as u128) | (y as u128),
        (x ^ y) as u128 == (x as u128) ^ (y as u128),
        (!(x & y)) as u128 == !((x as u128) & (y as u128)),
        (!(x | y)) as u128 == !((x as u128) | (y as u128)),
        (!(x ^ y)) as u128 == !((x as u128) ^ (y as u128)),
        (!x) as u128 == !(x as u128),
{
}

/// The same law for signed values: on the low `n` bits of two `i128` values
/// in two's complement, each bitwise operation gives the low `n` bits of the
/// native signed result, and so does negation.
pub proof fn law_signed_bitwise_matches_native(x: i128, y: i128, n: nat)
    requires
        n <= 128,
    ensures
        BitwiseOp::And.apply_bits(bits_of_int(x as int, n), bits_of_int(y as int, n)) == bits_of_int(
            (x & y) as int,
            n,
        ),
        BitwiseOp::Or.apply_bits(bits_of_int(x as int, n), bits_of_int(y as int, n)) == bits_of_int(
            (x | y) as int,
            n,
        ),
        BitwiseOp::Xor.apply_bits(bits_of_int(x as int, n), bits_of_int(y as int, n)) == bits_of_int(
            (x ^ y) as int,
            n,
        ),
        BitwiseOp::Nand.apply_bits(bits_of_int(x as int, n), bits_of_int(y as int, n)) == bits_of_int(
            (!(x & y)) as int,
            n,
        ),
        BitwiseOp::Nor.apply_bits(bits_of_int(x as int, n), bits_of_int(y as int, n)) == bits_of_int(
            (!(x | y)) as int,
            n,
        ),
        BitwiseOp::Xnor.apply_bits(bits_of_int(x as int, n), bits_of_int(y as int, n)) == bits_of_int(
            (!(x ^ y)) as int,
            n,
        ),
        Seq::new(n, |i: int| !bits_of_int(x as int, n)[i]) == bits_of_int((!x) as int, n),
{
    lemma_cast_bitwise(x, y);
    lemma_bits_of_int_cast(x, n);
    lemma_bits_of_int_cast(y, n);
    lemma_bits_of_int_cast(x & y, n);
    lemma_bits_of_int_cast(x | y, n);
    lemma_bits_of_int_cast(x ^ y, n);
    lemma_bits_of_int_cast(!(x & y), n);
    lemma_bits_of_int_cast(!(x | y), n);
    lemma_bits_of_int_cast(!(x ^ y), n);
    lemma_bits_of_int_cast(!x, n);
    law_bitwise_matches_native(x as u128, y as u128, n);
}

/// The signed view at 8 bits: the two's-complement bits of an `i8`, read
/// unsigned and cast back to `i8`, give the value again; the two views
/// hold the same bits.
pub proof fn law_signed_view_round_trip_8(x: i8)
    ensures
        ((bits_value(bits_of_int(x as int, 8)) as u8) as i8) == x,
{
    crate::bits::lemma_pow2_128();
    vstd::arithmetic::power2::lemma2_to64();
    lemma_pow2_pos(8);
    let m = pow2(8) as int;
    lemma_mod_bound(x as int, m);
    let u = (x as int % m) as nat;
    lemma_bits_of_value(u, 8);
    lemma_small_mod(u, m as nat);
    assert(x as u8 as i8 == x) by (bit_vector);
    if x >= 0 {
        lemma_small_mod(x as nat, m as nat);
    } else {
        let y = (-(x + 1)) as i8;
        assert(x as u8 == u8::MAX - (y as u8)) by (bit_vector)
            requires
                x < 0,
                y == -(x + 1),
        ;
        lemma_mod_add_multiples_vanish(x as int, m);
        lemma_small_mod((m + x) as nat, m as nat);
    }
}

/// The signed view at 16 bits: the two's-complement bits of an `i16`, read
/// unsigned and cast back to `i16`, give the value again; the two views
/// hold the same bits.
pub proof fn law_signed_view_round_trip_16(x: i16)
    ensures
        ((bits_value(bits_of_int(x as int, 16)) as u16) as i16) == x,
{
    crate::bits::lemma_pow2_128();
    vstd::arithmetic::power2::lemma2_to64();
    lemma_pow2_pos(16);
    let m = pow2(16) as int;
    lemma_mod_bound(x as int, m);
    let u = (x as int % m) as nat;
    lemma_bits_of_value(u, 16);
    lemma_small_mod(u, m as nat);
    assert(x as u16 as i16 == x) by (bit_vector);
    if x >= 0 {
        lemma_small_mod(x as nat, m as nat);
    } else {
        let y = (-(x + 1)) as i16;
        assert(x as u16 == u16::MAX - (y as u16)) by (bit_vector)
            requires
                x < 0,
                y == -(x + 1),
        ;
        lemma_mod_add_multiples_vanish(x as int, m);
        lemma_small_mod((m + x) as nat, m as nat);
    }
}

/// The signed view at 32 bits: the two's-complement bits of an `i32`, read
/// unsigned and cast back to `i32`, give the value again; the two views
/// hold the same bits.
pub proof fn law_signed_view_round_trip_32(x: i32)
    ensures
        ((bits_value(bits_of_int(x as int, 32)) as u32) as i32) == x,
{
    crate::bits::lemma_pow2_128();
    vstd::arithmetic::power2::lemma2_to64();
    lemma_pow2_pos(32);
    let m = pow2(32) as int;
    lemma_mod_bound(x as int, m);
    let u = (x as int % m) as nat;
    lemma_bits_of_value(u, 32);
    lemma_small_mod(u, m as nat);
    assert(x as u32 as i32 == x) by (bit_vector);
    if x >= 0 {
        lemma_small_mod(x as nat, m as nat);
    } else {
        let y = (-(x + 1)) as i32;
        assert(x as u32 == u32::MAX - (y as u32)) by (bit_vector)
            requires
                x < 0,
                y == -(x + 1),
        ;
        lemma_mod_add_multiples_vanish(x as int, m);
        lemma_small_mod((m + x) as nat, m as nat);
    }
}

/// The signed view at 64 bits: the two's-complement bits of an `i64`, read
/// unsigned and cast back to `i64`, give the value again; the two views
/// hold the same bits.
pub proof fn law_signed_view_round_trip_64(x: i64)
    ensures
        ((bits_value(bits_of_int(x as int, 64)) as u64) as i64) == x,
{
    crate::bits::lemma_pow2_128();
    vstd::arithmetic::power2::lemma2_to64();
    lemma_pow2_pos(64);
    let m = pow2(64) as int;
    lemma_mod_bound(x as int, m);
    let u = (x as int % m) as nat;
    lemma_bits_of_value(u, 64);
    lemma_small_mod(u, m as nat);
    assert(x as u64 as i64 == x) by (bit_vector);
    if x >= 0 {
        lemma_small_mod(x as nat, m as nat);
    } else {
        let y = (-(x + 1)) as i64;
        assert(x as u64 == u64::MAX - (y as u64)) by (bit_vector)
            requires
                x < 0,
                y == -(x + 1),
        ;
        lemma_mod_add_multiples_vanish(x as int, m);
        lemma_small_mod((m + x) as nat, m as nat);
    }
}

/// The signed view at 128 bits: the two's-complement bits of an `i128`, read
/// unsigned and cast back to `i128`, give the value again; the two views
/// hold the same bits.
pub proof fn law_signed_view_round_trip_128(x: i128)
    ensures
        ((bits_value(bits_of_int(x as int, 128)) as u128) as i128) == x,
{
    crate::bits::lemma_pow2_128();
    vstd::arithmetic::power2::lemma2_to64();
    lemma_pow2_pos(128);
    let m = pow2(128) as int;
    lemma_mod_bound(x as int, m);
    let u = (x as int % m) as nat;
    lemma_bits_of_value(u, 128);
    lemma_small_mod(u, m as nat);
    assert(x as u128 as i128 == x) by (bit_vector);
    if x >= 0 {
        lemma_small_mod(x as nat, m as nat);
    } else {
        let y = (-(x + 1)) as i128;
        assert(x as u128 == u128::MAX - (y as u128)) by (bit_vector)
            requires
                x < 0,
                y == -(x + 1),
        ;
        lemma_mod_add_multiples_vanish(x as int, m);
        lemma_small_mod((m + x) as nat, m as nat);
    }
}

} // verus!
