//! Signed fixed-width values: the same `N` bits, read in two's complement.
use crate::bits::{
    bits_of, bits_of_int, bits_signed, bits_value, lemma_bits_of_int_high, lemma_bits_of_int_prefix,
    lemma_bits_of_mod, lemma_bits_signed_bound,
    lemma_bits_value_last, lemma_bits_value_not, lemma_pow2_128,
};
use crate::uint::{bits_from_u128, bits_to_u128, lemma_pow2_le, GarbledUint};
use vstd::arithmetic::div_mod::lemma_mod_multiples_vanish;
use vstd::arithmetic::power2::{lemma2_to64, lemma_pow2_adds, lemma_pow2_pos, pow2};
use vstd::prelude::*;

verus! {

/// A signed integer of `N` bits, two's complement, least significant bit first.
#[derive(Debug, Clone)]
pub struct GarbledInt<const N: usize> {
    pub bits: Vec<bool>,
}

pub type GarbledInt8 = GarbledInt<8>;

pub type GarbledInt16 = GarbledInt<16>;

pub type GarbledInt32 = GarbledInt<32>;

pub type GarbledInt64 = GarbledInt<64>;

pub type GarbledInt128 = GarbledInt<128>;

impl<const N: usize> View for GarbledInt<N> {
    type V = Seq<bool>;

    open spec fn view(&self) -> Seq<bool> {
        self.bits@
    }
}

/// The two's-complement bits of `value`, up to 128 of them.
fn bits_from_i128_low(value: i128, n: usize) -> (r: Vec<bool>)
    requires
        n <= 128,
    ensures
        r@ == bits_of_int(value as int, n as nat),
{
    proof {
        lemma_pow2_128();
        lemma_pow2_pos(n as nat);
    }
    let u: u128 = if value >= 0 {
        value as u128
    } else {
        u128::MAX - ((-(value + 1)) as u128)
    };
    proof {
        lemma_bits_of_mod(u as nat, n as nat);
        if value < 0 {
            let k = (128 - n) as nat;
            lemma_pow2_adds(n as nat, k);
            lemma_pow2_pos(k);
            assert(u as int == pow2(n as nat) * pow2(k) + value);
            lemma_mod_multiples_vanish(pow2(k) as int, value as int, pow2(n as nat) as int);
        }
    }
    bits_from_u128(u, n)
}

/// The two's-complement bits of `value`, `n` of them, least significant
/// first; past 128 bits the sign bit repeats.
pub fn bits_from_i128(value: i128, n: usize) -> (r: Vec<bool>)
    ensures
        r@ == bits_of_int(value as int, n as nat),
{
    let m = if n < 128 {
        n
    } else {
        128
    };
    let mut bits = bits_from_i128_low(value, m);
    let mut i: usize = m;
    proof {
        lemma_pow2_128();
    }
    while i < n
        invariant
            m <= i <= n,
            m == if n < 128 {
                n
            } else {
                128
            },
            bits@.len() == i,
            forall|k: int| 0 <= k < m ==> bits@[k] == bits_of_int(value as int, m as nat)[k],
            forall|k: int| m <= k < i ==> bits@[k] == (value < 0),
        decreases n - i,
    {
        bits.push(value < 0);
        i += 1;
    }
    proof {
        assert forall|k: int| 0 <= k < n implies bits@[k] == #[trigger] bits_of_int(value as int, n as nat)[k] by {
            if k < m {
                lemma_bits_of_int_prefix(value as int, m as nat, n as nat, k);
            } else {
                lemma_pow2_le(127, k as nat);
                lemma_bits_of_int_high(value as int, n as nat, k);
            }
        }
        assert(bits@ =~= bits_of_int(value as int, n as nat));
    }
    bits
}

/// The two's-complement value of between 1 and 128 bits.
pub fn bits_to_i128(bits: &Vec<bool>) -> (r: i128)
    requires
        0 < bits@.len() <= 128,
    ensures
        r as int == bits_signed(bits@),
{
    let n = bits.len();
    proof {
        lemma_pow2_le((n - 1) as nat, 127);
        lemma_pow2_128();
        lemma_pow2_adds(64, 63);
        lemma2_to64();
        lemma_bits_value_last(bits@);
    }
    if !bits[n - 1] {
        let u = bits_to_u128(bits);
        proof {
            lemma_bits_value_last(bits@);
        }
        u as i128
    } else {
        let mut flipped: Vec<bool> = Vec::new();
        let mut i: usize = 0;
        while i < n
            invariant
                0 <= i <= n,
                n == bits@.len(),
                flipped@.len() == i,
                forall|k: int| 0 <= k < i ==> flipped@[k] == !bits@[k],
            decreases n - i,
        {
            flipped.push(!bits[i]);
            i += 1;
        }
        let m = bits_to_u128(&flipped);
        proof {
            assert(flipped@ =~= Seq::new(bits@.len(), |k: int| !bits@[k]));
            lemma_bits_value_not(bits@);
            lemma_bits_value_last(flipped@);
            assert(!flipped@.last());
        }
        -(m as i128) - 1
    }
}

impl<const N: usize> GarbledInt<N> {
    /// Exactly `N` bits.
    pub open spec fn wf(&self) -> bool {
        self@.len() == N
    }

    /// The two's-complement value.
    pub open spec fn value(&self) -> int {
        bits_signed(self@)
    }

    /// The value made of exactly `N` bits, least significant first.
    pub fn new(bits: Vec<bool>) -> (r: Self)
        requires
            bits@.len() == N,
        ensures
            r@ == bits@,
            r.wf(),
    {
        GarbledInt { bits }
    }

    /// The same bits read as an unsigned value.
    pub fn to_uint(&self) -> (r: GarbledUint<N>)
        ensures
            r@ == self@,
    {
        GarbledUint { bits: self.bits.clone() }
    }

    /// The same bits read as a signed value.
    pub fn from_uint(value: &GarbledUint<N>) -> (r: Self)
        ensures
            r@ == value@,
    {
        GarbledInt { bits: value.bits.clone() }
    }

    /// `value` in `N` bits of two's complement: sign-extended where `N` is
    /// wider than the native type, cut to its low bits where narrower.
    pub fn from_i8(value: i8) -> (r: Self)
        ensures
            r@ == bits_of_int(value as int, N as nat),
            r.wf(),
    {
        GarbledInt { bits: bits_from_i128(value as i128, N) }
    }

    /// `value` in `N` bits of two's complement: sign-extended where `N` is
    /// wider than the native type, cut to its low bits where narrower.
    pub fn from_i16(value: i16) -> (r: Self)
        ensures
            r@ == bits_of_int(value as int, N as nat),
            r.wf(),
    {
        GarbledInt { bits: bits_from_i128(value as i128, N) }
    }

    /// `value` in `N` bits of two's complement: sign-extended where `N` is
    /// wider than the native type, cut to its low bits where narrower.
    pub fn from_i32(value: i32) -> (r: Self)
        ensures
            r@ == bits_of_int(value as int, N as nat),
            r.wf(),
    {
        GarbledInt { bits: bits_from_i128(value as i128, N) }
    }

    /// `value` in `N` bits of two's complement: sign-extended where `N` is
    /// wider than the native type, cut to its low bits where narrower.
    pub fn from_i64(value: i64) -> (r: Self)
        ensures
            r@ == bits_of_int(value as int, N as nat),
            r.wf(),
    {
        GarbledInt { bits: bits_from_i128(value as i128, N) }
    }

    /// `value` in `N` bits of two's complement: sign-extended where `N` is
    /// wider than the native type, cut to its low bits where narrower.
    pub fn from_i128(value: i128) -> (r: Self)
        ensures
            r@ == bits_of_int(value as int, N as nat),
            r.wf(),
    {
        GarbledInt { bits: bits_from_i128(value, N) }
    }

    /// The signed value as an `i8`.
    pub fn to_i8(&self) -> (r: i8)
        requires
            self.wf(),
            0 < N <= 8,
        ensures
            r as int == self.value(),
    {
        proof {
            lemma_bits_signed_bound(self@);
            lemma_pow2_le((N - 1) as nat, 7);
            lemma2_to64();
        }
        bits_to_i128(&self.bits) as i8
    }

    /// The signed value as an `i16`.
    pub fn to_i16(&self) -> (r: i16)
        requires
            self.wf(),
            0 < N <= 16,
        ensures
            r as int == self.value(),
    {
        proof {
            lemma_bits_signed_bound(self@);
            lemma_pow2_le((N - 1) as nat, 15);
            lemma2_to64();
        }
        bits_to_i128(&self.bits) as i16
    }

    /// The signed value as an `i32`.
    pub fn to_i32(&self) -> (r: i32)
        requires
            self.wf(),
            0 < N <= 32,
        ensures
            r as int == self.value(),
    {
        proof {
            lemma_bits_signed_bound(self@);
            lemma_pow2_le((N - 1) as nat, 31);
            lemma2_to64();
        }
        bits_to_i128(&self.bits) as i32
    }

    /// The signed value as an `i64`.
    pub fn to_i64(&self) -> (r: i64)
        requires
            self.wf(),
            0 < N <= 64,
        ensures
            r as int == self.value(),
    {
        proof {
            lemma_bits_signed_bound(self@);
            lemma_pow2_le((N - 1) as nat, 63);
            lemma_pow2_128();
        }
        bits_to_i128(&self.bits) as i64
    }

    /// The signed value as an `i128`.
    pub fn to_i128(&self) -> (r: i128)
        requires
            self.wf(),
            0 < N <= 128,
        ensures
            r as int == self.value(),
    {
        bits_to_i128(&self.bits)
    }
}

} // verus!
