//! Unsigned fixed-width values: `N` bits, least significant first.
use crate::bits::{bits_of, bits_value, lemma_bits_value_bound, lemma_pow2_128};
use vstd::arithmetic::div_mod::lemma_div_denominator;
use vstd::arithmetic::power2::{
    lemma2_to64, lemma_pow2_pos, lemma_pow2_strictly_increases, lemma_pow2_unfold, pow2,
};
use vstd::prelude::*;

verus! {

/// An unsigned integer of `N` bits, held as its bits, least significant first.
#[derive(Debug, Clone)]
pub struct GarbledUint<const N: usize> {
    pub bits: Vec<bool>,
}

pub type GarbledBoolean = GarbledUint<1>;

pub type GarbledBit = GarbledUint<1>;

pub type GarbledUint2 = GarbledUint<2>;

pub type GarbledUint4 = GarbledUint<4>;

pub type GarbledUint8 = GarbledUint<8>;

pub type GarbledUint16 = GarbledUint<16>;

pub type GarbledUint32 = GarbledUint<32>;

pub type GarbledUint64 = GarbledUint<64>;

pub type GarbledUint128 = GarbledUint<128>;

impl<const N: usize> View for GarbledUint<N> {
    type V = Seq<bool>;

    open spec fn view(&self) -> Seq<bool> {
        self.bits@
    }
}

/// `pow2(n) <= pow2(m)` for `n <= m`.
pub proof fn lemma_pow2_le(n: nat, m: nat)
    requires
        n <= m,
    ensures
        pow2(n) <= pow2(m),
{
    if n < m {
        lemma_pow2_strictly_increases(n, m);
    }
}

/// The bits of `value`, `n` of them, least significant first.
pub fn bits_from_u128(value: u128, n: usize) -> (r: Vec<bool>)
    ensures
        r@ == bits_of(value as nat, n as nat),
{
    let mut bits: Vec<bool> = Vec::new();
    let mut x: u128 = value;
    let mut i: usize = 0;
    proof {
        lemma2_to64();
    }
    while i < n
        invariant
            0 <= i <= n,
            bits@.len() == i,
            forall|k: int| 0 <= k < i ==> bits@[k] == bits_of(value as nat, n as nat)[k],
            x as nat == value as nat / pow2(i as nat),
        decreases n - i,
    {
        bits.push(x % 2 == 1);
        proof {
            lemma_pow2_pos(i as nat);
            lemma_div_denominator(value as int, pow2(i as nat) as int, 2);
            lemma_pow2_unfold((i + 1) as nat);
        }
        x = x / 2;
        i += 1;
    }
    proof {
        assert(bits@ =~= bits_of(value as nat, n as nat));
    }
    bits
}

/// The unsigned value of at most 128 bits.
pub fn bits_to_u128(bits: &Vec<bool>) -> (r: u128)
    requires
        bits@.len() <= 128,
    ensures
        r as nat == bits_value(bits@),
{
    let n = bits.len();
    let mut v: u128 = 0;
    let mut p: u128 = 1;
    let mut i: usize = 0;
    proof {
        lemma2_to64();
        lemma_pow2_128();
        assert(bits@.subrange(0, 0) =~= Seq::<bool>::empty());
    }
    while i < n
        invariant
            0 <= i <= n,
            n == bits@.len(),
            n <= 128,
            i < n ==> p as nat == pow2(i as nat),
            v as nat == bits_value(bits@.subrange(0, i as int)),
            (v as nat) < pow2(i as nat),
        decreases n - i,
    {
        proof {
            lemma_pow2_unfold((i + 1) as nat);
            lemma_pow2_le((i + 1) as nat, 128);
            lemma_pow2_128();
            assert(bits@.subrange(0, i + 1).drop_last() =~= bits@.subrange(0, i as int));
        }
        if bits[i] {
            v = v + p;
        }
        if i + 1 < n {
            proof {
                lemma_pow2_strictly_increases((i + 1) as nat, 128);
            }
            p = p * 2;
        }
        i += 1;
    }
    proof {
        assert(bits@.subrange(0, n as int) =~= bits@);
    }
    v
}

impl<const N: usize> GarbledUint<N> {
    /// Exactly `N` bits.
    pub open spec fn wf(&self) -> bool {
        self@.len() == N
    }

    /// The unsigned value.
    pub open spec fn value(&self) -> nat {
        bits_value(self@)
    }

    /// The value made of exactly `N` bits, least significant first.
    pub fn new(bits: Vec<bool>) -> (r: Self)
        requires
            bits@.len() == N,
        ensures
            r@ == bits@,
            r.wf(),
    {
        GarbledUint { bits }
    }

    /// The one-bit zero.
    pub fn zero() -> (r: Self)
        requires
            N == 1,
        ensures
            r@ == seq![false],
            r.wf(),
    {
        let r = GarbledUint::new(vec![false]);
        proof {
            assert(r@ =~= seq![false]);
        }
        r
    }

    /// The one-bit one.
    pub fn one() -> (r: Self)
        requires
            N == 1,
        ensures
            r@ == seq![true],
            r.wf(),
    {
        let r = GarbledUint::new(vec![true]);
        proof {
            assert(r@ =~= seq![true]);
        }
        r
    }

    /// The one-bit value of a boolean.
    pub fn from_bool(value: bool) -> (r: Self)
        requires
            N == 1,
        ensures
            r@ == seq![value],
            r.wf(),
    {
        let r = GarbledUint::new(vec![value]);
        proof {
            assert(r@ =~= seq![value]);
        }
        r
    }

    /// The boolean of a one-bit value.
    pub fn to_bool(&self) -> (r: bool)
        requires
            self.wf(),
            N == 1,
        ensures
            r == self@[0],
    {
        self.bits[0]
    }

    /// `value` in `N` bits: zero-extended where `N` is wider than the
    /// native type, cut to its low bits where narrower.
    pub fn from_u8(value: u8) -> (r: Self)
        ensures
            r@ == bits_of(value as nat, N as nat),
            r.wf(),
    {
        GarbledUint { bits: bits_from_u128(value as u128, N) }
    }

    /// `value` in `N` bits: zero-extended where `N` is wider than the
    /// native type, cut to its low bits where narrower.
    pub fn from_u16(value: u16) -> (r: Self)
        ensures
            r@ == bits_of(value as nat, N as nat),
            r.wf(),
    {
        GarbledUint { bits: bits_from_u128(value as u128, N) }
    }

    /// `value` in `N` bits: zero-extended where `N` is wider than the
    /// native type, cut to its low bits where narrower.
    pub fn from_u32(value: u32) -> (r: Self)
        ensures
            r@ == bits_of(value as nat, N as nat),
            r.wf(),
    {
        GarbledUint { bits: bits_from_u128(value as u128, N) }
    }

    /// `value` in `N` bits: zero-extended where `N` is wider than the
    /// native type, cut to its low bits where narrower.
    pub fn from_u64(value: u64) -> (r: Self)
        ensures
            r@ == bits_of(value as nat, N as nat),
            r.wf(),
    {
        GarbledUint { bits: bits_from_u128(value as u128, N) }
    }

    /// `value` in `N` bits: zero-extended where `N` is wider than the
    /// native type, cut to its low bits where narrower.
    pub fn from_u128(value: u128) -> (r: Self)
        ensures
            r@ == bits_of(value as nat, N as nat),
            r.wf(),
    {
        GarbledUint { bits: bits_from_u128(value, N) }
    }

    /// The unsigned value as a `u8`.
    pub fn to_u8(&self) -> (r: u8)
        requires
            self.wf(),
            N <= 8,
        ensures
            r as nat == self.value(),
    {
        proof {
            lemma_bits_value_bound(self@);
            lemma_pow2_le(N as nat, 8);
            lemma2_to64();
        }
        bits_to_u128(&self.bits) as u8
    }

    /// The unsigned value as a `u16`.
    pub fn to_u16(&self) -> (r: u16)
        requires
            self.wf(),
            N <= 16,
        ensures
            r as nat == self.value(),
    {
        proof {
            lemma_bits_value_bound(self@);
            lemma_pow2_le(N as nat, 16);
            lemma2_to64();
        }
        bits_to_u128(&self.bits) as u16
    }

    /// The unsigned value as a `u32`.
    pub fn to_u32(&self) -> (r: u32)
        requires
            self.wf(),
            N <= 32,
        ensures
            r as nat == self.value(),
    {
        proof {
            lemma_bits_value_bound(self@);
            lemma_pow2_le(N as nat, 32);
            lemma2_to64();
        }
        bits_to_u128(&self.bits) as u32
    }

    /// The unsigned value as a `u64`.
    pub fn to_u64(&self) -> (r: u64)
        requires
            self.wf(),
            N <= 64,
        ensures
            r as nat == self.value(),
    {
        proof {
            lemma_bits_value_bound(self@);
            lemma_pow2_le(N as nat, 64);
            lemma_pow2_128();
        }
        bits_to_u128(&self.bits) as u64
    }

    /// The unsigned value as a `u128`.
    pub fn to_u128(&self) -> (r: u128)
        requires
            self.wf(),
            N <= 128,
        ensures
            r as nat == self.value(),
    {
        bits_to_u128(&self.bits)
    }
}

} // verus!
