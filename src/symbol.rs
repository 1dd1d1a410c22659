use vstd::arithmetic::div_mod::{
    lemma_basic_div, lemma_div_denominator, lemma_div_is_ordered_by_denominator,
    lemma_div_multiples_vanish_fancy, lemma_fundamental_div_mod, lemma_mod_bound,
    lemma_mod_breakdown, lemma_mod_mod,
};
use vstd::arithmetic::power2::{
    lemma2_to64, lemma_pow2_adds, lemma_pow2_pos, lemma_pow2_unfold, pow2,
};
use vstd::bits::lemma_u64_shr_is_div;
use vstd::prelude::*;

verus! {

/// Bit `j` of `v` (0 or 1).
pub open spec fn bit_at(v: u64, j: nat) -> nat {
    ((v as nat) / pow2(j)) % 2
}

/// `v` cut down to its low `size` bits.
pub open spec fn trunc(v: u64, size: nat) -> nat {
    (v as nat) % pow2(size)
}

/// The highest `r` bits of the `size`-bit value `trunc(v, size)`, for `r <= size`.
pub open spec fn top(v: u64, size: nat, r: nat) -> nat {
    trunc(v, size) / pow2((size - r) as nat)
}

pub proof fn lemma_trunc_bound(v: u64, size: nat)
    ensures
        trunc(v, size) < pow2(size),
        trunc(v, size) <= v,
{
    lemma_pow2_pos(size);
    lemma_mod_bound(v as int, pow2(size) as int);
    lemma_fundamental_div_mod(v as int, pow2(size) as int);
    assert(pow2(size) * ((v as nat) / pow2(size)) >= 0) by (nonlinear_arith)
        requires
            pow2(size) > 0,
    ;
}

/// No bit is taken yet: every value has the same empty top.
pub proof fn lemma_top_zero(v: u64, size: nat)
    ensures
        top(v, size, 0) == 0,
{
    lemma_trunc_bound(v, size);
    lemma_basic_div(trunc(v, size) as int, pow2(size) as int);
}

/// All bits taken: the top is the truncated value.
pub proof fn lemma_top_full(v: u64, size: nat)
    ensures
        top(v, size, size) == trunc(v, size),
{
    lemma2_to64();
    assert((size - size) as nat == 0);
    assert(trunc(v, size) / 1 == trunc(v, size));
}

pub proof fn lemma_top_le(v: u64, size: nat, r: nat)
    ensures
        top(v, size, r) <= v,
{
    lemma_trunc_bound(v, size);
    lemma_pow2_pos((size - r) as nat);
    lemma_div_is_ordered_by_denominator(trunc(v, size) as int, 1, pow2((size - r) as nat) as int);
    assert(trunc(v, size) / 1 == trunc(v, size));
}

pub proof fn lemma_bit_range(v: u64, j: nat)
    ensures
        bit_at(v, j) < 2,
{
    lemma_mod_bound(((v as nat) / pow2(j)) as int, 2);
}

/// Bit `j` of the truncated value is bit `j` of the value, for `j < size`.
pub proof fn lemma_trunc_bit(v: u64, size: nat, j: nat)
    requires
        j < size,
    ensures
        (trunc(v, size) / pow2(j)) % 2 == bit_at(v, j),
{
    let a = pow2(j);
    let m = (size - j) as nat;
    let b = pow2(m);
    lemma_pow2_pos(j);
    lemma_pow2_pos(m);
    lemma_pow2_adds(j, m);
    assert(j + m == size);
    let x = v as nat;
    lemma_mod_breakdown(x as int, a as int, b as int);
    let w = x / a;
    lemma_mod_bound(x as int, a as int);
    lemma_mod_bound(w as int, b as int);
    lemma_div_multiples_vanish_fancy((w % b) as int, (x % a) as int, a as int);
    lemma_pow2_unfold(m);
    let h = pow2((m - 1) as nat);
    lemma_pow2_pos((m - 1) as nat);
    assert(b == 2 * h);
    lemma_mod_mod(w as int, 2, h as int);
}

/// Taking one more bit: the new top is the old one followed by bit `size - r - 1`.
pub proof fn lemma_top_step(v: u64, size: nat, r: nat)
    requires
        r < size,
    ensures
        top(v, size, r + 1) == 2 * top(v, size, r) + bit_at(v, (size - r - 1) as nat),
        bit_at(v, (size - r - 1) as nat) < 2,
{
    let j = (size - r - 1) as nat;
    let t = trunc(v, size);
    lemma_trunc_bound(v, size);
    lemma_pow2_pos(j);
    lemma_pow2_unfold(j + 1);
    assert((size - r) as nat == j + 1);
    assert((size - (r + 1)) as nat == j);
    let y = t / pow2(j);
    lemma_div_denominator(t as int, pow2(j) as int, 2);
    assert(pow2(j + 1) == pow2(j) * 2);
    assert(top(v, size, r) == y / 2);
    lemma_fundamental_div_mod(y as int, 2);
    lemma_trunc_bit(v, size, j);
    lemma_bit_range(v, j);
}

/// Bit `j` of `v`, computed.
pub fn bit_of(v: u64, j: u64) -> (r: bool)
    requires
        j < 64,
    ensures
        r == (bit_at(v, j as nat) == 1),
{
    let x = v >> j;
    proof {
        lemma_u64_shr_is_div(v, j);
        assert(x & 1 == x % 2) by (bit_vector);
    }
    x & 1 == 1
}

/// An unsigned integer type whose values can be stored in a wavelet matrix.
pub trait Symbol: Copy + Sized {
    /// The symbol as a 64-bit value.
    spec fn spec_value(&self) -> u64;

    /// The number of bits of the type.
    spec fn spec_width() -> nat;

    fn value(&self) -> (r: u64)
        ensures
            r == self.spec_value(),
            (r as nat) < pow2(Self::spec_width()),
    ;

    fn width() -> (r: u64)
        ensures
            r as nat == Self::spec_width(),
            r <= 64,
    ;

    fn from_value(v: u64) -> (r: Self)
        requires
            (v as nat) < pow2(Self::spec_width()),
        ensures
            r.spec_value() == v,
    ;
}

impl Symbol for u8 {
    open spec fn spec_value(&self) -> u64 {
        *self as u64
    }

    open spec fn spec_width() -> nat {
        8
    }

    fn value(&self) -> (r: u64) {
        proof {
            lemma2_to64();
        }
        *self as u64
    }

    fn width() -> (r: u64) {
        8
    }

    fn from_value(v: u64) -> (r: Self) {
        proof {
            lemma2_to64();
        }
        v as u8
    }
}

impl Symbol for u16 {
    open spec fn spec_value(&self) -> u64 {
        *self as u64
    }

    open spec fn spec_width() -> nat {
        16
    }

    fn value(&self) -> (r: u64) {
        proof {
            lemma2_to64();
        }
        *self as u64
    }

    fn width() -> (r: u64) {
        16
    }

    fn from_value(v: u64) -> (r: Self) {
        proof {
            lemma2_to64();
        }
        v as u16
    }
}

impl Symbol for u32 {
    open spec fn spec_value(&self) -> u64 {
        *self as u64
    }

    open spec fn spec_width() -> nat {
        32
    }

    fn value(&self) -> (r: u64) {
        proof {
            lemma2_to64();
        }
        *self as u64
    }

    fn width() -> (r: u64) {
        32
    }

    fn from_value(v: u64) -> (r: Self) {
        proof {
            lemma2_to64();
        }
        v as u32
    }
}

impl Symbol for u64 {
    open spec fn spec_value(&self) -> u64 {
        *self
    }

    open spec fn spec_width() -> nat {
        64
    }

    fn value(&self) -> (r: u64) {
        proof {
            lemma2_to64();
        }
        *self
    }

    fn width() -> (r: u64) {
        64
    }

    fn from_value(v: u64) -> (r: Self) {
        v
    }
}

} // verus!
