//! Normalized page coordinates.
//!
//! A coordinate is a fraction of the page's width or height, as the analysis
//! service reports it: an IEEE-754 single-precision number in `[0, 1]`. It is
//! held here as its bit pattern, which keeps it exact. The pattern of `-0.0`
//! stands for zero like that of `+0.0`; with it read as `+0.0`, patterns in
//! range order as the numbers themselves are ordered.

use vstd::prelude::*;
use vstd::arithmetic::power2::{pow2, lemma_pow2_pos, lemma_pow2_strictly_increases, lemma2_to64};
use vstd::arithmetic::div_mod::{lemma_div_denominator, lemma_div_is_ordered, lemma_div_by_multiple};
use vstd::arithmetic::mul::{lemma_mul_inequality, lemma_mul_is_commutative};

verus! {

/// Bit pattern of the single-precision number `1.0`.
pub const ONE_BITS: u32 = 0x3F80_0000;

/// Bit pattern of the single-precision number `-0.0`.
pub const NEG_ZERO_BITS: u32 = 0x8000_0000;

/// A fraction in `[0, 1]`, stored as the bit pattern of a single-precision number.
#[derive(Clone, Copy, Debug, PartialEq, Eq, Structural)]
pub struct Fraction {
    pub bits: u32,
}

/// Biased exponent field of a bit pattern.
pub open spec fn exponent_field(bits: u32) -> nat {
    (bits as nat) / pow2(23)
}

/// Mantissa field of a bit pattern.
pub open spec fn mantissa_field(bits: u32) -> nat {
    (bits as nat) % pow2(23)
}

impl Fraction {
    /// The bit pattern with the sign of a zero dropped: `-0.0` reads as `+0.0`.
    pub open spec fn magnitude(self) -> u32 {
        if self.bits == NEG_ZERO_BITS {
            0
        } else {
            self.bits
        }
    }

    /// The bit pattern is that of a number in `[0, 1]`: `-0.0`, or one of
    /// `+0.0` up to `1.0`.
    pub open spec fn wf(self) -> bool {
        self.magnitude() <= ONE_BITS
    }

    /// The bit pattern with the sign of a zero dropped.
    pub fn magnitude_bits(self) -> (r: u32)
        ensures
            r == self.magnitude(),
    {
        if self.bits == NEG_ZERO_BITS {
            0
        } else {
            self.bits
        }
    }

    /// Whether the fraction lies in `[0, 1]`.
    pub fn is_in_range(self) -> (r: bool)
        ensures
            r == self.wf(),
    {
        self.magnitude_bits() <= ONE_BITS
    }

    /// Numerator of the number, which equals `numerator() / 2^denominator_exp()`.
    pub open spec fn numerator(self) -> nat {
        if exponent_field(self.magnitude()) == 0 {
            mantissa_field(self.magnitude())
        } else {
            mantissa_field(self.magnitude()) + pow2(23)
        }
    }

    /// Exponent of two in the denominator of the number.
    pub open spec fn denominator_exp(self) -> nat {
        if exponent_field(self.magnitude()) == 0 {
            149
        } else {
            (150 - exponent_field(self.magnitude())) as nat
        }
    }

    /// `floor(self * n)`: the number of whole units that the fraction spans of
    /// a side `n` units long.
    pub open spec fn scaled_floor(self, n: nat) -> nat {
        (self.numerator() * n) / pow2(self.denominator_exp())
    }

    /// `floor(self * n)`, computed exactly.
    pub fn scale_floor(self, n: u32) -> (r: u32)
        requires
            self.wf(),
        ensures
            r as nat == self.scaled_floor(n as nat),
            r <= n,
    {
        let mag = self.magnitude_bits();
        let e: u32 = mag / 0x80_0000;
        let m: u32 = mag % 0x80_0000;
        proof {
            lemma2_to64();
            assert(e as nat == exponent_field(mag));
            assert(m as nat == mantissa_field(mag));
        }
        let num: u64 = if e == 0 { m as u64 } else { m as u64 + 0x80_0000 };
        let den_exp: u32 = if e == 0 { 149 } else { 150 - e };
        proof {
            lemma_numerator_bound(self);
            assert(num as nat == self.numerator());
            assert(den_exp as nat == self.denominator_exp());
            lemma_mul_inequality(num as int, pow2(24) as int, n as int);
            assert(pow2(24) * (n as int) < pow2(24) * pow2(32)) by (nonlinear_arith)
                requires pow2(24) > 0, (n as int) < pow2(32);
        }
        let prod: u64 = num * (n as u64);
        let mut q: u64 = prod;
        let mut k: u32 = 0;
        while k < den_exp
            invariant
                k <= den_exp,
                den_exp <= 149,
                q as nat == (prod as nat) / pow2(k as nat),
            decreases den_exp - k,
        {
            proof {
                lemma_pow2_pos(k as nat);
                lemma_div_denominator(prod as int, pow2(k as nat) as int, 2);
                assert(pow2((k + 1) as nat) == pow2(k as nat) * 2) by {
                    vstd::arithmetic::power2::lemma_pow2_unfold((k + 1) as nat);
                }
            }
            q = q / 2;
            k = k + 1;
        }
        proof {
            lemma_scaled_floor_at_most(self, n as nat);
        }
        q as u32
    }
}

/// The numerator stays below `2^24` and at most the denominator, since the
/// number is at most one.
pub proof fn lemma_numerator_bound(f: Fraction)
    requires
        f.wf(),
    ensures
        f.numerator() < pow2(24),
        f.numerator() <= pow2(f.denominator_exp()),
        exponent_field(f.magnitude()) <= 127,
{
    lemma2_to64();
    let e = exponent_field(f.magnitude());
    let m = mantissa_field(f.magnitude());
    assert(e <= 127);
    if e == 0 {
        lemma_pow2_strictly_increases(23, 149);
    } else if e == 127 {
        assert(m == 0);
    } else if f.denominator_exp() > 24 {
        lemma_pow2_strictly_increases(24, f.denominator_exp());
    }
}

/// `floor(f * n)` of a fraction in `[0, 1]` does not exceed `n`.
pub proof fn lemma_scaled_floor_at_most(f: Fraction, n: nat)
    requires
        f.wf(),
    ensures
        f.scaled_floor(n) <= n,
{
    lemma_numerator_bound(f);
    let d = pow2(f.denominator_exp());
    lemma_pow2_pos(f.denominator_exp());
    lemma_mul_inequality(f.numerator() as int, d as int, n as int);
    lemma_div_is_ordered((f.numerator() * n) as int, (d * n) as int, d as int);
    lemma_mul_is_commutative(d as int, n as int);
    lemma_div_by_multiple(n as int, d as int);
}

/// `a` is a smaller number than `b`.
pub open spec fn less_than(a: Fraction, b: Fraction) -> bool {
    a.numerator() * pow2(b.denominator_exp()) < b.numerator() * pow2(a.denominator_exp())
}

/// Of two fractions in `[0, 1]`, the one with the smaller magnitude pattern
/// is the smaller number.
proof fn lemma_smaller_magnitude_smaller_number(a: Fraction, b: Fraction)
    requires
        a.wf(),
        b.wf(),
        a.magnitude() < b.magnitude(),
    ensures
        less_than(a, b),
{
    lemma2_to64();
    lemma_numerator_bound(a);
    lemma_numerator_bound(b);
    let ua = a.magnitude();
    let ub = b.magnitude();
    let ea = exponent_field(ua);
    let eb = exponent_field(ub);
    let ma = mantissa_field(ua);
    let mb = mantissa_field(ub);
    assert(ua == ea * 0x80_0000 + ma);
    assert(ub == eb * 0x80_0000 + mb);
    assert(ea <= eb) by (nonlinear_arith)
        requires
            ua < ub,
            ua == ea * 0x80_0000 + ma,
            ub == eb * 0x80_0000 + mb,
            ma < 0x80_0000,
            mb < 0x80_0000;
    let xa = a.denominator_exp();
    let xb = b.denominator_exp();
    let na = a.numerator();
    let nb = b.numerator();
    lemma_pow2_pos(xa);
    lemma_pow2_pos(xb);
    if xa == xb {
        if ea == eb {
            assert(ma < mb) by (nonlinear_arith)
                requires
                    ua < ub,
                    ua == ea * 0x80_0000 + ma,
                    ub == eb * 0x80_0000 + mb,
                    ea == eb;
        }
        assert(na < nb);
        assert(na * pow2(xb) < nb * pow2(xa)) by (nonlinear_arith)
            requires
                na < nb,
                xa == xb,
                pow2(xb) > 0;
    } else {
        let d: nat = (xa - xb) as nat;
        assert(xa > xb);
        vstd::arithmetic::power2::lemma_pow2_adds(xb, d);
        assert(pow2(xa) == pow2(xb) * pow2(d));
        assert(nb >= pow2(23));
        vstd::arithmetic::power2::lemma_pow2_adds(23, 1);
        if d > 1 {
            lemma_pow2_strictly_increases(1, d);
        }
        assert(pow2(d) >= 2);
        assert(na < nb * pow2(d)) by (nonlinear_arith)
            requires
                na < pow2(24),
                pow2(24) == pow2(23) * pow2(1),
                pow2(1) == 2,
                nb >= pow2(23),
                pow2(d) >= 2;
        assert(na * pow2(xb) < nb * (pow2(xb) * pow2(d))) by (nonlinear_arith)
            requires
                na < nb * pow2(d),
                pow2(xb) > 0;
    }
}

/// For fractions in `[0, 1]`, ordering by magnitude pattern is ordering by
/// value: one is a smaller number than the other exactly when its magnitude
/// pattern is smaller.
pub proof fn lemma_magnitude_order_is_numeric(a: Fraction, b: Fraction)
    requires
        a.wf(),
        b.wf(),
    ensures
        less_than(a, b) <==> a.magnitude() < b.magnitude(),
        (!less_than(a, b) && !less_than(b, a)) <==> a.magnitude() == b.magnitude(),
{
    if a.magnitude() < b.magnitude() {
        lemma_smaller_magnitude_smaller_number(a, b);
    } else if b.magnitude() < a.magnitude() {
        lemma_smaller_magnitude_smaller_number(b, a);
    }
}

/// A rectangle on the page, each side a fraction of the page's width or height.
#[derive(Clone, Copy, Debug, PartialEq, Eq, Structural)]
pub struct BoundingBox {
    pub width: Fraction,
    pub height: Fraction,
    pub left: Fraction,
    pub top: Fraction,
}

impl BoundingBox {
    /// Every coordinate lies in `[0, 1]`.
    pub open spec fn wf(self) -> bool {
        self.width.wf() && self.height.wf() && self.left.wf() && self.top.wf()
    }

    /// Whether every coordinate lies in `[0, 1]`.
    pub fn is_normalized(&self) -> (r: bool)
        ensures
            r == self.wf(),
    {
        self.width.is_in_range() && self.height.is_in_range() && self.left.is_in_range()
            && self.top.is_in_range()
    }
}

} // verus!
