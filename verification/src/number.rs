use vstd::arithmetic::power2::{
    lemma2_to64, lemma2_to64_rest, lemma_pow2_pos, lemma_pow2_strictly_increases, lemma_pow2_unfold,
    pow2,
};
use vstd::prelude::*;

verus! {

/// The sign bit of a 64-bit IEEE-754 pattern.
pub const SIGN_BIT: u64 = 0x8000_0000_0000_0000;

/// Every bit of a pattern but its sign.
pub const MAGNITUDE_MASK: u64 = 0x7fff_ffff_ffff_ffff;

/// The pattern of positive infinity; every larger magnitude is a NaN.
pub const INFINITY_BITS: u64 = 0x7ff0_0000_0000_0000;

/// The magnitude of a pattern: the pattern with its sign bit cleared.
pub open spec fn magnitude(bits: u64) -> u64 {
    bits & MAGNITUDE_MASK
}

/// Whether the sign bit of a pattern is set.
pub open spec fn is_negative(bits: u64) -> bool {
    bits & SIGN_BIT != 0
}

/// A pattern stands for a number when it is not a NaN.
pub open spec fn is_number(bits: u64) -> bool {
    magnitude(bits) <= INFINITY_BITS
}

/// The place of a pattern on the number line: patterns of numbers are
/// ordered, and equal, as IEEE-754 orders and equates the values they stand
/// for. Both zeros have rank 0.
pub open spec fn rank_of(bits: u64) -> int {
    if is_negative(bits) {
        -(magnitude(bits) as int)
    } else {
        magnitude(bits) as int
    }
}

/// The exponent field of a pattern.
pub open spec fn exponent_of(bits: u64) -> u64 {
    (bits >> 52) & 0x7ff
}

/// The fraction field of a pattern.
pub open spec fn fraction_of(bits: u64) -> u64 {
    bits & 0xf_ffff_ffff_ffff
}

/// Whether the pattern stands for the whole number `v`. Every whole number
/// below 2^53 has such a pattern: zero the pattern 0, and any other the
/// normal pattern whose significand, the fraction under a leading one, is
/// `v` times the power of two that the exponent field takes away.
pub open spec fn stands_for(bits: u64, v: nat) -> bool {
    if v == 0 {
        bits == 0
    } else {
        &&& !is_negative(bits)
        &&& 1023 <= exponent_of(bits) <= 1075
        &&& 0x10_0000_0000_0000 + fraction_of(bits) == v * pow2((1075 - exponent_of(bits)) as nat)
    }
}

/// The value of a normal pattern whose exponent field is 1075 or more: a
/// whole number, the fraction under a leading one, times the power of two
/// that the exponent field adds.
pub open spec fn whole_value(bits: u64) -> int {
    (0x10_0000_0000_0000 + fraction_of(bits)) * pow2((exponent_of(bits) - 1075) as nat)
}

/// Whether the pattern is that of the double nearest to the whole number
/// `v` of 2^53 or more: `v` is no nearer to the double before it nor to the
/// double after it, and where `v` lies half way to one of them the pattern
/// is even.
pub open spec fn nearest_to(bits: u64, v: nat) -> bool {
    let before = whole_value((bits - 1) as u64);
    let itself = whole_value(bits);
    let after = whole_value((bits + 1) as u64);
    &&& !is_negative(bits)
    &&& 1076 <= exponent_of(bits) <= 1087
    &&& before + itself <= 2 * v <= itself + after
    &&& (2 * v == before + itself || 2 * v == itself + after) ==> bits % 2 == 0
}

/// Whether the pattern is that of the whole number `v` as a double: `v`
/// itself below 2^53, and above the double nearest to it.
pub open spec fn double_of(bits: u64, v: nat) -> bool {
    if v < 0x20_0000_0000_0000 {
        stands_for(bits, v)
    } else {
        nearest_to(bits, v)
    }
}

/// The pattern with these exponent and fraction fields, and no sign.
pub open spec fn pattern(exponent: u64, fraction: u64) -> u64 {
    (exponent << 52) | fraction
}

/// The fields of a pattern that is put together from them.
proof fn pattern_fields(exponent: u64, fraction: u64)
    requires
        exponent <= 2046,
        fraction < 0x10_0000_0000_0000,
    ensures
        exponent_of(pattern(exponent, fraction)) == exponent,
        fraction_of(pattern(exponent, fraction)) == fraction,
        !is_negative(pattern(exponent, fraction)),
        is_number(pattern(exponent, fraction)),
        pattern(exponent, fraction) % 2 == fraction % 2,
{
    let b = pattern(exponent, fraction);
    assert((b >> 52) & 0x7ff == exponent && b & 0xf_ffff_ffff_ffff == fraction && b
        & 0x8000_0000_0000_0000 == 0 && b & 0x7fff_ffff_ffff_ffff <= 0x7ff0_0000_0000_0000 && b % 2
        == fraction % 2) by (bit_vector)
        requires
            b == (exponent << 52) | fraction,
            exponent <= 2046,
            fraction < 0x10_0000_0000_0000,
    ;
}

/// The patterns next to a normal pattern: within its exponent where the
/// fraction has room, and else at the edge of the next exponent.
proof fn pattern_neighbours(exponent: u64, fraction: u64)
    requires
        1 <= exponent <= 2045,
        fraction < 0x10_0000_0000_0000,
    ensures
        pattern(exponent, fraction) + 1 == if fraction + 1 < 0x10_0000_0000_0000 {
            pattern(exponent, (fraction + 1) as u64)
        } else {
            pattern((exponent + 1) as u64, 0)
        },
        pattern(exponent, fraction) - 1 == if fraction > 0 {
            pattern(exponent, (fraction - 1) as u64)
        } else {
            pattern((exponent - 1) as u64, 0xf_ffff_ffff_ffff)
        },
        0 < pattern(exponent, fraction) < 0x7ff0_0000_0000_0000,
{
    let b = pattern(exponent, fraction);
    assert(0 < b && b < 0x7ff0_0000_0000_0000) by (bit_vector)
        requires
            b == (exponent << 52) | fraction,
            1 <= exponent <= 2045,
            fraction < 0x10_0000_0000_0000,
    ;
    if fraction + 1 < 0x10_0000_0000_0000 {
        let f = (fraction + 1) as u64;
        assert(b + 1 == ((exponent << 52) | f)) by (bit_vector)
            requires
                b == (exponent << 52) | fraction,
                f == fraction + 1,
                1 <= exponent <= 2045,
                f < 0x10_0000_0000_0000,
        ;
    } else {
        let e = (exponent + 1) as u64;
        assert(b + 1 == ((e << 52) | 0)) by (bit_vector)
            requires
                b == (exponent << 52) | fraction,
                e == exponent + 1,
                1 <= exponent <= 2045,
                fraction == 0xf_ffff_ffff_ffff,
        ;
    }
    if fraction > 0 {
        let f = (fraction - 1) as u64;
        assert(b - 1 == ((exponent << 52) | f)) by (bit_vector)
            requires
                b == (exponent << 52) | fraction,
                f == fraction - 1,
                1 <= exponent <= 2045,
                0 < fraction < 0x10_0000_0000_0000,
        ;
    } else {
        let e = (exponent - 1) as u64;
        assert(b - 1 == ((e << 52) | 0xf_ffff_ffff_ffff)) by (bit_vector)
            requires
                b == (exponent << 52) | fraction,
                e == exponent - 1,
                1 <= exponent <= 2045,
                fraction == 0,
        ;
    }
}

/// The value of a pattern that is put together from its fields.
proof fn whole_value_of_pattern(exponent: u64, fraction: u64)
    requires
        1075 <= exponent <= 2046,
        fraction < 0x10_0000_0000_0000,
    ensures
        whole_value(pattern(exponent, fraction)) == (0x10_0000_0000_0000 + fraction) * pow2(
            (exponent - 1075) as nat,
        ),
{
    pattern_fields(exponent, fraction);
}

/// A double-precision number, held as its IEEE-754 bit pattern.
/// A `Double` is never a NaN, so any two of them compare.
#[derive(Clone, Copy, Debug, PartialEq, Eq)]
pub struct Double {
    bits: u64,
}

impl Double {
    #[verifier::type_invariant]
    spec fn never_nan(self) -> bool {
        is_number(self.bits)
    }

    /// The bit pattern of this number.
    pub closed spec fn bits(self) -> u64 {
        self.bits
    }

    /// The place of this number on the number line.
    pub open spec fn rank(self) -> int {
        rank_of(self.bits())
    }

    /// The number with the given pattern, or `None` for the pattern of a NaN.
    pub fn from_bits(bits: u64) -> (r: Option<Double>)
        ensures
            r is Some <==> is_number(bits),
            r is Some ==> r->0.bits() == bits,
    {
        if bits & MAGNITUDE_MASK <= INFINITY_BITS {
            Some(Double { bits })
        } else {
            None
        }
    }

    /// The bit pattern of this number.
    pub fn to_bits(&self) -> (r: u64)
        ensures
            r == self.bits(),
            is_number(r),
    {
        proof {
            use_type_invariant(self);
        }
        self.bits
    }

    /// Positive zero.
    pub fn zero() -> (r: Double)
        ensures
            r.bits() == 0,
            r.rank() == 0,
    {
        assert(0u64 & MAGNITUDE_MASK == 0) by (bit_vector);
        assert(0u64 & SIGN_BIT == 0) by (bit_vector);
        Double { bits: 0 }
    }

    /// The whole number `v` as a double: `v` itself where it is a double,
    /// as every whole number below 2^53 is, and else the double nearest to
    /// it, the even one of two that are as near.
    pub fn from_whole(v: u64) -> (r: Double)
        ensures
            double_of(r.bits(), v as nat),
    {
        if v == 0 {
            Double::zero()
        } else if v < 0x20_0000_0000_0000 {
            Double::exact(v)
        } else {
            Double::nearest(v)
        }
    }

    /// The double that is the whole number `v`.
    fn exact(v: u64) -> (r: Double)
        requires
            0 < v < 0x20_0000_0000_0000,
        ensures
            stands_for(r.bits(), v as nat),
    {
        let mut significand: u64 = v;
        let mut exponent: u64 = 1075;
        proof {
            lemma2_to64();
            assert(v * pow2(0) == v) by (nonlinear_arith)
                requires
                    pow2(0) == 1,
            ;
        }
        while significand < 0x10_0000_0000_0000
            invariant
                0 < significand < 0x20_0000_0000_0000,
                1023 <= exponent <= 1075,
                significand == v * pow2((1075 - exponent) as nat),
                pow2((1075 - exponent) as nat) <= significand,
            decreases 0x20_0000_0000_0000 - significand,
        {
            proof {
                let n = (1075 - exponent) as nat;
                lemma_pow2_unfold(n + 1);
                assert(v * pow2(n + 1) == 2 * (v * pow2(n))) by (nonlinear_arith)
                    requires
                        pow2(n + 1) == 2 * pow2(n),
                ;
                lemma2_to64_rest();
                if n >= 52 {
                    if n > 52 {
                        lemma_pow2_strictly_increases(52, n);
                    }
                    assert(false);
                }
            }
            significand = significand * 2;
            exponent = exponent - 1;
        }
        let fraction = significand - 0x10_0000_0000_0000;
        proof {
            pattern_fields(exponent, fraction);
        }
        Double { bits: (exponent << 52) | fraction }
    }

    /// The double nearest to the whole number `v`.
    fn nearest(v: u64) -> (r: Double)
        requires
            v >= 0x20_0000_0000_0000,
        ensures
            nearest_to(r.bits(), v as nat),
    {
        let mut kept: u64 = v;
        let mut dropped: u64 = 0;
        let mut unit: u64 = 1;
        let mut shift: u64 = 0;
        proof {
            lemma2_to64();
        }
        while kept >= 0x20_0000_0000_0000
            invariant
                v == kept * unit + dropped,
                dropped < unit,
                unit == pow2(shift as nat),
                shift <= 11,
                kept >= 0x10_0000_0000_0000,
                shift == 0 ==> kept == v,
            decreases kept,
        {
            proof {
                assert(unit < 2048) by (nonlinear_arith)
                    requires
                        kept * unit + dropped == v,
                        kept >= 0x20_0000_0000_0000,
                        v <= 0xffff_ffff_ffff_ffff,
                ;
                lemma2_to64();
                if shift >= 11 {
                    if shift > 11 {
                        lemma_pow2_strictly_increases(11, shift as nat);
                    }
                    assert(false);
                }
                lemma_pow2_unfold((shift + 1) as nat);
            }
            let ghost old_kept = kept;
            let ghost old_unit = unit;
            let ghost old_dropped = dropped;
            if kept % 2 == 1 {
                dropped = dropped + unit;
            }
            kept = kept / 2;
            unit = unit * 2;
            shift = shift + 1;
            assert(kept * unit + dropped == old_kept * old_unit + old_dropped) by (nonlinear_arith)
                requires
                    kept == old_kept / 2,
                    unit == old_unit * 2,
                    dropped == if old_kept % 2 == 1 {
                        old_dropped + old_unit
                    } else {
                        old_dropped as int
                    },
            ;
        }
        let half = unit / 2;
        let up = dropped > half || (dropped == half && kept % 2 == 1);
        let low_exponent = 1075 + shift;
        let low_fraction = kept - 0x10_0000_0000_0000;
        let (exponent, fraction) = if up {
            if low_fraction + 1 == 0x10_0000_0000_0000 {
                (low_exponent + 1, 0)
            } else {
                (low_exponent, low_fraction + 1)
            }
        } else {
            (low_exponent, low_fraction)
        };
        let bits = (exponent << 52) | fraction;
        proof {
            let u = unit as int;
            let h = half as int;
            let q = kept as int;
            lemma_pow2_unfold(shift as nat);
            lemma_pow2_unfold((shift + 1) as nat);
            lemma_pow2_unfold((shift + 2) as nat);
            assert(u == 2 * h);
            assert(pow2((shift - 1) as nat) == h);
            assert(pow2((shift + 1) as nat) == 2 * u);
            pattern_fields(exponent, fraction);
            pattern_neighbours(exponent, fraction);
            pattern_neighbours(low_exponent, low_fraction);
            whole_value_of_pattern(exponent, fraction);
            whole_value_of_pattern(low_exponent, low_fraction);
            let low = whole_value(pattern(low_exponent, low_fraction));
            assert(low == q * u);
            let itself = whole_value(bits);
            let before = whole_value((bits - 1) as u64);
            let after = whole_value((bits + 1) as u64);
            assert((q + 1) * u == q * u + u) by (nonlinear_arith);
            assert((q + 2) * u == q * u + 2 * u) by (nonlinear_arith);
            assert((q - 1) * u == q * u - u) by (nonlinear_arith);
            if up {
                assert(itself == q * u + u) by {
                    if low_fraction + 1 == 0x10_0000_0000_0000 {
                        assert(0x10_0000_0000_0000 * (2 * u) == (q + 1) * u) by (nonlinear_arith)
                            requires
                                q + 1 == 0x20_0000_0000_0000,
                        ;
                    }
                }
                assert((bits - 1) as u64 == pattern(low_exponent, low_fraction));
                assert(before == low);
                assert(after >= itself) by {
                    if fraction + 1 < 0x10_0000_0000_0000 {
                        whole_value_of_pattern(exponent, (fraction + 1) as u64);
                        assert((0x10_0000_0000_0000 + fraction + 1) * pow2((exponent - 1075) as nat)
                            >= (0x10_0000_0000_0000 + fraction) * pow2((exponent - 1075) as nat))
                            by (nonlinear_arith);
                    } else {
                        whole_value_of_pattern((exponent + 1) as u64, 0);
                        assert(exponent == low_exponent);
                        let f = fraction as int;
                        assert(0x10_0000_0000_0000 * (2 * u) >= (0x10_0000_0000_0000 + f) * u)
                            by (nonlinear_arith)
                            requires
                                f < 0x10_0000_0000_0000,
                                u > 0,
                        ;
                    }
                }
            } else {
                assert(itself == low);
                assert(after == q * u + u) by {
                    if fraction + 1 < 0x10_0000_0000_0000 {
                        whole_value_of_pattern(exponent, (fraction + 1) as u64);
                    } else {
                        whole_value_of_pattern((exponent + 1) as u64, 0);
                        assert(0x10_0000_0000_0000 * (2 * u) == (q + 1) * u) by (nonlinear_arith)
                            requires
                                q + 1 == 0x20_0000_0000_0000,
                        ;
                    }
                }
                assert(before < itself) by {
                    if fraction > 0 {
                        whole_value_of_pattern(exponent, (fraction - 1) as u64);
                    } else {
                        whole_value_of_pattern((exponent - 1) as u64, 0xf_ffff_ffff_ffff);
                        assert((0x10_0000_0000_0000 + 0xf_ffff_ffff_ffff) * h < 0x10_0000_0000_0000
                            * (2 * h)) by (nonlinear_arith)
                            requires
                                h > 0,
                        ;
                    }
                }
            }
        }
        Double { bits }
    }

    /// Whether this number is smaller than the other.
    pub fn lt(&self, other: &Double) -> (r: bool)
        ensures
            r == (self.rank() < other.rank()),
    {
        let a = self.bits & MAGNITUDE_MASK;
        let b = other.bits & MAGNITUDE_MASK;
        if self.bits & SIGN_BIT != 0 {
            if other.bits & SIGN_BIT != 0 {
                b < a
            } else {
                a != 0 || b != 0
            }
        } else {
            if other.bits & SIGN_BIT != 0 {
                false
            } else {
                a < b
            }
        }
    }

    /// Whether the two numbers are equal in value; the two zeros are.
    pub fn same_value(&self, other: &Double) -> (r: bool)
        ensures
            r == (self.rank() == other.rank()),
    {
        !self.lt(other) && !other.lt(self)
    }
}

/// The ranks of numbers determine their patterns, but for the two zeros.
pub proof fn rank_determines_bits(a: u64, b: u64)
    requires
        rank_of(a) == rank_of(b),
        rank_of(a) != 0,
    ensures
        a == b,
{
    assert((a & MAGNITUDE_MASK) == (b & MAGNITUDE_MASK) && ((a & SIGN_BIT) != 0) == ((b & SIGN_BIT)
        != 0) ==> a == b) by (bit_vector);
    assert((a & MAGNITUDE_MASK) <= 0x7fff_ffff_ffff_ffffu64) by (bit_vector);
    assert((b & MAGNITUDE_MASK) <= 0x7fff_ffff_ffff_ffffu64) by (bit_vector);
}

/// Whole numbers keep their order as doubles: of two whole numbers that
/// are doubles, the smaller has the smaller rank.
pub proof fn whole_numbers_keep_their_order(a: u64, v: nat, b: u64, w: nat)
    requires
        stands_for(a, v),
        stands_for(b, w),
        v < w,
    ensures
        rank_of(a) < rank_of(b),
{
    let eb = exponent_of(b);
    let fb = fraction_of(b);
    assert(b & SIGN_BIT == 0 ==> (b & MAGNITUDE_MASK) == b && b == ((b >> 52) & 0x7ff)
        * 0x10_0000_0000_0000 + (b & 0xf_ffff_ffff_ffff) && (b & 0xf_ffff_ffff_ffff)
        < 0x10_0000_0000_0000) by (bit_vector);
    assert(0u64 & SIGN_BIT == 0 && 0u64 & MAGNITUDE_MASK == 0) by (bit_vector);
    if v > 0 {
        let ea = exponent_of(a);
        let fa = fraction_of(a);
        assert(a & SIGN_BIT == 0 ==> (a & MAGNITUDE_MASK) == a && a == ((a >> 52) & 0x7ff)
            * 0x10_0000_0000_0000 + (a & 0xf_ffff_ffff_ffff) && (a & 0xf_ffff_ffff_ffff)
            < 0x10_0000_0000_0000) by (bit_vector);
        let ka = (1075 - ea) as nat;
        let kb = (1075 - eb) as nat;
        lemma_pow2_pos(ka);
        lemma_pow2_pos(kb);
        if ka < kb {
            lemma_pow2_strictly_increases(ka, kb);
            lemma_pow2_unfold(ka + 1);
            if ka + 1 < kb {
                lemma_pow2_strictly_increases(ka + 1, kb);
            }
            assert(w * pow2(kb) >= 2 * (v * pow2(ka))) by (nonlinear_arith)
                requires
                    w > v,
                    pow2(kb) >= 2 * pow2(ka),
                    pow2(ka) > 0,
            ;
            assert(false);
        } else if ka == kb {
            assert(v * pow2(ka) < w * pow2(ka)) by (nonlinear_arith)
                requires
                    v < w,
                    pow2(ka) > 0,
            ;
        } else {
            assert(ea * 0x10_0000_0000_0000 + fa < eb * 0x10_0000_0000_0000) by (nonlinear_arith)
                requires
                    ea + 1 <= eb,
                    fa < 0x10_0000_0000_0000,
            ;
        }
    } else {
        assert(eb * 0x10_0000_0000_0000 + fb > 0) by (nonlinear_arith)
            requires
                eb >= 1023,
                fb >= 0,
        ;
    }
}

} // verus!
