//! Floating-point numbers held as their IEEE 754 bit patterns, and the order of the numbers that
//! the patterns stand for.
use vstd::arithmetic::power2;
use vstd::prelude::*;
use vstd::std_specs::cmp::PartialEqSpec;

verus! {

/// A number in double precision, as its bit pattern.
#[derive(Clone, Copy, Debug)]
pub struct Float64 {
    pub bits: u64,
}

/// A number in single precision, as its bit pattern.
#[derive(Clone, Copy, Debug)]
pub struct Float32 {
    pub bits: u32,
}

/// The size of the number with the given pattern below the sign bit, counted in units of the
/// smallest positive number. The lowest `width` bits are the fraction, the bits above them the
/// exponent; infinity counts as the first size above every finite one.
pub open spec fn size_of_pattern(pattern: nat, width: nat) -> nat {
    let exponent = pattern / power2::pow2(width);
    let fraction = pattern % power2::pow2(width);
    if exponent == 0 {
        fraction
    } else {
        (power2::pow2(width) + fraction) * power2::pow2((exponent - 1) as nat)
    }
}

impl Float64 {
    /// The pattern without the sign bit.
    pub open spec fn pattern(self) -> nat {
        if self.bits >= 0x8000_0000_0000_0000 {
            (self.bits - 0x8000_0000_0000_0000) as nat
        } else {
            self.bits as nat
        }
    }

    pub open spec fn is_nan(self) -> bool {
        self.pattern() > 0x7ff0_0000_0000_0000
    }

    /// An integer by which numbers are ordered; both zeros have rank 0.
    pub open spec fn rank(self) -> int {
        if self.bits >= 0x8000_0000_0000_0000 {
            -(self.pattern() as int)
        } else {
            self.pattern() as int
        }
    }

    /// The number that the pattern stands for, in units of the smallest positive number.
    pub open spec fn value(self) -> int {
        if self.bits >= 0x8000_0000_0000_0000 {
            -(size_of_pattern(self.pattern(), 52) as int)
        } else {
            size_of_pattern(self.pattern(), 52) as int
        }
    }

    /// Whether both are numbers and `self` is the smaller.
    pub open spec fn below(self, other: Float64) -> bool {
        !self.is_nan() && !other.is_nan() && self.rank() < other.rank()
    }

    /// Whether both are numbers and `self` is not the greater.
    pub open spec fn within(self, other: Float64) -> bool {
        !self.is_nan() && !other.is_nan() && self.rank() <= other.rank()
    }

    /// Whether it is a number, and at most the whole number `n`.
    pub open spec fn at_most(self, n: int) -> bool {
        !self.is_nan() && self.value() <= n * power2::pow2(1074)
    }

    fn ranked(&self) -> (result: Option<i64>)
        ensures
            match result {
                Some(rank) => !self.is_nan() && rank == self.rank(),
                None => self.is_nan(),
            },
    {
        let negative = self.bits >= 0x8000_0000_0000_0000;
        let pattern: u64 = if negative {
            self.bits - 0x8000_0000_0000_0000
        } else {
            self.bits
        };
        if pattern > 0x7ff0_0000_0000_0000 {
            None
        } else if negative {
            Some(-(pattern as i64))
        } else {
            Some(pattern as i64)
        }
    }

    /// Whether both are numbers and `self` is the smaller.
    pub fn is_below(&self, other: Float64) -> (result: bool)
        ensures
            result == self.below(other),
    {
        match (self.ranked(), other.ranked()) {
            (Some(a), Some(b)) => a < b,
            _ => false,
        }
    }

    /// Whether both are numbers and `self` is not the greater.
    pub fn is_within(&self, other: Float64) -> (result: bool)
        ensures
            result == self.within(other),
    {
        match (self.ranked(), other.ranked()) {
            (Some(a), Some(b)) => a <= b,
            _ => false,
        }
    }
}

impl Float32 {
    /// The pattern without the sign bit.
    pub open spec fn pattern(self) -> nat {
        if self.bits >= 0x8000_0000 {
            (self.bits - 0x8000_0000) as nat
        } else {
            self.bits as nat
        }
    }

    pub open spec fn is_nan(self) -> bool {
        self.pattern() > 0x7f80_0000
    }

    /// An integer by which numbers are ordered; both zeros have rank 0.
    pub open spec fn rank(self) -> int {
        if self.bits >= 0x8000_0000 {
            -(self.pattern() as int)
        } else {
            self.pattern() as int
        }
    }

    /// The number that the pattern stands for, in units of the smallest positive number.
    pub open spec fn value(self) -> int {
        if self.bits >= 0x8000_0000 {
            -(size_of_pattern(self.pattern(), 23) as int)
        } else {
            size_of_pattern(self.pattern(), 23) as int
        }
    }

    /// Whether both are numbers and `self` is the smaller.
    pub open spec fn below(self, other: Float32) -> bool {
        !self.is_nan() && !other.is_nan() && self.rank() < other.rank()
    }

    fn ranked(&self) -> (result: Option<i64>)
        ensures
            match result {
                Some(rank) => !self.is_nan() && rank == self.rank(),
                None => self.is_nan(),
            },
    {
        let negative = self.bits >= 0x8000_0000;
        let pattern: u32 = if negative {
            self.bits - 0x8000_0000
        } else {
            self.bits
        };
        if pattern > 0x7f80_0000 {
            None
        } else if negative {
            Some(-(pattern as i64))
        } else {
            Some(pattern as i64)
        }
    }

    /// Whether both are numbers and `self` is the smaller.
    pub fn is_below(&self, other: Float32) -> (result: bool)
        ensures
            result == self.below(other),
    {
        match (self.ranked(), other.ranked()) {
            (Some(a), Some(b)) => a < b,
            _ => false,
        }
    }
}

/// Doubling a number that is scaled by a power of two takes one off the exponent.
proof fn lemma_scaled(m: int, n: int, e: nat)
    requires
        e > 0,
        m * power2::pow2(e) == n * power2::pow2(52),
    ensures
        (2 * m) * power2::pow2((e - 1) as nat) == n * power2::pow2(52),
{
    power2::lemma_pow2_unfold(e);
    let half = power2::pow2((e - 1) as nat) as int;
    assert((2 * m) * half == m * (2 * half)) by (nonlinear_arith);
}

/// A number that is at least one does not fall short of its scale at exponent 0.
proof fn lemma_scale_bound(m: int, n: int)
    requires
        n >= 1,
        m * power2::pow2(0) == n * power2::pow2(52),
    ensures
        m >= power2::pow2(52),
{
    power2::lemma2_to64();
    let unit = power2::pow2(52) as int;
    power2::lemma_pow2_pos(52);
    assert(m >= unit) by (nonlinear_arith)
        requires
            n >= 1,
            unit > 0,
            m * 1 == n * unit,
    ;
}

proof fn lemma_pattern_value(bits: int, m: int, n: int, e: nat)
    requires
        e <= 52,
        m * power2::pow2(e) == n * power2::pow2(52),
        power2::pow2(52) <= m < 2 * power2::pow2(52),
        bits == (1023 + e) * power2::pow2(52) + (m - power2::pow2(52)),
    ensures
        size_of_pattern(bits as nat, 52) == n * power2::pow2(1074),
{
    let unit = power2::pow2(52) as int;
    power2::lemma_pow2_pos(52);
    let exponent = 1023 + e as int;
    assert(bits >= 0 && bits / unit == exponent && bits % unit == m - unit) by (nonlinear_arith)
        requires
            unit > 0,
            exponent >= 0,
            unit <= m < 2 * unit,
            bits == exponent * unit + (m - unit),
    ;
    power2::lemma_pow2_adds(e, 1022);
    power2::lemma_pow2_adds(52, 1022);
    let low = power2::pow2(e) as int;
    let rest = power2::pow2(1022) as int;
    assert(m * (low * rest) == n * (unit * rest)) by (nonlinear_arith)
        requires
            m * low == n * unit,
    ;
}

impl Float64 {
    /// The number `n` in double precision.
    pub fn of_u32(n: u32) -> (result: Float64)
        ensures
            !result.is_nan(),
            result.value() == n * power2::pow2(1074),
    {
        proof {
            power2::lemma2_to64();
            power2::lemma2_to64_rest();
        }
        if n == 0 {
            proof {
                lemma_size_of_zero(52);
            }
            return Float64 { bits: 0 };
        }
        let mut m: u64 = n as u64;
        let mut e: u64 = 52;
        while m < 0x10_0000_0000_0000
            invariant
                power2::pow2(52) == 0x10_0000_0000_0000,
                1 <= n,
                1 <= m < 0x20_0000_0000_0000,
                e <= 52,
                m * power2::pow2(e as nat) == n * power2::pow2(52),
            decreases e,
        {
            proof {
                if e == 0 {
                    lemma_scale_bound(m as int, n as int);
                }
                lemma_scaled(m as int, n as int, e as nat);
            }
            m = m * 2;
            e = e - 1;
        }
        let bits: u64 = (1023 + e) * 0x10_0000_0000_0000 + (m - 0x10_0000_0000_0000);
        proof {
            lemma_pattern_value(bits as int, m as int, n as int, e as nat);
        }
        Float64 { bits }
    }
}

/// Equality of the numbers: a pattern that is no number equals nothing, and the zeros are equal.
impl PartialEq for Float64 {
    fn eq(&self, other: &Self) -> (result: bool) {
        match (self.ranked(), other.ranked()) {
            (Some(a), Some(b)) => a == b,
            _ => false,
        }
    }
}

impl vstd::std_specs::cmp::PartialEqSpecImpl for Float64 {
    open spec fn obeys_eq_spec() -> bool {
        true
    }

    open spec fn eq_spec(&self, other: &Self) -> bool {
        !self.is_nan() && !other.is_nan() && self.rank() == other.rank()
    }
}

/// Equality of the numbers: a pattern that is no number equals nothing, and the zeros are equal.
impl PartialEq for Float32 {
    fn eq(&self, other: &Self) -> (result: bool) {
        match (self.ranked(), other.ranked()) {
            (Some(a), Some(b)) => a == b,
            _ => false,
        }
    }
}

impl vstd::std_specs::cmp::PartialEqSpecImpl for Float32 {
    open spec fn obeys_eq_spec() -> bool {
        true
    }

    open spec fn eq_spec(&self, other: &Self) -> bool {
        !self.is_nan() && !other.is_nan() && self.rank() == other.rank()
    }
}

/// A greater pattern stands for a greater size.
proof fn lemma_size_increases(a: nat, b: nat, width: nat)
    requires
        a < b,
    ensures
        size_of_pattern(a, width) < size_of_pattern(b, width),
{
    let unit = power2::pow2(width) as int;
    power2::lemma_pow2_pos(width);
    let (ea, fa) = ((a as int) / unit, (a as int) % unit);
    let (eb, fb) = ((b as int) / unit, (b as int) % unit);
    assert(a == unit * ea + fa && 0 <= fa < unit && 0 <= ea) by (nonlinear_arith)
        requires
            unit > 0,
            ea == (a as int) / unit,
            fa == (a as int) % unit,
    ;
    assert(b == unit * eb + fb && 0 <= fb < unit && 0 <= eb) by (nonlinear_arith)
        requires
            unit > 0,
            eb == (b as int) / unit,
            fb == (b as int) % unit,
    ;
    assert(ea <= eb) by (nonlinear_arith)
        requires
            a < b,
            a == unit * ea + fa,
            b == unit * eb + fb,
            0 <= fa < unit,
            0 <= fb < unit,
    ;
    if ea == eb {
        assert(fa < fb);
        if ea > 0 {
            let scale = power2::pow2((ea - 1) as nat) as int;
            power2::lemma_pow2_pos((ea - 1) as nat);
            assert((unit + fa) * scale < (unit + fb) * scale) by (nonlinear_arith)
                requires
                    fa < fb,
                    scale > 0,
            ;
        }
    } else {
        let high = power2::pow2((eb - 1) as nat) as int;
        power2::lemma_pow2_pos((eb - 1) as nat);
        assert(unit * high <= (unit + fb) * high) by (nonlinear_arith)
            requires
                fb >= 0,
                high > 0,
        ;
        if ea == 0 {
            assert(unit <= unit * high) by (nonlinear_arith)
                requires
                    unit > 0,
                    high > 0,
            ;
        } else {
            let low = power2::pow2((ea - 1) as nat) as int;
            power2::lemma_pow2_pos((ea - 1) as nat);
            power2::lemma_pow2_unfold(ea as nat);
            if ea < eb - 1 {
                power2::lemma_pow2_strictly_increases(ea as nat, (eb - 1) as nat);
            }
            assert((unit + fa) * low < unit * high) by (nonlinear_arith)
                requires
                    0 <= fa < unit,
                    low > 0,
                    2 * low <= high,
            ;
        }
    }
}

/// Comparing double-precision patterns by rank compares the numbers that they stand for.
pub proof fn law_double_order(a: Float64, b: Float64)
    requires
        !a.is_nan(),
        !b.is_nan(),
    ensures
        a.below(b) <==> a.value() < b.value(),
        a.within(b) <==> a.value() <= b.value(),
{
    let (pa, pb) = (a.pattern(), b.pattern());
    if pa < pb {
        lemma_size_increases(pa, pb, 52);
    } else if pb < pa {
        lemma_size_increases(pb, pa, 52);
    }
    lemma_size_of_zero(52);
    if pa > 0 {
        lemma_size_increases(0, pa, 52);
    }
    if pb > 0 {
        lemma_size_increases(0, pb, 52);
    }
}

/// Comparing single-precision patterns by rank compares the numbers that they stand for.
pub proof fn law_single_order(a: Float32, b: Float32)
    requires
        !a.is_nan(),
        !b.is_nan(),
    ensures
        a.below(b) <==> a.value() < b.value(),
{
    let (pa, pb) = (a.pattern(), b.pattern());
    if pa < pb {
        lemma_size_increases(pa, pb, 23);
    } else if pb < pa {
        lemma_size_increases(pb, pa, 23);
    }
    lemma_size_of_zero(23);
    if pa > 0 {
        lemma_size_increases(0, pa, 23);
    }
    if pb > 0 {
        lemma_size_increases(0, pb, 23);
    }
}

proof fn lemma_size_of_zero(width: nat)
    ensures
        size_of_pattern(0, width) == 0,
{
    power2::lemma_pow2_pos(width);
    let unit = power2::pow2(width) as int;
    assert(0int / unit == 0 && 0int % unit == 0) by (nonlinear_arith)
        requires
            unit > 0,
    ;
}

/// What a double-precision pattern stands for: its highest bit is the sign, the next eleven the
/// exponent, and the others the fraction. An exponent of ones with a fraction that is not zero is
/// no number; an exponent of zeros leaves the fraction as it is, and any other adds the hidden bit
/// and scales by a power of two.
pub proof fn law_double_numbers(a: Float64)
    ensures
        ({
            let n = a.bits as int;
            let fraction = n % 0x10_0000_0000_0000;
            let exponent = n / 0x10_0000_0000_0000 % 2048;
            let size = if exponent == 0 {
                fraction
            } else {
                (0x10_0000_0000_0000 + fraction) * power2::pow2((exponent - 1) as nat)
            };
            &&& a.is_nan() <==> exponent == 2047 && fraction != 0
            &&& a.value() == if n < 0x8000_0000_0000_0000 {
                size
            } else {
                -size
            }
        }),
{
    power2::lemma2_to64();
    power2::lemma2_to64_rest();
    let n = a.bits as int;
    let p = a.pattern() as int;
    assert(power2::pow2(52) == 0x10_0000_0000_0000);
    assert(p % 0x10_0000_0000_0000 == n % 0x10_0000_0000_0000);
    assert(p / 0x10_0000_0000_0000 == n / 0x10_0000_0000_0000 % 2048);
}

/// What a single-precision pattern stands for, with eight bits of exponent.
pub proof fn law_single_numbers(a: Float32)
    ensures
        ({
            let n = a.bits as int;
            let fraction = n % 0x80_0000;
            let exponent = n / 0x80_0000 % 256;
            let size = if exponent == 0 {
                fraction
            } else {
                (0x80_0000 + fraction) * power2::pow2((exponent - 1) as nat)
            };
            &&& a.is_nan() <==> exponent == 255 && fraction != 0
            &&& a.value() == if n < 0x8000_0000 {
                size
            } else {
                -size
            }
        }),
{
    power2::lemma2_to64();
    let n = a.bits as int;
    let p = a.pattern() as int;
    assert(power2::pow2(23) == 0x80_0000);
    assert(p % 0x80_0000 == n % 0x80_0000);
    assert(p / 0x80_0000 == n / 0x80_0000 % 256);
}

/// A pattern that is no number is neither smaller nor greater than any other, nor within any.
pub proof fn law_no_number_has_no_order(a: Float64, b: Float64, c: Float32, d: Float32)
    ensures
        a.is_nan() || b.is_nan() ==> !a.below(b) && !a.within(b),
        c.is_nan() || d.is_nan() ==> !c.below(d),
{
}

/// Two numbers are equal where they stand for the same number, so both zeros are; a pattern that is
/// no number equals nothing.
pub proof fn law_equal_numbers(a: Float64, b: Float64, c: Float32, d: Float32)
    ensures
        a.eq_spec(&b) <==> !a.is_nan() && !b.is_nan() && a.value() == b.value(),
        c.eq_spec(&d) <==> !c.is_nan() && !d.is_nan() && c.value() == d.value(),
{
    if !a.is_nan() && !b.is_nan() {
        law_double_order(a, b);
        law_double_order(b, a);
    }
    if !c.is_nan() && !d.is_nan() {
        law_single_order(c, d);
        law_single_order(d, c);
    }
}

} // verus!
