//! Integer intervals: the numeric domain of the static analysis.
use vstd::prelude::*;
use crate::text::text_is;

verus! {

/// A closed interval `[min, max]` of integers.
#[derive(Clone, Copy, Debug, PartialEq, Eq)]
pub struct IntInterval {
    pub min: i64,
    pub max: i64,
}

/// The smallest 32-bit Int.
pub const I32_MIN: i64 = -2147483648i64;

/// The largest 32-bit Int.
pub const I32_MAX: i64 = 2147483647i64;

/// `v` clamped to the range of `i64`, as saturating arithmetic yields.
pub open spec fn clamp64(v: int) -> int {
    if v < i64::MIN {
        i64::MIN as int
    } else if v > i64::MAX {
        i64::MAX as int
    } else {
        v
    }
}

/// `v` lies in the interval.
pub open spec fn contains(i: IntInterval, v: int) -> bool {
    i.min <= v && v <= i.max
}

impl IntInterval {
    /// The range of 32-bit Int.
    pub fn i32_range() -> (r: IntInterval)
        ensures
            r.min == I32_MIN,
            r.max == I32_MAX,
    {
        IntInterval { min: I32_MIN, max: I32_MAX }
    }

    /// The interval holding exactly `value`.
    pub fn exact(value: i32) -> (r: IntInterval)
        ensures
            r.min == value,
            r.max == value,
    {
        IntInterval { min: value as i64, max: value as i64 }
    }

    /// True when zero lies outside the interval.
    pub fn excludes_zero(self) -> (r: bool)
        ensures
            r == (self.max < 0 || self.min > 0),
    {
        self.max < 0 || self.min > 0
    }

    /// True when every value of the interval is a 32-bit Int.
    pub fn fits_i32(self) -> (r: bool)
        ensures
            r == (self.min >= I32_MIN && self.max <= I32_MAX),
    {
        self.min >= I32_MIN && self.max <= I32_MAX
    }
}

/// Saturating `i64` addition.
pub fn sat_add(a: i64, b: i64) -> (r: i64)
    ensures
        r == clamp64(a + b),
{
    let s = a as i128 + b as i128;
    if s > i64::MAX as i128 {
        i64::MAX
    } else if s < i64::MIN as i128 {
        i64::MIN
    } else {
        s as i64
    }
}

/// Saturating `i64` subtraction.
pub fn sat_sub(a: i64, b: i64) -> (r: i64)
    ensures
        r == clamp64(a - b),
{
    let s = a as i128 - b as i128;
    if s > i64::MAX as i128 {
        i64::MAX
    } else if s < i64::MIN as i128 {
        i64::MIN
    } else {
        s as i64
    }
}

/// Saturating `i64` multiplication.
pub fn sat_mul(a: i64, b: i64) -> (r: i64)
    ensures
        r == clamp64(a * b),
{
    assert(-0x8000_0000_0000_0000 * 0x8000_0000_0000_0000 <= a * b <= 0x8000_0000_0000_0000
        * 0x8000_0000_0000_0000) by (nonlinear_arith)
        requires
            -0x8000_0000_0000_0000 <= a <= 0x7fff_ffff_ffff_ffff,
            -0x8000_0000_0000_0000 <= b <= 0x7fff_ffff_ffff_ffff,
    ;
    let s = a as i128 * b as i128;
    if s > i64::MAX as i128 {
        i64::MAX
    } else if s < i64::MIN as i128 {
        i64::MIN
    } else {
        s as i64
    }
}

proof fn lemma_clamp_monotone(a: int, b: int)
    requires
        a <= b,
    ensures
        clamp64(a) <= clamp64(b),
        i64::MIN <= clamp64(a) <= i64::MAX,
        i64::MIN <= clamp64(b) <= i64::MAX,
        clamp64(a) as i64 as int == clamp64(a),
        clamp64(b) as i64 as int == clamp64(b),
{
}

/// A product of values from two intervals lies between the least and the
/// greatest product of their endpoints.
proof fn lemma_product_between_corners(x: int, y: int, a: int, b: int, c: int, d: int)
    requires
        a <= x <= b,
        c <= y <= d,
    ensures
        (a * c <= x * y || a * d <= x * y || b * c <= x * y || b * d <= x * y),
        (a * c >= x * y || a * d >= x * y || b * c >= x * y || b * d >= x * y),
        x * y >= min4(a * c, a * d, b * c, b * d),
        x * y <= max4(a * c, a * d, b * c, b * d),
{
    assert(x * y >= min4(a * c, a * d, b * c, b * d) && x * y <= max4(a * c, a * d, b * c, b * d))
        by (nonlinear_arith)
        requires
            a <= x <= b,
            c <= y <= d,
    {
        // x*y is bilinear, so it is bounded by the corner values
        assert((x - a) * (y - c) >= 0);
        assert((b - x) * (d - y) >= 0);
        assert((x - a) * (d - y) >= 0);
        assert((b - x) * (y - c) >= 0);
    }
}

pub open spec fn min4(p: int, q: int, r: int, s: int) -> int {
    let m1 = if p <= q {
        p
    } else {
        q
    };
    let m2 = if r <= s {
        r
    } else {
        s
    };
    if m1 <= m2 {
        m1
    } else {
        m2
    }
}

pub open spec fn max4(p: int, q: int, r: int, s: int) -> int {
    let m1 = if p >= q {
        p
    } else {
        q
    };
    let m2 = if r >= s {
        r
    } else {
        s
    };
    if m1 >= m2 {
        m1
    } else {
        m2
    }
}

fn min_of4(p: i64, q: i64, r: i64, s: i64) -> (m: i64)
    ensures
        m == min4(p as int, q as int, r as int, s as int),
{
    let m1 = if p <= q {
        p
    } else {
        q
    };
    let m2 = if r <= s {
        r
    } else {
        s
    };
    if m1 <= m2 {
        m1
    } else {
        m2
    }
}

fn max_of4(p: i64, q: i64, r: i64, s: i64) -> (m: i64)
    ensures
        m == max4(p as int, q as int, r as int, s as int),
{
    let m1 = if p >= q {
        p
    } else {
        q
    };
    let m2 = if r >= s {
        r
    } else {
        s
    };
    if m1 >= m2 {
        m1
    } else {
        m2
    }
}

/// The interval of `x op y` for `x` in `left`, `y` in `right`, with each
/// endpoint computed by saturating `i64` arithmetic.  `op` is `+`, `-` or
/// `*`; any other operator has no interval.
pub open spec fn arithmetic_interval_spec(op: Seq<char>, left: IntInterval, right: IntInterval) -> Option<
    IntInterval,
> {
    if op == "+"@ {
        Some(
            IntInterval {
                min: clamp64(left.min + right.min) as i64,
                max: clamp64(left.max + right.max) as i64,
            },
        )
    } else if op == "-"@ {
        Some(
            IntInterval {
                min: clamp64(left.min - right.max) as i64,
                max: clamp64(left.max - right.min) as i64,
            },
        )
    } else if op == "*"@ {
        Some(
            IntInterval {
                min: min4(
                    clamp64(left.min * right.min),
                    clamp64(left.min * right.max),
                    clamp64(left.max * right.min),
                    clamp64(left.max * right.max),
                ) as i64,
                max: max4(
                    clamp64(left.min * right.min),
                    clamp64(left.min * right.max),
                    clamp64(left.max * right.min),
                    clamp64(left.max * right.max),
                ) as i64,
            },
        )
    } else {
        None
    }
}

/// Interval arithmetic for `+`, `-` and `*`.
pub fn integer_arithmetic_interval(op: &Vec<char>, left: IntInterval, right: IntInterval) -> (r:
    Option<IntInterval>)
    ensures
        r == arithmetic_interval_spec(op@, left, right),
{
    if text_is(op, "+") {
        Some(IntInterval { min: sat_add(left.min, right.min), max: sat_add(left.max, right.max) })
    } else if text_is(op, "-") {
        Some(IntInterval { min: sat_sub(left.min, right.max), max: sat_sub(left.max, right.min) })
    } else if text_is(op, "*") {
        let a = sat_mul(left.min, right.min);
        let b = sat_mul(left.min, right.max);
        let c = sat_mul(left.max, right.min);
        let d = sat_mul(left.max, right.max);
        Some(IntInterval { min: min_of4(a, b, c, d), max: max_of4(a, b, c, d) })
    } else {
        None
    }
}

/// Soundness of interval addition: for every `x` in `left` and `y` in
/// `right`, the saturated sum lies in the computed interval.
pub proof fn lemma_addition_interval_sound(left: IntInterval, right: IntInterval, x: int, y: int)
    requires
        contains(left, x),
        contains(right, y),
    ensures
        contains(arithmetic_interval_spec("+"@, left, right)->0, clamp64(x + y)),
{
    reveal_strlit("+");
    lemma_clamp_monotone(left.min + right.min, x + y);
    lemma_clamp_monotone(x + y, left.max + right.max);
}

/// Soundness of interval subtraction: for every `x` in `left` and `y` in
/// `right`, the saturated difference lies in the computed interval.
pub proof fn lemma_subtraction_interval_sound(left: IntInterval, right: IntInterval, x: int, y: int)
    requires
        contains(left, x),
        contains(right, y),
    ensures
        contains(arithmetic_interval_spec("-"@, left, right)->0, clamp64(x - y)),
{
    reveal_strlit("+");
    reveal_strlit("-");
    assert("-"@ != "+"@) by {
        assert("-"@[0] != "+"@[0]);
    }
    lemma_clamp_monotone(left.min - right.max, x - y);
    lemma_clamp_monotone(x - y, left.max - right.min);
}

/// Soundness of interval multiplication: for every `x` in `left` and `y`
/// in `right`, the saturated product lies in the computed interval.
pub proof fn lemma_multiplication_interval_sound(
    left: IntInterval,
    right: IntInterval,
    x: int,
    y: int,
)
    requires
        contains(left, x),
        contains(right, y),
    ensures
        contains(arithmetic_interval_spec("*"@, left, right)->0, clamp64(x * y)),
{
    reveal_strlit("+");
    reveal_strlit("-");
    reveal_strlit("*");
    assert("*"@ != "+"@) by {
        assert("*"@[0] != "+"@[0]);
    }
    assert("*"@ != "-"@) by {
        assert("*"@[0] != "-"@[0]);
    }
    let (a, b, c, d) = (left.min as int, left.max as int, right.min as int, right.max as int);
    lemma_product_between_corners(x, y, a, b, c, d);
    let lo = min4(a * c, a * d, b * c, b * d);
    let hi = max4(a * c, a * d, b * c, b * d);
    lemma_clamp_monotone(lo, x * y);
    lemma_clamp_monotone(x * y, hi);
    lemma_clamp_monotone(a * c, a * c);
    lemma_clamp_monotone(a * d, a * d);
    lemma_clamp_monotone(b * c, b * c);
    lemma_clamp_monotone(b * d, b * d);
    lemma_min4_clamp(a * c, a * d, b * c, b * d);
}

/// Clamping commutes with taking the least and the greatest of four values.
proof fn lemma_min4_clamp(p: int, q: int, r: int, s: int)
    ensures
        min4(clamp64(p), clamp64(q), clamp64(r), clamp64(s)) == clamp64(min4(p, q, r, s)),
        max4(clamp64(p), clamp64(q), clamp64(r), clamp64(s)) == clamp64(max4(p, q, r, s)),
{
    lemma_clamp_monotone_both(p, q);
    lemma_clamp_monotone_both(r, s);
    lemma_clamp_monotone_both(min4(p, q, p, q), min4(r, s, r, s));
    lemma_clamp_monotone_both(max4(p, q, p, q), max4(r, s, r, s));
}

proof fn lemma_clamp_monotone_both(a: int, b: int)
    ensures
        a <= b ==> clamp64(a) <= clamp64(b),
        b <= a ==> clamp64(b) <= clamp64(a),
{
}

/// When no endpoint computation saturates, interval addition is exact at
/// the endpoints: the result is the set of all sums.
pub proof fn lemma_addition_interval_exact(left: IntInterval, right: IntInterval)
    requires
        left.min <= left.max,
        right.min <= right.max,
        i64::MIN <= left.min + right.min,
        left.max + right.max <= i64::MAX,
    ensures
        arithmetic_interval_spec("+"@, left, right) == Some(
            IntInterval {
                min: (left.min + right.min) as i64,
                max: (left.max + right.max) as i64,
            },
        ),
{
}

/// The least interval holding both arguments (the range part of a join).
pub fn hull(a: IntInterval, b: IntInterval) -> (r: IntInterval)
    ensures
        r.min == if a.min <= b.min {
            a.min
        } else {
            b.min
        },
        r.max == if a.max >= b.max {
            a.max
        } else {
            b.max
        },
{
    IntInterval {
        min: if a.min <= b.min {
            a.min
        } else {
            b.min
        },
        max: if a.max >= b.max {
            a.max
        } else {
            b.max
        },
    }
}

/// Every value of either interval lies in their hull.
pub proof fn lemma_hull_covers(a: IntInterval, b: IntInterval, v: int)
    requires
        contains(a, v) || contains(b, v),
    ensures
        contains(
            IntInterval {
                min: if a.min <= b.min {
                    a.min
                } else {
                    b.min
                },
                max: if a.max >= b.max {
                    a.max
                } else {
                    b.max
                },
            },
            v,
        ),
{
}

/// The interval of both constraints together.
pub fn meet(a: IntInterval, b: IntInterval) -> (r: IntInterval)
    ensures
        forall|v: int| contains(r, v) <==> (contains(a, v) && contains(b, v)),
{
    IntInterval {
        min: if a.min >= b.min {
            a.min
        } else {
            b.min
        },
        max: if a.max <= b.max {
            a.max
        } else {
            b.max
        },
    }
}

} // verus!
