//! Fixed-point real numbers.
//!
//! A [`Fixed`] is a signed count of units of 2^-32: the number it stands for
//! is `raw / 2^32`. Every operation is total. A result that would leave the
//! representable range is clamped to the nearest end of it, and the two ends,
//! `MAX_RAW` and `-MAX_RAW`, play the part of plus and minus infinity. Products
//! and quotients are rounded toward zero, so that negation commutes with all
//! arithmetic.
//!
//! A product of two numbers below 2^-16 in magnitude rounds to zero. What
//! must not lose short vectors is therefore computed from exact wide sums
//! and rounded once: see [`Fixed::hypot`].

use vstd::prelude::*;
use std::ops::Add;
use std::ops::Sub;
use std::ops::Mul;
use std::ops::Div;
use std::ops::Neg;

verus! {

/// The raw count of the number one.
pub const ONE_RAW: i64 = 0x1_0000_0000;

/// The largest raw magnitude. It stands for "beyond every finite value".
pub const MAX_RAW: i64 = 0x7fff_ffff_ffff_ffff;

/// A raw count clamped to the representable range.
pub open spec fn saturate(x: int) -> int {
    if x > MAX_RAW {
        MAX_RAW as int
    } else if x < -MAX_RAW {
        -(MAX_RAW as int)
    } else {
        x
    }
}

/// The magnitude of an integer.
pub open spec fn magnitude(x: int) -> int {
    if x < 0 {
        -x
    } else {
        x
    }
}

/// The quotient of `n` by a nonzero `d`, rounded toward zero.
pub open spec fn quot(n: int, d: int) -> int {
    if d > 0 {
        if n >= 0 {
            n / d
        } else {
            -((-n) / d)
        }
    } else {
        if n >= 0 {
            -(n / (-d))
        } else {
            (-n) / (-d)
        }
    }
}

/// A count of units of 2^-64 as a count of units of 2^-32, rounded toward
/// zero.
pub open spec fn narrow(p: int) -> int {
    if p >= 0 {
        p / 0x1_0000_0000
    } else {
        -((-p) / 0x1_0000_0000)
    }
}

/// The raw count of the product of two numbers given by their raw counts,
/// before clamping.
pub open spec fn mul_raw(a: int, b: int) -> int {
    narrow(a * b)
}

/// The raw count of the quotient of two numbers given by their raw counts,
/// the second not zero, before clamping.
pub open spec fn div_raw(a: int, b: int) -> int {
    quot(a * 0x1_0000_0000, b)
}

/// `r` is the square root of `n`, rounded down.
pub open spec fn is_floor_sqrt(n: int, r: int) -> bool {
    0 <= r && r * r <= n && n < (r + 1) * (r + 1)
}

/// The square root of a natural number, rounded down.
pub open spec fn floor_sqrt(n: int) -> int {
    choose|r: int| is_floor_sqrt(n, r)
}

/// A number with 32 fractional bits, held as a count of units of 2^-32.
#[derive(Clone, Copy, Debug)]
pub struct Fixed {
    pub raw: i64,
}

impl Fixed {
    /// The raw count lies in the symmetric range, so that negation is exact.
    pub open spec fn wf(self) -> bool {
        -MAX_RAW <= self.raw
    }

    /// The number that a raw count gives after clamping.
    pub open spec fn of(x: int) -> Fixed {
        Fixed { raw: saturate(x) as i64 }
    }

    /// The number zero.
    pub open spec fn zero_spec() -> Fixed {
        Fixed { raw: 0 }
    }

    /// The number one.
    pub open spec fn one_spec() -> Fixed {
        Fixed { raw: ONE_RAW }
    }

    /// The upper end of the range, which no distance reaches.
    pub open spec fn infinity_spec() -> Fixed {
        Fixed { raw: MAX_RAW }
    }

    /// The whole number `n`, clamped.
    pub open spec fn from_int_spec(n: int) -> Fixed {
        Fixed::of(n * ONE_RAW)
    }

    /// The whole number `num` divided by the whole number `den`.
    pub open spec fn ratio_spec(num: int, den: int) -> Fixed {
        Fixed::from_int_spec(num).over(Fixed::from_int_spec(den))
    }

    /// The sum, clamped.
    pub open spec fn plus(self, rhs: Fixed) -> Fixed {
        Fixed::of(self.raw + rhs.raw)
    }

    /// The difference, clamped.
    pub open spec fn minus(self, rhs: Fixed) -> Fixed {
        Fixed::of(self.raw - rhs.raw)
    }

    /// The opposite number, clamped.
    pub open spec fn negate(self) -> Fixed {
        Fixed::of(-self.raw)
    }

    /// The product, rounded toward zero and clamped.
    pub open spec fn times(self, rhs: Fixed) -> Fixed {
        Fixed::of(mul_raw(self.raw as int, rhs.raw as int))
    }

    /// The quotient, rounded toward zero and clamped. A nonzero number
    /// divided by zero gives the end of the range on its own side, and zero
    /// divided by zero gives zero.
    pub open spec fn over(self, rhs: Fixed) -> Fixed {
        if rhs.raw != 0 {
            Fixed::of(div_raw(self.raw as int, rhs.raw as int))
        } else if self.raw > 0 {
            Fixed { raw: MAX_RAW }
        } else if self.raw < 0 {
            Fixed { raw: (-MAX_RAW) as i64 }
        } else {
            Fixed { raw: 0 }
        }
    }

    /// The magnitude, clamped.
    pub open spec fn abs_spec(self) -> Fixed {
        Fixed::of(magnitude(self.raw as int))
    }

    /// The smaller of two numbers.
    pub open spec fn min_spec(self, other: Fixed) -> Fixed {
        if other.raw < self.raw {
            other
        } else {
            self
        }
    }

    /// The square root, rounded down to a multiple of 2^-32; zero for a
    /// number that is not positive.
    pub open spec fn sqrt_spec(self) -> Fixed {
        if self.raw <= 0 {
            Fixed { raw: 0 }
        } else {
            Fixed { raw: floor_sqrt(self.raw * ONE_RAW) as i64 }
        }
    }

    /// The length of the vector with coordinates `a`, `b` and `c`: the
    /// square root of the exact sum of the three squares, rounded down once
    /// and clamped.
    pub open spec fn hypot_spec(a: Fixed, b: Fixed, c: Fixed) -> Fixed {
        Fixed::of(floor_sqrt(a.raw * a.raw + b.raw * b.raw + c.raw * c.raw))
    }

    /// The `n`-th power by repeated multiplication from the left.
    pub open spec fn powi_spec(self, n: nat) -> Fixed
        decreases n,
    {
        if n == 0 {
            Fixed::one_spec()
        } else {
            self.powi_spec((n - 1) as nat).times(self)
        }
    }

    pub fn zero() -> (r: Fixed)
        ensures
            r == Fixed::zero_spec(),
    {
        Fixed { raw: 0 }
    }

    pub fn one() -> (r: Fixed)
        ensures
            r == Fixed::one_spec(),
    {
        Fixed { raw: ONE_RAW }
    }

    pub fn infinity() -> (r: Fixed)
        ensures
            r == Fixed::infinity_spec(),
    {
        Fixed { raw: MAX_RAW }
    }

    pub fn from_int(n: i64) -> (r: Fixed)
        ensures
            r == Fixed::from_int_spec(n as int),
    {
        let wide: i128 = scale_up(n);
        Fixed { raw: clamp(wide) }
    }

    /// The whole number `n`, for a count or a length.
    pub fn from_usize(n: usize) -> (r: Fixed)
        ensures
            r == Fixed::from_int_spec(n as int),
    {
        if n >= 0x8000_0000 {
            Fixed { raw: MAX_RAW }
        } else {
            Fixed::from_int(n as i64)
        }
    }

    pub fn ratio(num: i64, den: i64) -> (r: Fixed)
        ensures
            r == Fixed::ratio_spec(num as int, den as int),
    {
        Fixed::from_int(num) / Fixed::from_int(den)
    }

    pub fn abs(self) -> (r: Fixed)
        ensures
            r == self.abs_spec(),
            r.raw >= 0,
    {
        if self.raw < 0 {
            Fixed { raw: clamp(-(self.raw as i128)) }
        } else {
            self
        }
    }

    pub fn min(self, other: Fixed) -> (r: Fixed)
        ensures
            r == self.min_spec(other),
    {
        if other.raw < self.raw {
            other
        } else {
            self
        }
    }

    pub fn sqrt(self) -> (r: Fixed)
        ensures
            r == self.sqrt_spec(),
            r.raw >= 0,
            self.raw > 0 ==> is_floor_sqrt(self.raw * ONE_RAW, r.raw as int),
    {
        if self.raw <= 0 {
            Fixed { raw: 0 }
        } else {
            let n: u128 = scale_up(self.raw) as u128;
            let root: u64 = int_sqrt(n);
            assert(root < 0x1_0000_0000_0000) by (nonlinear_arith)
                requires
                    root * root <= n,
                    n < 0x1_0000_0000_0000_0000_0000_0000,
            ;
            Fixed { raw: root as i64 }
        }
    }

    pub fn hypot(a: Fixed, b: Fixed, c: Fixed) -> (r: Fixed)
        ensures
            r == Fixed::hypot_spec(a, b, c),
    {
        let sum: u128 = square(a.raw) + square(b.raw) + square(c.raw);
        let root: u64 = int_sqrt(sum);
        if root > 0x7fff_ffff_ffff_ffff {
            Fixed { raw: MAX_RAW }
        } else {
            Fixed { raw: root as i64 }
        }
    }

    pub fn powi(self, n: u32) -> (r: Fixed)
        ensures
            r == self.powi_spec(n as nat),
    {
        let mut acc = Fixed::one();
        let mut i: u32 = 0;
        while i < n
            invariant
                i <= n,
                acc == self.powi_spec(i as nat),
            decreases n - i,
        {
            acc = acc * self;
            i = i + 1;
        }
        acc
    }
}

/// A raw count times 2^32.
fn scale_up(raw: i64) -> (wide: i128)
    ensures
        wide == raw * ONE_RAW,
{
    (raw as i128) * 0x1_0000_0000
}

/// The exact product of two raw counts.
pub fn product(a: Fixed, b: Fixed) -> (wide: i128)
    ensures
        wide == a.raw * b.raw,
        -0x4000_0000_0000_0000_0000_0000_0000_0000 <= wide
            <= 0x4000_0000_0000_0000_0000_0000_0000_0000,
{
    let x: i128 = a.raw as i128;
    let y: i128 = b.raw as i128;
    proof {
        lemma_product_bound(x as int, y as int);
    }
    x * y
}

/// The exact square of a raw count.
fn square(raw: i64) -> (wide: u128)
    ensures
        wide == raw * raw,
        wide <= 0x4000_0000_0000_0000_0000_0000_0000_0000,
{
    let x: i128 = raw as i128;
    proof {
        lemma_product_bound(x as int, x as int);
        assert(x * x >= 0) by (nonlinear_arith);
    }
    (x * x) as u128
}

/// Clamps a wide raw count to the representable range.
fn clamp(x: i128) -> (r: i64)
    ensures
        r == saturate(x as int),
{
    if x > MAX_RAW as i128 {
        MAX_RAW
    } else if x < -(MAX_RAW as i128) {
        -MAX_RAW
    } else {
        x as i64
    }
}

/// Divides and rounds toward zero.
fn trunc_div(n: i128, d: i128) -> (q: i128)
    requires
        d != 0,
        -0x8000_0000_0000_0000 <= d <= 0x7fff_ffff_ffff_ffff,
        -0x4000_0000_0000_0000_0000_0000_0000_0000 <= n <= 0x4000_0000_0000_0000_0000_0000_0000_0000,
    ensures
        q == quot(n as int, d as int),
{
    if n >= 0 {
        if d > 0 {
            n / d
        } else {
            -(n / (-d))
        }
    } else {
        if d > 0 {
            -((-n) / d)
        } else {
            (-n) / (-d)
        }
    }
}

/// Two integers that are both the rounded-down square root of `n` are equal.
pub proof fn lemma_floor_sqrt_unique(n: int, r1: int, r2: int)
    requires
        is_floor_sqrt(n, r1),
        is_floor_sqrt(n, r2),
    ensures
        r1 == r2,
{
    if r1 < r2 {
        assert((r1 + 1) * (r1 + 1) <= r2 * r2) by (nonlinear_arith)
            requires
                0 <= r1,
                r1 + 1 <= r2,
        ;
    } else if r2 < r1 {
        assert((r2 + 1) * (r2 + 1) <= r1 * r1) by (nonlinear_arith)
            requires
                0 <= r2,
                r2 + 1 <= r1,
        ;
    }
}

/// The square root of `n`, rounded down.
fn int_sqrt(n: u128) -> (r: u64)
    ensures
        r == floor_sqrt(n as int),
        is_floor_sqrt(n as int, r as int),
{
    let mut lo: u128 = 0;
    let mut hi: u128 = 0x1_0000_0000_0000_0000;
    assert(n < hi * hi) by (nonlinear_arith)
        requires
            n <= 0xffff_ffff_ffff_ffff_ffff_ffff_ffff_ffff,
            hi == 0x1_0000_0000_0000_0000,
    ;
    while hi - lo > 1
        invariant
            lo < hi,
            hi <= 0x1_0000_0000_0000_0000,
            lo * lo <= n,
            n < hi * hi,
        decreases hi - lo,
    {
        let mid: u128 = lo + (hi - lo) / 2;
        assert(mid * mid <= 0xffff_ffff_ffff_ffff * 0xffff_ffff_ffff_ffff) by (nonlinear_arith)
            requires
                0 <= mid <= 0xffff_ffff_ffff_ffff,
        ;
        if mid * mid <= n {
            lo = mid;
        } else {
            hi = mid;
        }
    }
    proof {
        assert(hi == lo + 1);
        assert(is_floor_sqrt(n as int, lo as int));
        lemma_floor_sqrt_unique(n as int, lo as int, floor_sqrt(n as int));
    }
    lo as u64
}

impl Add for Fixed {
    type Output = Fixed;

    fn add(self, rhs: Fixed) -> (r: Fixed) {
        Fixed { raw: clamp(self.raw as i128 + rhs.raw as i128) }
    }
}

impl vstd::std_specs::ops::AddSpecImpl for Fixed {
    open spec fn obeys_add_spec() -> bool {
        true
    }

    open spec fn add_req(self, rhs: Fixed) -> bool {
        true
    }

    open spec fn add_spec(self, rhs: Fixed) -> Fixed {
        self.plus(rhs)
    }
}

impl Sub for Fixed {
    type Output = Fixed;

    fn sub(self, rhs: Fixed) -> (r: Fixed) {
        Fixed { raw: clamp(self.raw as i128 - rhs.raw as i128) }
    }
}

impl vstd::std_specs::ops::SubSpecImpl for Fixed {
    open spec fn obeys_sub_spec() -> bool {
        true
    }

    open spec fn sub_req(self, rhs: Fixed) -> bool {
        true
    }

    open spec fn sub_spec(self, rhs: Fixed) -> Fixed {
        self.minus(rhs)
    }
}

impl Neg for Fixed {
    type Output = Fixed;

    fn neg(self) -> (r: Fixed) {
        Fixed { raw: clamp(-(self.raw as i128)) }
    }
}

impl vstd::std_specs::ops::NegSpecImpl for Fixed {
    open spec fn obeys_neg_spec() -> bool {
        true
    }

    open spec fn neg_req(self) -> bool {
        true
    }

    open spec fn neg_spec(self) -> Fixed {
        self.negate()
    }
}

impl Mul for Fixed {
    type Output = Fixed;

    fn mul(self, rhs: Fixed) -> (r: Fixed) {
        let a: i128 = self.raw as i128;
        let b: i128 = rhs.raw as i128;
        proof {
            lemma_product_bound(a as int, b as int);
        }
        let wide: i128 = a * b;
        assert(wide == self.raw * rhs.raw);
        let q: i128 = trunc_div(wide, ONE_RAW as i128);
        assert(q == mul_raw(self.raw as int, rhs.raw as int));
        Fixed { raw: clamp(q) }
    }
}

impl vstd::std_specs::ops::MulSpecImpl for Fixed {
    open spec fn obeys_mul_spec() -> bool {
        true
    }

    open spec fn mul_req(self, rhs: Fixed) -> bool {
        true
    }

    open spec fn mul_spec(self, rhs: Fixed) -> Fixed {
        self.times(rhs)
    }
}

impl Div for Fixed {
    type Output = Fixed;

    fn div(self, rhs: Fixed) -> (r: Fixed) {
        if rhs.raw == 0 {
            if self.raw > 0 {
                Fixed { raw: MAX_RAW }
            } else if self.raw < 0 {
                Fixed { raw: -MAX_RAW }
            } else {
                Fixed { raw: 0 }
            }
        } else {
            let wide: i128 = scale_up(self.raw);
            Fixed { raw: clamp(trunc_div(wide, rhs.raw as i128)) }
        }
    }
}

impl vstd::std_specs::ops::DivSpecImpl for Fixed {
    open spec fn obeys_div_spec() -> bool {
        true
    }

    open spec fn div_req(self, rhs: Fixed) -> bool {
        true
    }

    open spec fn div_spec(self, rhs: Fixed) -> Fixed {
        self.over(rhs)
    }
}

/// Clamping commutes with negation.
pub proof fn lemma_saturate_odd(x: int)
    ensures
        saturate(-x) == -saturate(x),
{
}

/// Rounding toward zero commutes with negation of the numerator.
pub proof fn lemma_quot_odd(n: int, d: int)
    requires
        d != 0,
    ensures
        quot(-n, d) == -quot(n, d),
{
    if n == 0 {
        assert(magnitude(0) / magnitude(d) == 0) by (nonlinear_arith)
            requires
                magnitude(d) > 0,
        ;
    }
}

/// Negating a factor negates the product, exactly.
pub proof fn lemma_times_negate(a: Fixed, b: Fixed)
    requires
        b.wf(),
    ensures
        a.times(b.negate()) == a.times(b).negate(),
        a.times(b).wf(),
{
    let p = a.raw * b.raw;
    assert(a.raw * (-b.raw) == -p) by (nonlinear_arith)
        requires
            p == a.raw * b.raw,
    ;
    lemma_quot_odd(p, ONE_RAW as int);
    lemma_saturate_odd(quot(p, ONE_RAW as int));
}

/// The sum of two opposites is the opposite of the sum, exactly.
pub proof fn lemma_plus_negate(a: Fixed, b: Fixed)
    requires
        a.wf(),
        b.wf(),
    ensures
        a.negate().plus(b.negate()) == a.plus(b).negate(),
        a.plus(b).wf(),
{
}

/// Every natural number has a rounded-down square root.
pub proof fn lemma_floor_sqrt_exists(n: int) -> (r: int)
    requires
        0 <= n,
    ensures
        is_floor_sqrt(n, r),
        r == floor_sqrt(n),
    decreases n,
{
    if n == 0 {
        assert(is_floor_sqrt(0, 0));
        lemma_floor_sqrt_unique(n, 0, floor_sqrt(n));
        0
    } else {
        let below = lemma_floor_sqrt_exists(n - 1);
        let next = below + 1;
        assert(n - 1 < next * next);
        if next * next <= n {
            assert((next + 1) * (next + 1) > next * next) by (nonlinear_arith)
                requires
                    0 <= next,
            ;
            assert(is_floor_sqrt(n, next));
            lemma_floor_sqrt_unique(n, next, floor_sqrt(n));
            next
        } else {
            assert(is_floor_sqrt(n, below));
            lemma_floor_sqrt_unique(n, below, floor_sqrt(n));
            below
        }
    }
}

/// A square root is not negative, and its raw count is the rounded-down
/// square root of the radicand's raw count times 2^32.
pub proof fn lemma_sqrt_spec(x: Fixed)
    ensures
        x.sqrt_spec().raw >= 0,
        x.raw > 0 ==> is_floor_sqrt(x.raw * ONE_RAW, x.sqrt_spec().raw as int),
{
    if x.raw > 0 {
        let n = x.raw * ONE_RAW;
        let r = lemma_floor_sqrt_exists(n);
        if r >= 0x1_0000_0000_0000 {
            assert(r * r >= 0x1_0000_0000_0000 * 0x1_0000_0000_0000) by (nonlinear_arith)
                requires
                    r >= 0x1_0000_0000_0000,
            ;
        }
    }
}

/// The length of a vector is not negative, is zero only for the zero
/// vector, and is not below the magnitude of any coordinate, unless it was
/// clamped.
pub proof fn lemma_hypot(a: Fixed, b: Fixed, c: Fixed)
    ensures
        Fixed::hypot_spec(a, b, c).raw >= 0,
        Fixed::hypot_spec(a, b, c).raw == 0 <==> (a.raw == 0 && b.raw == 0 && c.raw == 0),
        Fixed::hypot_spec(a, b, c).raw == MAX_RAW || (magnitude(a.raw as int) <= Fixed::hypot_spec(
            a,
            b,
            c,
        ).raw && magnitude(b.raw as int) <= Fixed::hypot_spec(a, b, c).raw && magnitude(
            c.raw as int,
        ) <= Fixed::hypot_spec(a, b, c).raw),
        Fixed::hypot_spec(a, b, c).raw < MAX_RAW ==> is_floor_sqrt(
            a.raw * a.raw + b.raw * b.raw + c.raw * c.raw,
            Fixed::hypot_spec(a, b, c).raw as int,
        ),
{
    let aa = a.raw * a.raw;
    let bb = b.raw * b.raw;
    let cc = c.raw * c.raw;
    assert(aa >= 0 && bb >= 0 && cc >= 0) by (nonlinear_arith)
        requires
            aa == a.raw * a.raw,
            bb == b.raw * b.raw,
            cc == c.raw * c.raw,
    ;
    let n = aa + bb + cc;
    let r = lemma_floor_sqrt_exists(n);
    lemma_root_covers(aa, a.raw as int, n, r);
    lemma_root_covers(bb, b.raw as int, n, r);
    lemma_root_covers(cc, c.raw as int, n, r);
    if r == 0 {
        assert((r + 1) * (r + 1) == 1) by (nonlinear_arith)
            requires
                r == 0,
        ;
        assert(a.raw == 0) by (nonlinear_arith)
            requires
                aa == a.raw * a.raw,
                aa < 1,
        ;
        assert(b.raw == 0) by (nonlinear_arith)
            requires
                bb == b.raw * b.raw,
                bb < 1,
        ;
        assert(c.raw == 0) by (nonlinear_arith)
            requires
                cc == c.raw * c.raw,
                cc < 1,
        ;
    }
    if a.raw == 0 && b.raw == 0 && c.raw == 0 {
        assert(aa == 0 && bb == 0 && cc == 0) by (nonlinear_arith)
            requires
                aa == a.raw * a.raw,
                bb == b.raw * b.raw,
                cc == c.raw * c.raw,
                a.raw == 0,
                b.raw == 0,
                c.raw == 0,
        ;
        assert(is_floor_sqrt(0, 0));
        lemma_floor_sqrt_unique(n, r, 0);
    }
}

/// The rounded-down square root of a sum is not below the magnitude of a
/// number whose square is a term of the sum.
proof fn lemma_root_covers(xx: int, x: int, n: int, r: int)
    requires
        xx == x * x,
        xx <= n,
        is_floor_sqrt(n, r),
    ensures
        magnitude(x) <= r,
{
    let m = magnitude(x);
    if m > r {
        assert(m * m >= (r + 1) * (r + 1)) by (nonlinear_arith)
            requires
                m >= r + 1,
                r >= 0,
        ;
        assert(m * m == x * x) by (nonlinear_arith)
            requires
                m == x || m == -x,
        ;
    }
}

/// A quotient rounded toward zero is as small as its dividend allows.
pub proof fn lemma_quot_bound(n: int, d: int, q: int)
    requires
        d > 0,
        q >= 0,
        -(d * (q + 1)) < n < d * (q + 1),
    ensures
        -q <= quot(n, d) <= q,
{
    let m = magnitude(n);
    vstd::arithmetic::div_mod::lemma_fundamental_div_mod(m, d);
    vstd::arithmetic::div_mod::lemma_mod_bound(m, d);
    let k = m / d;
    assert(k <= q) by (nonlinear_arith)
        requires
            m == d * k + m % d,
            0 <= m % d,
            m < d * (q + 1),
            d > 0,
    ;
    assert(k >= 0) by (nonlinear_arith)
        requires
            m == d * k + m % d,
            m % d < d,
            m >= 0,
            d > 0,
    ;
}

/// A coordinate divided by the length of its vector lies between minus one
/// and one.
pub proof fn lemma_over_hypot(x: Fixed, a: Fixed, b: Fixed, c: Fixed)
    requires
        x == a || x == b || x == c,
    ensures
        -ONE_RAW <= x.over(Fixed::hypot_spec(a, b, c)).raw <= ONE_RAW,
{
    let len = Fixed::hypot_spec(a, b, c);
    lemma_hypot(a, b, c);
    if len.raw > 0 {
        let s = 0x1_0000_0000int;
        let n = x.raw * s;
        assert(-(len.raw * (s + 1)) < n < len.raw * (s + 1)) by (nonlinear_arith)
            requires
                n == x.raw * s,
                s == 0x1_0000_0000,
                len.raw > 0,
                (-len.raw <= x.raw <= len.raw) || (len.raw == 0x7fff_ffff_ffff_ffff
                    && -0x8000_0000_0000_0000 <= x.raw <= 0x7fff_ffff_ffff_ffff),
        ;
        lemma_quot_bound(n, len.raw as int, s);
    }
}

/// A square is not negative.
pub proof fn lemma_times_self_nonneg(x: Fixed)
    ensures
        x.times(x).raw >= 0,
{
    assert(x.raw * x.raw >= 0) by (nonlinear_arith);
    let p = x.raw * x.raw;
    assert(p / (ONE_RAW as int) >= 0) by (nonlinear_arith)
        requires
            p >= 0,
    ;
}

/// Division by a number that is not negative keeps the order of the
/// dividends.
pub proof fn lemma_over_monotone(a: Fixed, b: Fixed, d: Fixed)
    requires
        a.raw <= b.raw,
        d.raw >= 0,
    ensures
        a.over(d).raw <= b.over(d).raw,
{
    if d.raw > 0 {
        let m1 = a.raw * ONE_RAW;
        let m2 = b.raw * ONE_RAW;
        let z = d.raw as int;
        if m1 >= 0 {
            vstd::arithmetic::div_mod::lemma_div_is_ordered(m1, m2, z);
        } else if m2 < 0 {
            vstd::arithmetic::div_mod::lemma_div_is_ordered(-m2, -m1, z);
        } else {
            vstd::arithmetic::div_mod::lemma_div_is_ordered(0, -m1, z);
            vstd::arithmetic::div_mod::lemma_div_is_ordered(0, m2, z);
        }
    }
}

/// The order of the factors does not matter.
pub proof fn lemma_times_commutes(a: Fixed, b: Fixed)
    ensures
        a.times(b) == b.times(a),
{
    assert(a.raw * b.raw == b.raw * a.raw) by (nonlinear_arith);
}

/// Multiplying by zero gives zero.
pub proof fn lemma_times_zero(a: Fixed)
    ensures
        a.times(Fixed::zero_spec()) == Fixed::zero_spec(),
{
    assert(a.raw * 0 == 0) by (nonlinear_arith);
}

/// Adding zero changes nothing.
pub proof fn lemma_plus_zero(a: Fixed)
    requires
        a.wf(),
    ensures
        a.plus(Fixed::zero_spec()) == a,
{
}

/// A number that is not negative, multiplied by a factor between zero and
/// one, stays not negative and does not grow.
pub proof fn lemma_times_fraction(k: Fixed, x: Fixed)
    requires
        0 <= k.raw <= ONE_RAW,
        0 <= x.raw,
    ensures
        0 <= k.times(x).raw <= x.raw,
{
    let p = k.raw * x.raw;
    let whole = x.raw * ONE_RAW;
    assert(0 <= p <= whole) by (nonlinear_arith)
        requires
            p == k.raw * x.raw,
            whole == x.raw * ONE_RAW,
            0 <= k.raw <= ONE_RAW,
            0 <= x.raw,
    ;
    vstd::arithmetic::div_mod::lemma_div_is_ordered(0, p, ONE_RAW as int);
    vstd::arithmetic::div_mod::lemma_div_is_ordered(p, whole, ONE_RAW as int);
    vstd::arithmetic::div_mod::lemma_div_multiples_vanish(x.raw as int, ONE_RAW as int);
}

/// The product of two 64-bit counts fits in 128 bits with room to spare.
proof fn lemma_product_bound(a: int, b: int)
    requires
        -0x8000_0000_0000_0000 <= a <= 0x7fff_ffff_ffff_ffff,
        -0x8000_0000_0000_0000 <= b <= 0x7fff_ffff_ffff_ffff,
    ensures
        -0x4000_0000_0000_0000_0000_0000_0000_0000 <= a * b <= 0x4000_0000_0000_0000_0000_0000_0000_0000,
{
    assert(-0x4000_0000_0000_0000_0000_0000_0000_0000 <= a * b <= 0x4000_0000_0000_0000_0000_0000_0000_0000) by (nonlinear_arith)
        requires
            -0x8000_0000_0000_0000 <= a <= 0x7fff_ffff_ffff_ffff,
            -0x8000_0000_0000_0000 <= b <= 0x7fff_ffff_ffff_ffff,
    ;
}

} // verus!
