//! Numbers in the IEEE 754 binary64 format, as bit patterns, with arithmetic
//! that is rounded correctly: to the nearest number, and to the even one where
//! two are equally near.

use vstd::arithmetic::power2;
use vstd::prelude::*;

verus! {

/// A number in the binary64 format.
#[derive(Clone, Copy, Debug, Default, PartialEq, Eq, Structural)]
pub struct Binary64 {
    /// Sign (one bit), exponent (eleven bits) and fraction (fifty-two bits).
    pub bits: u64,
}

/// The lowest bit of the exponent field, and the leading bit that a fraction
/// implies.
pub const LEADING: u64 = 0x0010_0000_0000_0000;

/// The sign bit.
pub const SIGN: u64 = 0x8000_0000_0000_0000;

/// The pattern of infinity, which ends the patterns of numbers.
pub const INFINITE: u64 = 0x7ff0_0000_0000_0000;

/// The pattern that stands for every result that is no number.
pub const NOT_A_NUMBER: u64 = 0x7ff8_0000_0000_0000;

// ---------------------------------------------------------------------------
// Meaning
// ---------------------------------------------------------------------------

/// The absolute value that a pattern without its sign stands for, in units of
/// the smallest positive number (two to the power of minus 1074).
///
/// For infinity this is the value that the next number would have if the
/// exponent went on, which is how rounding treats it.
pub open spec fn magnitude(pattern: int) -> int {
    let exponent = pattern / 0x0010_0000_0000_0000;
    let fraction = pattern % 0x0010_0000_0000_0000;
    if exponent <= 0 {
        fraction
    } else {
        (0x0010_0000_0000_0000 + fraction) * power2::pow2((exponent - 1) as nat)
    }
}

/// The number of units in one: two to the power of 1074.
pub open spec fn unit() -> int {
    power2::pow2(1074) as int
}

/// `pattern` is the largest whose value is not above `num / den` units.
pub open spec fn is_floor(pattern: int, num: int, den: int) -> bool {
    &&& 0 <= pattern <= INFINITE
    &&& magnitude(pattern) * den <= num
    &&& pattern < INFINITE ==> num < magnitude(pattern + 1) * den
}

/// The largest pattern whose value is not above `num / den` units.
pub open spec fn floor_pattern(num: int, den: int) -> int {
    choose|pattern: int| is_floor(pattern, num, den)
}

/// The pattern nearest to `num / den` units; of two that are equally near, the
/// even one.
pub open spec fn nearest(num: int, den: int) -> int {
    let below = floor_pattern(num, den);
    if below == INFINITE {
        below
    } else {
        let middle = (magnitude(below) + magnitude(below + 1)) * den;
        if 2 * num < middle || (2 * num == middle && below % 2 == 0) {
            below
        } else {
            below + 1
        }
    }
}

impl Binary64 {
    /// Whether the sign bit is set.
    pub open spec fn negative(self) -> bool {
        self.bits >= SIGN
    }

    /// The bits without the sign.
    pub open spec fn pattern(self) -> int {
        if self.negative() {
            self.bits - SIGN
        } else {
            self.bits as int
        }
    }

    /// Whether this is no number.
    pub open spec fn nan(self) -> bool {
        self.pattern() > INFINITE
    }

    /// Whether this is infinite.
    pub open spec fn infinite(self) -> bool {
        self.pattern() == INFINITE
    }

    /// Whether this is a finite number.
    pub open spec fn finite(self) -> bool {
        self.pattern() < INFINITE
    }

    /// The value in units of two to the power of minus 1074. Infinities are
    /// beyond all finite values.
    pub open spec fn value(self) -> int {
        if self.negative() {
            -magnitude(self.pattern())
        } else {
            magnitude(self.pattern())
        }
    }

    /// Whether both are numbers and `self` is the smaller.
    pub open spec fn below(self, other: Binary64) -> bool {
        !self.nan() && !other.nan() && self.value() < other.value()
    }

    /// Whether both are numbers and `self` is not the greater.
    pub open spec fn not_above(self, other: Binary64) -> bool {
        !self.nan() && !other.nan() && self.value() <= other.value()
    }
}

/// The number with the given sign and pattern.
pub open spec fn signed(negative: bool, pattern: int) -> Binary64 {
    Binary64 {
        bits: if negative {
            (pattern + SIGN) as u64
        } else {
            pattern as u64
        },
    }
}

/// Zero.
pub open spec fn naught() -> Binary64 {
    Binary64 { bits: 0 }
}

/// The result that is no number.
pub open spec fn no_number() -> Binary64 {
    Binary64 { bits: NOT_A_NUMBER }
}

/// The sum: the exact sum, rounded. Opposite infinities have none. A sum of
/// zero is negative only where both parts are.
pub open spec fn sum(a: Binary64, b: Binary64) -> Binary64 {
    if a.nan() || b.nan() {
        no_number()
    } else if a.infinite() {
        if b.infinite() && a.negative() != b.negative() {
            no_number()
        } else {
            a
        }
    } else if b.infinite() {
        b
    } else {
        let exact = a.value() + b.value();
        if exact == 0 {
            signed(a.negative() && b.negative(), 0)
        } else if exact < 0 {
            signed(true, nearest(-exact, 1))
        } else {
            signed(false, nearest(exact, 1))
        }
    }
}

/// The number with the other sign.
pub open spec fn negated(a: Binary64) -> Binary64 {
    signed(!a.negative(), a.pattern())
}

/// The difference.
pub open spec fn difference(a: Binary64, b: Binary64) -> Binary64 {
    sum(a, negated(b))
}

/// The product: the exact product, rounded. Zero times infinity has none.
pub open spec fn product(a: Binary64, b: Binary64) -> Binary64 {
    let negative = a.negative() != b.negative();
    if a.nan() || b.nan() {
        no_number()
    } else if a.infinite() || b.infinite() {
        if a.pattern() == 0 || b.pattern() == 0 {
            no_number()
        } else {
            signed(negative, INFINITE as int)
        }
    } else {
        signed(negative, nearest(magnitude(a.pattern()) * magnitude(b.pattern()), unit()))
    }
}

/// The quotient: the exact quotient, rounded. Zero by zero and infinity by
/// infinity have none.
pub open spec fn quotient(a: Binary64, b: Binary64) -> Binary64 {
    let negative = a.negative() != b.negative();
    if a.nan() || b.nan() {
        no_number()
    } else if a.infinite() {
        if b.infinite() {
            no_number()
        } else {
            signed(negative, INFINITE as int)
        }
    } else if b.infinite() {
        signed(negative, 0)
    } else if b.pattern() == 0 {
        if a.pattern() == 0 {
            no_number()
        } else {
            signed(negative, INFINITE as int)
        }
    } else {
        signed(negative, nearest(magnitude(a.pattern()) * unit(), magnitude(b.pattern())))
    }
}

// ---------------------------------------------------------------------------
// Patterns and values
// ---------------------------------------------------------------------------

/// A significand of at most 53 bits with its exponent is a pattern: the two
/// fields side by side.
proof fn lemma_compose(significand: int, exponent: int)
    requires
        0 <= exponent,
        0 <= significand <= 0x0020_0000_0000_0000,
        significand >= 0x0010_0000_0000_0000 || exponent == 0,
    ensures
        magnitude(exponent * 0x0010_0000_0000_0000 + significand) == significand * power2::pow2(
            exponent as nat,
        ),
{
    let pattern = exponent * 0x0010_0000_0000_0000 + significand;
    power2::lemma2_to64();
    if significand < 0x0010_0000_0000_0000 {
        assert(significand * 1 == significand);
    } else if significand < 0x0020_0000_0000_0000 {
        assert(pattern / 0x0010_0000_0000_0000 == exponent + 1);
        assert(pattern % 0x0010_0000_0000_0000 == significand - 0x0010_0000_0000_0000);
    } else {
        assert(pattern / 0x0010_0000_0000_0000 == exponent + 2);
        assert(pattern % 0x0010_0000_0000_0000 == 0);
        power2::lemma_pow2_unfold((exponent + 1) as nat);
        let power = power2::pow2(exponent as nat);
        assert(0x0010_0000_0000_0000 * (2 * power) == 0x0020_0000_0000_0000 * power);
    }
}

/// The significand of a pattern.
pub open spec fn significand_of(pattern: int) -> int {
    if pattern < 0x0010_0000_0000_0000 {
        pattern
    } else {
        0x0010_0000_0000_0000 + pattern % 0x0010_0000_0000_0000
    }
}

/// The exponent of a pattern, counted from zero.
pub open spec fn exponent_of(pattern: int) -> int {
    if pattern < 0x0010_0000_0000_0000 {
        0
    } else {
        pattern / 0x0010_0000_0000_0000 - 1
    }
}

proof fn lemma_decompose(pattern: int)
    requires
        0 <= pattern,
    ensures
        0 <= significand_of(pattern) < 0x0020_0000_0000_0000,
        0 <= exponent_of(pattern),
        significand_of(pattern) >= 0x0010_0000_0000_0000 || exponent_of(pattern) == 0,
        pattern == exponent_of(pattern) * 0x0010_0000_0000_0000 + significand_of(pattern),
        magnitude(pattern) == significand_of(pattern) * power2::pow2(exponent_of(pattern) as nat),
{
    lemma_compose(significand_of(pattern), exponent_of(pattern));
}

/// The value of the next pattern is greater by one unit in the last place.
proof fn lemma_next(pattern: int)
    requires
        0 <= pattern,
    ensures
        magnitude(pattern + 1) == magnitude(pattern) + power2::pow2(exponent_of(pattern) as nat),
        magnitude(pattern) < magnitude(pattern + 1),
        0 <= magnitude(pattern),
{
    lemma_decompose(pattern);
    lemma_compose(significand_of(pattern) + 1, exponent_of(pattern));
    let power = power2::pow2(exponent_of(pattern) as nat);
    power2::lemma_pow2_pos(exponent_of(pattern) as nat);
    let m = significand_of(pattern);
    assert((m + 1) * power == m * power + power) by (nonlinear_arith);
    assert(m * power >= 0) by (nonlinear_arith)
        requires
            m >= 0,
            power >= 0,
    ;
}

/// Greater patterns stand for greater values.
pub proof fn law_patterns_ascend(a: int, b: int)
    requires
        0 <= a < b,
    ensures
        magnitude(a) < magnitude(b),
    decreases b - a,
{
    lemma_next(b - 1);
    if a < b - 1 {
        law_patterns_ascend(a, b - 1);
    }
}

/// There is only one floor.
proof fn lemma_floor_unique(pattern: int, num: int, den: int)
    requires
        den > 0,
        is_floor(pattern, num, den),
    ensures
        floor_pattern(num, den) == pattern,
{
    let other = floor_pattern(num, den);
    assert(is_floor(other, num, den));
    if other < pattern {
        if other + 1 < pattern {
            law_patterns_ascend(other + 1, pattern);
        }
        let (x, y) = (magnitude(other + 1), magnitude(pattern));
        assert(x * den <= y * den) by (nonlinear_arith)
            requires
                x <= y,
                den > 0,
        ;
    } else if pattern < other {
        if pattern + 1 < other {
            law_patterns_ascend(pattern + 1, other);
        }
        let (x, y) = (magnitude(pattern + 1), magnitude(other));
        assert(x * den <= y * den) by (nonlinear_arith)
            requires
                x <= y,
                den > 0,
        ;
    }
}

/// There is a floor.
proof fn lemma_floor_exists(num: int, den: int, pattern: int)
    requires
        0 <= num,
        den > 0,
        0 <= pattern <= INFINITE,
        pattern < INFINITE ==> num < magnitude(pattern + 1) * den,
    ensures
        exists|p: int| is_floor(p, num, den),
    decreases pattern,
{
    if magnitude(pattern) * den <= num {
        assert(is_floor(pattern, num, den));
    } else {
        assert(magnitude(0) == 0);
        if pattern == 0 {
            assert(0 * den == 0);
        }
        lemma_floor_exists(num, den, pattern - 1);
    }
}

/// How far a pattern is from `num / den` units, times `den`.
pub open spec fn distance(pattern: int, num: int, den: int) -> int {
    if magnitude(pattern) * den <= num {
        num - magnitude(pattern) * den
    } else {
        magnitude(pattern) * den - num
    }
}

/// No pattern is nearer than the nearest, and of two that are equally near it is
/// the even one.
pub proof fn law_nearest(num: int, den: int, other: int)
    requires
        0 <= num,
        den > 0,
        0 <= other <= INFINITE,
    ensures
        0 <= nearest(num, den) <= INFINITE,
        distance(nearest(num, den), num, den) <= distance(other, num, den),
        other != nearest(num, den) && distance(nearest(num, den), num, den) == distance(
            other,
            num,
            den,
        ) ==> nearest(num, den) % 2 == 0,
{
    lemma_floor_exists(num, den, INFINITE as int);
    let below = floor_pattern(num, den);
    assert(is_floor(below, num, den));
    lemma_next(below);
    let low = magnitude(below);
    let high = magnitude(below + 1);
    assert((low + high) * den == low * den + high * den) by (nonlinear_arith);
    assert(low * den < high * den) by (nonlinear_arith)
        requires
            low < high,
            den > 0,
    ;
    if other < below {
        law_patterns_ascend(other, below);
        let o = magnitude(other);
        assert(o * den < low * den) by (nonlinear_arith)
            requires
                o < low,
                den > 0,
        ;
    } else if other > below + 1 {
        law_patterns_ascend(below + 1, other);
        let o = magnitude(other);
        assert(high * den < o * den) by (nonlinear_arith)
            requires
                high < o,
                den > 0,
        ;
    }
}

// ---------------------------------------------------------------------------
// Rounding
// ---------------------------------------------------------------------------

proof fn lemma_scale(x: int, y: int, w: int)
    requires
        w > 0,
    ensures
        x <= y <==> x * w <= y * w,
        x < y <==> x * w < y * w,
        x == y <==> x * w == y * w,
{
    assert(x <= y ==> x * w <= y * w) by (nonlinear_arith)
        requires
            w > 0,
    ;
    assert(x < y ==> x * w < y * w) by (nonlinear_arith)
        requires
            w > 0,
    ;
    assert(y < x ==> y * w < x * w) by (nonlinear_arith)
        requires
            w > 0,
    ;
}

/// Rounding from a significand and exponent that stand just below.
proof fn lemma_nearest(significand: int, exponent: int, num: int, den: int)
    requires
        den > 0,
        0 <= exponent < 2046,
        0 <= significand < 0x0020_0000_0000_0000,
        significand >= 0x0010_0000_0000_0000 || exponent == 0,
        significand * power2::pow2(exponent as nat) * den <= num,
        num < (significand + 1) * power2::pow2(exponent as nat) * den,
    ensures
        ({
            let pattern = exponent * 0x0010_0000_0000_0000 + significand;
            let middle = (2 * significand + 1) * power2::pow2(exponent as nat) * den;
            nearest(num, den) == if 2 * num < middle || (2 * num == middle && pattern % 2 == 0) {
                pattern
            } else {
                pattern + 1
            }
        }),
{
    let pattern = exponent * 0x0010_0000_0000_0000 + significand;
    let power = power2::pow2(exponent as nat) as int;
    lemma_compose(significand, exponent);
    lemma_compose(significand + 1, exponent);
    assert(pattern < INFINITE);
    assert(is_floor(pattern, num, den));
    lemma_floor_unique(pattern, num, den);
    assert(significand * power + (significand + 1) * power == (2 * significand + 1) * power)
        by (nonlinear_arith);
}

/// How many bits `x` takes.
fn bit_length(x: u128) -> (len: u32)
    requires
        x > 0,
    ensures
        1 <= len <= 128,
        power2::pow2((len - 1) as nat) <= x < power2::pow2(len as nat),
{
    let mut rest = x;
    let mut len: u32 = 0;
    proof {
        power2::lemma2_to64();
        power2::lemma_pow2_adds(64, 64);
        assert(0x1_0000_0000_0000_0000int * 0x1_0000_0000_0000_0000int
            == 0x1_0000_0000_0000_0000_0000_0000_0000_0000int) by (nonlinear_arith);
    }
    let ghost mut power: int = 1;
    while rest > 0
        invariant
            len <= 128,
            power == power2::pow2(len as nat),
            rest < power2::pow2((128 - len) as nat),
            rest * power <= x < (rest + 1) * power,
            len > 0 || rest == x,
            rest == 0 ==> len > 0 && power2::pow2((len - 1) as nat) <= x,
            x > 0,
        decreases rest,
    {
        proof {
            if len == 128 {
                power2::lemma2_to64();
            }
            power2::lemma_pow2_unfold((len + 1) as nat);
            power2::lemma_pow2_unfold((128 - len) as nat);
            let half = rest as int / 2;
            assert(half * (2 * power) <= rest * power) by (nonlinear_arith)
                requires
                    2 * half <= rest,
                    power >= 0,
            ;
            assert((rest + 1) * power <= (half + 1) * (2 * power)) by (nonlinear_arith)
                requires
                    rest + 1 <= 2 * half + 2,
                    power >= 0,
            ;
            if rest == 1 {
                assert(1 * power == power) by (nonlinear_arith);
            }
            power = 2 * power;
        }
        rest = rest / 2;
        len = len + 1;
    }
    proof {
        assert((0 + 1) * power == power) by (nonlinear_arith);
    }
    len
}

/// Two to the power of `shift`, where that is a whole number.
spec fn up(shift: int) -> int {
    if shift >= 0 {
        power2::pow2(shift as nat) as int
    } else {
        1
    }
}

/// Two to the power of `-shift`, where that is a whole number.
spec fn down(shift: int) -> int {
    if shift >= 0 {
        1
    } else {
        power2::pow2((-shift) as nat) as int
    }
}

/// `num / den` is `mant` times two to the power of `shift`; with `sticky` it
/// lies strictly between that and the same for `mant + 1`.
spec fn stands_for(mant: int, shift: int, sticky: bool, num: int, den: int) -> bool {
    if sticky {
        mant * (up(shift) * den) < num * down(shift) < (mant + 1) * (up(shift) * den)
    } else {
        num * down(shift) == mant * (up(shift) * den)
    }
}

/// Moving the point keeps a power of two together.
proof fn lemma_powers(shift: int, drop: int)
    requires
        shift + drop >= 0,
    ensures
        up(shift) > 0,
        down(shift) > 0,
        drop >= 0 ==> power2::pow2((shift + drop) as nat) * down(shift) == power2::pow2(drop as nat)
            * up(shift),
        drop < 0 ==> power2::pow2((shift + drop) as nat) * power2::pow2((-drop) as nat) == up(shift)
            && down(shift) == 1,
{
    power2::lemma2_to64();
    if shift >= 0 {
        power2::lemma_pow2_pos(shift as nat);
        if drop >= 0 {
            power2::lemma_pow2_adds(drop as nat, shift as nat);
            assert(power2::pow2((shift + drop) as nat) * 1 == power2::pow2((shift + drop) as nat));
        } else {
            power2::lemma_pow2_adds((shift + drop) as nat, (-drop) as nat);
        }
    } else {
        power2::lemma_pow2_pos((-shift) as nat);
        power2::lemma_pow2_adds((shift + drop) as nat, (-shift) as nat);
        assert(power2::pow2(drop as nat) * 1 == power2::pow2(drop as nat));
    }
}

/// Where `drop` low bits of `mant` are cut off, leaving `q` and `rem`, these
/// tell how `num / den` lies to `q`, to the middle behind it and to `q + 1`.
proof fn lemma_cut(
    mant: int,
    shift: int,
    sticky: bool,
    num: int,
    den: int,
    drop: int,
    q: int,
    rem: int,
)
    requires
        den > 0,
        drop >= 1,
        shift + drop >= 0,
        stands_for(mant, shift, sticky, num, den),
        mant == q * power2::pow2(drop as nat) + rem,
        0 <= rem < power2::pow2(drop as nat),
    ensures
        ({
            let power = power2::pow2((shift + drop) as nat);
            let half = power2::pow2(drop as nat) as int;
            let middle = (2 * q + 1) * power * den;
            &&& q * power * den <= num < (q + 1) * power * den
            &&& 2 * num < middle <==> 2 * rem < half
            &&& 2 * num == middle <==> 2 * rem == half && !sticky
        }),
{
    let power = power2::pow2((shift + drop) as nat) as int;
    let cut = power2::pow2(drop as nat) as int;
    let n = down(shift);
    let w = up(shift) * den;
    lemma_powers(shift, drop);
    power2::lemma_pow2_unfold(drop as nat);
    assert(w > 0) by (nonlinear_arith)
        requires
            w == up(shift) * den,
            up(shift) > 0,
            den > 0,
    ;
    assert forall|x: int| #[trigger] (x * power * den) * n == (x * cut) * w by {
        assert((x * power * den) * n == x * den * (power * n)) by (nonlinear_arith);
        assert((x * cut) * w == x * den * (cut * up(shift))) by (nonlinear_arith)
            requires
                w == up(shift) * den,
        ;
    }
    let given = num * n;
    // Below: q * cut <= mant.
    assert((q * power * den) * n == (q * cut) * w);
    lemma_scale(q * cut, mant, w);
    lemma_scale(q * power * den, num, n);
    // Above: mant + 1 <= (q + 1) * cut.
    assert(((q + 1) * power * den) * n == ((q + 1) * cut) * w);
    assert((q + 1) * cut == q * cut + cut) by (nonlinear_arith);
    lemma_scale(mant + 1, (q + 1) * cut, w);
    lemma_scale(mant, (q + 1) * cut, w);
    lemma_scale(num, (q + 1) * power * den, n);
    // The middle.
    let x = 2 * q + 1;
    assert((x * power * den) * n == (x * cut) * w);
    assert(x * cut == 2 * (q * cut) + cut) by (nonlinear_arith)
        requires
            x == 2 * q + 1,
    ;
    lemma_scale(2 * num, x * power * den, n);
    assert((2 * num) * n == 2 * given) by (nonlinear_arith)
        requires
            given == num * n,
    ;
    lemma_scale(2 * mant, x * cut, w);
    lemma_scale(2 * (mant + 1), x * cut, w);
    assert((2 * mant) * w == 2 * (mant * w)) by (nonlinear_arith);
    assert((2 * (mant + 1)) * w == 2 * ((mant + 1) * w)) by (nonlinear_arith);
}

/// Two to the power of `e`.
fn power_of_two(e: u32) -> (power: u128)
    requires
        e < 128,
    ensures
        power == power2::pow2(e as nat),
        power > 0,
{
    let mut power: u128 = 1;
    let mut i: u32 = 0;
    proof {
        power2::lemma2_to64();
        lemma_pow2_127();
    }
    while i < e
        invariant
            i <= e < 128,
            power == power2::pow2(i as nat),
            power > 0,
            power2::pow2(127) == 0x8000_0000_0000_0000_0000_0000_0000_0000int,
        decreases e - i,
    {
        proof {
            power2::lemma_pow2_unfold((i + 1) as nat);
            if i + 1 < 127 {
                power2::lemma_pow2_strictly_increases((i + 1) as nat, 127);
            }
        }
        power = power * 2;
        i = i + 1;
    }
    power
}

proof fn lemma_pow2_127()
    ensures
        power2::pow2(127) == 0x8000_0000_0000_0000_0000_0000_0000_0000int,
        power2::pow2(53) == 0x0020_0000_0000_0000int,
        power2::pow2(52) == 0x0010_0000_0000_0000int,
{
    power2::lemma2_to64();
    power2::lemma2_to64_rest();
    power2::lemma_pow2_adds(64, 63);
    assert(0x1_0000_0000_0000_0000int * 0x8000_0000_0000_0000int
        == 0x8000_0000_0000_0000_0000_0000_0000_0000int) by (nonlinear_arith);
}

proof fn lemma_significand_bounds(mant: int, len: int, drop: int, q: int)
    requires
        1 <= len <= 127,
        drop >= 1,
        drop >= len - 53,
        power2::pow2((len - 1) as nat) <= mant < power2::pow2(len as nat),
        q == mant / (power2::pow2(drop as nat) as int),
    ensures
        0 <= q < 0x0020_0000_0000_0000,
        drop == len - 53 ==> q >= 0x0010_0000_0000_0000,
{
    lemma_pow2_127();
    let cut = power2::pow2(drop as nat) as int;
    power2::lemma_pow2_pos(drop as nat);
    power2::lemma_pow2_adds(53, drop as nat);
    if len < 53 + drop {
        power2::lemma_pow2_strictly_increases(len as nat, (53 + drop) as nat);
    }
    vstd::arithmetic::div_mod::lemma_fundamental_div_mod(mant, cut);
    vstd::arithmetic::div_mod::lemma_div_pos_is_pos(mant, cut);
    assert(q < 0x0020_0000_0000_0000) by (nonlinear_arith)
        requires
            mant < 0x0020_0000_0000_0000 * cut,
            cut * q <= mant,
            cut > 0,
    ;
    if drop == len - 53 {
        power2::lemma_pow2_adds(52, drop as nat);
        assert(q >= 0x0010_0000_0000_0000) by (nonlinear_arith)
            requires
                mant >= 0x0010_0000_0000_0000 * cut,
                mant < cut * q + cut,
                cut > 0,
        ;
    }
}

/// Beyond the last exponent everything rounds to infinity.
proof fn lemma_round_infinite(
    mant: int,
    shift: int,
    sticky: bool,
    num: int,
    den: int,
    len: int,
)
    requires
        den > 0,
        1 <= len <= 127,
        power2::pow2((len - 1) as nat) <= mant,
        stands_for(mant, shift, sticky, num, den),
        shift + len - 53 >= 2046,
    ensures
        nearest(num, den) == INFINITE,
{
    lemma_powers(shift, 5000 - shift + if shift > 5000 { shift } else { 0 });
    // shift is positive here, so nothing is scaled down
    assert(down(shift) == 1);
    let u = up(shift);
    power2::lemma_pow2_adds((len - 1) as nat, shift as nat);
    let reach = power2::pow2((len - 1 + shift) as nat) as int;
    if len - 1 + shift > 2098 {
        power2::lemma_pow2_strictly_increases(2098, (len - 1 + shift) as nat);
    }
    lemma_pow2_127();
    power2::lemma_pow2_adds(52, 2046);
    lemma_compose(0x0010_0000_0000_0000, 2046);
    assert(2046 * 0x0010_0000_0000_0000int + 0x0010_0000_0000_0000 == INFINITE);
    assert(magnitude(INFINITE as int) == power2::pow2(2098));
    assert(mant * u >= reach) by (nonlinear_arith)
        requires
            mant >= power2::pow2((len - 1) as nat),
            reach == power2::pow2((len - 1) as nat) * u,
            u > 0,
    ;
    assert(mant * (u * den) == (mant * u) * den) by (nonlinear_arith);
    lemma_scale(magnitude(INFINITE as int), mant * u, den);
    assert(num * 1 == num);
    assert(is_floor(INFINITE as int, num, den));
    lemma_floor_unique(INFINITE as int, num, den);
}

/// Where no bit has to go, the result is exact.
proof fn lemma_round_exact(mant: int, shift: int, num: int, den: int, len: int, drop: int)
    requires
        den > 0,
        1 <= len <= 127,
        power2::pow2((len - 1) as nat) <= mant < power2::pow2(len as nat),
        stands_for(mant, shift, false, num, den),
        len - 53 <= drop <= 0,
        0 <= shift + drop < 2046,
        drop == len - 53 || shift + drop == 0,
    ensures
        ({
            let significand = mant * power2::pow2((-drop) as nat);
            &&& 0 <= significand < 0x0020_0000_0000_0000
            &&& nearest(num, den) == (shift + drop) * 0x0010_0000_0000_0000 + significand
        }),
{
    let factor = power2::pow2((-drop) as nat) as int;
    let power = power2::pow2((shift + drop) as nat) as int;
    let significand = mant * factor;
    power2::lemma2_to64();
    lemma_pow2_127();
    lemma_powers(shift, drop);
    power2::lemma_pow2_pos((-drop) as nat);
    power2::lemma_pow2_pos((shift + drop) as nat);
    power2::lemma_pow2_adds(len as nat, (-drop) as nat);
    if len - drop < 53 {
        power2::lemma_pow2_strictly_increases((len - drop) as nat, 53);
    }
    assert(significand < 0x0020_0000_0000_0000) by (nonlinear_arith)
        requires
            significand == mant * factor,
            mant < power2::pow2(len as nat),
            power2::pow2(len as nat) * factor <= 0x0020_0000_0000_0000,
            factor > 0,
    ;
    if drop == len - 53 {
        power2::lemma_pow2_adds((len - 1) as nat, (-drop) as nat);
        assert(significand >= 0x0010_0000_0000_0000) by (nonlinear_arith)
            requires
                significand == mant * factor,
                mant >= power2::pow2((len - 1) as nat),
                power2::pow2((len - 1) as nat) * factor == 0x0010_0000_0000_0000,
                factor > 0,
        ;
    }
    assert(significand >= 0) by (nonlinear_arith)
        requires
            significand == mant * factor,
            mant >= 0,
            factor > 0,
    ;
    // num is the significand at this exponent, exactly
    if drop < 0 {
        assert(num * 1 == num);
        assert(mant * (up(shift) * den) == significand * power * den) by (nonlinear_arith)
            requires
                significand == mant * factor,
                power * factor == up(shift),
        ;
    } else {
        let n = down(shift);
        assert(mant * factor == mant) by (nonlinear_arith)
            requires
                factor == 1,
        ;
        assert(power * n == 1 * up(shift));
        assert(num * n == (significand * power * den) * n) by (nonlinear_arith)
            requires
                num * n == mant * (up(shift) * den),
                significand == mant,
                power * n == up(shift),
        ;
        lemma_scale(num, significand * power * den, n);
    }
    assert(num == significand * power * den);
    assert((significand + 1) * power * den > num) by (nonlinear_arith)
        requires
            num == significand * power * den,
            power > 0,
            den > 0,
    ;
    assert((2 * significand + 1) * power * den > 2 * num) by (nonlinear_arith)
        requires
            num == significand * power * den,
            power > 0,
            den > 0,
    ;
    lemma_nearest(significand, shift + drop, num, den);
}

/// The pattern nearest to `num / den`, which is given by `mant`, `shift` and
/// `sticky`.
fn round(mant: u128, shift: i32, sticky: bool, Ghost(num): Ghost<int>, Ghost(den): Ghost<int>) -> (
pattern: u64)
    requires
        den > 0,
        -5000 <= shift <= 5000,
        mant < 0x8000_0000_0000_0000_0000_0000_0000_0000,
        sticky ==> mant >= 0x0040_0000_0000_0000,
        stands_for(mant as int, shift as int, sticky, num, den),
    ensures
        pattern == nearest(num, den),
        pattern <= INFINITE,
{
    proof {
        lemma_pow2_127();
        power2::lemma2_to64();
    }
    if mant == 0 {
        proof {
            lemma_powers(shift as int, 5000 - shift);
            let n = down(shift as int);
            assert(0 * (up(shift as int) * den) == 0) by (nonlinear_arith);
            assert(num == 0) by (nonlinear_arith)
                requires
                    num * n == 0,
                    n > 0,
            ;
            assert(0 * power2::pow2(0) * den == 0) by (nonlinear_arith);
            assert((0 + 1) * power2::pow2(0) * den == den) by (nonlinear_arith)
                requires
                    power2::pow2(0) == 1,
            ;
            assert((2 * 0 + 1) * power2::pow2(0) * den == den) by (nonlinear_arith)
                requires
                    power2::pow2(0) == 1,
            ;
            lemma_nearest(0, 0, num, den);
        }
        return 0;
    }
    let len = bit_length(mant);
    proof {
        if sticky && len < 54 {
            power2::lemma_pow2_strictly_increases(len as nat, 54);
        }
        power2::lemma_pow2_unfold(54);
    }
    let natural = len as i32 - 53;
    let drop: i32 = if natural < -shift {
        -shift
    } else {
        natural
    };
    let exponent = shift + drop;
    if exponent >= 2046 {
        proof {
            lemma_round_infinite(mant as int, shift as int, sticky, num, den, len as int);
        }
        return INFINITE;
    }
    if drop <= 0 {
        let factor = power_of_two((-drop) as u32);
        proof {
            lemma_round_exact(mant as int, shift as int, num, den, len as int, drop as int);
        }
        let significand = mant * factor;
        return exponent as u64 * LEADING + significand as u64;
    }
    if drop > 127 {
        proof {
            power2::lemma_pow2_strictly_increases(127, drop as nat);
            let half = power2::pow2(drop as nat);
            lemma_cut(mant as int, shift as int, sticky, num, den, drop as int, 0, mant as int);
            power2::lemma_pow2_unfold(drop as nat);
            power2::lemma_pow2_unfold(128);
            if drop > 128 {
                power2::lemma_pow2_strictly_increases(128, drop as nat);
            }
            lemma_nearest(0, 0, num, den);
        }
        return 0;
    }
    let cut = power_of_two(drop as u32);
    let significand = mant / cut;
    let rem = mant % cut;
    proof {
        vstd::arithmetic::div_mod::lemma_fundamental_div_mod(mant as int, cut as int);
        assert(significand * cut + rem == mant) by (nonlinear_arith)
            requires
                mant == cut * significand + rem,
        ;
        lemma_significand_bounds(mant as int, len as int, drop as int, significand as int);
        lemma_cut(
            mant as int,
            shift as int,
            sticky,
            num,
            den,
            drop as int,
            significand as int,
            rem as int,
        );
        lemma_nearest(significand as int, exponent as int, num, den);
    }
    let pattern = exponent as u64 * LEADING + significand as u64;
    let half = cut / 2;
    proof {
        power2::lemma_pow2_unfold(drop as nat);
    }
    if rem < half || (rem == half && !sticky && pattern % 2 == 0) {
        pattern
    } else {
        pattern + 1
    }
}

// ---------------------------------------------------------------------------
// Arithmetic
// ---------------------------------------------------------------------------

/// The significand and the exponent of a pattern.
fn split(pattern: u64) -> (parts: (u64, i32))
    requires
        pattern <= INFINITE,
    ensures
        parts.0 == significand_of(pattern as int),
        parts.1 == exponent_of(pattern as int),
        parts.0 < 0x0020_0000_0000_0000,
        0 <= parts.1 <= 2046,
        parts.0 >= LEADING || parts.1 == 0,
        magnitude(pattern as int) == parts.0 * power2::pow2(parts.1 as nat),
{
    proof {
        lemma_decompose(pattern as int);
    }
    if pattern < LEADING {
        (pattern, 0)
    } else {
        (LEADING + pattern % LEADING, (pattern / LEADING) as i32 - 1)
    }
}

/// The sum of two finite magnitudes, or their difference where `subtract` is
/// set, rounded.
fn combine(large: u64, small: u64, subtract: bool) -> (pattern: u64)
    requires
        small <= large < INFINITE,
    ensures
        pattern <= INFINITE,
        pattern == nearest(
            if subtract {
                magnitude(large as int) - magnitude(small as int)
            } else {
                magnitude(large as int) + magnitude(small as int)
            },
            1,
        ),
{
    let ghost num = if subtract {
        magnitude(large as int) - magnitude(small as int)
    } else {
        magnitude(large as int) + magnitude(small as int)
    };
    let (m1, e1) = split(large);
    let (m2, e2) = split(small);
    proof {
        lemma_exponents_ordered(small as int, large as int);
        power2::lemma2_to64();
        power2::lemma_pow2_pos(e1 as nat);
        power2::lemma_pow2_pos(e2 as nat);
    }
    let apart = e1 - e2;
    if apart <= 64 {
        let factor = power_of_two(apart as u32);
        let ghost p2 = power2::pow2(e2 as nat) as int;
        proof {
            power2::lemma_pow2_adds(apart as nat, e2 as nat);
            if apart < 64 {
                power2::lemma_pow2_strictly_increases(apart as nat, 64);
            }
            assert(m1 * factor <= 0x0020_0000_0000_0000 * 0x1_0000_0000_0000_0000) by (nonlinear_arith)
                requires
                    m1 <= 0x0020_0000_0000_0000,
                    factor <= 0x1_0000_0000_0000_0000,
                    m1 >= 0,
                    factor >= 0,
            ;
            assert(magnitude(large as int) == (m1 * factor) * p2) by (nonlinear_arith)
                requires
                    magnitude(large as int) == m1 * power2::pow2(e1 as nat),
                    power2::pow2(e1 as nat) == factor * p2,
            ;
            if subtract {
                if small < large {
                    law_patterns_ascend(small as int, large as int);
                }
                lemma_scale(m2 as int, m1 * factor, p2);
            }
            assert((m1 * factor + m2) * p2 == (m1 * factor) * p2 + m2 * p2) by (nonlinear_arith);
            assert((m1 * factor - m2) * p2 == (m1 * factor) * p2 - m2 * p2) by (nonlinear_arith);
            assert(p2 * 1 == p2 && num * 1 == num);
        }
        let scaled = m1 as u128 * factor;
        if subtract {
            round(scaled - m2 as u128, e2, false, Ghost(num), Ghost(1))
        } else {
            round(scaled + m2 as u128, e2, false, Ghost(num), Ghost(1))
        }
    } else if small == 0 {
        proof {
            let p1 = power2::pow2(e1 as nat) as int;
            assert(p1 * 1 == p1) by (nonlinear_arith);
            assert(num * 1 == num) by (nonlinear_arith);
            assert(m2 * power2::pow2(e2 as nat) == 0) by (nonlinear_arith)
                requires
                    m2 == 0,
            ;
        }
        round(m1 as u128, e1, false, Ghost(num), Ghost(1))
    } else {
        let ghost step = power2::pow2((e1 - 11) as nat) as int;
        let ghost high = m1 * 2048;
        proof {
            power2::lemma_pow2_adds(11, (e1 - 11) as nat);
            power2::lemma_pow2_pos((e1 - 11) as nat);
            assert(magnitude(large as int) == high * step) by (nonlinear_arith)
                requires
                    magnitude(large as int) == m1 * power2::pow2(e1 as nat),
                    power2::pow2(e1 as nat) == 2048 * step,
                    high == m1 * 2048,
            ;
            // the small part is less than one step
            lemma_pow2_127();
            power2::lemma_pow2_adds(53, e2 as nat);
            power2::lemma_pow2_strictly_increases((53 + e2) as nat, (e1 - 11) as nat);
            let small_part = m2 * power2::pow2(e2 as nat);
            assert(0 < small_part < step) by (nonlinear_arith)
                requires
                    small_part == m2 * power2::pow2(e2 as nat),
                    0 < m2 < 0x0020_0000_0000_0000,
                    power2::pow2(e2 as nat) > 0,
                    0x0020_0000_0000_0000 * power2::pow2(e2 as nat) < step,
            ;
            assert(step * 1 == step && num * 1 == num);
            assert((high + 1) * step == high * step + step) by (nonlinear_arith);
            assert((high - 1) * step == high * step - step) by (nonlinear_arith);
        }
        let wide = m1 as u128 * 2048;
        if subtract {
            round(wide - 1, e1 - 11, true, Ghost(num), Ghost(1))
        } else {
            round(wide, e1 - 11, true, Ghost(num), Ghost(1))
        }
    }
}

proof fn lemma_exponents_ordered(small: int, large: int)
    requires
        0 <= small <= large,
    ensures
        exponent_of(small) <= exponent_of(large),
{
}

impl Binary64 {
    /// The zero.
    pub fn zero() -> (r: Binary64)
        ensures
            r == naught(),
    {
        Binary64 { bits: 0 }
    }

    fn unsigned(self) -> (pattern: u64)
        ensures
            pattern == self.pattern(),
    {
        if self.bits >= SIGN {
            self.bits - SIGN
        } else {
            self.bits
        }
    }

    fn with_sign(negative: bool, pattern: u64) -> (r: Binary64)
        requires
            pattern <= INFINITE,
        ensures
            r == signed(negative, pattern as int),
    {
        if negative {
            Binary64 { bits: pattern + SIGN }
        } else {
            Binary64 { bits: pattern }
        }
    }

    /// The sum of both.
    pub fn plus(self, other: Binary64) -> (r: Binary64)
        ensures
            r == sum(self, other),
    {
        let (a, b) = (self.unsigned(), other.unsigned());
        let (a_negative, b_negative) = (self.bits >= SIGN, other.bits >= SIGN);
        if a > INFINITE || b > INFINITE {
            return Binary64 { bits: NOT_A_NUMBER };
        }
        if a == INFINITE {
            if b == INFINITE && a_negative != b_negative {
                return Binary64 { bits: NOT_A_NUMBER };
            }
            return self;
        }
        if b == INFINITE {
            return other;
        }
        proof {
            lemma_next(a as int);
            lemma_next(b as int);
            if a < b {
                law_patterns_ascend(a as int, b as int);
            }
            if b < a {
                law_patterns_ascend(b as int, a as int);
            }
            if a > 0 {
                law_patterns_ascend(0, a as int);
            }
            if b > 0 {
                law_patterns_ascend(0, b as int);
            }
            assert(magnitude(0) == 0);
        }
        if a == b && a_negative != b_negative {
            return Binary64::with_sign(false, 0);
        }
        if a == 0 && b == 0 {
            return Binary64::with_sign(a_negative, 0);
        }
        if a >= b {
            Binary64::with_sign(a_negative, combine(a, b, a_negative != b_negative))
        } else {
            Binary64::with_sign(b_negative, combine(b, a, a_negative != b_negative))
        }
    }

    /// The number with the other sign.
    pub fn negate(self) -> (r: Binary64)
        ensures
            r == negated(self),
    {
        if self.bits >= SIGN {
            Binary64 { bits: self.bits - SIGN }
        } else {
            Binary64 { bits: self.bits + SIGN }
        }
    }

    /// The difference of both.
    pub fn minus(self, other: Binary64) -> (r: Binary64)
        ensures
            r == difference(self, other),
    {
        self.plus(other.negate())
    }
}

proof fn lemma_product_stands(m1: int, e1: int, m2: int, e2: int)
    requires
        0 <= e1,
        0 <= e2,
    ensures
        stands_for(
            m1 * m2,
            e1 + e2 - 1074,
            false,
            (m1 * power2::pow2(e1 as nat)) * (m2 * power2::pow2(e2 as nat)),
            unit(),
        ),
{
    let shift = e1 + e2 - 1074;
    let p1 = power2::pow2(e1 as nat) as int;
    let p2 = power2::pow2(e2 as nat) as int;
    let both = power2::pow2((e1 + e2) as nat) as int;
    let num = (m1 * p1) * (m2 * p2);
    power2::lemma_pow2_adds(e1 as nat, e2 as nat);
    assert(num == (m1 * m2) * both) by (nonlinear_arith)
        requires
            num == (m1 * p1) * (m2 * p2),
            both == p1 * p2,
    ;
    if shift >= 0 {
        power2::lemma_pow2_adds(shift as nat, 1074);
        assert(num * 1 == num);
    } else {
        power2::lemma_pow2_adds((-shift) as nat, (e1 + e2) as nat);
        let n = down(shift);
        assert(num * n == (m1 * m2) * (n * both)) by (nonlinear_arith)
            requires
                num == (m1 * m2) * both,
        ;
        assert(1 * unit() == unit());
    }
}

/// A quotient of significands, scaled up by `k` bits, stands for the quotient
/// of the numbers.
proof fn lemma_quotient_stands(m1: int, e1: int, m2: int, e2: int, k: int, q: int, rem: int)
    requires
        0 <= e1,
        0 <= e2,
        0 <= k,
        m2 > 0,
        m1 * power2::pow2(k as nat) == q * m2 + rem,
        0 <= rem < m2,
    ensures
        stands_for(
            q,
            e1 - e2 - k + 1074,
            rem != 0,
            (m1 * power2::pow2(e1 as nat)) * unit(),
            m2 * power2::pow2(e2 as nat),
        ),
{
    let shift = e1 - e2 - k + 1074;
    let p1 = power2::pow2(e1 as nat) as int;
    let p2 = power2::pow2(e2 as nat) as int;
    let pk = power2::pow2(k as nat) as int;
    let (u, n) = (up(shift), down(shift));
    let num = (m1 * p1) * unit();
    let den = m2 * p2;
    power2::lemma_pow2_pos(k as nat);
    power2::lemma_pow2_pos(e2 as nat);
    lemma_powers(shift, if shift >= 0 { 0 } else { -shift });
    // p1 * unit * n == pk * u * p2
    power2::lemma_pow2_adds(e1 as nat, 1074);
    power2::lemma_pow2_adds(k as nat, e2 as nat);
    let left = p1 * unit() * n;
    let w = u * p2;
    if shift >= 0 {
        power2::lemma_pow2_adds(shift as nat, (k + e2) as nat);
        assert(left == pk * w) by (nonlinear_arith)
            requires
                left == (p1 * unit()) * n,
                n == 1,
                p1 * unit() == u * (pk * p2),
                w == u * p2,
        ;
    } else {
        power2::lemma_pow2_adds((-shift) as nat, (e1 + 1074) as nat);
        assert(left == pk * w) by (nonlinear_arith)
            requires
                left == (p1 * unit()) * n,
                u == 1,
                n * (p1 * unit()) == pk * p2,
                w == u * p2,
        ;
    }
    assert(w > 0) by (nonlinear_arith)
        requires
            w == u * p2,
            u > 0,
            p2 > 0,
    ;
    assert(num * n == (m1 * pk) * w) by (nonlinear_arith)
        requires
            num == (m1 * p1) * unit(),
            left == p1 * unit() * n,
            left == pk * w,
    ;
    assert(q * (u * den) == (q * m2) * w) by (nonlinear_arith)
        requires
            den == m2 * p2,
            w == u * p2,
    ;
    assert((q + 1) * (u * den) == (q * m2 + m2) * w) by (nonlinear_arith)
        requires
            den == m2 * p2,
            w == u * p2,
    ;
    lemma_scale(q * m2, m1 * pk, w);
    lemma_scale(m1 * pk, q * m2 + m2, w);
}

impl Binary64 {
    /// The product of both.
    pub fn times(self, other: Binary64) -> (r: Binary64)
        ensures
            r == product(self, other),
    {
        let (a, b) = (self.unsigned(), other.unsigned());
        let negative = (self.bits >= SIGN) != (other.bits >= SIGN);
        if a > INFINITE || b > INFINITE {
            return Binary64 { bits: NOT_A_NUMBER };
        }
        if a == INFINITE || b == INFINITE {
            if a == 0 || b == 0 {
                return Binary64 { bits: NOT_A_NUMBER };
            }
            return Binary64::with_sign(negative, INFINITE);
        }
        let (m1, e1) = split(a);
        let (m2, e2) = split(b);
        proof {
            lemma_product_stands(m1 as int, e1 as int, m2 as int, e2 as int);
            power2::lemma_pow2_pos(1074);
            assert(m1 * m2 < 0x0020_0000_0000_0000 * 0x0020_0000_0000_0000) by (nonlinear_arith)
                requires
                    0 <= m1 < 0x0020_0000_0000_0000,
                    0 <= m2 < 0x0020_0000_0000_0000,
            ;
        }
        let mant = m1 as u128 * m2 as u128;
        let pattern = round(
            mant,
            e1 + e2 - 1074,
            false,
            Ghost(magnitude(a as int) * magnitude(b as int)),
            Ghost(unit()),
        );
        Binary64::with_sign(negative, pattern)
    }

    /// The quotient of both.
    pub fn over(self, other: Binary64) -> (r: Binary64)
        ensures
            r == quotient(self, other),
    {
        let (a, b) = (self.unsigned(), other.unsigned());
        let negative = (self.bits >= SIGN) != (other.bits >= SIGN);
        if a > INFINITE || b > INFINITE {
            return Binary64 { bits: NOT_A_NUMBER };
        }
        if a == INFINITE {
            if b == INFINITE {
                return Binary64 { bits: NOT_A_NUMBER };
            }
            return Binary64::with_sign(negative, INFINITE);
        }
        if b == INFINITE {
            return Binary64::with_sign(negative, 0);
        }
        if b == 0 {
            if a == 0 {
                return Binary64 { bits: NOT_A_NUMBER };
            }
            return Binary64::with_sign(negative, INFINITE);
        }
        let (m1, e1) = split(a);
        let (m2, e2) = split(b);
        proof {
            if a > 0 {
                law_patterns_ascend(0, a as int);
            }
            law_patterns_ascend(0, b as int);
            assert(magnitude(0) == 0);
            power2::lemma_pow2_pos(e2 as nat);
            power2::lemma_pow2_pos(e1 as nat);
            assert(m2 > 0) by (nonlinear_arith)
                requires
                    m2 * power2::pow2(e2 as nat) > 0,
                    m2 >= 0,
            ;
        }
        let k: u32 = if m1 == 0 {
            0
        } else {
            let len = bit_length(m1 as u128);
            proof {
                lemma_pow2_127();
                if len > 54 {
                    power2::lemma_pow2_strictly_increases(53, (len - 1) as nat);
                }
            }
            126 - len
        };
        let factor = power_of_two(k);
        proof {
            if m1 > 0 {
                lemma_widened(m1 as int, m2 as int, k as int);
            } else {
                power2::lemma2_to64();
                assert(m1 * factor == 0) by (nonlinear_arith)
                    requires
                        m1 == 0,
                ;
            }
        }
        let wide = m1 as u128 * factor;
        let q = wide / m2 as u128;
        let rem = wide % m2 as u128;
        proof {
            vstd::arithmetic::div_mod::lemma_fundamental_div_mod(wide as int, m2 as int);
            assert(wide == q * m2 + rem) by (nonlinear_arith)
                requires
                    wide == m2 * q + rem,
            ;
            assert(q <= wide) by (nonlinear_arith)
                requires
                    wide == m2 * q + rem,
                    m2 > 0,
                    q >= 0,
                    rem >= 0,
            ;
            lemma_quotient_stands(
                m1 as int,
                e1 as int,
                m2 as int,
                e2 as int,
                k as int,
                q as int,
                rem as int,
            );
        }
        let pattern = round(
            q,
            e1 - e2 - k as i32 + 1074,
            rem != 0,
            Ghost(magnitude(a as int) * unit()),
            Ghost(magnitude(b as int)),
        );
        Binary64::with_sign(negative, pattern)
    }
}

/// A dividend widened to 126 bits leaves a quotient of more than 54.
proof fn lemma_widened(m1: int, m2: int, k: int)
    requires
        0 < m1 < 0x0020_0000_0000_0000,
        0 < m2 < 0x0020_0000_0000_0000,
        0 <= k <= 125,
        power2::pow2((125 - k) as nat) <= m1 < power2::pow2((126 - k) as nat),
    ensures
        m1 * power2::pow2(k as nat) < 0x4000_0000_0000_0000_0000_0000_0000_0000,
        (m1 * power2::pow2(k as nat)) / m2 >= 0x0040_0000_0000_0000,
{
    let pk = power2::pow2(k as nat) as int;
    lemma_pow2_127();
    power2::lemma_pow2_unfold(127);
    power2::lemma_pow2_unfold(126);
    power2::lemma_pow2_pos(k as nat);
    power2::lemma_pow2_adds((125 - k) as nat, k as nat);
    power2::lemma_pow2_adds((126 - k) as nat, k as nat);
    let wide = m1 * pk;
    assert(power2::pow2((125 - k) as nat) * pk <= wide < power2::pow2((126 - k) as nat) * pk)
        by (nonlinear_arith)
        requires
            wide == m1 * pk,
            power2::pow2((125 - k) as nat) <= m1 < power2::pow2((126 - k) as nat),
            pk > 0,
    ;
    vstd::arithmetic::div_mod::lemma_fundamental_div_mod(wide, m2);
    let q = wide / m2;
    assert(q >= 0x0040_0000_0000_0000) by (nonlinear_arith)
        requires
            wide < m2 * q + m2,
            wide >= 0x2000_0000_0000_0000_0000_0000_0000_0000,
            0 < m2 < 0x0020_0000_0000_0000,
    ;
}

// ---------------------------------------------------------------------------
// Order
// ---------------------------------------------------------------------------

/// The absolute value.
pub open spec fn absolute(a: Binary64) -> Binary64 {
    signed(false, a.pattern())
}

/// The greater of both; where one is no number, the other.
pub open spec fn greater(a: Binary64, b: Binary64) -> Binary64 {
    if a.nan() || a.below(b) {
        b
    } else {
        a
    }
}

/// `a` where it lies between the bounds, else the bound that it is beyond.
pub open spec fn clamped(a: Binary64, low: Binary64, high: Binary64) -> Binary64 {
    if a.below(low) {
        low
    } else if high.below(a) {
        high
    } else {
        a
    }
}

impl Binary64 {
    /// Whether both are numbers and `self` is the smaller.
    pub fn lt(self, other: Binary64) -> (yes: bool)
        ensures
            yes == self.below(other),
    {
        let (a, b) = (self.unsigned(), other.unsigned());
        let (a_negative, b_negative) = (self.bits >= SIGN, other.bits >= SIGN);
        if a > INFINITE || b > INFINITE {
            return false;
        }
        proof {
            lemma_next(a as int);
            lemma_next(b as int);
            assert(magnitude(0) == 0);
            if a < b {
                law_patterns_ascend(a as int, b as int);
            }
            if b < a {
                law_patterns_ascend(b as int, a as int);
            }
            if a > 0 {
                law_patterns_ascend(0, a as int);
            }
            if b > 0 {
                law_patterns_ascend(0, b as int);
            }
        }
        if a_negative {
            if b_negative {
                b < a
            } else {
                a > 0 || b > 0
            }
        } else {
            !b_negative && a < b
        }
    }

    /// Whether both are numbers and `self` is not the greater.
    pub fn le(self, other: Binary64) -> (yes: bool)
        ensures
            yes == self.not_above(other),
    {
        if self.unsigned() > INFINITE || other.unsigned() > INFINITE {
            return false;
        }
        !other.lt(self)
    }

    /// The absolute value.
    pub fn abs(self) -> (r: Binary64)
        ensures
            r == absolute(self),
    {
        Binary64 { bits: self.unsigned() }
    }

    /// The greater of both; where one is no number, the other.
    pub fn max(self, other: Binary64) -> (r: Binary64)
        ensures
            r == greater(self, other),
    {
        if self.unsigned() > INFINITE || self.lt(other) {
            other
        } else {
            self
        }
    }

    /// `self` where it lies between the bounds, else the bound that it is
    /// beyond.
    pub fn clamp(self, low: Binary64, high: Binary64) -> (r: Binary64)
        ensures
            r == clamped(self, low, high),
    {
        if self.lt(low) {
            low
        } else if high.lt(self) {
            high
        } else {
            self
        }
    }
}

// ---------------------------------------------------------------------------
// Conversions
// ---------------------------------------------------------------------------

/// The number nearest to a whole number.
pub open spec fn whole(v: int) -> Binary64 {
    if v < 0 {
        signed(true, nearest(-v * unit(), 1))
    } else {
        signed(false, nearest(v * unit(), 1))
    }
}

/// The number nearest to a fraction of two whole numbers.
pub open spec fn ratio(num: int, den: int) -> Binary64 {
    quotient(whole(num), whole(den))
}

/// The whole part, towards zero, within the range of `u64`; zero for what is
/// no number.
pub open spec fn truncated_u64(a: Binary64) -> int {
    if a.nan() || a.negative() {
        0
    } else if a.value() / unit() > u64::MAX {
        u64::MAX as int
    } else {
        a.value() / unit()
    }
}

/// The whole part, towards zero, within the range of `i64`; zero for what is
/// no number.
pub open spec fn truncated_i64(a: Binary64) -> int {
    let part = magnitude(a.pattern()) / unit();
    if a.nan() {
        0
    } else if a.negative() {
        if part > i64::MAX {
            i64::MIN as int
        } else {
            -part
        }
    } else if part > i64::MAX {
        i64::MAX as int
    } else {
        part
    }
}

/// `num / den` rounded to a whole number, and to the even one from the middle.
pub open spec fn rounded_quotient(num: int, den: int) -> int {
    if 2 * (num % den) < den || (2 * (num % den) == den && num / den % 2 == 0) {
        num / den
    } else {
        num / den + 1
    }
}

/// A number of seconds as a whole number of nanoseconds, rounded to the
/// nearest. There is none for what is no number or negative, nor from two to
/// the power of 64 seconds on.
pub open spec fn nanoseconds(seconds: Binary64) -> Option<int> {
    if seconds.nan() || seconds.value() < 0 {
        None
    } else {
        let nanos = rounded_quotient(seconds.value() * 1_000_000_000, unit());
        if nanos / 1_000_000_000 > u64::MAX {
            None
        } else {
            Some(nanos)
        }
    }
}

/// A number of nanoseconds in seconds: the whole seconds plus the rest.
pub open spec fn seconds(nanos: int) -> Binary64 {
    sum(whole(nanos / 1_000_000_000), quotient(whole(nanos % 1_000_000_000), whole(1_000_000_000)))
}

/// Dividing by two to the power of 1074 takes that many bits off.
proof fn lemma_units(m: int, e: int, d: int)
    requires
        0 <= e,
        0 <= m,
        e + d == 1074,
        0 <= d,
    ensures
        (m * power2::pow2(e as nat)) / unit() == m / (power2::pow2(d as nat) as int),
        (m * power2::pow2(e as nat)) % unit() == (m % (power2::pow2(d as nat) as int))
            * power2::pow2(e as nat),
{
    let pe = power2::pow2(e as nat) as int;
    let pd = power2::pow2(d as nat) as int;
    power2::lemma_pow2_pos(e as nat);
    power2::lemma_pow2_pos(d as nat);
    power2::lemma_pow2_adds(d as nat, e as nat);
    let q = m / pd;
    let r = m % pd;
    vstd::arithmetic::div_mod::lemma_fundamental_div_mod(m, pd);
    assert(m * pe == q * unit() + r * pe) by (nonlinear_arith)
        requires
            m == pd * q + r,
            unit() == pd * pe,
    ;
    assert(0 <= r * pe < unit()) by (nonlinear_arith)
        requires
            0 <= r < pd,
            unit() == pd * pe,
            pe > 0,
    ;
    vstd::arithmetic::div_mod::lemma_fundamental_div_mod_converse(m * pe, unit(), q, r * pe);
}

/// The whole part of a magnitude.
fn whole_part(pattern: u64) -> (part: u128)
    requires
        pattern <= INFINITE,
    ensures
        magnitude(pattern as int) / unit() <= u64::MAX ==> part == magnitude(pattern as int) / unit(),
        magnitude(pattern as int) / unit() > u64::MAX ==> part > u64::MAX,
{
    let (m, e) = split(pattern);
    let ghost pe = power2::pow2(e as nat) as int;
    if e < 1074 {
        let d = 1074 - e;
        proof {
            lemma_units(m as int, e as int, d as int);
        }
        if d > 63 {
            proof {
                power2::lemma2_to64();
                if d > 64 {
                    power2::lemma_pow2_strictly_increases(64, d as nat);
                }
                vstd::arithmetic::div_mod::lemma_small_div_converse(
                    m as int,
                    power2::pow2(d as nat) as int,
                );
                vstd::arithmetic::div_mod::lemma_basic_div(m as int, power2::pow2(d as nat) as int);
            }
            return 0;
        }
        let cut = power_of_two(d as u32);
        proof {
            vstd::arithmetic::div_mod::lemma_div_nonincreasing(m as int, cut as int);
        }
        return m as u128 / cut;
    }
    let s = e - 1074;
    proof {
        power2::lemma_pow2_adds(s as nat, 1074);
        power2::lemma_pow2_pos(1074);
        let ps = power2::pow2(s as nat) as int;
        assert(m * pe == (m * ps) * unit()) by (nonlinear_arith)
            requires
                pe == ps * unit(),
        ;
        vstd::arithmetic::div_mod::lemma_div_multiples_vanish(m * ps, unit());
        assert(unit() * (m * ps) == (m * ps) * unit()) by (nonlinear_arith);
    }
    if s > 64 {
        proof {
            power2::lemma2_to64();
            power2::lemma_pow2_strictly_increases(64, s as nat);
            let ps = power2::pow2(s as nat) as int;
            assert(m * ps >= ps) by (nonlinear_arith)
                requires
                    m >= 1,
                    ps > 0,
            ;
        }
        return 0x1_0000_0000_0000_0000;
    }
    let factor = power_of_two(s as u32);
    proof {
        power2::lemma2_to64();
        if s < 64 {
            power2::lemma_pow2_strictly_increases(s as nat, 64);
        }
        assert(m * factor <= 0x0020_0000_0000_0000 * 0x1_0000_0000_0000_0000) by (nonlinear_arith)
            requires
                0 <= m <= 0x0020_0000_0000_0000,
                0 <= factor <= 0x1_0000_0000_0000_0000,
        ;
    }
    m as u128 * factor
}

impl Binary64 {
    /// The number nearest to a whole number.
    pub fn from_u64(v: u64) -> (r: Binary64)
        ensures
            r == whole(v as int),
    {
        proof {
            assert(unit() * 1 == unit());
            assert((v * unit()) * 1 == v * unit()) by (nonlinear_arith);
        }
        Binary64::with_sign(false, round(v as u128, 1074, false, Ghost(v * unit()), Ghost(1)))
    }

    /// The number nearest to a fraction of two whole numbers.
    pub fn ratio(num: u64, den: u64) -> (r: Binary64)
        ensures
            r == ratio(num as int, den as int),
    {
        Binary64::from_u64(num).over(Binary64::from_u64(den))
    }

    /// The number nearest to a whole number.
    pub fn from_i64(v: i64) -> (r: Binary64)
        ensures
            r == whole(v as int),
    {
        if v >= 0 {
            return Binary64::from_u64(v as u64);
        }
        let size = (-(v as i128)) as u128;
        proof {
            assert(unit() * 1 == unit());
            assert((-v * unit()) * 1 == -v * unit()) by (nonlinear_arith);
        }
        Binary64::with_sign(true, round(size, 1074, false, Ghost(-v * unit()), Ghost(1)))
    }

    /// The whole part, towards zero, within the range of `u64`.
    pub fn to_u64(self) -> (v: u64)
        ensures
            v == truncated_u64(self),
    {
        let pattern = self.unsigned();
        if pattern > INFINITE || self.bits >= SIGN {
            return 0;
        }
        let part = whole_part(pattern);
        if part > u64::MAX as u128 {
            u64::MAX
        } else {
            part as u64
        }
    }

    /// The whole part, towards zero, within the range of `i64`.
    pub fn to_i64(self) -> (v: i64)
        ensures
            v == truncated_i64(self),
    {
        let pattern = self.unsigned();
        if pattern > INFINITE {
            return 0;
        }
        let part = whole_part(pattern);
        if self.bits >= SIGN {
            if part > i64::MAX as u128 {
                i64::MIN
            } else {
                -(part as i64)
            }
        } else if part > i64::MAX as u128 {
            i64::MAX
        } else {
            part as i64
        }
    }

    /// A number of seconds as a whole number of nanoseconds.
    pub fn to_nanos(self) -> (nanos: Option<u128>)
        ensures
            match (nanos, nanoseconds(self)) {
                (Some(a), Some(b)) => a == b,
                (None, None) => true,
                _ => false,
            },
    {
        let pattern = self.unsigned();
        if pattern > INFINITE {
            return None;
        }
        proof {
            lemma_next(pattern as int);
            assert(magnitude(0) == 0);
            if pattern > 0 {
                law_patterns_ascend(0, pattern as int);
            }
        }
        if self.bits >= SIGN && pattern > 0 {
            return None;
        }
        let (m, e) = split(pattern);
        let scaled = m as u128 * 1_000_000_000;
        let ghost pe = power2::pow2(e as nat) as int;
        proof {
            assert((m * pe) * 1_000_000_000 == scaled * pe) by (nonlinear_arith)
                requires
                    scaled == m * 1_000_000_000,
            ;
            power2::lemma_pow2_pos(1074);
        }
        if e >= 1074 {
            let s = e - 1074;
            let ghost ps = power2::pow2(s as nat) as int;
            proof {
                power2::lemma_pow2_adds(s as nat, 1074);
                assert(scaled * pe == (scaled * ps) * unit()) by (nonlinear_arith)
                    requires
                        pe == ps * unit(),
                ;
                assert((scaled * ps) * unit() == unit() * (scaled * ps) + 0) by (nonlinear_arith);
                vstd::arithmetic::div_mod::lemma_fundamental_div_mod_converse(
                    scaled * pe,
                    unit(),
                    scaled * ps,
                    0,
                );
                power2::lemma2_to64();
                assert(scaled * ps == (m * ps) * 1_000_000_000) by (nonlinear_arith)
                    requires
                        scaled == m * 1_000_000_000,
                ;
            }
            if s > 11 {
                proof {
                    power2::lemma_pow2_strictly_increases(11, s as nat);
                    power2::lemma_pow2_unfold(12);
                    if s > 12 {
                        power2::lemma_pow2_strictly_increases(12, s as nat);
                    }
                    assert(m * ps >= 0x1_0000_0000_0000_0000) by (nonlinear_arith)
                        requires
                            m >= 0x0010_0000_0000_0000,
                            ps >= 4096,
                    ;
                }
                return None;
            }
            let factor = power_of_two(s as u32);
            proof {
                if s < 11 {
                    power2::lemma_pow2_strictly_increases(s as nat, 11);
                }
                assert(m * ps <= u64::MAX) by (nonlinear_arith)
                    requires
                        m < 0x0020_0000_0000_0000,
                        0 < ps <= 2048,
                ;
            }
            return Some(scaled * factor);
        }
        let d = 1074 - e;
        proof {
            lemma_units(scaled as int, e as int, d as int);
            power2::lemma_pow2_pos(e as nat);
            power2::lemma_pow2_adds(d as nat, e as nat);
            let pd = power2::pow2(d as nat) as int;
            let r = scaled as int % pd;
            lemma_scale(2 * r, pd, pe);
            assert((2 * r) * pe == 2 * (r * pe)) by (nonlinear_arith);
        }
        if d > 127 {
            proof {
                lemma_pow2_127();
                power2::lemma_pow2_strictly_increases(127, d as nat);
                vstd::arithmetic::div_mod::lemma_basic_div(scaled as int, power2::pow2(d as nat) as int);
                vstd::arithmetic::div_mod::lemma_small_mod(scaled as nat, power2::pow2(d as nat));
            }
            return Some(0);
        }
        let cut = power_of_two(d as u32);
        let q = scaled / cut;
        let rem = scaled % cut;
        let half = cut / 2;
        proof {
            power2::lemma_pow2_unfold(d as nat);
            vstd::arithmetic::div_mod::lemma_div_nonincreasing(scaled as int, cut as int);
        }
        if rem < half || (rem == half && q % 2 == 0) {
            Some(q)
        } else {
            Some(q + 1)
        }
    }

    /// A number of nanoseconds in seconds.
    pub fn from_nanos(nanos: u128) -> (r: Binary64)
        requires
            nanos / 1_000_000_000 <= u64::MAX,
        ensures
            r == seconds(nanos as int),
    {
        let rest = Binary64::from_u64((nanos % 1_000_000_000) as u64);
        Binary64::from_u64((nanos / 1_000_000_000) as u64).plus(
            rest.over(Binary64::from_u64(1_000_000_000)),
        )
    }
}

/// The number with a value that a pattern has is that pattern.
proof fn lemma_exact(pattern: int)
    requires
        0 <= pattern < INFINITE,
    ensures
        nearest(magnitude(pattern), 1) == pattern,
{
    lemma_next(pattern);
    assert(is_floor(pattern, magnitude(pattern), 1));
    lemma_floor_unique(pattern, magnitude(pattern), 1);
}

/// Two and thirty are exact.
proof fn lemma_two_and_thirty()
    ensures
        whole(2).bits == 0x4000_0000_0000_0000,
        whole(30).bits == 0x403e_0000_0000_0000,
        whole(2).value() == 2 * unit(),
        whole(30).value() == 30 * unit(),
{
    power2::lemma2_to64();
    power2::lemma_pow2_adds(1023, 51);
    power2::lemma_pow2_adds(1026, 48);
    assert(power2::pow2(51) == 0x0008_0000_0000_0000 && power2::pow2(48) == 0x0001_0000_0000_0000)
        by {
        power2::lemma2_to64_rest();
    }
    assert(magnitude(0x4000_0000_0000_0000) == 2 * unit()) by (nonlinear_arith)
        requires
            magnitude(0x4000_0000_0000_0000) == 0x0010_0000_0000_0000 * power2::pow2(1023),
            unit() == power2::pow2(1023) * 0x0008_0000_0000_0000,
    ;
    assert(magnitude(0x403e_0000_0000_0000) == 30 * unit()) by (nonlinear_arith)
        requires
            magnitude(0x403e_0000_0000_0000) == 0x001e_0000_0000_0000 * power2::pow2(1026),
            unit() == power2::pow2(1026) * 0x0001_0000_0000_0000,
    ;
    lemma_exact(0x4000_0000_0000_0000);
    lemma_exact(0x403e_0000_0000_0000);
}

/// What lies between two and thirty seconds lies there in nanoseconds too.
pub proof fn lemma_bounded_nanoseconds(a: Binary64)
    requires
        !a.nan(),
    ensures
        ({
            let nanos = nanoseconds(clamped(a, whole(2), whole(30)));
            nanos matches Some(n) && 2_000_000_000 <= n <= 30_000_000_000
        }),
{
    lemma_two_and_thirty();
    power2::lemma_pow2_pos(1074);
    let c = clamped(a, whole(2), whole(30));
    let u = unit();
    let v = c.value();
    assert(2 * u <= v <= 30 * u);
    let num = v * 1_000_000_000;
    vstd::arithmetic::div_mod::lemma_fundamental_div_mod(num, u);
    let q = num / u;
    let r = num % u;
    assert(2_000_000_000 <= q <= 30_000_000_000 && (q == 30_000_000_000 ==> r == 0))
        by (nonlinear_arith)
        requires
            num == u * q + r,
            0 <= r < u,
            2_000_000_000 * u <= num <= 30_000_000_000 * u,
    ;
}

// ---------------------------------------------------------------------------
// Laws
// ---------------------------------------------------------------------------

/// Rounding keeps the order: what is not greater is not greater once rounded.
pub proof fn law_rounding_keeps_order(num1: int, den1: int, num2: int, den2: int)
    requires
        0 <= num1,
        0 <= num2,
        den1 > 0,
        den2 > 0,
        num1 * den2 <= num2 * den1,
    ensures
        0 <= nearest(num1, den1) <= nearest(num2, den2) <= INFINITE,
{
    law_nearest(num1, den1, 0);
    law_nearest(num2, den2, 0);
    lemma_floor_exists(num1, den1, INFINITE as int);
    lemma_floor_exists(num2, den2, INFINITE as int);
    let f1 = floor_pattern(num1, den1);
    let f2 = floor_pattern(num2, den2);
    assert(is_floor(f1, num1, den1));
    assert(is_floor(f2, num2, den2));
    if f2 < f1 {
        if f2 + 1 < f1 {
            law_patterns_ascend(f2 + 1, f1);
        }
        let (x, y) = (magnitude(f2 + 1), magnitude(f1));
        assert(false) by (nonlinear_arith)
            requires
                x <= y,
                y * den1 <= num1,
                num2 < x * den2,
                num1 * den2 <= num2 * den1,
                den1 > 0,
                den2 > 0,
        ;
    } else if f1 == f2 && f1 < INFINITE {
        let sum = magnitude(f1) + magnitude(f1 + 1);
        assert(2 * num2 < sum * den2 ==> 2 * num1 < sum * den1) by (nonlinear_arith)
            requires
                num1 * den2 <= num2 * den1,
                den1 > 0,
                den2 > 0,
        ;
        assert(2 * num2 == sum * den2 ==> 2 * num1 <= sum * den1) by (nonlinear_arith)
            requires
                num1 * den2 <= num2 * den1,
                den1 > 0,
                den2 > 0,
        ;
    }
}

proof fn lemma_length(v: int, len: int) -> (at: int)
    requires
        0 < v < power2::pow2(len as nat),
        0 <= len,
    ensures
        1 <= at <= len,
        power2::pow2((at - 1) as nat) <= v < power2::pow2(at as nat),
    decreases len,
{
    power2::lemma2_to64();
    if len > 0 && v < power2::pow2((len - 1) as nat) {
        lemma_length(v, len - 1)
    } else {
        len
    }
}

/// Whole numbers below two to the power of 53 are exact.
pub proof fn law_whole_exact(v: int)
    requires
        0 <= v < 0x0020_0000_0000_0000,
    ensures
        !whole(v).negative(),
        whole(v).finite(),
        whole(v).value() == v * unit(),
        whole(v).pattern() == 0 <==> v == 0,
{
    assert(magnitude(0) == 0);
    if v == 0 {
        assert(0 * unit() == 0);
        lemma_exact(0);
    } else {
        lemma_pow2_127();
        let len = lemma_length(v, 53);
        let spread = power2::pow2((53 - len) as nat) as int;
        let significand = v * spread;
        power2::lemma_pow2_pos((53 - len) as nat);
        power2::lemma_pow2_adds((len - 1) as nat, (53 - len) as nat);
        power2::lemma_pow2_adds(len as nat, (53 - len) as nat);
        power2::lemma_pow2_adds((53 - len) as nat, (1021 + len) as nat);
        let (low, high) = (power2::pow2((len - 1) as nat) as int, power2::pow2(len as nat) as int);
        assert(0x0010_0000_0000_0000 <= significand < 0x0020_0000_0000_0000) by (nonlinear_arith)
            requires
                significand == v * spread,
                low <= v < high,
                low * spread == 0x0010_0000_0000_0000,
                high * spread == 0x0020_0000_0000_0000,
                spread > 0,
        ;
        let exponent = 1021 + len;
        let pattern = exponent * 0x0010_0000_0000_0000 + significand;
        lemma_compose(significand, exponent);
        let power = power2::pow2(exponent as nat) as int;
        assert(significand * power == v * unit()) by (nonlinear_arith)
            requires
                significand == v * spread,
                spread * power == unit(),
        ;
        lemma_exact(pattern);
    }
}

/// Fractions are ordered as their values are.
pub proof fn law_fractions_ordered(a: int, b: int, c: int, d: int)
    requires
        0 <= a < 0x0020_0000_0000_0000,
        0 < b < 0x0020_0000_0000_0000,
        0 <= c < 0x0020_0000_0000_0000,
        0 < d < 0x0020_0000_0000_0000,
        a * d <= c * b,
    ensures
        ratio(a, b).not_above(ratio(c, d)),
{
    law_whole_exact(a);
    law_whole_exact(b);
    law_whole_exact(c);
    law_whole_exact(d);
    power2::lemma_pow2_pos(1074);
    let u = unit();
    let (x1, y1) = (a * u * u, b * u);
    let (x2, y2) = (c * u * u, d * u);
    assert(0 <= x1 && 0 <= x2 && 0 < y1 && 0 < y2) by (nonlinear_arith)
        requires
            0 <= a,
            0 <= c,
            0 < b,
            0 < d,
            0 < u,
            x1 == a * u * u,
            x2 == c * u * u,
            y1 == b * u,
            y2 == d * u,
    ;
    assert(x1 * y2 <= x2 * y1) by (nonlinear_arith)
        requires
            a * d <= c * b,
            0 < u,
            x1 == a * u * u,
            x2 == c * u * u,
            y1 == b * u,
            y2 == d * u,
    ;
    law_rounding_keeps_order(x1, y1, x2, y2);
    let (p, q) = (nearest(x1, y1), nearest(x2, y2));
    if p < q {
        law_patterns_ascend(p, q);
    }
}

/// Sums, differences, products and quotients of finite numbers are the numbers
/// nearest to the exact results: no pattern is nearer.
pub proof fn law_arithmetic(a: Binary64, b: Binary64, other: int)
    requires
        a.finite(),
        b.finite(),
        0 <= other <= INFINITE,
    ensures
        ({
            let exact = a.value() + b.value();
            let size = if exact < 0 {
                -exact
            } else {
                exact
            };
            &&& distance(sum(a, b).pattern(), size, 1) <= distance(other, size, 1)
            &&& exact < 0 ==> sum(a, b).negative()
            &&& exact > 0 ==> !sum(a, b).negative()
        }),
        ({
            let exact = a.value() - b.value();
            let size = if exact < 0 {
                -exact
            } else {
                exact
            };
            &&& distance(difference(a, b).pattern(), size, 1) <= distance(other, size, 1)
            &&& exact < 0 ==> difference(a, b).negative()
            &&& exact > 0 ==> !difference(a, b).negative()
        }),
        ({
            let exact = magnitude(a.pattern()) * magnitude(b.pattern());
            &&& distance(product(a, b).pattern(), exact, unit()) <= distance(other, exact, unit())
            &&& product(a, b).negative() == (a.negative() != b.negative())
        }),
        b.pattern() > 0 ==> {
            let exact = magnitude(a.pattern()) * unit();
            let by = magnitude(b.pattern());
            &&& distance(quotient(a, b).pattern(), exact, by) <= distance(other, exact, by)
            &&& quotient(a, b).negative() == (a.negative() != b.negative())
        },
{
    let x = a.value() + b.value();
    let y = a.value() - b.value();
    let (m, n) = (magnitude(a.pattern()), magnitude(b.pattern()));
    lemma_next(a.pattern());
    lemma_next(b.pattern());
    power2::lemma_pow2_pos(1074);
    assert(negated(b).value() == -b.value());
    assert(negated(b).pattern() == b.pattern());
    assert(magnitude(0) == 0);
    assert(0 <= m * n && 0 <= m * unit()) by (nonlinear_arith)
        requires
            0 <= m,
            0 <= n,
            0 < unit(),
    ;
    if x >= 0 {
        law_nearest(x, 1, other);
    } else {
        law_nearest(-x, 1, other);
    }
    if y >= 0 {
        law_nearest(y, 1, other);
    } else {
        law_nearest(-y, 1, other);
    }
    lemma_next(other);
    law_nearest(m * n, unit(), other);
    if b.pattern() > 0 {
        law_patterns_ascend(0, b.pattern());
        law_nearest(m * unit(), n, other);
    }
}

/// The greater of two numbers is one of them and not below the other; what is no
/// number is passed over.
pub proof fn law_greater(a: Binary64, b: Binary64)
    ensures
        greater(a, b) == a || greater(a, b) == b,
        !a.nan() && !b.nan() ==> a.value() <= greater(a, b).value() && b.value() <= greater(
            a,
            b,
        ).value(),
        a.nan() ==> greater(a, b) == b,
        b.nan() && !a.nan() ==> greater(a, b) == a,
{
}

/// A number between bounds stays, and one beyond a bound becomes the bound.
pub proof fn law_clamped(a: Binary64, low: Binary64, high: Binary64)
    requires
        !a.nan() && !low.nan() && !high.nan(),
        low.value() <= high.value(),
    ensures
        low.value() <= clamped(a, low, high).value() <= high.value(),
        low.value() <= a.value() <= high.value() ==> clamped(a, low, high) == a,
        a.value() < low.value() ==> clamped(a, low, high) == low,
        a.value() > high.value() ==> clamped(a, low, high) == high,
{
}

/// The whole part of a number that is not negative is the greatest whole number
/// that is not above it, within the range of `u64`.
pub proof fn law_truncated_u64(a: Binary64)
    ensures
        0 <= truncated_u64(a) <= u64::MAX,
        a.nan() || a.negative() ==> truncated_u64(a) == 0,
        !a.nan() && !a.negative() ==> truncated_u64(a) * unit() <= a.value(),
        !a.nan() && !a.negative() && truncated_u64(a) < u64::MAX ==> a.value() < (truncated_u64(a)
            + 1) * unit(),
{
    lemma_next(a.pattern());
    power2::lemma_pow2_pos(1074);
    let (v, u) = (a.value(), unit());
    if !a.nan() && !a.negative() {
        vstd::arithmetic::div_mod::lemma_fundamental_div_mod(v, u);
        vstd::arithmetic::div_mod::lemma_mod_bound(v, u);
        vstd::arithmetic::div_mod::lemma_div_pos_is_pos(v, u);
        let q = v / u;
        let t = truncated_u64(a);
        assert(t * u <= v && (t == q ==> v < (t + 1) * u)) by (nonlinear_arith)
            requires
                t <= q,
                v == u * q + v % u,
                0 <= v % u < u,
        ;
    }
}

/// The whole part of a number towards zero, within the range of `i64`.
pub proof fn law_truncated_i64(a: Binary64)
    ensures
        i64::MIN <= truncated_i64(a) <= i64::MAX,
        a.nan() ==> truncated_i64(a) == 0,
        !a.nan() && !a.negative() ==> 0 <= truncated_i64(a) * unit() <= a.value(),
        !a.nan() && a.negative() && truncated_i64(a) > i64::MIN ==> a.value() <= truncated_i64(a)
            * unit() <= 0,
        !a.nan() && !a.negative() && truncated_i64(a) < i64::MAX ==> a.value() < (truncated_i64(a)
            + 1) * unit(),
        !a.nan() && a.negative() && truncated_i64(a) > i64::MIN ==> (truncated_i64(a) - 1) * unit()
            < a.value(),
{
    lemma_next(a.pattern());
    power2::lemma_pow2_pos(1074);
    let (v, u) = (magnitude(a.pattern()), unit());
    vstd::arithmetic::div_mod::lemma_fundamental_div_mod(v, u);
    vstd::arithmetic::div_mod::lemma_mod_bound(v, u);
    vstd::arithmetic::div_mod::lemma_div_pos_is_pos(v, u);
    let q = v / u;
    let t = if truncated_i64(a) < 0 {
        -truncated_i64(a)
    } else {
        truncated_i64(a)
    };
    assert(q * u <= v < (q + 1) * u) by (nonlinear_arith)
        requires
            v == u * q + v % u,
            0 <= v % u < u,
    ;
    assert(0 <= t <= q ==> 0 <= t * u <= q * u) by (nonlinear_arith)
        requires
            0 < u,
    ;
    assert((-q) * u == -(q * u)) by (nonlinear_arith);
    assert((-q - 1) * u == -((q + 1) * u)) by (nonlinear_arith);
}

/// A number of seconds in nanoseconds is the nearest whole number: the exact number
/// of nanoseconds is at most half a one away. There is none for what is no number,
/// for what is negative, and from two to the power of 64 seconds on.
pub proof fn law_nanoseconds(a: Binary64)
    ensures
        match nanoseconds(a) {
            Some(n) => {
                &&& !a.nan() && a.value() >= 0
                &&& 0 <= n
                &&& n / 1_000_000_000 <= u64::MAX
                &&& -unit() <= 2 * (n * unit() - a.value() * 1_000_000_000) <= unit()
            },
            None => a.nan() || a.value() < 0 || 2 * a.value() * 1_000_000_000 + unit() >= 2 * (
            0x1_0000_0000_0000_0000 * 1_000_000_000) * unit(),
        },
{
    power2::lemma_pow2_pos(1074);
    let u = unit();
    if !a.nan() && a.value() >= 0 {
        let num = a.value() * 1_000_000_000;
        vstd::arithmetic::div_mod::lemma_fundamental_div_mod(num, u);
        vstd::arithmetic::div_mod::lemma_mod_bound(num, u);
        vstd::arithmetic::div_mod::lemma_div_pos_is_pos(num, u);
        let q = num / u;
        let r = num % u;
        let n = rounded_quotient(num, u);
        assert(-u <= 2 * (n * u - num) <= u) by (nonlinear_arith)
            requires
                num == u * q + r,
                0 <= r < u,
                n == q && 2 * r <= u || n == q + 1 && 2 * r >= u,
        ;
        if n / 1_000_000_000 > u64::MAX {
            let most = 0x1_0000_0000_0000_0000int * 1_000_000_000;
            assert(n >= most);
            assert(n * u >= most * u) by (nonlinear_arith)
                requires
                    n >= most,
                    u > 0,
            ;
            assert((2 * most) * u == 2 * (most * u)) by (nonlinear_arith);
        }
    }
}

/// Whole seconds are exact.
pub proof fn law_whole_seconds(v: int)
    requires
        0 <= v < 0x0020_0000_0000_0000,
    ensures
        seconds(v * 1_000_000_000) == whole(v),
{
    law_whole_exact(v);
    law_whole_exact(0);
    law_whole_exact(1_000_000_000);
    power2::lemma_pow2_pos(1074);
    assert(magnitude(0) == 0);
    assert(v * 1_000_000_000 / 1_000_000_000 == v);
    assert(v * 1_000_000_000 % 1_000_000_000 == 0);
    let u = unit();
    assert(0 * u == 0) by (nonlinear_arith);
    let by = whole(1_000_000_000);
    assert(by.pattern() > 0);
    law_patterns_ascend(0, by.pattern());
    let zero = quotient(whole(0), by);
    lemma_next(0);
    lemma_next(by.pattern());
    let b = magnitude(by.pattern());
    assert(is_floor(0, 0, b)) by {
        assert(magnitude(0) * b == 0) by (nonlinear_arith)
            requires
                magnitude(0) == 0,
        ;
        assert(0 < magnitude(1) * b) by (nonlinear_arith)
            requires
                magnitude(1) > 0,
                b > 0,
        ;
    }
    lemma_floor_unique(0, 0, b);
    assert(0 < (magnitude(0) + magnitude(1)) * b) by (nonlinear_arith)
        requires
            magnitude(0) == 0,
            magnitude(1) > 0,
            b > 0,
    ;
    assert(nearest(0, b) == 0);
    assert(zero == naught());
    let w = whole(v);
    lemma_exact(w.pattern());
    assert(w.value() == magnitude(w.pattern()));
    if v == 0 {
        assert(w.value() == 0);
    } else {
        law_patterns_ascend(0, w.pattern());
    }
}

/// The absolute value has the size of the number and no sign, and the number with the
/// other sign has its size too.
pub proof fn law_signs(a: Binary64)
    requires
        !a.nan(),
    ensures
        !absolute(a).negative(),
        a.value() >= 0 ==> absolute(a).value() == a.value(),
        a.value() < 0 ==> absolute(a).value() == -a.value(),
        negated(a).value() == -a.value(),
        negated(a).negative() != a.negative(),
{
    lemma_next(a.pattern());
}

/// Numbers are compared by their values, and what is no number with nothing.
pub proof fn law_comparisons(a: Binary64, b: Binary64)
    ensures
        a.nan() || b.nan() ==> !a.below(b) && !a.not_above(b),
        !a.nan() && !b.nan() ==> (a.below(b) <==> a.value() < b.value()),
        !a.nan() && !b.nan() ==> (a.not_above(b) <==> !b.below(a)),
{
}

/// A negative whole number is its opposite with the other sign.
pub proof fn law_negative_whole(v: int)
    requires
        0 < v,
    ensures
        whole(-v) == negated(whole(v)),
        whole(-v).negative(),
{
    power2::lemma_pow2_pos(1074);
    assert(v * unit() >= 0) by (nonlinear_arith)
        requires
            0 < v,
            0 < unit(),
    ;
    law_nearest(v * unit(), 1, 0);
    assert(-(-v) == v);
}

} // verus!
