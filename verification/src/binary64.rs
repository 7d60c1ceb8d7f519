//! Quotients of integers in IEEE 754 double precision, and their decimal text.
//!
//! A figure such as megabytes or requests per second is a quotient of two integers
//! taken in double precision and printed with a fixed count of decimals. The same
//! figure is computed here with integers alone, so that it can be reasoned about:
//! the significand and the exponent of the double, then its exact decimal rounding.
use crate::decimal;
use vstd::arithmetic::power2::*;
use vstd::prelude::*;

verus! {

/// The least significand of a normal double: two to the power of 52.
pub const SIGNIFICAND_MIN: u64 = 0x10_0000_0000_0000;

/// One more than the largest significand of a double: two to the power of 53.
pub const SIGNIFICAND_END: u64 = 0x20_0000_0000_0000;

/// `n / d` rounded to the nearest integer, a tie to the even one.
pub open spec fn round_half_even(n: nat, d: nat) -> nat {
    let down = n / d;
    let rest = n % d;
    if 2 * rest < d || (2 * rest == d && down % 2 == 0) {
        down
    } else {
        down + 1
    }
}

/// The non-negative double `significand * 2^exponent`.
pub struct Double {
    pub significand: nat,
    pub exponent: int,
}

impl Double {
    /// The numerator of the double as a fraction.
    pub open spec fn numerator(self) -> nat {
        scaled_up(self.significand, -self.exponent)
    }

    /// The denominator of the double as a fraction.
    pub open spec fn denominator(self) -> nat {
        scaled_up(1, self.exponent)
    }

    /// The double in units of `10^-places`, its exact value rounded to the nearest
    /// integer, a tie to the even one.
    pub open spec fn units(self, places: nat) -> nat {
        round_half_even(self.numerator() * decimal::power_of_ten(places), self.denominator())
    }

    /// The decimal text of the double with `places` decimals.
    pub open spec fn text(self, places: nat) -> Seq<char> {
        decimal::fixed_point(self.units(places), places)
    }
}

/// `n * 2^-e` for a negative `e`, and `n` otherwise.
pub open spec fn scaled_up(n: nat, e: int) -> nat {
    if e < 0 {
        n * pow2((-e) as nat)
    } else {
        n
    }
}

/// Whether `n / d` lies in the range of the doubles with exponent `e`:
/// `2^52 * 2^e <= n / d < 2^53 * 2^e`.
pub open spec fn in_binade(n: nat, d: nat, e: int) -> bool {
    scaled_up(d, -e) * SIGNIFICAND_MIN <= scaled_up(n, e) < scaled_up(d, -e) * SIGNIFICAND_END
}

/// The exponent of the doubles around `n / d`.
pub open spec fn binade(n: nat, d: nat) -> int {
    choose|e: int| in_binade(n, d, e)
}

/// The double nearest to `n / d`, a tie to the one with the even significand.
pub open spec fn nearest(n: nat, d: nat) -> Double {
    if n == 0 {
        Double { significand: 0, exponent: 0 }
    } else {
        let e = binade(n, d);
        Double { significand: round_half_even(scaled_up(n, e), scaled_up(d, -e)), exponent: e }
    }
}

/// The integer `n` converted to a double.
pub open spec fn converted(n: nat) -> nat {
    nearest(n, 1).numerator() / nearest(n, 1).denominator()
}

/// `n` converted to a double and divided by the double `d`.
pub open spec fn quotient(n: nat, d: nat) -> Double {
    nearest(converted(n), d)
}

proof fn lemma_significands()
    ensures
        pow2(52) == SIGNIFICAND_MIN,
        pow2(53) == SIGNIFICAND_END,
        pow2(0) == 1,
        pow2(1) == 2,
{
    lemma2_to64();
    lemma2_to64_rest();
}

/// The exponents of two fractions are ordered as the fractions are.
proof fn lemma_binade_order(n1: nat, n2: nat, d: nat, e1: int, e2: int)
    requires
        d > 0,
        n1 >= n2,
        in_binade(n1, d, e1),
        in_binade(n2, d, e2),
    ensures
        e1 >= e2,
{
    if e1 < e2 {
        let min = SIGNIFICAND_MIN as nat;
        let gap = (e2 - e1 - 1) as nat;
        lemma_pow2_pos(gap);
        if e1 >= 0 {
            let p1 = pow2(e1 as nat);
            lemma_pow2_unfold((e1 + 1) as nat);
            lemma_significands();
            lemma_pow2_adds((e1 + 1) as nat, gap);
            let g = pow2(gap);
            assert(pow2(e2 as nat) == 2 * p1 * g);
            assert(d * (2 * p1 * g) * min >= d * p1 * (2 * min)) by (nonlinear_arith)
                requires
                    g >= 1,
            ;
            if e1 == 0 {
                assert(p1 == 1);
            }
        } else if e2 <= 0 {
            let k1 = (-e1) as nat;
            let k2 = (-e2) as nat;
            let q2 = pow2(k2);
            lemma_significands();
            lemma_pow2_unfold((k2 + 1) as nat);
            lemma_pow2_adds((k2 + 1) as nat, gap);
            let g = pow2(gap);
            assert(pow2(k1) == 2 * q2 * g);
            assert(e2 == 0 ==> n2 * q2 == n2) by (nonlinear_arith)
                requires
                    e2 == 0 ==> q2 == 1,
            ;
            assert(scaled_up(n2, e2) == n2 * q2);
            assert(n1 * (2 * q2 * g) >= 2 * (n2 * q2)) by (nonlinear_arith)
                requires
                    g >= 1,
                    n1 >= n2,
            ;
        } else {
            let q1 = pow2((-e1) as nat);
            let p2 = pow2(e2 as nat);
            lemma_significands();
            lemma_pow2_unfold((-e1) as nat);
            lemma_pow2_unfold(e2 as nat);
            lemma_pow2_pos((-e1 - 1) as nat);
            lemma_pow2_pos((e2 - 1) as nat);
            assert(n1 * q1 >= 2 * n1) by (nonlinear_arith)
                requires
                    q1 >= 2,
            ;
            assert(d * p2 * min >= d * (2 * min)) by (nonlinear_arith)
                requires
                    p2 >= 2,
            ;
        }
    }
}

/// A positive fraction lies in the range of one exponent only, which is the one
/// that its nearest double has.
pub proof fn law_binade_is_unique(n: nat, d: nat, e: int)
    requires
        d > 0,
        in_binade(n, d, e),
    ensures
        binade(n, d) == e,
{
    lemma_binade_order(n, n, d, e, binade(n, d));
    lemma_binade_order(n, n, d, binade(n, d), e);
}

/// A positive fraction lies in the range of some exponent.
proof fn lemma_binade_exists(n: nat, d: nat) -> (e: int)
    requires
        n > 0,
        d > 0,
    ensures
        in_binade(n, d, e),
        n < d * SIGNIFICAND_END ==> e <= 0,
        n >= d * SIGNIFICAND_MIN ==> e >= 0,
    decreases
            if n < d * SIGNIFICAND_MIN {
                d * SIGNIFICAND_MIN - n
            } else if n >= d * SIGNIFICAND_END {
                n - d * SIGNIFICAND_END + 1
            } else {
                0
            },
{
    if n < d * SIGNIFICAND_MIN {
        let e = lemma_binade_exists(2 * n, d);
        let k = (-e) as nat;
        lemma_significands();
        lemma_pow2_unfold(k + 1);
        assert((2 * n) * pow2(k) == n * (2 * pow2(k))) by (nonlinear_arith);
        assert(e == 0 ==> (2 * n) * pow2(k) == 2 * n) by (nonlinear_arith)
            requires
                e == 0 ==> pow2(k) == 1,
        ;
        e - 1
    } else if n >= d * SIGNIFICAND_END {
        let e = lemma_binade_exists(n, 2 * d);
        let k = e as nat;
        lemma_significands();
        lemma_pow2_unfold(k + 1);
        assert((2 * d) * pow2(k) == d * (2 * pow2(k))) by (nonlinear_arith);
        assert(e == 0 ==> (2 * d) * pow2(k) == 2 * d) by (nonlinear_arith)
            requires
                e == 0 ==> pow2(k) == 1,
        ;
        e + 1
    } else {
        0
    }
}

/// An integer below two to the power of 53 is a double: converting it changes
/// nothing.
pub proof fn law_small_integers_are_doubles(n: nat)
    requires
        n < SIGNIFICAND_END,
    ensures
        converted(n) == n,
{
    if n > 0 {
        let e = lemma_binade_exists(n, 1);
        law_binade_is_unique(n, 1, e);
        let p = pow2((-e) as nat);
        lemma_significands();
        lemma_pow2_pos((-e) as nat);
        assert(round_half_even(n * p, 1) == n * p);
        vstd::arithmetic::div_mod::lemma_div_by_multiple(n as int, p as int);
    }
}

/// `n / d` rounded to the nearest integer, a tie to the even one.
fn rounded_quotient(n: u128, d: u128) -> (r: u128)
    requires
        n < 0x8000_0000_0000_0000_0000_0000_0000_0000,
        0 < d < 0x8000_0000_0000_0000_0000_0000_0000_0000,
    ensures
        r == round_half_even(n as nat, d as nat),
{
    let down = n / d;
    let rest = n % d;
    proof {
        vstd::arithmetic::div_mod::lemma_div_nonincreasing(n as int, d as int);
    }
    if 2 * rest < d || (2 * rest == d && down % 2 == 0) {
        down
    } else {
        down + 1
    }
}

/// Two to the power of `k`.
fn power_of_two(k: u32) -> (r: u128)
    requires
        k < 128,
    ensures
        r == pow2(k as nat),
{
    let mut r: u128 = 1;
    let mut i: u32 = 0;
    proof {
        lemma_significands();
    }
    while i < k
        invariant
            i <= k < 128,
            r == pow2(i as nat),
        decreases k - i,
    {
        proof {
            lemma_pow2_unfold((i + 1) as nat);
            lemma_pow2_below_128((i + 1) as nat);
        }
        r = 2 * r;
        i = i + 1;
    }
    r
}

proof fn lemma_pow2_below_128(k: nat)
    requires
        k < 128,
    ensures
        pow2(k) <= 0x8000_0000_0000_0000_0000_0000_0000_0000,
{
    lemma2_to64_rest();
    lemma_pow2_adds(63, 64);
    if k < 127 {
        lemma_pow2_strictly_increases(k, 127);
    }
}

/// A non-negative number in double precision.
#[derive(Clone, Copy, Debug, PartialEq, Eq, Structural)]
pub struct Binary64 {
    significand: u64,
    exponent: i32,
}

impl View for Binary64 {
    type V = Double;

    closed spec fn view(&self) -> Double {
        Double { significand: self.significand as nat, exponent: self.exponent as int }
    }
}

impl Binary64 {
    /// The range of a quotient of a 64-bit integer by an integer of at most 53 bits.
    pub closed spec fn well_formed(self) -> bool {
        &&& self.significand <= SIGNIFICAND_END
        &&& -106 <= self.exponent <= 12
    }

    /// The double nearest to `n / d`.
    #[verifier::spinoff_prover]
    #[verifier::rlimit(40)]
    fn nearest(n: u128, d: u128) -> (r: Self)
        requires
            n <= 0x1_0000_0000_0000_0000,
            0 < d <= SIGNIFICAND_END,
        ensures
            r@ == nearest(n as nat, d as nat),
            r.well_formed(),
            n > 0 ==> in_binade(n as nat, d as nat, r@.exponent),
    {
        if n == 0 {
            return Binary64 { significand: 0, exponent: 0 };
        }
        let min: u128 = SIGNIFICAND_MIN as u128;
        let end: u128 = SIGNIFICAND_END as u128;
        let mut a: u128 = n;
        let mut b: u128 = d;
        let mut e: i32 = 0;
        proof {
            lemma_significands();
            lemma_pow2_adds(53, 53);
        }
        if n < d * min {
            while a < b * min
                invariant
                    min == SIGNIFICAND_MIN,
                    b == d,
                    0 < d <= SIGNIFICAND_END,
                    -106 <= e <= 0,
                    n > 0,
                    a == n * pow2((-e) as nat),
                    n <= a < d * SIGNIFICAND_END,
                decreases d * SIGNIFICAND_END - a,
            {
                proof {
                    let k = (-e) as nat;
                    lemma_significands();
                    lemma_pow2_adds(53, 53);
                    lemma_pow2_unfold(k + 1);
                    assert(a >= pow2(k)) by (nonlinear_arith)
                        requires
                            a == n * pow2(k),
                            n >= 1,
                    ;
                    assert(n * (2 * pow2(k)) == 2 * (n * pow2(k))) by (nonlinear_arith);
                }
                a = 2 * a;
                e = e - 1;
            }
            assert(e == 0 ==> n * pow2(0) == n) by (nonlinear_arith)
                requires
                    pow2(0) == 1,
            ;
        } else {
            while a >= b * end
                invariant
                    end == SIGNIFICAND_END,
                    a == n,
                    n <= 0x1_0000_0000_0000_0000,
                    0 <= e <= 12,
                    0 < d,
                    b == d * pow2(e as nat),
                    0 < b <= 0x1_0000_0000_0000_0000,
                    b * SIGNIFICAND_MIN <= a,
                decreases a - b,
            {
                proof {
                    let k = e as nat;
                    lemma_significands();
                    lemma_pow2_unfold(k + 1);
                    assert(d * (2 * pow2(k)) == 2 * (d * pow2(k))) by (nonlinear_arith);
                    assert(b >= pow2(k)) by (nonlinear_arith)
                        requires
                            b == d * pow2(k),
                            d >= 1,
                    ;
                    if e == 12 {
                        lemma2_to64();
                    }
                }
                b = 2 * b;
                e = e + 1;
            }
            assert(e == 0 ==> d * pow2(0) == d) by (nonlinear_arith)
                requires
                    pow2(0) == 1,
            ;
        }
        proof {
            assert(scaled_up(n as nat, e as int) == a);
            assert(scaled_up(d as nat, -e as int) == b);
            law_binade_is_unique(n as nat, d as nat, e as int);
            lemma_rounded_significand(a as nat, b as nat);
        }
        let significand = rounded_quotient(a, b) as u64;
        Binary64 { significand, exponent: e }
    }

    /// The integer value of `n` converted to a double.
    fn convert(n: u64) -> (r: u128)
        ensures
            r == converted(n as nat),
            r <= 0x1_0000_0000_0000_0000,
    {
        if n < SIGNIFICAND_END {
            proof {
                law_small_integers_are_doubles(n as nat);
            }
            return n as u128;
        }
        let x = Self::nearest(n as u128, 1);
        proof {
            let e = x.exponent as int;
            lemma_significands();
            if e < 0 {
                lemma_pow2_pos((-e) as nat);
                assert(n * pow2((-e) as nat) >= n) by (nonlinear_arith)
                    requires
                        pow2((-e) as nat) >= 1,
                ;
            }
            assert(e > 0);
            let m = x.significand as nat;
            let p = pow2(e as nat);
            lemma2_to64();
            if e < 11 {
                lemma_pow2_strictly_increases(e as nat, 11);
            }
            assert(m * p <= SIGNIFICAND_END * 2048) by (nonlinear_arith)
                requires
                    m <= SIGNIFICAND_END,
                    p <= 2048,
            ;
            assert(x@.denominator() == 1);
        }
        (x.significand as u128) * power_of_two(x.exponent as u32)
    }

    /// The double that `n` divided by `d` gives in double precision.
    pub fn quotient(n: u64, d: u64) -> (r: Self)
        requires
            0 < d <= SIGNIFICAND_END,
        ensures
            r@ == quotient(n as nat, d as nat),
            r.well_formed(),
    {
        Self::nearest(Self::convert(n), d as u128)
    }

    /// The number in units of `10^-places`.
    fn units(self, places: u32) -> (r: u128)
        requires
            self.well_formed(),
            places <= 18,
        ensures
            r == self@.units(places as nat),
    {
        let mut scale: u128 = 1;
        let mut i: u32 = 0;
        while i < places
            invariant
                i <= places <= 18,
                scale == decimal::power_of_ten(i as nat),
                scale <= 1_000_000_000_000_000_000,
            decreases places - i,
        {
            proof {
                decimal::lemma_power_of_ten_at_most((i + 1) as nat, 18);
                assert(decimal::power_of_ten(18) == 1_000_000_000_000_000_000) by {
                    reveal_with_fuel(decimal::power_of_ten, 19);
                }
            }
            scale = 10 * scale;
            i = i + 1;
        }
        let ghost bound = SIGNIFICAND_END * 1_000_000_000_000_000_000;
        proof {
            let m = self.significand as nat;
            let s = scale as nat;
            let e = self.exponent as int;
            assert(m * s <= bound) by (nonlinear_arith)
                requires
                    m <= SIGNIFICAND_END,
                    s <= 1_000_000_000_000_000_000,
                    bound == SIGNIFICAND_END * 1_000_000_000_000_000_000,
            ;
            lemma_significands();
            if e >= 0 {
                let p = pow2(e as nat);
                lemma2_to64();
                if e < 12 {
                    lemma_pow2_strictly_increases(e as nat, 12);
                }
                assert((m * s) * p <= bound * 4096) by (nonlinear_arith)
                    requires
                        m * s <= bound,
                        p <= 4096,
                ;
                assert((m * s) * p == (m * p) * s) by (nonlinear_arith);
                assert(e == 0 ==> m * p == m) by (nonlinear_arith)
                    requires
                        e == 0 ==> p == 1,
                ;
            } else {
                lemma_pow2_strictly_increases((-e) as nat, 127);
                lemma_pow2_below_128(127);
                lemma_pow2_pos((-e) as nat);
            }
        }
        let tens = (self.significand as u128) * scale;
        if self.exponent < 0 {
            rounded_quotient(tens, power_of_two((-self.exponent) as u32))
        } else {
            rounded_quotient(tens * power_of_two(self.exponent as u32), 1)
        }
    }

    /// The number with `places` decimals: its exact value rounded to the nearest
    /// decimal, a tie to the one with the even last digit.
    pub fn format(self, places: u32) -> (text: String)
        requires
            self.well_formed(),
            places <= 18,
        ensures
            text@ == self@.text(places as nat),
    {
        decimal::format_fixed(self.units(places), places)
    }
}

/// The significand of a double in its range does not exceed the end of the range.
proof fn lemma_rounded_significand(a: nat, b: nat)
    requires
        b > 0,
        b * SIGNIFICAND_MIN <= a < b * SIGNIFICAND_END,
    ensures
        SIGNIFICAND_MIN <= round_half_even(a, b) <= SIGNIFICAND_END,
{
    vstd::arithmetic::div_mod::lemma_fundamental_div_mod(a as int, b as int);
    let q = a / b;
    assert(SIGNIFICAND_MIN <= q < SIGNIFICAND_END) by (nonlinear_arith)
        requires
            b * SIGNIFICAND_MIN <= a < b * SIGNIFICAND_END,
            a == b * q + a % b,
            0 <= a % b < b,
    ;
}

/// Rounding keeps the order of fractions, `a / b <= c / d`.
proof fn lemma_rounding_keeps_order(a: nat, b: nat, c: nat, d: nat)
    requires
        b > 0,
        d > 0,
        a * d <= c * b,
    ensures
        round_half_even(a, b) <= round_half_even(c, d),
{
    let (q1, r1) = (a / b, a % b);
    let (q2, r2) = (c / d, c % d);
    vstd::arithmetic::div_mod::lemma_fundamental_div_mod(a as int, b as int);
    vstd::arithmetic::div_mod::lemma_fundamental_div_mod(c as int, d as int);
    assert(q1 * (b * d) + r1 * d <= q2 * (b * d) + r2 * b) by (nonlinear_arith)
        requires
            a * d <= c * b,
            a == b * q1 + r1,
            c == d * q2 + r2,
    ;
    assert(q1 <= q2) by (nonlinear_arith)
        requires
            q1 * (b * d) + r1 * d <= q2 * (b * d) + r2 * b,
            r2 < d,
            b > 0,
            d > 0,
    ;
    if q1 == q2 {
        assert(2 * r1 > b ==> 2 * r2 > d) by (nonlinear_arith)
            requires
                r1 * d <= r2 * b,
                b > 0,
                d > 0,
        ;
        assert(2 * r1 == b ==> 2 * r2 >= d) by (nonlinear_arith)
            requires
                r1 * d <= r2 * b,
                b > 0,
                d > 0,
        ;
    }
}

/// A multiple is rounded to its factor.
proof fn lemma_rounding_of_multiple(m: nat, d: nat)
    requires
        d > 0,
    ensures
        round_half_even(m * d, d) == m,
{
    vstd::arithmetic::div_mod::lemma_fundamental_div_mod_converse(
        (m * d) as int,
        d as int,
        m as int,
        0,
    );
}

/// An integer closer to the fraction than half a unit is what the fraction is
/// rounded to.
proof fn lemma_rounding_to_closest(n: nat, d: nat, m: nat)
    requires
        d > 0,
        2 * n < 2 * (m * d) + d,
        2 * (m * d) < 2 * n + d,
    ensures
        round_half_even(n, d) == m,
{
    if n >= m * d {
        let r = (n - m * d) as nat;
        vstd::arithmetic::div_mod::lemma_fundamental_div_mod_converse(
            n as int,
            d as int,
            m as int,
            r as int,
        );
    } else {
        assert(m > 0) by (nonlinear_arith)
            requires
                n < m * d,
        ;
        assert((m - 1) * d == m * d - d) by (nonlinear_arith);
        let r = (n - (m - 1) * d) as nat;
        vstd::arithmetic::div_mod::lemma_fundamental_div_mod_converse(
            n as int,
            d as int,
            m - 1,
            r as int,
        );
    }
}

/// What is known of the double nearest to a positive fraction.
proof fn lemma_nearest(n: nat, d: nat)
    requires
        n > 0,
        d > 0,
    ensures
        in_binade(n, d, nearest(n, d).exponent),
        SIGNIFICAND_MIN <= nearest(n, d).significand <= SIGNIFICAND_END,
        nearest(n, d).denominator() > 0,
{
    let e = lemma_binade_exists(n, d);
    law_binade_is_unique(n, d, e);
    if e < 0 {
        lemma_pow2_pos((-e) as nat);
    } else {
        lemma_pow2_pos(e as nat);
    }
    assert(scaled_up(d, -e) > 0) by (nonlinear_arith)
        requires
            d > 0,
            scaled_up(d, -e) == d || scaled_up(d, -e) == d * pow2(e as nat),
            e > 0 ==> pow2(e as nat) > 0,
            e <= 0 ==> scaled_up(d, -e) == d,
    ;
    lemma_rounded_significand(scaled_up(n, e), scaled_up(d, -e));
}

/// Whether the double `x` is at most the double `y`.
pub open spec fn at_most(x: Double, y: Double) -> bool {
    x.numerator() * y.denominator() <= y.numerator() * x.denominator()
}

/// A double of a lower exponent is at most one of a higher exponent.
proof fn lemma_exponents_order_doubles(x: Double, y: Double)
    requires
        x.exponent < y.exponent,
        x.significand <= SIGNIFICAND_END,
        SIGNIFICAND_MIN <= y.significand,
    ensures
        at_most(x, y),
{
    let (m1, e1) = (x.significand, x.exponent);
    let (m2, e2) = (y.significand, y.exponent);
    let min = SIGNIFICAND_MIN as nat;
    let gap = (e2 - e1 - 1) as nat;
    let g = pow2(gap);
    let (a, b, c, d) = (x.numerator(), x.denominator(), y.numerator(), y.denominator());
    lemma_pow2_pos(gap);
    lemma_significands();
    if e1 >= 0 {
        let p1 = pow2(e1 as nat);
        lemma_pow2_unfold((e1 + 1) as nat);
        lemma_pow2_adds((e1 + 1) as nat, gap);
        assert(pow2(e2 as nat) == 2 * p1 * g);
        assert(m1 * p1 <= m2 * (2 * p1 * g)) by (nonlinear_arith)
            requires
                m1 <= 2 * min,
                min <= m2,
                g >= 1,
        ;
        assert(e1 == 0 ==> m1 * p1 == m1) by (nonlinear_arith)
            requires
                e1 == 0 ==> p1 == 1,
        ;
        assert(a * d <= c * b) by (nonlinear_arith)
            requires
                a <= c,
                b == 1,
                d == 1,
        ;
    } else if e2 < 0 {
        let k2 = (-e2) as nat;
        let q2 = pow2(k2);
        lemma_pow2_unfold((k2 + 1) as nat);
        lemma_pow2_adds((k2 + 1) as nat, gap);
        assert(pow2((-e1) as nat) == 2 * q2 * g);
        assert(m1 * q2 <= m2 * (2 * q2 * g)) by (nonlinear_arith)
            requires
                m1 <= 2 * min,
                min <= m2,
                g >= 1,
        ;
    } else {
        let q1 = pow2((-e1) as nat);
        let n2 = y.numerator();
        lemma_pow2_unfold((-e1) as nat);
        lemma_pow2_pos((-e1 - 1) as nat);
        lemma_pow2_pos(e2 as nat);
        assert(n2 >= m2) by (nonlinear_arith)
            requires
                n2 == m2 || n2 == m2 * pow2(e2 as nat),
                pow2(e2 as nat) >= 1,
        ;
        assert(m1 <= n2 * q1) by (nonlinear_arith)
            requires
                m1 <= 2 * min,
                min <= n2,
                q1 >= 2,
        ;
        assert(a * d <= c * b) by (nonlinear_arith)
            requires
                a <= c * b,
                d == 1,
        ;
    }
}

/// Rounding to a double keeps the order of fractions with one denominator.
proof fn lemma_nearest_keeps_order(n1: nat, n2: nat, d: nat)
    requires
        d > 0,
        n1 <= n2,
    ensures
        at_most(nearest(n1, d), nearest(n2, d)),
{
    let (x, y) = (nearest(n1, d), nearest(n2, d));
    if n1 > 0 {
        lemma_nearest(n1, d);
        lemma_nearest(n2, d);
        lemma_binade_order(n2, n1, d, y.exponent, x.exponent);
        if x.exponent < y.exponent {
            lemma_exponents_order_doubles(x, y);
        } else {
            let e = x.exponent;
            let (a, c, b) = (scaled_up(n1, e), scaled_up(n2, e), scaled_up(d, -e));
            let p = pow2(if e < 0 { (-e) as nat } else { e as nat });
            assert(n1 * p <= n2 * p) by (nonlinear_arith)
                requires
                    n1 <= n2,
            ;
            assert(a <= c);
            assert(a * b <= c * b) by (nonlinear_arith)
                requires
                    a <= c,
            ;
            lemma_rounding_keeps_order(a, b, c, b);
            let (m1, m2) = (x.significand, y.significand);
            assert(m1 * p <= m2 * p) by (nonlinear_arith)
                requires
                    m1 <= m2,
            ;
            let (u, v, w) = (x.numerator(), y.numerator(), x.denominator());
            assert(u * w <= v * w) by (nonlinear_arith)
                requires
                    u <= v,
            ;
        }
    } else {
        let (u, v, w) = (y.denominator(), y.numerator(), x.denominator());
        assert(0 * u <= v * w) by (nonlinear_arith);
        assert(x.numerator() == 0);
    }
}

/// A larger dividend never gives a smaller quotient, nor a smaller printed figure.
pub proof fn law_quotient_keeps_order(n1: nat, n2: nat, d: nat, places: nat)
    requires
        d > 0,
        n1 <= n2,
    ensures
        at_most(quotient(n1, d), quotient(n2, d)),
        quotient(n1, d).units(places) <= quotient(n2, d).units(places),
{
    lemma_nearest_keeps_order(n1, n2, 1);
    lemma_denominator_positive(nearest(n1, 1));
    lemma_denominator_positive(nearest(n2, 1));
    let (x, y) = (nearest(n1, 1), nearest(n2, 1));
    lemma_floor_keeps_order(x.numerator(), x.denominator(), y.numerator(), y.denominator());
    lemma_nearest_keeps_order(converted(n1), converted(n2), d);
    let (u, v) = (quotient(n1, d), quotient(n2, d));
    lemma_denominator_positive(u);
    lemma_denominator_positive(v);
    let s = decimal::power_of_ten(places);
    let (a, b, c, e) = (u.numerator(), u.denominator(), v.numerator(), v.denominator());
    assert((a * s) * e <= (c * s) * b) by (nonlinear_arith)
        requires
            a * e <= c * b,
    ;
    lemma_rounding_keeps_order(a * s, b, c * s, e);
}

proof fn lemma_denominator_positive(x: Double)
    ensures
        x.denominator() > 0,
{
    if x.exponent < 0 {
        lemma_pow2_pos((-x.exponent) as nat);
    }
}

proof fn lemma_floor_keeps_order(a: nat, b: nat, c: nat, d: nat)
    requires
        b > 0,
        d > 0,
        a * d <= c * b,
    ensures
        a / b <= c / d,
{
    let (q1, r1) = (a / b, a % b);
    let (q2, r2) = (c / d, c % d);
    vstd::arithmetic::div_mod::lemma_fundamental_div_mod(a as int, b as int);
    vstd::arithmetic::div_mod::lemma_fundamental_div_mod(c as int, d as int);
    assert(q1 <= q2) by (nonlinear_arith)
        requires
            a * d <= c * b,
            a == b * q1 + r1,
            c == d * q2 + r2,
            r2 < d,
            b > 0,
            d > 0,
    ;
}

/// Whether the integer `p` is `significand * 2^exponent`.
pub open spec fn is_double(p: nat, significand: nat, exponent: int) -> bool {
    scaled_up(p, exponent) == scaled_up(significand, -exponent)
}

/// Dividing a double by a power of two changes its exponent alone.
#[verifier::spinoff_prover]
#[verifier::rlimit(40)]
proof fn lemma_nearest_of_double(p: nat, k: nat, m: nat, e: int)
    requires
        SIGNIFICAND_MIN <= m < SIGNIFICAND_END,
        is_double(p, m, e),
    ensures
        nearest(p, pow2(k)) == (Double { significand: m, exponent: e - k }),
        nearest(p, pow2(k)).numerator() * pow2(k) == p * nearest(p, pow2(k)).denominator(),
{
    let f = e - k;
    let c = scaled_up(pow2(k), -f);
    lemma_significands();
    lemma_pow2_pos(k);
    if f >= 0 {
        let (pf, pk, pe) = (pow2(f as nat), pow2(k), pow2(e as nat));
        lemma_pow2_pos(f as nat);
        lemma_pow2_adds(k, f as nat);
        assert(pk * pf == pe);
        assert(f == 0 ==> pk * pf == pk) by (nonlinear_arith)
            requires
                f == 0 ==> pf == 1,
        ;
        assert(e == 0 ==> m * pe == m) by (nonlinear_arith)
            requires
                e == 0 ==> pe == 1,
        ;
        assert(p == m * c);
        assert((m * pf) * pk == m * (pk * pf)) by (nonlinear_arith);
    } else {
        let pk = pow2(k);
        let pf = pow2((-f) as nat);
        lemma_pow2_pos((-f) as nat);
        if e >= 0 {
            let pe = pow2(e as nat);
            lemma_pow2_adds(e as nat, (-f) as nat);
            assert(e == 0 ==> m * pe == m) by (nonlinear_arith)
                requires
                    e == 0 ==> pe == 1,
            ;
            assert((m * pe) * pf == m * (pe * pf)) by (nonlinear_arith);
            assert(p * pf == m * pk);
        } else {
            let pe = pow2((-e) as nat);
            lemma_pow2_adds((-e) as nat, k);
            assert(p * (pe * pk) == (p * pe) * pk) by (nonlinear_arith);
            assert(p * pf == m * pk);
        }
    }
    assert(scaled_up(p, f) == m * c);
    assert(c > 0) by {
        if f > 0 {
            let (pk, pf) = (pow2(k), pow2(f as nat));
            assert(pk * pf > 0) by (nonlinear_arith)
                requires
                    pk > 0,
                    pf > 0,
            ;
        }
    }
    assert(c * SIGNIFICAND_MIN <= m * c < c * SIGNIFICAND_END) by (nonlinear_arith)
        requires
            SIGNIFICAND_MIN <= m < SIGNIFICAND_END,
            c > 0,
    ;
    law_binade_is_unique(p, pow2(k), f);
    assert(p > 0) by {
        if p == 0 {
            assert(p * pow2((-f) as nat) == 0) by (nonlinear_arith)
                requires
                    p == 0,
            ;
        }
    }
    lemma_rounding_of_multiple(m, c);
    let x = nearest(p, pow2(k));
    if f >= 0 {
        let pf = pow2(f as nat);
        assert(f == 0 ==> m * pf == m) by (nonlinear_arith)
            requires
                f == 0 ==> pf == 1,
        ;
        let w = x.denominator();
        assert(p * w == p) by (nonlinear_arith)
            requires
                w == 1,
        ;
    }
}

/// Dividing by a power of two is exact: the quotient is the converted dividend
/// over that power, with nothing rounded.
pub proof fn law_dividing_by_a_power_of_two_is_exact(n: nat, k: nat)
    ensures
        quotient(n, pow2(k)).numerator() * pow2(k) == converted(n) * quotient(
            n,
            pow2(k),
        ).denominator(),
{
    let x = nearest(n, 1);
    let p = converted(n);
    let (m, e) = (x.significand, x.exponent);
    lemma_significands();
    if n == 0 {
        let (u, v, w) = (pow2(k), quotient(n, pow2(k)).numerator(), quotient(n, pow2(k)).denominator());
        assert(v * u == p * w) by (nonlinear_arith)
            requires
                v == 0,
                p == 0,
        ;
    } else {
        lemma_nearest(n, 1);
        if e < 0 {
            let pe = pow2((-e) as nat);
            lemma_pow2_pos((-e) as nat);
            assert(n <= n * pe) by (nonlinear_arith)
                requires
                    pe >= 1,
            ;
            law_small_integers_are_doubles(n);
            lemma_nearest_of_double(p, k, m, e);
        } else if m < SIGNIFICAND_END {
            assert(p == x.numerator()) by {
                vstd::arithmetic::div_mod::lemma_div_basics(x.numerator() as int);
            }
            lemma_nearest_of_double(p, k, m, e);
        } else {
            lemma_pow2_unfold((e + 1) as nat);
            let (pe, pf) = (pow2(e as nat), pow2((e + 1) as nat));
            assert(m * pe == SIGNIFICAND_MIN * pf) by (nonlinear_arith)
                requires
                    m == 2 * SIGNIFICAND_MIN,
                    pf == 2 * pe,
            ;
            assert(p == x.numerator()) by {
                vstd::arithmetic::div_mod::lemma_div_basics(x.numerator() as int);
            }
            lemma_nearest_of_double(p, k, SIGNIFICAND_MIN as nat, e + 1);
        }
    }
}

/// A figure that divides by a power of two shows the converted dividend over that
/// power, rounded once.
pub proof fn law_figure_over_a_power_of_two(n: nat, k: nat, places: nat)
    ensures
        quotient(n, pow2(k)).units(places) == round_half_even(
            converted(n) * decimal::power_of_ten(places),
            pow2(k),
        ),
{
    law_dividing_by_a_power_of_two_is_exact(n, k);
    let x = quotient(n, pow2(k));
    let (a, b, p, s) = (x.numerator(), x.denominator(), converted(n), decimal::power_of_ten(places));
    let q = pow2(k);
    lemma_denominator_positive(x);
    lemma_pow2_pos(k);
    assert((a * s) * q == (p * s) * b) by (nonlinear_arith)
        requires
            a * q == p * b,
    ;
    lemma_rounding_keeps_order(a * s, b, p * s, q);
    lemma_rounding_keeps_order(p * s, q, a * s, b);
}

/// Rounding moves a fraction by half a unit at most.
pub proof fn law_rounding_moves_by_half_a_unit(n: nat, d: nat)
    requires
        d > 0,
    ensures
        2 * n <= 2 * (round_half_even(n, d) * d) + d,
        2 * (round_half_even(n, d) * d) <= 2 * n + d,
{
    let (q, r) = (n / d, n % d);
    vstd::arithmetic::div_mod::lemma_fundamental_div_mod(n as int, d as int);
    assert(q * d == d * q) by (nonlinear_arith);
    assert((q + 1) * d == q * d + d) by (nonlinear_arith);
}

/// A quotient that has no more than `places` decimals is printed as it is, as long
/// as it makes fewer than `2^52` units of `10^-places`.
pub proof fn law_short_decimals_are_exact(n: nat, d: nat, places: nat, units: nat)
    requires
        d > 0,
        n < SIGNIFICAND_END,
        units * d == n * decimal::power_of_ten(places),
        units < SIGNIFICAND_MIN,
    ensures
        quotient(n, d).units(places) == units,
{
    let t = decimal::power_of_ten(places);
    decimal::lemma_power_of_ten_at_most(0, places);
    law_small_integers_are_doubles(n);
    if n == 0 {
        assert(units == 0) by (nonlinear_arith)
            requires
                units * d == n * t,
                n == 0,
                d > 0,
        ;
        assert(0 * t == 0) by (nonlinear_arith);
        assert(round_half_even(0, 1) == 0);
    } else {
        lemma_nearest(n, d);
        let e = quotient(n, d).exponent;
        let min = SIGNIFICAND_MIN as nat;
        assert(n * t < d * min) by (nonlinear_arith)
            requires
                units * d == n * t,
                units < min,
                d > 0,
        ;
        assert(n <= n * t) by (nonlinear_arith)
            requires
                t >= 1,
        ;
        if e >= 0 {
            lemma_pow2_pos(e as nat);
            let c = scaled_up(d, -e);
            assert(c * min >= d * min) by (nonlinear_arith)
                requires
                    c == d || c == d * pow2(e as nat),
                    pow2(e as nat) >= 1,
            ;
        }
        let k = pow2((-e) as nat);
        let a = n * k;
        let m = quotient(n, d).significand;
        assert(t < k) by (nonlinear_arith)
            requires
                n * t < d * min,
                d * min <= n * k,
        ;
        law_rounding_moves_by_half_a_unit(a, d);
        assert(2 * (m * t) < 2 * (units * k) + k && 2 * (units * k) < 2 * (m * t) + k) by {
            let (x, y) = (m * t, units * k);
            assert(x * d == (m * d) * t) by (nonlinear_arith)
                requires
                    x == m * t,
            ;
            assert(y * d == a * t) by (nonlinear_arith)
                requires
                    y == units * k,
                    units * d == n * t,
                    a == n * k,
            ;
            let md = m * d;
            assert(2 * (md * t) <= 2 * (a * t) + d * t && 2 * (a * t) <= 2 * (md * t) + d * t)
                by (nonlinear_arith)
                requires
                    2 * md <= 2 * a + d,
                    2 * a <= 2 * md + d,
            ;
            assert(d * t < d * k) by (nonlinear_arith)
                requires
                    t < k,
                    d > 0,
            ;
            assert(2 * x < 2 * y + k && 2 * y < 2 * x + k) by (nonlinear_arith)
                requires
                    2 * (x * d) < 2 * (y * d) + d * k,
                    2 * (y * d) < 2 * (x * d) + d * k,
                    d > 0,
            ;
        }
        lemma_rounding_to_closest(m * t, k, units);
    }
}

/// A fraction halfway between two integers is rounded to the even one.
pub proof fn law_a_tie_goes_to_the_even_integer(n: nat, d: nat)
    requires
        d > 0,
        2 * n == 2 * (round_half_even(n, d) * d) + d || 2 * n + d == 2 * (round_half_even(n, d)
            * d),
    ensures
        round_half_even(n, d) % 2 == 0,
{
    let (q, r) = (n / d, n % d);
    vstd::arithmetic::div_mod::lemma_fundamental_div_mod(n as int, d as int);
    assert(q * d == d * q) by (nonlinear_arith);
    assert((q + 1) * d == q * d + d) by (nonlinear_arith);
}

/// A double is its significand times two to the power of its exponent, which makes it
/// an integer or a fraction over a power of two.
pub proof fn law_value_of_a_double(x: Double)
    ensures
        x.exponent >= 0 ==> x.denominator() == 1 && x.numerator() == x.significand * pow2(
            x.exponent as nat,
        ),
        x.exponent < 0 ==> x.numerator() == x.significand && x.denominator() == pow2(
            (-x.exponent) as nat,
        ),
{
    lemma_significands();
    let m = x.significand;
    assert(x.exponent == 0 ==> m * pow2(0) == m) by (nonlinear_arith)
        requires
            pow2(0) == 1,
    ;
}

/// The distance of two integers.
pub open spec fn distance(a: int, b: int) -> int {
    if a < b {
        b - a
    } else {
        a - b
    }
}

/// The scales of a fraction and of its range, brought to integers by `2^s`.
proof fn lemma_common_scale(n: nat, d: nat, e: int, s: nat) -> (q: nat)
    requires
        e + s >= 0,
    ensures
        n * pow2(s) == scaled_up(n, e) * q,
        d * pow2((e + s) as nat) == scaled_up(d, -e) * q,
        q > 0,
{
    lemma_significands();
    if e >= 0 {
        let (pe, ps) = (pow2(e as nat), pow2(s));
        lemma_pow2_pos(s);
        lemma_pow2_adds(e as nat, s);
        assert(d * (pe * ps) == (d * pe) * ps) by (nonlinear_arith);
        assert(e == 0 ==> d * pe == d) by (nonlinear_arith)
            requires
                e == 0 ==> pe == 1,
        ;
        ps
    } else {
        let (pe, pq) = (pow2((-e) as nat), pow2((e + s) as nat));
        lemma_pow2_pos((e + s) as nat);
        lemma_pow2_adds((-e) as nat, (e + s) as nat);
        assert(n * (pe * pq) == (n * pe) * pq) by (nonlinear_arith);
        pq
    }
}

/// Among the multiples of `c`, the rounded one is closest to `r`.
proof fn lemma_rounded_multiple_is_closest(m: nat, k: nat, c: nat, r: nat)
    requires
        c > 0,
        2 * r <= 2 * (m * c) + c,
        2 * (m * c) <= 2 * r + c,
    ensures
        distance((m * c) as int, r as int) <= distance((k * c) as int, r as int),
{
    if k < m {
        assert(k * c <= m * c - c) by (nonlinear_arith)
            requires
                k < m,
        ;
    } else if k > m {
        assert(k * c >= m * c + c) by (nonlinear_arith)
            requires
                k > m,
        ;
    }
}

/// The nearest double is nearest: no number `significand * 2^exponent` whose
/// significand has 53 bits is closer to `n / d`. Both numbers and the fraction are
/// compared in units of `2^-s`, for any `s` that makes the numbers integers.
#[verifier::spinoff_prover]
#[verifier::rlimit(40)]
pub proof fn law_no_double_is_closer(n: nat, d: nat, significand: nat, exponent: int, s: nat)
    requires
        n > 0,
        d > 0,
        significand < 0x20_0000_0000_0000,
        exponent + s >= 0,
        nearest(n, d).exponent + s >= 0,
    ensures
        distance(
            (d * (nearest(n, d).significand * pow2((nearest(n, d).exponent + s) as nat))) as int,
            (n * pow2(s)) as int,
        ) <= distance(
            (d * (significand * pow2((exponent + s) as nat))) as int,
            (n * pow2(s)) as int,
        ),
{
    let x = nearest(n, d);
    let (m, e) = (x.significand, x.exponent);
    let min = SIGNIFICAND_MIN as nat;
    lemma_significands();
    lemma_nearest(n, d);
    let q = lemma_common_scale(n, d, e, s);
    let (a, b) = (scaled_up(n, e), scaled_up(d, -e));
    assert(b > 0) by (nonlinear_arith)
        requires
            b * SIGNIFICAND_MIN <= a < b * SIGNIFICAND_END,
    ;
    law_rounding_moves_by_half_a_unit(a, b);
    let p = pow2((e + s) as nat);
    let c = d * p;
    let r = n * pow2(s);
    assert(2 * r <= 2 * (m * c) + c && 2 * (m * c) <= 2 * r + c) by {
        assert(m * (b * q) == (m * b) * q) by (nonlinear_arith);
        let mb = m * b;
        assert(2 * (a * q) <= 2 * (mb * q) + b * q && 2 * (mb * q) <= 2 * (a * q) + b * q)
            by (nonlinear_arith)
            requires
                2 * a <= 2 * mb + b,
                2 * mb <= 2 * a + b,
        ;
    }
    assert(c > 0) by (nonlinear_arith)
        requires
            c == b * q,
            b > 0,
            q > 0,
    ;
    assert(min * c <= r) by (nonlinear_arith)
        requires
            b * min <= a,
            c == b * q,
            r == a * q,
    ;
    assert(d * (m * p) == m * c) by (nonlinear_arith)
        requires
            c == d * p,
    ;
    let y = d * (significand * pow2((exponent + s) as nat));
    if exponent >= e {
        let g = pow2((exponent - e) as nat);
        lemma_pow2_adds((exponent - e) as nat, (e + s) as nat);
        let k = significand * g;
        assert(d * (significand * (g * p)) == k * c) by (nonlinear_arith)
            requires
                c == d * p,
                k == significand * g,
        ;
        lemma_rounded_multiple_is_closest(m, k, c, r);
    } else {
        let h = pow2((exponent + s) as nat);
        let gap = (e - exponent - 1) as nat;
        let g = pow2(gap);
        lemma_pow2_pos(gap);
        lemma_pow2_pos((exponent + s) as nat);
        lemma_pow2_adds(gap, (exponent + s) as nat);
        lemma_pow2_unfold((e + s) as nat);
        assert(p == 2 * (g * h));
        assert(significand * h <= min * p) by (nonlinear_arith)
            requires
                significand <= 2 * min,
                p == 2 * (g * h),
                g >= 1,
        ;
        assert(y <= min * c) by (nonlinear_arith)
            requires
                significand * h <= min * p,
                c == d * p,
                y == d * (significand * h),
        ;
        lemma_rounded_multiple_is_closest(m, min, c, r);
    }
}

/// Of two doubles that are equally close, the nearest double is the one with the even
/// significand.
pub proof fn law_the_nearest_double_is_even_in_a_tie(n: nat, d: nat, s: nat)
    requires
        n > 0,
        d > 0,
        nearest(n, d).exponent + s >= 0,
        ({
            let step = d * pow2((nearest(n, d).exponent + s) as nat);
            2 * distance(
                (nearest(n, d).significand * step) as int,
                (n * pow2(s)) as int,
            ) == step
        }),
    ensures
        nearest(n, d).significand % 2 == 0,
{
    let x = nearest(n, d);
    let (m, e) = (x.significand, x.exponent);
    lemma_nearest(n, d);
    let q = lemma_common_scale(n, d, e, s);
    let (a, b) = (scaled_up(n, e), scaled_up(d, -e));
    assert(b > 0) by (nonlinear_arith)
        requires
            b * SIGNIFICAND_MIN <= a < b * SIGNIFICAND_END,
    ;
    let mb = m * b;
    assert(m * (b * q) == mb * q) by (nonlinear_arith)
        requires
            mb == m * b,
    ;
    assert(2 * a == 2 * mb + b || 2 * a + b == 2 * mb) by (nonlinear_arith)
        requires
            2 * (a * q) == 2 * (mb * q) + b * q || 2 * (a * q) + b * q == 2 * (mb * q),
            q > 0,
    ;
    law_a_tie_goes_to_the_even_integer(a, b);
}

/// The significand of a nearest double has 53 bits, or is the power of two right above
/// them; only zero has the significand zero.
pub proof fn law_a_nearest_double_is_normal(n: nat, d: nat)
    requires
        d > 0,
    ensures
        n > 0 ==> 0x10_0000_0000_0000 <= nearest(n, d).significand <= 0x20_0000_0000_0000,
        n == 0 ==> nearest(n, d).significand == 0 && nearest(n, d).exponent == 0,
{
    if n > 0 {
        lemma_nearest(n, d);
    }
}

/// An integer converted to a double is the nearest double, which is an integer too.
pub proof fn law_conversion_gives_the_nearest_double(n: nat)
    ensures
        converted(n) * nearest(n, 1).denominator() == nearest(n, 1).numerator(),
{
    let x = nearest(n, 1);
    let (c, u, w) = (converted(n), x.numerator(), x.denominator());
    law_value_of_a_double(x);
    if x.exponent >= 0 {
        vstd::arithmetic::div_mod::lemma_div_basics(u as int);
        assert(c * w == c) by (nonlinear_arith)
            requires
                w == 1,
        ;
    }
    if n > 0 {
        lemma_nearest(n, 1);
        if x.exponent < 0 {
            let pe = pow2((-x.exponent) as nat);
            lemma_significands();
            lemma_pow2_pos((-x.exponent) as nat);
            assert(n <= n * pe) by (nonlinear_arith)
                requires
                    pe >= 1,
            ;
            law_small_integers_are_doubles(n);
            assert(round_half_even(n * pe, 1) == n * pe);
        }
    }
}

/// No double is closer to the converted dividend over the divisor than the quotient.
pub proof fn law_no_double_is_closer_than_the_quotient(
    n: nat,
    d: nat,
    significand: nat,
    exponent: int,
    s: nat,
)
    requires
        converted(n) > 0,
        d > 0,
        significand < 0x20_0000_0000_0000,
        exponent + s >= 0,
        quotient(n, d).exponent + s >= 0,
    ensures
        distance(
            (d * (quotient(n, d).significand * pow2((quotient(n, d).exponent + s) as nat))) as int,
            (converted(n) * pow2(s)) as int,
        ) <= distance(
            (d * (significand * pow2((exponent + s) as nat))) as int,
            (converted(n) * pow2(s)) as int,
        ),
        quotient(n, d) == nearest(converted(n), d),
{
    law_no_double_is_closer(converted(n), d, significand, exponent, s);
}

/// The decimals of a figure: its units are those closest to the exact value of the
/// double, and the even ones of two that are equally close.
pub proof fn law_units_are_closest_to_the_double(x: Double, places: nat)
    ensures
        ({
            let exact = x.numerator() * decimal::power_of_ten(places);
            let shown = x.units(places) * x.denominator();
            &&& 2 * distance(shown as int, exact as int) <= x.denominator()
            &&& 2 * distance(shown as int, exact as int) == x.denominator() ==> x.units(places) % 2
                == 0
        }),
{
    lemma_denominator_positive(x);
    let exact = x.numerator() * decimal::power_of_ten(places);
    law_rounding_moves_by_half_a_unit(exact, x.denominator());
    let shown = x.units(places) * x.denominator();
    if 2 * distance(shown as int, exact as int) == x.denominator() {
        law_a_tie_goes_to_the_even_integer(exact, x.denominator());
    }
}

/// The text of a figure shows its units: a plain number, and with decimals the point
/// and exactly that many digits.
pub proof fn law_text_shows_the_units(x: Double, places: nat)
    ensures
        places == 0 ==> decimal::is_plain_number(x.text(0)) && decimal::number(x.text(0))
            == x.units(0),
        places > 0 ==> ({
            let text = x.text(places);
            let point = text.len() - places - 1;
            &&& point > 0
            &&& text[point] == '.'
            &&& decimal::is_plain_number(text.take(point))
            &&& forall|i: int| point < i < text.len() ==> '0' <= #[trigger] text[i] <= '9'
            &&& decimal::number(text.take(point)) * decimal::power_of_ten(places)
                + decimal::number(text.skip(point + 1)) == x.units(places)
        }),
{
    decimal::law_fixed_point_has_the_point_in_place(x.units(places), places);
}

} // verus!
