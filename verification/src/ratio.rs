use vstd::prelude::*;

verus! {

/// The greatest common divisor, by Euclid's algorithm; `gcd(0, 0)` is 0.
pub open spec fn gcd(a: nat, b: nat) -> nat
    decreases b,
{
    if b == 0 {
        a
    } else {
        gcd(b, a % b)
    }
}

/// The absolute value.
pub open spec fn abs(x: int) -> nat {
    if x < 0 {
        (-x) as nat
    } else {
        x as nat
    }
}

/// Two fractions `a / b` and `c / d` (with non-zero denominators) are equal.
pub open spec fn same_value(a: int, b: int, c: int, d: int) -> bool {
    a * d == c * b
}

/// A non-negative rational number, always kept in lowest terms with a positive denominator.
#[derive(Debug, Clone, Copy, PartialEq, Eq, Hash, Structural)]
pub struct Ratio {
    numer: u32,
    denom: u32,
}

/// A signed rational number, always kept in lowest terms with a positive denominator.
#[derive(Debug, Clone, Copy, PartialEq, Eq, Hash, Structural)]
pub struct SignedRatio {
    numer: isize,
    denom: isize,
}

/// `num::rational::Ratio::<u32>::new`: the fraction `numer / denom` in lowest terms.
#[verifier::external_body]
fn reduce_u32(numer: u32, denom: u32) -> (r: Ratio)
    requires
        denom != 0,
    ensures
        r == Ratio::lowest(numer as int, denom as int),
{
    let x = num::rational::Ratio::new(numer, denom);
    Ratio { numer: *x.numer(), denom: *x.denom() }
}

/// `<num::rational::Ratio<u32> as Add>::add`: the sum in lowest terms. The sum is formed over
/// the least common multiple of the denominators, so the bounds below keep every intermediate
/// product within `u32`.
#[verifier::external_body]
fn add_u32(a: Ratio, b: Ratio) -> (r: Ratio)
    requires
        a.d() > 0,
        b.d() > 0,
        sum_fits(a, b),
    ensures
        r == Ratio::lowest(a.n() * b.d() + b.n() * a.d(), a.d() * b.d()),
{
    let x = num::rational::Ratio::new_raw(a.numer, a.denom) + num::rational::Ratio::new_raw(
        b.numer,
        b.denom,
    );
    Ratio { numer: *x.numer(), denom: *x.denom() }
}

/// `<num::rational::Ratio<u32> as Sub>::sub`: the difference in lowest terms; `b` must not
/// exceed `a`, since `u32` cannot hold a negative numerator.
#[verifier::external_body]
fn sub_u32(a: Ratio, b: Ratio) -> (r: Ratio)
    requires
        a.d() > 0,
        b.d() > 0,
        diff_fits(a, b),
    ensures
        r == Ratio::lowest(a.n() * b.d() - b.n() * a.d(), a.d() * b.d()),
{
    let x = num::rational::Ratio::new_raw(a.numer, a.denom) - num::rational::Ratio::new_raw(
        b.numer,
        b.denom,
    );
    Ratio { numer: *x.numer(), denom: *x.denom() }
}

/// `<num::rational::Ratio<u32> as Mul>::mul`: the product in lowest terms.
#[verifier::external_body]
fn mul_u32(a: Ratio, b: Ratio) -> (r: Ratio)
    requires
        a.d() > 0,
        b.d() > 0,
        prod_fits(a, b),
    ensures
        r == Ratio::lowest(a.n() * b.n(), a.d() * b.d()),
{
    let x = num::rational::Ratio::new_raw(a.numer, a.denom) * num::rational::Ratio::new_raw(
        b.numer,
        b.denom,
    );
    Ratio { numer: *x.numer(), denom: *x.denom() }
}

/// `<num::rational::Ratio<u32> as Mul<u32>>::mul`: the product with an integer in lowest terms.
#[verifier::external_body]
fn mul_int_u32(a: Ratio, t: u32) -> (r: Ratio)
    requires
        a.d() > 0,
        a.n() * t <= u32::MAX,
    ensures
        r == Ratio::lowest(a.n() * t, a.d()),
{
    let x = num::rational::Ratio::new_raw(a.numer, a.denom) * t;
    Ratio { numer: *x.numer(), denom: *x.denom() }
}

/// `<num::rational::Ratio<u32> as Div<u32>>::div`: the quotient by a non-zero integer in lowest
/// terms.
#[verifier::external_body]
fn div_int_u32(a: Ratio, t: u32) -> (r: Ratio)
    requires
        a.d() > 0,
        t != 0,
        a.d() * t <= u32::MAX,
    ensures
        r == Ratio::lowest(a.n(), a.d() * t),
{
    let x = num::rational::Ratio::new_raw(a.numer, a.denom) / t;
    Ratio { numer: *x.numer(), denom: *x.denom() }
}

/// `<num::rational::Ratio<u32> as Rem<u32>>::rem`: what remains of `a` after taking away as
/// many whole `t` as fit, in lowest terms; `t` must not be 0.
#[verifier::external_body]
fn rem_int_u32(a: Ratio, t: u32) -> (r: Ratio)
    requires
        a.d() > 0,
        t != 0,
        a.d() * t <= u32::MAX,
    ensures
        r == Ratio::lowest(a.n() % (a.d() * t), a.d()),
{
    let x = num::rational::Ratio::new_raw(a.numer, a.denom) % t;
    Ratio { numer: *x.numer(), denom: *x.denom() }
}

/// `num::rational::Ratio::<isize>::new`: the fraction `numer / denom` in lowest terms with a
/// positive denominator. The least `isize` is kept out, whose negation overflows.
#[verifier::external_body]
fn reduce_isize(numer: isize, denom: isize) -> (r: SignedRatio)
    requires
        denom != 0,
        numer > isize::MIN,
        denom > isize::MIN,
    ensures
        r == SignedRatio::lowest(numer as int, denom as int),
{
    let x = num::rational::Ratio::new(numer, denom);
    SignedRatio { numer: *x.numer(), denom: *x.denom() }
}

/// `num::rational::Ratio::<isize>::recip`: `denom / numer`, with the sign moved to the
/// numerator; the value must not be 0.
#[verifier::external_body]
fn recip_isize(a: SignedRatio) -> (r: SignedRatio)
    requires
        a.n() != 0,
        a.n() > isize::MIN,
        a.d() > 0,
    ensures
        r == a.recip_spec(),
{
    let x = num::rational::Ratio::new_raw(a.numer, a.denom).recip();
    SignedRatio { numer: *x.numer(), denom: *x.denom() }
}

/// The greatest common divisor divides both numbers, and is positive unless both are 0.
pub proof fn lemma_gcd(a: nat, b: nat)
    ensures
        (a > 0 || b > 0) ==> gcd(a, b) > 0,
        gcd(a, b) > 0 ==> a % gcd(a, b) == 0 && b % gcd(a, b) == 0,
    decreases b,
{
    if b == 0 {
        if a > 0 {
            vstd::arithmetic::div_mod::lemma_mod_self_0(a as int);
            vstd::arithmetic::div_mod::lemma_small_mod(0, a);
        }
    } else {
        let r = a % b;
        lemma_gcd(b, r);
        let g = gcd(b, r);
        assert(g == gcd(a, b));
        assert(g > 0);
        vstd::arithmetic::div_mod::lemma_fundamental_div_mod(b as int, g as int);
        vstd::arithmetic::div_mod::lemma_fundamental_div_mod(r as int, g as int);
        vstd::arithmetic::div_mod::lemma_fundamental_div_mod(a as int, b as int);
        let kb = b as int / g as int;
        let kr = r as int / g as int;
        let q = a as int / b as int;
        assert(b == g * kb);
        assert(r == g * kr);
        assert(a == b * q + r);
        assert(a == (q * kb + kr) * g) by (nonlinear_arith)
            requires
                b == g * kb,
                r == g * kr,
                a == b * q + r,
        ;
        vstd::arithmetic::div_mod::lemma_mod_multiples_basic(q * kb + kr, g as int);
    }
}

/// Bézout's identity: the greatest common divisor is a sum of multiples of the two numbers.
proof fn lemma_bezout(a: nat, b: nat) -> (xy: (int, int))
    ensures
        a * xy.0 + b * xy.1 == gcd(a, b),
    decreases b,
{
    if b == 0 {
        (1, 0)
    } else {
        let r = a % b;
        let q = a / b;
        vstd::arithmetic::div_mod::lemma_fundamental_div_mod(a as int, b as int);
        assert(a == b * q + r);
        let (x, y) = lemma_bezout(b, r);
        assert(b * x + r * y == gcd(a, b));
        assert(a * y + b * (x - q * y) == b * x + r * y) by (nonlinear_arith)
            requires
                a == b * q + r,
        ;
        (y, x - q * y)
    }
}

/// A fraction divided by the greatest common divisor of its parts is in lowest terms.
proof fn lemma_divided_coprime(x: nat, y: nat)
    requires
        y > 0,
    ensures
        gcd(x / gcd(x, y), y / gcd(x, y)) == 1,
{
    let g = gcd(x, y);
    lemma_gcd(x, y);
    vstd::arithmetic::div_mod::lemma_fundamental_div_mod(x as int, g as int);
    vstd::arithmetic::div_mod::lemma_fundamental_div_mod(y as int, g as int);
    let kx = x / g;
    let ky = y / g;
    assert(x == g * kx);
    assert(y == g * ky);
    let (s, t) = lemma_bezout(x, y);
    assert(kx * s + ky * t == 1) by (nonlinear_arith)
        requires
            x * s + y * t == g,
            x == g * kx,
            y == g * ky,
            g > 0,
    ;
    assert(ky > 0) by (nonlinear_arith)
        requires
            y == g * ky,
            y > 0,
            g > 0,
    ;
    let h = gcd(kx, ky);
    lemma_gcd(kx, ky);
    vstd::arithmetic::div_mod::lemma_fundamental_div_mod(kx as int, h as int);
    vstd::arithmetic::div_mod::lemma_fundamental_div_mod(ky as int, h as int);
    let mx = kx as int / h as int;
    let my = ky as int / h as int;
    assert(h * (mx * s + my * t) == 1) by (nonlinear_arith)
        requires
            kx == h * mx,
            ky == h * my,
            kx * s + ky * t == 1,
    ;
    assert(h == 1) by (nonlinear_arith)
        requires
            h * (mx * s + my * t) == 1,
            h > 0,
    ;
}

/// Two fractions in lowest terms with positive denominators and the same value are the same
/// fraction.
proof fn lemma_lowest_unique(a: int, b: int, c: int, d: int)
    requires
        a >= 0,
        c >= 0,
        b > 0,
        d > 0,
        gcd(a as nat, b as nat) == 1,
        gcd(c as nat, d as nat) == 1,
        a * d == c * b,
    ensures
        a == c,
        b == d,
{
    let (s, t) = lemma_bezout(a as nat, b as nat);
    let (u, v) = lemma_bezout(c as nat, d as nat);
    assert(d == b * (c * s + d * t)) by (nonlinear_arith)
        requires
            a * s + b * t == 1,
            a * d == c * b,
    ;
    assert(b == d * (a * u + b * v)) by (nonlinear_arith)
        requires
            c * u + d * v == 1,
            a * d == c * b,
    ;
    let k1 = c * s + d * t;
    let k2 = a * u + b * v;
    assert(k1 * k2 == 1) by (nonlinear_arith)
        requires
            d == b * k1,
            b == d * k2,
            d > 0,
    ;
    assert(k1 == 1) by (nonlinear_arith)
        requires
            k1 * k2 == 1,
            d == b * k1,
            b > 0,
            d > 0,
    ;
    assert(b == d);
    assert(a == c) by (nonlinear_arith)
        requires
            a * d == c * b,
            b == d,
            d > 0,
    ;
}

/// The gcd of `t` and 1 is 1.
proof fn lemma_gcd_one(t: nat)
    ensures
        gcd(t, 1) == 1,
{
    vstd::arithmetic::div_mod::lemma_fundamental_div_mod(t as int, 1);
    assert(t % 1 == 0);
    assert(gcd(1, 0) == 1);
}

/// Equal fractions stay equal when one of them is replaced by another equal one.
pub proof fn lemma_same_value_trans(p: int, q: int, x1: int, y1: int, x2: int, y2: int)
    requires
        q > 0,
        y1 > 0,
        y2 > 0,
        same_value(p, q, x1, y1),
        same_value(x1, y1, x2, y2),
    ensures
        same_value(p, q, x2, y2),
{
    assert(p * y1 * y2 == x1 * q * y2) by (nonlinear_arith)
        requires
            p * y1 == x1 * q,
    ;
    assert(x1 * y2 * q == x2 * y1 * q) by (nonlinear_arith)
        requires
            x1 * y2 == x2 * y1,
    ;
    assert((p * y2 - x2 * q) * y1 == 0) by (nonlinear_arith)
        requires
            p * y1 * y2 == x1 * q * y2,
            x1 * y2 * q == x2 * y1 * q,
    ;
    assert(p * y2 - x2 * q == 0) by (nonlinear_arith)
        requires
            (p * y2 - x2 * q) * y1 == 0,
            y1 > 0,
    ;
}

/// Equal fractions have the same integer part.
pub proof fn lemma_same_value_floor(p: int, q: int, x: int, y: int)
    requires
        q > 0,
        y > 0,
        p >= 0,
        x >= 0,
        same_value(p, q, x, y),
    ensures
        p / q == x / y,
{
    let a = x / y;
    vstd::arithmetic::div_mod::lemma_fundamental_div_mod(x, y);
    let r = x % y;
    assert(0 <= r < y);
    assert(x == a * y + r) by {
        vstd::arithmetic::mul::lemma_mul_is_commutative(a, y);
    }
    assert(p * y == (a * q) * y + r * q) by (nonlinear_arith)
        requires
            p * y == x * q,
            x == a * y + r,
    ;
    assert(a * q <= p) by (nonlinear_arith)
        requires
            p * y == (a * q) * y + r * q,
            r >= 0,
            q > 0,
            y > 0,
    ;
    assert(p < a * q + q) by (nonlinear_arith)
        requires
            p * y == (a * q) * y + r * q,
            r < y,
            q > 0,
            y > 0,
    ;
    vstd::arithmetic::div_mod::lemma_fundamental_div_mod_converse(p, q, a, p - a * q);
}

/// `a + b` fits the arithmetic of `Ratio::plus`.
pub open spec fn sum_fits(a: Ratio, b: Ratio) -> bool {
    a.n() * b.d() + b.n() * a.d() <= u32::MAX && a.d() * b.d() <= u32::MAX
}

/// `a - b` fits the arithmetic of `Ratio::minus`: `b` is at most `a`.
pub open spec fn diff_fits(a: Ratio, b: Ratio) -> bool {
    b.n() * a.d() <= a.n() * b.d() && a.n() * b.d() <= u32::MAX && a.d() * b.d() <= u32::MAX
}

/// `a * b` fits the arithmetic of `Ratio::times`.
pub open spec fn prod_fits(a: Ratio, b: Ratio) -> bool {
    a.n() * b.n() <= u32::MAX && a.d() * b.d() <= u32::MAX
}

proof fn lemma_product_fits(a: u32, b: u32)
    ensures
        a * b <= u64::MAX,
{
    assert(a * b <= 0xffff_ffffu64 * 0xffff_ffffu64) by (nonlinear_arith);
}

impl Ratio {
    #[verifier::type_invariant]
    pub closed spec fn lowest_terms(self) -> bool {
        self.denom > 0 && gcd(self.numer as nat, self.denom as nat) == 1
    }

    /// The numerator.
    pub closed spec fn n(self) -> int {
        self.numer as int
    }

    /// The denominator.
    pub closed spec fn d(self) -> int {
        self.denom as int
    }

    /// The fraction `x / y` in lowest terms: both divided by their greatest common divisor.
    pub closed spec fn lowest(x: int, y: int) -> Ratio {
        let g = gcd(x as nat, y as nat) as int;
        Ratio { numer: (x / g) as u32, denom: (y / g) as u32 }
    }

    /// What every ratio satisfies.
    pub proof fn lemma_lowest_terms(self)
        requires
            self.lowest_terms(),
        ensures
            self.d() > 0,
            0 <= self.n() <= u32::MAX,
            0 < self.d() <= u32::MAX,
    {
    }

    /// Both parts of any ratio are machine integers of 32 bits.
    pub proof fn lemma_parts(self)
        ensures
            0 <= self.n() <= u32::MAX,
            0 <= self.d() <= u32::MAX,
    {
    }

    /// The lowest terms of `x / y` have the same value, and parts no larger than `x` and `y`.
    pub proof fn lemma_lowest(x: int, y: int)
        requires
            0 <= x <= u32::MAX,
            0 < y <= u32::MAX,
        ensures
            Ratio::lowest(x, y).d() > 0,
            0 <= Ratio::lowest(x, y).n() <= x,
            Ratio::lowest(x, y).d() <= y,
            same_value(Ratio::lowest(x, y).n(), Ratio::lowest(x, y).d(), x, y),
    {
        let g = gcd(x as nat, y as nat) as int;
        lemma_gcd(x as nat, y as nat);
        vstd::arithmetic::div_mod::lemma_fundamental_div_mod(x, g);
        vstd::arithmetic::div_mod::lemma_fundamental_div_mod(y, g);
        let kx = x / g;
        let ky = y / g;
        assert(x == g * kx);
        assert(y == g * ky);
        assert(0 <= kx <= x && 0 < ky <= y) by (nonlinear_arith)
            requires
                x == g * kx,
                y == g * ky,
                g > 0,
                x >= 0,
                y > 0,
        ;
        assert(kx * y == x * ky) by (nonlinear_arith)
            requires
                x == g * kx,
                y == g * ky,
        ;
    }

    /// A ratio has only one form: any fraction of the same value, brought to lowest terms,
    /// is that ratio.
    pub proof fn lemma_lowest_same(r: Ratio, x: int, y: int)
        requires
            r.lowest_terms(),
            0 <= x <= u32::MAX,
            0 < y <= u32::MAX,
            same_value(r.n(), r.d(), x, y),
        ensures
            Ratio::lowest(x, y) == r,
    {
        Ratio::lemma_lowest(x, y);
        let l = Ratio::lowest(x, y);
        lemma_divided_coprime(x as nat, y as nat);
        let g = gcd(x as nat, y as nat);
        lemma_gcd(x as nat, y as nat);
        assert(g > 0);
        vstd::arithmetic::div_mod::lemma_div_is_ordered_by_denominator(x, 1, g as int);
        vstd::arithmetic::div_mod::lemma_div_is_ordered_by_denominator(y, 1, g as int);
        assert(x / (g as int) <= x && y / (g as int) <= y);
        assert(l.n() == x / (g as int));
        assert(l.d() == y / (g as int));
        assert(gcd(l.n() as nat, l.d() as nat) == 1);
        lemma_same_value_trans(l.n(), l.d(), x, y, r.n(), r.d());
        lemma_lowest_unique(l.n(), l.d(), r.n(), r.d());
    }

    /// The integer `t` is already in lowest terms.
    pub proof fn lemma_lowest_integer(t: int)
        requires
            0 <= t <= u32::MAX,
        ensures
            Ratio::lowest(t, 1).n() == t,
            Ratio::lowest(t, 1).d() == 1,
    {
        lemma_gcd_one(t as nat);
        vstd::arithmetic::div_mod::lemma_fundamental_div_mod(t, 1);
        vstd::arithmetic::div_mod::lemma_fundamental_div_mod(1, 1);
        assert(t / 1 == t);
        assert(1int / 1 == 1);
    }

    /// One over `t` is already in lowest terms.
    pub proof fn lemma_lowest_unit(t: int)
        requires
            0 < t <= u32::MAX,
        ensures
            Ratio::lowest(1, t).n() == 1,
            Ratio::lowest(1, t).d() == t,
    {
        Ratio::lemma_lowest(1, t);
        let r = Ratio::lowest(1, t);
        assert(r.n() * t == 1 * r.d());
        assert(r.n() == 1) by (nonlinear_arith)
            requires
                r.n() * t == r.d(),
                0 <= r.n() <= 1,
                r.d() > 0,
        ;
        assert(r.d() == t) by (nonlinear_arith)
            requires
                r.n() * t == 1 * r.d(),
                r.n() == 1,
        ;
    }

    /// The fraction `numer / denom` in lowest terms. The denominator must not be 0.
    pub fn new(numer: u32, denom: u32) -> (r: Ratio)
        requires
            denom != 0,
        ensures
            r == Ratio::lowest(numer as int, denom as int),
            r.d() > 0,
            r.n() <= numer,
            r.d() <= denom,
            same_value(r.n(), r.d(), numer as int, denom as int),
    {
        proof {
            Ratio::lemma_lowest(numer as int, denom as int);
        }
        reduce_u32(numer, denom)
    }

    /// The integer `t` as a ratio.
    pub fn from_integer(t: u32) -> (r: Ratio)
        ensures
            r.n() == t,
            r.d() == 1,
            r == Ratio::lowest(t as int, 1),
    {
        proof {
            lemma_gcd_one(t as nat);
            Ratio::lemma_lowest_integer(t as int);
        }
        Ratio { numer: t, denom: 1 }
    }

    pub fn numer(&self) -> (n: u32)
        ensures
            n == self.n(),
    {
        self.numer
    }

    pub fn denom(&self) -> (d: u32)
        ensures
            d == self.d(),
            d > 0,
    {
        proof {
            use_type_invariant(self);
        }
        self.denom
    }

    pub fn is_zero(&self) -> (b: bool)
        ensures
            b == (self.n() == 0),
    {
        self.numer == 0
    }

    /// The integer part, rounding down.
    pub fn to_integer(&self) -> (t: u32)
        ensures
            t == self.n() / self.d(),
    {
        proof {
            use_type_invariant(self);
        }
        self.numer / self.denom
    }

    /// `self < other`, by value.
    pub fn less_than(&self, other: &Ratio) -> (b: bool)
        ensures
            b == (self.n() * other.d() < other.n() * self.d()),
    {
        proof {
            lemma_product_fits(self.numer, other.denom);
            lemma_product_fits(other.numer, self.denom);
        }
        (self.numer as u64) * (other.denom as u64) < (other.numer as u64) * (self.denom as u64)
    }

    /// `self <= other`, by value.
    pub fn at_most(&self, other: &Ratio) -> (b: bool)
        ensures
            b == (self.n() * other.d() <= other.n() * self.d()),
    {
        proof {
            lemma_product_fits(self.numer, other.denom);
            lemma_product_fits(other.numer, self.denom);
        }
        (self.numer as u64) * (other.denom as u64) <= (other.numer as u64) * (self.denom as u64)
    }

    /// The sum.
    pub fn plus(self, rhs: Ratio) -> (r: Ratio)
        requires
            sum_fits(self, rhs),
        ensures
            r == Ratio::lowest(self.n() * rhs.d() + rhs.n() * self.d(), self.d() * rhs.d()),
            r.d() > 0,
            r.n() <= self.n() * rhs.d() + rhs.n() * self.d(),
            r.d() <= self.d() * rhs.d(),
            same_value(r.n(), r.d(), self.n() * rhs.d() + rhs.n() * self.d(), self.d() * rhs.d()),
    {
        proof {
            use_type_invariant(&self);
            use_type_invariant(&rhs);
            lemma_nonneg_products(self, rhs);
            Ratio::lemma_lowest(self.n() * rhs.d() + rhs.n() * self.d(), self.d() * rhs.d());
        }
        add_u32(self, rhs)
    }

    /// The difference; `rhs` must not exceed `self`.
    pub fn minus(self, rhs: Ratio) -> (r: Ratio)
        requires
            diff_fits(self, rhs),
        ensures
            r == Ratio::lowest(self.n() * rhs.d() - rhs.n() * self.d(), self.d() * rhs.d()),
            r.d() > 0,
            r.n() <= self.n() * rhs.d() - rhs.n() * self.d(),
            r.d() <= self.d() * rhs.d(),
            same_value(r.n(), r.d(), self.n() * rhs.d() - rhs.n() * self.d(), self.d() * rhs.d()),
    {
        proof {
            use_type_invariant(&self);
            use_type_invariant(&rhs);
            lemma_nonneg_products(self, rhs);
            Ratio::lemma_lowest(self.n() * rhs.d() - rhs.n() * self.d(), self.d() * rhs.d());
        }
        sub_u32(self, rhs)
    }

    /// The product.
    pub fn times(self, rhs: Ratio) -> (r: Ratio)
        requires
            prod_fits(self, rhs),
        ensures
            r == Ratio::lowest(self.n() * rhs.n(), self.d() * rhs.d()),
            r.d() > 0,
            r.n() <= self.n() * rhs.n(),
            r.d() <= self.d() * rhs.d(),
            same_value(r.n(), r.d(), self.n() * rhs.n(), self.d() * rhs.d()),
    {
        proof {
            use_type_invariant(&self);
            use_type_invariant(&rhs);
            lemma_nonneg_products(self, rhs);
            Ratio::lemma_lowest(self.n() * rhs.n(), self.d() * rhs.d());
        }
        mul_u32(self, rhs)
    }

    /// The product with an integer.
    pub fn times_integer(self, t: u32) -> (r: Ratio)
        requires
            self.n() * t <= u32::MAX,
        ensures
            r == Ratio::lowest(self.n() * t, self.d()),
            r.d() > 0,
            r.n() <= self.n() * t,
            r.d() <= self.d(),
            same_value(r.n(), r.d(), self.n() * t, self.d()),
    {
        proof {
            use_type_invariant(&self);
            assert(self.n() * t >= 0) by (nonlinear_arith)
                requires
                    self.n() >= 0,
                    t >= 0,
            ;
            Ratio::lemma_lowest(self.n() * t, self.d());
        }
        mul_int_u32(self, t)
    }

    /// The quotient by a non-zero integer.
    pub fn div_integer(self, t: u32) -> (r: Ratio)
        requires
            t != 0,
            self.d() * t <= u32::MAX,
        ensures
            r == Ratio::lowest(self.n(), self.d() * t),
            r.d() > 0,
            r.n() <= self.n(),
            r.d() <= self.d() * t,
            same_value(r.n(), r.d(), self.n(), self.d() * t),
    {
        proof {
            use_type_invariant(&self);
            assert(self.d() * t > 0) by (nonlinear_arith)
                requires
                    self.d() > 0,
                    t > 0,
            ;
            Ratio::lemma_lowest(self.n(), self.d() * t);
        }
        div_int_u32(self, t)
    }

    /// What remains after taking away as many whole `t` as fit.
    pub fn rem_integer(self, t: u32) -> (r: Ratio)
        requires
            t != 0,
            self.d() * t <= u32::MAX,
        ensures
            r == Ratio::lowest(self.n() % (self.d() * t), self.d()),
            r.d() > 0,
            r.n() <= self.n() % (self.d() * t),
            r.d() <= self.d(),
            same_value(r.n(), r.d(), self.n() % (self.d() * t), self.d()),
    {
        proof {
            use_type_invariant(&self);
            assert(self.d() * t > 0) by (nonlinear_arith)
                requires
                    self.d() > 0,
                    t > 0,
            ;
            let m = self.n() % (self.d() * t);
            vstd::arithmetic::div_mod::lemma_mod_bound(self.n(), self.d() * t);
            vstd::arithmetic::div_mod::lemma_mod_pos_bound(self.n(), self.d() * t);
            Ratio::lemma_lowest(m, self.d());
        }
        rem_int_u32(self, t)
    }
}

proof fn lemma_nonneg_products(a: Ratio, b: Ratio)
    requires
        a.lowest_terms(),
        b.lowest_terms(),
    ensures
        a.n() * b.d() >= 0,
        b.n() * a.d() >= 0,
        a.n() * b.n() >= 0,
        a.d() * b.d() > 0,
{
    let (an, ad, bn, bd) = (a.n(), a.d(), b.n(), b.d());
    assert(an * bd >= 0 && bn * ad >= 0 && an * bn >= 0 && ad * bd > 0) by (nonlinear_arith)
        requires
            an >= 0,
            bn >= 0,
            ad > 0,
            bd > 0,
    ;
}

impl SignedRatio {
    #[verifier::type_invariant]
    pub closed spec fn lowest_terms(self) -> bool {
        self.denom > 0 && self.numer > isize::MIN && gcd(abs(self.numer as int), self.denom as nat)
            == 1
    }

    /// The numerator.
    pub closed spec fn n(self) -> int {
        self.numer as int
    }

    /// The denominator.
    pub closed spec fn d(self) -> int {
        self.denom as int
    }

    /// The fraction `x / y` in lowest terms with a positive denominator.
    pub closed spec fn lowest(x: int, y: int) -> SignedRatio {
        let g = gcd(abs(x), abs(y)) as int;
        if y < 0 {
            SignedRatio { numer: (-(x / g)) as isize, denom: (-(y / g)) as isize }
        } else {
            SignedRatio { numer: (x / g) as isize, denom: (y / g) as isize }
        }
    }

    /// What every signed ratio satisfies.
    pub proof fn lemma_lowest_terms(self)
        requires
            self.lowest_terms(),
        ensures
            self.d() > 0,
            isize::MIN < self.n() <= isize::MAX,
            0 < self.d() <= isize::MAX,
    {
    }

    /// The lowest terms of `x / y` have the same value, a positive denominator and a numerator
    /// above the least `isize`.
    pub proof fn lemma_lowest(x: int, y: int)
        requires
            isize::MIN < x <= isize::MAX,
            isize::MIN < y <= isize::MAX,
            y != 0,
        ensures
            SignedRatio::lowest(x, y).d() > 0,
            SignedRatio::lowest(x, y).n() > isize::MIN,
            same_value(SignedRatio::lowest(x, y).n(), SignedRatio::lowest(x, y).d(), x, y),
    {
        let g = gcd(abs(x), abs(y)) as int;
        lemma_gcd(abs(x), abs(y));
        let ax = abs(x) as int;
        let ay = abs(y) as int;
        vstd::arithmetic::div_mod::lemma_fundamental_div_mod(ax, g);
        vstd::arithmetic::div_mod::lemma_fundamental_div_mod(ay, g);
        let kx = ax / g;
        let ky = ay / g;
        assert(0 <= kx <= ax && 0 < ky <= ay) by (nonlinear_arith)
            requires
                ax == g * kx,
                ay == g * ky,
                g > 0,
                ax >= 0,
                ay > 0,
        ;
        let sx = if x < 0 { -kx } else { kx };
        let sy = if y < 0 { -ky } else { ky };
        assert(x == g * sx) by (nonlinear_arith)
            requires
                ax == g * kx,
                sx == (if x < 0 { -kx } else { kx }),
                ax == (if x < 0 { -x } else { x }),
        ;
        assert(y == g * sy) by (nonlinear_arith)
            requires
                ay == g * ky,
                sy == (if y < 0 { -ky } else { ky }),
                ay == (if y < 0 { -y } else { y }),
        ;
        vstd::arithmetic::div_mod::lemma_div_multiples_vanish(sx, g);
        vstd::arithmetic::div_mod::lemma_div_multiples_vanish(sy, g);
        assert(x / g == sx);
        assert(y / g == sy);
        assert(sx * y == x * sy) by (nonlinear_arith)
            requires
                x == g * sx,
                y == g * sy,
        ;
        let l = SignedRatio::lowest(x, y);
        if y < 0 {
            assert(l.n() == -sx && l.d() == -sy);
            assert((-sx) * y == x * (-sy)) by (nonlinear_arith)
                requires
                    sx * y == x * sy,
            ;
        } else {
            assert(l.n() == sx && l.d() == sy);
        }
    }

    /// The reciprocal of a value that is not 0, times the value, is 1.
    pub proof fn lemma_recip(self)
        requires
            self.n() != 0,
            self.n() > isize::MIN,
            self.d() > 0,
        ensures
            self.recip_spec().d() > 0,
            self.recip_spec().n() * self.n() == self.recip_spec().d() * self.d(),
    {
        let (n, d) = (self.n(), self.d());
        if n < 0 {
            assert((-d) * n == (-n) * d) by (nonlinear_arith);
        } else {
            assert(d * n == n * d) by (nonlinear_arith);
        }
    }

    /// The fraction `numer / denom` in lowest terms. The denominator must not be 0; the least
    /// `isize` is kept out, since its negation does not fit.
    pub fn new(numer: isize, denom: isize) -> (r: SignedRatio)
        requires
            denom != 0,
            numer > isize::MIN,
            denom > isize::MIN,
        ensures
            r == SignedRatio::lowest(numer as int, denom as int),
    {
        reduce_isize(numer, denom)
    }

    pub fn numer(&self) -> (n: isize)
        ensures
            n == self.n(),
            n > isize::MIN,
    {
        proof {
            use_type_invariant(self);
        }
        self.numer
    }

    pub fn denom(&self) -> (d: isize)
        ensures
            d == self.d(),
            d > 0,
    {
        proof {
            use_type_invariant(self);
        }
        self.denom
    }

    /// The value is below 0.
    pub fn is_negative(&self) -> (b: bool)
        ensures
            b == (self.n() < 0),
    {
        self.numer < 0
    }

    /// The reciprocal of a non-zero ratio: the parts swapped, with the sign on the numerator.
    pub closed spec fn recip_spec(self) -> SignedRatio {
        if self.numer > 0 {
            SignedRatio { numer: self.denom, denom: self.numer }
        } else {
            SignedRatio { numer: (-self.denom) as isize, denom: (-self.numer) as isize }
        }
    }

    /// The reciprocal; the value must not be 0.
    pub fn recip(&self) -> (r: SignedRatio)
        requires
            self.n() != 0,
        ensures
            r == self.recip_spec(),
            self.n() > 0 ==> r.n() == self.d() && r.d() == self.n(),
            self.n() < 0 ==> r.n() == -self.d() && r.d() == -self.n(),
    {
        proof {
            use_type_invariant(self);
        }
        recip_isize(*self)
    }
}

} // verus!
