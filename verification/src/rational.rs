use vstd::prelude::*;
use vstd::arithmetic::div_mod::{
    lemma_add_mod_noop, lemma_fundamental_div_mod, lemma_mod_multiples_basic, lemma_mod_self_0,
    lemma_small_mod, lemma_truncate_middle,
};
use vstd::arithmetic::mul::{lemma_mul_equality_converse, lemma_mul_is_commutative};

verus! {

/// An exact rational number held as a fraction of two `i64`s, kept in normal
/// form: positive denominator, numerator and denominator coprime. Two normal
/// forms denote the same rational exactly when they are equal field by field.
#[derive(Clone, Copy, Debug, PartialEq, Eq, Structural)]
pub struct Rational {
    pub num: i64,
    pub den: i64,
}

/// The absolute value of an integer, as a natural number.
pub open spec fn nat_abs(n: int) -> nat {
    if n >= 0 {
        n as nat
    } else {
        (-n) as nat
    }
}

/// Greatest common divisor by Euclid's algorithm, with `gcd(a, 0) == a`.
pub open spec fn gcd(a: nat, b: nat) -> nat
    decreases b,
{
    if b == 0 {
        a
    } else {
        gcd(b, a % b)
    }
}

proof fn lemma_gcd_one(a: nat)
    ensures
        gcd(a, 1) == 1,
{
    assert(a % 1 == 0);
    assert(gcd(a, 1) == gcd(1, 0));
}

impl Rational {
    /// Normal form: positive denominator and fraction in lowest terms.
    pub open spec fn wf(self) -> bool {
        self.den > 0 && gcd(nat_abs(self.num as int), self.den as nat) == 1
    }

    /// The whole number `n`, as a rational.
    pub fn from_integer(n: i64) -> (r: Rational)
        ensures
            r == (Rational { num: n, den: 1 }),
            r.wf(),
    {
        proof {
            lemma_gcd_one(nat_abs(n as int));
        }
        Rational { num: n, den: 1 }
    }
}

proof fn lemma_multiple_mod_zero(x: int, k: int, d: int)
    requires
        d > 0,
        x % d == 0,
    ensures
        (x * k) % d == 0,
{
    lemma_fundamental_div_mod(x, d);
    let q = x / d;
    assert(x * k == (q * k) * d) by (nonlinear_arith)
        requires
            x == d * q,
    ;
    lemma_mod_multiples_basic(q * k, d);
}

proof fn lemma_gcd_divides(a: nat, b: nat)
    requires
        a > 0 || b > 0,
    ensures
        gcd(a, b) > 0,
        a % gcd(a, b) == 0,
        b % gcd(a, b) == 0,
    decreases b,
{
    let g = gcd(a, b);
    if b == 0 {
        lemma_mod_self_0(a as int);
        lemma_small_mod(0, a);
    } else {
        lemma_gcd_divides(b, a % b);
        let ai = a as int;
        let bi = b as int;
        let gi = g as int;
        lemma_fundamental_div_mod(ai, bi);
        lemma_multiple_mod_zero(bi, ai / bi, gi);
        lemma_add_mod_noop(bi * (ai / bi), ai % bi, gi);
        lemma_small_mod(0, g);
    }
}

proof fn lemma_gcd_scale(a: nat, b: nat, k: nat)
    requires
        k > 0,
    ensures
        gcd(k * a, k * b) == k * gcd(a, b),
    decreases b,
{
    if b == 0 {
        assert(k * b == 0) by (nonlinear_arith)
            requires
                b == 0,
        ;
    } else {
        assert(k * b > 0) by (nonlinear_arith)
            requires
                k > 0,
                b > 0,
        ;
        lemma_truncate_middle(a as int, k as int, b as int);
        assert((k * a) % (k * b) == k * (a % b));
        lemma_gcd_scale(b, a % b, k);
        assert(gcd(k * a, k * b) == gcd(k * b, (k * a) % (k * b)));
    }
}

proof fn lemma_gcd_div_coprime(a: nat, b: nat)
    requires
        a > 0 || b > 0,
    ensures
        gcd(a / gcd(a, b), b / gcd(a, b)) == 1,
{
    let g = gcd(a, b);
    lemma_gcd_divides(a, b);
    let a1 = a / g;
    let b1 = b / g;
    lemma_fundamental_div_mod(a as int, g as int);
    lemma_fundamental_div_mod(b as int, g as int);
    assert(a == g * a1);
    assert(b == g * b1);
    lemma_gcd_scale(a1, b1, g);
    assert(g * gcd(a1, b1) == g);
    assert(g as int * 1 == g as int);
    lemma_mul_equality_converse(g as int, gcd(a1, b1) as int, 1);
}

/// Two fractions in normal form that denote the same rational are equal
/// component by component: the normal form of a rational is unique.
pub proof fn lemma_lowest_terms_unique(n1: int, d1: int, n2: int, d2: int)
    requires
        d1 > 0,
        d2 > 0,
        gcd(nat_abs(n1), d1 as nat) == 1,
        gcd(nat_abs(n2), d2 as nat) == 1,
        n1 * d2 == n2 * d1,
    ensures
        n1 == n2,
        d1 == d2,
{
    let m1 = nat_abs(n1);
    let m2 = nat_abs(n2);
    assert(m1 * (d2 as nat) == m2 * (d1 as nat)) by (nonlinear_arith)
        requires
            d1 > 0,
            d2 > 0,
            n1 * d2 == n2 * d1,
            (n1 >= 0 ==> m1 == n1) && (n1 < 0 ==> m1 == -n1),
            (n2 >= 0 ==> m2 == n2) && (n2 < 0 ==> m2 == -n2),
    ;
    lemma_gcd_scale(m1, d1 as nat, d2 as nat);
    lemma_gcd_scale(m2, d2 as nat, d1 as nat);
    lemma_mul_is_commutative(d2 as int, m1 as int);
    lemma_mul_is_commutative(d1 as int, m2 as int);
    lemma_mul_is_commutative(d2 as int, d1 as int);
    assert((d2 as nat) * m1 == (d1 as nat) * m2);
    assert((d2 as nat) * (d1 as nat) == (d1 as nat) * (d2 as nat));
    assert(d2 as int == (d2 as nat * gcd(m1, d1 as nat)) as int);
    assert(d1 as int == (d1 as nat * gcd(m2, d2 as nat)) as int);
    assert(d1 == d2);
    lemma_mul_is_commutative(n1, d2);
    lemma_mul_is_commutative(n2, d1);
    lemma_mul_equality_converse(d2, n1, n2);
}

/// The numerator of `n / d` brought to lowest terms (meaningful for `d > 0`).
pub open spec fn reduced_num(n: int, d: int) -> int {
    let g = gcd(nat_abs(n), nat_abs(d)) as int;
    if n >= 0 {
        n / g
    } else {
        -((-n) / g)
    }
}

/// The denominator of `n / d` brought to lowest terms (meaningful for `d > 0`).
pub open spec fn reduced_den(n: int, d: int) -> int {
    d / (gcd(nat_abs(n), nat_abs(d)) as int)
}

/// The normal form of `n / d` as a `Rational`, or `None` where the lowest-terms
/// numerator or denominator does not fit in an `i64`.
pub open spec fn spec_reduce(n: int, d: int) -> Option<Rational> {
    let rn = reduced_num(n, d);
    let rd = reduced_den(n, d);
    if i64::MIN <= rn && rn <= i64::MAX && rd <= i64::MAX {
        Some(Rational { num: rn as i64, den: rd as i64 })
    } else {
        None
    }
}

/// For a positive denominator, the reduced fraction is in normal form and
/// denotes the same rational as `n / d`.
pub proof fn lemma_reduced_props(n: int, d: int)
    requires
        d > 0,
    ensures
        reduced_den(n, d) > 0,
        reduced_den(n, d) <= d,
        gcd(nat_abs(reduced_num(n, d)), reduced_den(n, d) as nat) == 1,
        nat_abs(reduced_num(n, d)) <= nat_abs(n),
        reduced_num(n, d) * d == n * reduced_den(n, d),
{
    let m = nat_abs(n);
    let dn = d as nat;
    let g = gcd(m, dn);
    lemma_gcd_divides(m, dn);
    let gi = g as int;
    let rd = reduced_den(n, d);
    lemma_fundamental_div_mod(d, gi);
    assert(d == gi * (d / gi));
    assert(rd > 0) by (nonlinear_arith)
        requires
            d == gi * rd,
            d > 0,
            gi > 0,
    ;
    vstd::arithmetic::div_mod::lemma_div_nonincreasing(d, gi);
    lemma_fundamental_div_mod(m as int, gi);
    assert(m as int == gi * (m as int / gi));
    vstd::arithmetic::div_mod::lemma_div_nonincreasing(m as int, gi);
    lemma_gcd_div_coprime(m, dn);
    let rm = m as int / gi;
    assert(nat_abs(reduced_num(n, d)) == m / g);
    assert(reduced_num(n, d) * d == n * rd) by (nonlinear_arith)
        requires
            d == gi * rd,
            m as int == gi * rm,
            gi > 0,
            (n >= 0 ==> m == n) && (n < 0 ==> m == -n),
            (n >= 0 ==> reduced_num(n, d) == rm) && (n < 0 ==> reduced_num(n, d) == -rm),
    ;
}

/// Reducing a fraction that is already in normal form gives it back: for a
/// normal-form `c` and any fraction `n / d` with the same value, the normal
/// form of `n / d` is exactly `c`.
pub proof fn lemma_reduce_of_normal(n: int, d: int, c: Rational)
    requires
        d > 0,
        c.wf(),
        c.num * d == n * (c.den as int),
    ensures
        spec_reduce(n, d) == Some(c),
{
    lemma_reduced_props(n, d);
    let rn = reduced_num(n, d);
    let rd = reduced_den(n, d);
    assert(rn * (c.den as int) == c.num * rd) by (nonlinear_arith)
        requires
            rn * d == n * rd,
            c.num * d == n * (c.den as int),
            d > 0,
            rd > 0,
            c.den > 0,
    ;
    lemma_lowest_terms_unique(rn, rd, c.num as int, c.den as int);
}

/// The checked sum of two rationals: the normal form of `a + b`, or `None`
/// where that form does not fit in an `i64` fraction.
pub open spec fn rat_add(a: Rational, b: Rational) -> Option<Rational> {
    spec_reduce(a.num * b.den + b.num * a.den, a.den * b.den)
}

/// The checked difference `a - b`.
pub open spec fn rat_sub(a: Rational, b: Rational) -> Option<Rational> {
    spec_reduce(a.num * b.den - b.num * a.den, a.den * b.den)
}

/// The checked product `a * b`.
pub open spec fn rat_mul(a: Rational, b: Rational) -> Option<Rational> {
    spec_reduce(a.num * b.num, a.den * b.den)
}

/// The checked exact quotient `a / b`; `None` on a zero divisor.
pub open spec fn rat_div(a: Rational, b: Rational) -> Option<Rational> {
    if b.num == 0 {
        None
    } else {
        let n0 = a.num * b.den;
        let d0 = a.den * b.num;
        if d0 > 0 {
            spec_reduce(n0, d0)
        } else {
            spec_reduce(-n0, -d0)
        }
    }
}

/// The checked power `b^e`, as `e` checked multiplications by `b` starting
/// from one; `None` as soon as an intermediate product fails to fit.
pub open spec fn rat_pow(b: Rational, e: nat) -> Option<Rational>
    decreases e,
{
    if e == 0 {
        Some(Rational { num: 1, den: 1 })
    } else {
        match rat_pow(b, (e - 1) as nat) {
            Some(p) => rat_mul(p, b),
            None => None,
        }
    }
}

proof fn lemma_rat_pow_none(b: Rational, i: nat, e: nat)
    requires
        rat_pow(b, i) == None::<Rational>,
        i <= e,
    ensures
        rat_pow(b, e) == None::<Rational>,
    decreases e,
{
    if e > i {
        lemma_rat_pow_none(b, i, (e - 1) as nat);
    }
}

proof fn lemma_prod_bound(x: int, y: int)
    by (nonlinear_arith)
    requires
        -0x8000_0000_0000_0000 <= x <= 0x8000_0000_0000_0000,
        -0x8000_0000_0000_0000 <= y <= 0x8000_0000_0000_0000,
    ensures
        -0x4000_0000_0000_0000_0000_0000_0000_0000 <= x * y
            <= 0x4000_0000_0000_0000_0000_0000_0000_0000,
{
}

proof fn lemma_num_den_bound(x: int, y: int)
    by (nonlinear_arith)
    requires
        -0x8000_0000_0000_0000 <= x <= 0x8000_0000_0000_0000,
        0 < y <= 0x7fff_ffff_ffff_ffff,
    ensures
        -0x3fff_ffff_ffff_ffff_8000_0000_0000_0000 <= x * y
            <= 0x3fff_ffff_ffff_ffff_8000_0000_0000_0000,
{
}

proof fn lemma_den_num_bound(x: int, y: int)
    by (nonlinear_arith)
    requires
        0 < x <= 0x7fff_ffff_ffff_ffff,
        -0x8000_0000_0000_0000 <= y <= 0x8000_0000_0000_0000,
    ensures
        -0x3fff_ffff_ffff_ffff_8000_0000_0000_0000 <= x * y
            <= 0x3fff_ffff_ffff_ffff_8000_0000_0000_0000,
{
}

proof fn lemma_prod_pos(x: int, y: int)
    by (nonlinear_arith)
    requires
        x > 0,
        y > 0,
    ensures
        x * y > 0,
{
}

proof fn lemma_prod_nonzero(x: int, y: int)
    by (nonlinear_arith)
    requires
        x != 0,
        y != 0,
    ensures
        x * y != 0,
{
}

impl Rational {
    /// Checked addition; exact, result in normal form.
    pub fn checked_add(self, other: Rational) -> (r: Option<Rational>)
        requires
            self.wf(),
            other.wf(),
        ensures
            r == rat_add(self, other),
            r matches Some(c) ==> c.wf(),
    {
        proof {
            lemma_num_den_bound(self.num as int, other.den as int);
            lemma_num_den_bound(other.num as int, self.den as int);
            lemma_prod_bound(self.den as int, other.den as int);
            lemma_prod_pos(self.den as int, other.den as int);
        }
        let n = (self.num as i128) * (other.den as i128) + (other.num as i128) * (self.den
            as i128);
        let d = (self.den as i128) * (other.den as i128);
        reduce(n, d)
    }

    /// Checked subtraction; exact, result in normal form.
    pub fn checked_sub(self, other: Rational) -> (r: Option<Rational>)
        requires
            self.wf(),
            other.wf(),
        ensures
            r == rat_sub(self, other),
            r matches Some(c) ==> c.wf(),
    {
        proof {
            lemma_num_den_bound(self.num as int, other.den as int);
            lemma_num_den_bound(other.num as int, self.den as int);
            lemma_prod_bound(self.den as int, other.den as int);
            lemma_prod_pos(self.den as int, other.den as int);
        }
        let n = (self.num as i128) * (other.den as i128) - (other.num as i128) * (self.den
            as i128);
        let d = (self.den as i128) * (other.den as i128);
        reduce(n, d)
    }

    /// Checked multiplication; exact, result in normal form.
    pub fn checked_mul(self, other: Rational) -> (r: Option<Rational>)
        requires
            self.wf(),
            other.wf(),
        ensures
            r == rat_mul(self, other),
            r matches Some(c) ==> c.wf(),
    {
        proof {
            lemma_prod_bound(self.num as int, other.num as int);
            lemma_prod_bound(self.den as int, other.den as int);
            lemma_prod_pos(self.den as int, other.den as int);
        }
        let n = (self.num as i128) * (other.num as i128);
        let d = (self.den as i128) * (other.den as i128);
        reduce(n, d)
    }

    /// Checked exact division; fails on a zero divisor.
    pub fn checked_div(self, other: Rational) -> (r: Option<Rational>)
        requires
            self.wf(),
            other.wf(),
        ensures
            r == rat_div(self, other),
            r matches Some(c) ==> c.wf(),
    {
        if other.num == 0 {
            return None;
        }
        proof {
            lemma_num_den_bound(self.num as int, other.den as int);
            lemma_den_num_bound(self.den as int, other.num as int);
            lemma_prod_nonzero(self.den as int, other.num as int);
        }
        let n = (self.num as i128) * (other.den as i128);
        let d = (self.den as i128) * (other.num as i128);
        if d > 0 {
            reduce(n, d)
        } else {
            reduce(-n, -d)
        }
    }

    /// Checked power with a machine-word exponent: `e` checked multiplications
    /// by `self` starting from one.
    pub fn checked_pow(self, e: u32) -> (r: Option<Rational>)
        requires
            self.wf(),
        ensures
            r == rat_pow(self, e as nat),
            r matches Some(c) ==> c.wf(),
    {
        let mut p = Rational::from_integer(1);
        let mut k: u32 = 0;
        while k < e
            invariant
                k <= e,
                rat_pow(self, k as nat) == Some(p),
                p.wf(),
                self.wf(),
            decreases e - k,
        {
            match p.checked_mul(self) {
                None => {
                    proof {
                        lemma_rat_pow_none(self, (k + 1) as nat, e as nat);
                    }
                    return None;
                },
                Some(q) => {
                    p = q;
                },
            }
            k = k + 1;
        }
        Some(p)
    }
}

impl Rational {
    /// Whether this value is in normal form. Everything this library returns
    /// is; a caller that builds a `Rational` by hand can test it here before
    /// handing it to the evaluator.
    pub fn is_normalized(&self) -> (r: bool)
        ensures
            r == self.wf(),
    {
        if self.den <= 0 {
            return false;
        }
        let m: u128 = if self.num < 0 {
            (-(self.num as i128)) as u128
        } else {
            self.num as u128
        };
        gcd_u128(m, self.den as u128) == 1
    }
}

/// The normal form of the fraction `n / d`, for any sign of `d`; `None` on a
/// zero denominator or where the normal form does not fit.
pub open spec fn rat_new(n: int, d: int) -> Option<Rational> {
    if d == 0 {
        None
    } else if d > 0 {
        spec_reduce(n, d)
    } else {
        spec_reduce(-n, -d)
    }
}

/// Dividing a value by a non-zero rational and then multiplying by that same
/// rational restores the value exactly, whenever the division itself fits.
pub proof fn lemma_div_mul_round_trip(v: Rational, d: Rational)
    requires
        v.wf(),
        d.wf(),
        d.num != 0,
        rat_div(v, d) is Some,
    ensures
        rat_mul(rat_div(v, d).unwrap(), d) == Some(v),
{
    let q = rat_div(v, d).unwrap();
    let n0 = v.num as int * d.den as int;
    let d0 = v.den as int * d.num as int;
    lemma_prod_nonzero(v.den as int, d.num as int);
    if d0 > 0 {
        lemma_reduced_props(n0, d0);
    } else {
        lemma_reduced_props(-n0, -d0);
        assert(q.num * d0 == n0 * q.den) by (nonlinear_arith)
            requires
                q.num * (-d0) == (-n0) * (q.den as int),
        ;
    }
    assert(q.num * d0 == n0 * q.den);
    assert(q.den > 0);
    lemma_prod_pos(q.den as int, d.den as int);
    assert(v.num * ((q.den as int) * (d.den as int)) == ((q.num as int) * (d.num as int)) * v.den)
        by (nonlinear_arith)
        requires
            q.num * d0 == n0 * (q.den as int),
            d0 == (v.den as int) * (d.num as int),
            n0 == (v.num as int) * (d.den as int),
    ;
    lemma_reduce_of_normal((q.num as int) * (d.num as int), (q.den as int) * (d.den as int), v);
}

impl Rational {
    /// The fraction `n / d` in normal form; `None` on a zero denominator or
    /// where the normal form does not fit in an `i64` fraction.
    pub fn new(n: i64, d: i64) -> (r: Option<Rational>)
        ensures
            r == rat_new(n as int, d as int),
            r matches Some(c) ==> c.wf(),
    {
        if d == 0 {
            None
        } else if d > 0 {
            reduce(n as i128, d as i128)
        } else {
            reduce(-(n as i128), -(d as i128))
        }
    }
}

/// Euclid's algorithm on machine words.
fn gcd_u128(a0: u128, b0: u128) -> (g: u128)
    ensures
        g == gcd(a0 as nat, b0 as nat),
{
    let mut a = a0;
    let mut b = b0;
    while b != 0
        invariant
            gcd(a as nat, b as nat) == gcd(a0 as nat, b0 as nat),
        decreases b,
    {
        let r = a % b;
        a = b;
        b = r;
    }
    a
}

/// Brings `n / d` to normal form, or returns `None` where the normal form does
/// not fit in an `i64` fraction.
fn reduce(n: i128, d: i128) -> (r: Option<Rational>)
    requires
        d > 0,
        n > i128::MIN,
    ensures
        r == spec_reduce(n as int, d as int),
        r matches Some(c) ==> c.wf(),
{
    proof {
        lemma_reduced_props(n as int, d as int);
    }
    let neg = n < 0;
    let m: u128 = if neg {
        (-n) as u128
    } else {
        n as u128
    };
    let g = gcd_u128(m, d as u128);
    proof {
        lemma_gcd_divides(m as nat, d as nat);
    }
    let rn_mag = m / g;
    let rd = (d as u128) / g;
    assert(rd == reduced_den(n as int, d as int));
    assert(rn_mag == nat_abs(reduced_num(n as int, d as int)));
    if rd > i64::MAX as u128 {
        None
    } else if neg {
        if rn_mag > (i64::MAX as u128) + 1 {
            None
        } else {
            Some(Rational { num: (-(rn_mag as i128)) as i64, den: rd as i64 })
        }
    } else {
        if rn_mag > i64::MAX as u128 {
            None
        } else {
            Some(Rational { num: rn_mag as i64, den: rd as i64 })
        }
    }
}

} // verus!
