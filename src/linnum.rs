//! The scalar: an exact rational kept in lowest terms, or an IEEE-754 double.
use crate::gcd::{
    abs, divides, gcd, lemma_gcd_divides, lemma_gcd_le, lemma_gcd_reduced, lemma_gcd_scale,
};
use crate::ieee::{
    abs_bits, ieee_add, ieee_div, ieee_from_int, ieee_lt, ieee_mul, ieee_round, ieee_sub,
    ieee_to_int, real_abs, real_add, real_div, real_from_int, real_lt, real_mul, real_round,
    real_sub, real_to_int,
};
use vstd::arithmetic::div_mod::{
    lemma_div_multiples_vanish, lemma_fundamental_div_mod, lemma_mod_multiples_basic,
};
use vstd::prelude::*;

verus! {

/// What a scalar denotes: a fraction of two integers, or a double given by its
/// bit pattern.
pub enum NumView {
    Rational(int, int),
    Real(u64),
}

/// The largest denominator tried when a double is turned into a fraction.
pub const APPROX_MAX_DEN: i128 = 100;

/// Whether an integer fits in an `i128`.
pub open spec fn fits(x: int) -> bool {
    i128::MIN <= x <= i128::MAX
}

/// The arguments that `LinNum::new_rational` accepts: a non-zero denominator,
/// both in range, and a fraction whose sign can be moved to the numerator.
pub open spec fn rational_ok(n: int, d: int) -> bool {
    &&& fits(n)
    &&& i128::MIN < d <= i128::MAX
    &&& d != 0
    &&& (d < 0 ==> n > i128::MIN)
}

/// The lowest-terms form of `n / d`: both divided by their greatest common
/// divisor, the denominator made positive.
pub open spec fn normalize(n: int, d: int) -> NumView {
    let g = gcd(abs(n), abs(d)) as int;
    if d < 0 {
        NumView::Rational(-(n / g), -(d / g))
    } else {
        NumView::Rational(n / g, d / g)
    }
}

/// A well-formed scalar: a fraction in range, in lowest terms, with a
/// positive denominator; any double.
pub open spec fn num_wf(v: NumView) -> bool {
    match v {
        NumView::Rational(n, d) => fits(n) && 0 < d <= i128::MAX && gcd(abs(n), d as nat) == 1,
        NumView::Real(_) => true,
    }
}

/// The double that a scalar turns into: for a fraction, the numerator's
/// double divided by the denominator's.
pub open spec fn real_value(v: NumView) -> u64 {
    match v {
        NumView::Rational(n, d) => ieee_div(ieee_from_int(n as i128), ieee_from_int(d as i128)),
        NumView::Real(b) => b,
    }
}

/// The sum: exact for two fractions, a double as soon as one side is a double.
pub open spec fn add_view(a: NumView, b: NumView) -> NumView {
    match (a, b) {
        (NumView::Rational(n1, d1), NumView::Rational(n2, d2)) => normalize(
            n1 * d2 + n2 * d1,
            d1 * d2,
        ),
        _ => NumView::Real(ieee_add(real_value(a), real_value(b))),
    }
}

/// The difference: exact for two fractions, a double as soon as one side is a double.
pub open spec fn sub_view(a: NumView, b: NumView) -> NumView {
    match (a, b) {
        (NumView::Rational(n1, d1), NumView::Rational(n2, d2)) => normalize(
            n1 * d2 - n2 * d1,
            d1 * d2,
        ),
        _ => NumView::Real(ieee_sub(real_value(a), real_value(b))),
    }
}

/// The product: exact for two fractions, a double as soon as one side is a double.
pub open spec fn mul_view(a: NumView, b: NumView) -> NumView {
    match (a, b) {
        (NumView::Rational(n1, d1), NumView::Rational(n2, d2)) => normalize(n1 * n2, d1 * d2),
        _ => NumView::Real(ieee_mul(real_value(a), real_value(b))),
    }
}

/// The quotient: exact for two fractions, a double as soon as one side is a double.
pub open spec fn div_view(a: NumView, b: NumView) -> NumView {
    match (a, b) {
        (NumView::Rational(n1, d1), NumView::Rational(n2, d2)) => normalize(n1 * d2, d1 * n2),
        _ => NumView::Real(ieee_div(real_value(a), real_value(b))),
    }
}

/// Two fractions whose exact sum stays in range; always true with a double.
pub open spec fn add_ok(a: NumView, b: NumView) -> bool {
    match (a, b) {
        (NumView::Rational(n1, d1), NumView::Rational(n2, d2)) => {
            &&& fits(n1 * d2)
            &&& fits(n2 * d1)
            &&& rational_ok(n1 * d2 + n2 * d1, d1 * d2)
        },
        _ => true,
    }
}

/// Two fractions whose exact difference stays in range; always true with a double.
pub open spec fn sub_ok(a: NumView, b: NumView) -> bool {
    match (a, b) {
        (NumView::Rational(n1, d1), NumView::Rational(n2, d2)) => {
            &&& fits(n1 * d2)
            &&& fits(n2 * d1)
            &&& rational_ok(n1 * d2 - n2 * d1, d1 * d2)
        },
        _ => true,
    }
}

/// Two fractions whose exact product stays in range; always true with a double.
pub open spec fn mul_ok(a: NumView, b: NumView) -> bool {
    match (a, b) {
        (NumView::Rational(n1, d1), NumView::Rational(n2, d2)) => rational_ok(n1 * n2, d1 * d2),
        _ => true,
    }
}

/// Two fractions whose exact quotient is defined and stays in range (the
/// divisor is not zero); always true with a double.
pub open spec fn div_ok(a: NumView, b: NumView) -> bool {
    match (a, b) {
        (NumView::Rational(n1, d1), NumView::Rational(n2, d2)) => rational_ok(n1 * d2, d1 * n2),
        _ => true,
    }
}

/// The numerator tried for denominator `i`: `v * i` rounded, halves away
/// from zero, then truncated to an integer.
pub open spec fn candidate_num(v: u64, i: i128) -> i128 {
    ieee_to_int(ieee_round(ieee_mul(v, ieee_from_int(i))))
}

/// How far `num / den` is from `v`, as a double.
pub open spec fn candidate_err(v: u64, num: i128, den: i128) -> u64 {
    abs_bits(ieee_sub(v, ieee_div(ieee_from_int(num), ieee_from_int(den))))
}

/// The best fraction for `v` among the denominators `1..=i`, with its error:
/// the nearest integer first, then each denominator in turn, replacing the
/// best so far only where the error is strictly smaller.
pub open spec fn best_approx(v: u64, i: int) -> (i128, i128, u64)
    decreases i,
{
    if i <= 1 {
        let n = ieee_to_int(ieee_round(v));
        (n, 1, abs_bits(ieee_sub(v, ieee_from_int(n))))
    } else {
        let prev = best_approx(v, i - 1);
        let n = candidate_num(v, i as i128);
        let e = candidate_err(v, n, i as i128);
        if ieee_lt(e, prev.2) {
            (n, i as i128, e)
        } else {
            prev
        }
    }
}

/// A scalar as a fraction: itself if it is one, else the best fraction for
/// the double with a denominator of at most `APPROX_MAX_DEN`.
pub open spec fn to_rational_view(v: NumView) -> NumView {
    match v {
        NumView::Real(b) => {
            let best = best_approx(b, APPROX_MAX_DEN as int);
            normalize(best.0 as int, best.1 as int)
        },
        _ => v,
    }
}

/// A scalar as a double.
pub open spec fn to_real_view(v: NumView) -> NumView {
    NumView::Real(real_value(v))
}

#[derive(PartialEq, Eq, Structural, Clone, Copy, Debug)]
enum LinNumWrapper {
    Rational(i128, i128),
    Real(u64),
}

/// A scalar: an exact rational number in lowest terms with a positive
/// denominator, or a real number held as the bit pattern of an IEEE-754 double.
#[derive(PartialEq, Eq, Structural, Clone, Copy, Debug)]
pub struct LinNum {
    value: LinNumWrapper,
}

impl View for LinNum {
    type V = NumView;

    closed spec fn view(&self) -> NumView {
        match self.value {
            LinNumWrapper::Rational(n, d) => NumView::Rational(n as int, d as int),
            LinNumWrapper::Real(b) => NumView::Real(b),
        }
    }
}

/// Relies on num_integer::gcd for `i128`: the greatest common divisor of the
/// absolute values (Stein's algorithm), never negative. It overflows exactly
/// when that divisor is `2^127`, which `requires` leaves out.
#[verifier::external_body]
fn gcd_i128(a: i128, b: i128) -> (r: i128)
    requires
        gcd(abs(a as int), abs(b as int)) <= i128::MAX,
    ensures
        r as int == gcd(abs(a as int), abs(b as int)),
{
    num_integer::gcd(a, b)
}

/// Dividing by a positive divisor of `|n|` is exact and commutes with `abs`.
proof fn lemma_abs_div(n: int, g: int)
    requires
        g > 0,
        divides(g, abs(n) as int),
    ensures
        divides(g, n),
        n == g * (n / g),
        abs(n / g) == abs(n) as int / g,
        abs(n / g) <= abs(n),
        (n < 0) == (n / g < 0),
        n / g == (if n >= 0 {
            abs(n) as int / g
        } else {
            -(abs(n) as int / g)
        }),
{
    let a = abs(n) as int;
    lemma_fundamental_div_mod(a, g);
    let q = a / g;
    assert(q >= 0 && q <= a) by (nonlinear_arith)
        requires
            a == g * q,
            a >= 0,
            g > 0,
    ;
    if n < 0 {
        assert(n == (-q) * g) by (nonlinear_arith)
            requires
                a == g * q,
                n == -a,
        ;
        lemma_mod_multiples_basic(-q, g);
        lemma_div_multiples_vanish(-q, g);
        assert(g * (-q) == (-q) * g) by (nonlinear_arith);
        assert(q > 0) by (nonlinear_arith)
            requires
                a == g * q,
                a > 0,
                g > 0,
        ;
    } else {
        assert(n == q * g) by (nonlinear_arith)
            requires
                a == g * q,
                n == a,
        ;
        lemma_mod_multiples_basic(q, g);
        lemma_div_multiples_vanish(q, g);
        assert(g * q == q * g) by (nonlinear_arith);
    }
}

/// The lowest-terms form of an admitted fraction is well formed, and the
/// divisor it uses fits in an `i128`.
proof fn lemma_normalize_wf(n: int, d: int)
    requires
        rational_ok(n, d),
    ensures
        num_wf(normalize(n, d)),
        gcd(abs(n), abs(d)) <= i128::MAX,
{
    lemma_gcd_divides(abs(n), abs(d));
    lemma_gcd_le(abs(n), abs(d));
    lemma_gcd_reduced(abs(n), abs(d));
    let g = gcd(abs(n), abs(d)) as int;
    lemma_abs_div(n, g);
    lemma_abs_div(d, g);
    let n1 = n / g;
    let d1 = d / g;
    if d < 0 && n1 <= i128::MIN {
        assert(false) by (nonlinear_arith)
            requires
                n == g * n1,
                n1 <= i128::MIN,
                n > i128::MIN,
                g >= 1,
        ;
    }
    assert(abs(n1) == abs(n) as int / g);
    assert(d1 != 0) by (nonlinear_arith)
        requires
            d == g * d1,
            d != 0,
    ;
    assert(abs(d1) == abs(d) as int / g);
    assert(gcd(abs(n1), abs(d1)) == 1);
    if d < 0 {
        assert(abs(-n1) == abs(n1));
        assert(-d1 == abs(d1));
        assert(fits(-n1));
        assert(0 < -d1 <= i128::MAX);
        assert(gcd(abs(-n1), (-d1) as nat) == 1);
        assert(normalize(n, d) == NumView::Rational(-n1, -d1));
    } else {
        assert(d1 == abs(d1));
        assert(fits(n1));
        assert(0 < d1 <= i128::MAX);
        assert(normalize(n, d) == NumView::Rational(n1, d1));
    }
}

impl LinNum {
    #[verifier::type_invariant]
    spec fn inv(self) -> bool {
        num_wf(self@)
    }

    /// Two scalars are equal exactly when they denote the same thing in the
    /// same form.
    pub proof fn lemma_eq_view(self, other: LinNum)
        ensures
            (self == other) <==> (self@ == other@),
    {
    }

    /// The fraction `numerator / denominator` in lowest terms, with the sign
    /// carried by the numerator.
    pub fn new_rational(numerator: i128, denominator: i128) -> (r: LinNum)
        requires
            rational_ok(numerator as int, denominator as int),
        ensures
            r@ == normalize(numerator as int, denominator as int),
            num_wf(r@),
    {
        proof {
            let (n, d) = (numerator as int, denominator as int);
            lemma_normalize_wf(n, d);
            lemma_gcd_divides(abs(n), abs(d));
            lemma_abs_div(n, gcd(abs(n), abs(d)) as int);
            lemma_abs_div(d, gcd(abs(n), abs(d)) as int);
        }
        let g = gcd_i128(numerator, denominator);
        let n = numerator / g;
        let d = denominator / g;
        if d < 0 {
            LinNum { value: LinNumWrapper::Rational(-n, -d) }
        } else {
            LinNum { value: LinNumWrapper::Rational(n, d) }
        }
    }

    /// A real number, given by the bit pattern of an IEEE-754 double; the
    /// bits are kept as they are.
    pub fn new_real(bits: u64) -> (r: LinNum)
        ensures
            r@ == NumView::Real(bits),
    {
        LinNum { value: LinNumWrapper::Real(bits) }
    }

    /// The integer `value` as the fraction `value / 1`.
    pub fn from_int(value: i128) -> (r: LinNum)
        ensures
            r@ == NumView::Rational(value as int, 1),
            num_wf(r@),
    {
        proof {
            lemma_normalize_one(value as int);
        }
        LinNum::new_rational(value, 1)
    }

    /// Whether the scalar is a fraction.
    pub fn is_rational(&self) -> (r: bool)
        ensures
            r == self@ is Rational,
    {
        match self.value {
            LinNumWrapper::Rational(_, _) => true,
            LinNumWrapper::Real(_) => false,
        }
    }

    /// Whether the scalar is a double.
    pub fn is_real(&self) -> (r: bool)
        ensures
            r == self@ is Real,
    {
        match self.value {
            LinNumWrapper::Rational(_, _) => false,
            LinNumWrapper::Real(_) => true,
        }
    }

    /// The numerator and denominator of a fraction; `None` for a double.
    pub fn rational_parts(&self) -> (r: Option<(i128, i128)>)
        ensures
            match self@ {
                NumView::Rational(n, d) => r == Some((n as i128, d as i128)),
                NumView::Real(_) => r is None,
            },
    {
        match self.value {
            LinNumWrapper::Rational(n, d) => Some((n, d)),
            LinNumWrapper::Real(_) => None,
        }
    }

    /// The bit pattern of a double; `None` for a fraction.
    pub fn real_parts(&self) -> (r: Option<u64>)
        ensures
            match self@ {
                NumView::Rational(_, _) => r is None,
                NumView::Real(b) => r == Some(b),
            },
    {
        match self.value {
            LinNumWrapper::Rational(_, _) => None,
            LinNumWrapper::Real(b) => Some(b),
        }
    }

    /// The scalar's value as the bit pattern of a double.
    pub fn real_bits(&self) -> (r: u64)
        ensures
            r == real_value(self@),
    {
        match self.value {
            LinNumWrapper::Rational(n, d) => real_div(real_from_int(n), real_from_int(d)),
            LinNumWrapper::Real(b) => b,
        }
    }

    /// The scalar as a double.
    pub fn to_real(self) -> (r: LinNum)
        ensures
            r@ == to_real_view(self@),
    {
        LinNum { value: LinNumWrapper::Real(self.real_bits()) }
    }

    /// The scalar as an integer: a fraction's quotient truncated towards
    /// zero, a double truncated towards zero.
    pub fn to_int(self) -> (r: i128)
        ensures
            match self@ {
                NumView::Rational(n, d) => r as int == (if n >= 0 {
                    n / d
                } else {
                    -((-n) / d)
                }),
                NumView::Real(b) => r == ieee_to_int(b),
            },
    {
        proof {
            use_type_invariant(&self);
        }
        match self.value {
            LinNumWrapper::Rational(n, d) => n / d,
            LinNumWrapper::Real(b) => real_to_int(b),
        }
    }

    /// The scalar as a fraction: a fraction is kept; a double becomes the
    /// fraction with denominator at most `APPROX_MAX_DEN` that is nearest to
    /// it, the smallest such denominator winning ties.
    pub fn to_rational(self) -> (r: LinNum)
        ensures
            r@ == to_rational_view(self@),
            num_wf(r@),
    {
        proof {
            use_type_invariant(&self);
        }
        match self.value {
            LinNumWrapper::Real(v) => {
                let mut numerator = real_to_int(real_round(v));
                let mut denominator: i128 = 1;
                let mut error = real_abs(real_sub(v, real_from_int(numerator)));
                let mut i: i128 = 2;
                while i <= APPROX_MAX_DEN
                    invariant
                        2 <= i <= APPROX_MAX_DEN + 1,
                        1 <= denominator < i,
                        (numerator, denominator, error) == best_approx(v, i - 1),
                    decreases APPROX_MAX_DEN + 1 - i,
                {
                    let new_numerator = real_to_int(real_round(real_mul(v, real_from_int(i))));
                    let new_error = real_abs(
                        real_sub(v, real_div(real_from_int(new_numerator), real_from_int(i))),
                    );
                    if real_lt(new_error, error) {
                        numerator = new_numerator;
                        denominator = i;
                        error = new_error;
                    }
                    i = i + 1;
                }
                LinNum::new_rational(numerator, denominator)
            },
            LinNumWrapper::Rational(_, _) => self,
        }
    }

    /// The sum: exact when both are fractions, else the sum of the two
    /// as doubles.
    pub fn add(self, other: LinNum) -> (r: LinNum)
        requires
            add_ok(self@, other@),
        ensures
            r@ == add_view(self@, other@),
            num_wf(r@),
    {
        match (self.value, other.value) {
            (LinNumWrapper::Rational(n1, d1), LinNumWrapper::Rational(n2, d2)) => {
                LinNum::new_rational(n1 * d2 + n2 * d1, d1 * d2)
            },
            _ => {
                let value = real_add(self.real_bits(), other.real_bits());
                LinNum { value: LinNumWrapper::Real(value) }
            },
        }
    }

    /// Replaces the scalar by its sum with `other`.
    pub fn add_assign(&mut self, other: LinNum)
        requires
            add_ok(old(self)@, other@),
        ensures
            final(self)@ == add_view(old(self)@, other@),
    {
        *self = self.add(other);
    }

    /// The difference: exact when both are fractions, else the difference of the two
    /// as doubles.
    pub fn sub(self, other: LinNum) -> (r: LinNum)
        requires
            sub_ok(self@, other@),
        ensures
            r@ == sub_view(self@, other@),
            num_wf(r@),
    {
        match (self.value, other.value) {
            (LinNumWrapper::Rational(n1, d1), LinNumWrapper::Rational(n2, d2)) => {
                LinNum::new_rational(n1 * d2 - n2 * d1, d1 * d2)
            },
            _ => {
                let value = real_sub(self.real_bits(), other.real_bits());
                LinNum { value: LinNumWrapper::Real(value) }
            },
        }
    }

    /// Replaces the scalar by its difference with `other`.
    pub fn sub_assign(&mut self, other: LinNum)
        requires
            sub_ok(old(self)@, other@),
        ensures
            final(self)@ == sub_view(old(self)@, other@),
    {
        *self = self.sub(other);
    }

    /// The product: exact when both are fractions, else the product of the two
    /// as doubles.
    pub fn mul(self, other: LinNum) -> (r: LinNum)
        requires
            mul_ok(self@, other@),
        ensures
            r@ == mul_view(self@, other@),
            num_wf(r@),
    {
        match (self.value, other.value) {
            (LinNumWrapper::Rational(n1, d1), LinNumWrapper::Rational(n2, d2)) => {
                LinNum::new_rational(n1 * n2, d1 * d2)
            },
            _ => {
                let value = real_mul(self.real_bits(), other.real_bits());
                LinNum { value: LinNumWrapper::Real(value) }
            },
        }
    }

    /// Replaces the scalar by its product with `other`.
    pub fn mul_assign(&mut self, other: LinNum)
        requires
            mul_ok(old(self)@, other@),
        ensures
            final(self)@ == mul_view(old(self)@, other@),
    {
        *self = self.mul(other);
    }

    /// The quotient: exact when both are fractions, else the quotient of the two
    /// as doubles.
    pub fn div(self, other: LinNum) -> (r: LinNum)
        requires
            div_ok(self@, other@),
        ensures
            r@ == div_view(self@, other@),
            num_wf(r@),
    {
        match (self.value, other.value) {
            (LinNumWrapper::Rational(n1, d1), LinNumWrapper::Rational(n2, d2)) => {
                LinNum::new_rational(n1 * d2, d1 * n2)
            },
            _ => {
                let value = real_div(self.real_bits(), other.real_bits());
                LinNum { value: LinNumWrapper::Real(value) }
            },
        }
    }

    /// Replaces the scalar by its quotient with `other`.
    pub fn div_assign(&mut self, other: LinNum)
        requires
            div_ok(old(self)@, other@),
        ensures
            final(self)@ == div_view(old(self)@, other@),
    {
        *self = self.div(other);
    }
}

/// An integer over one is already in lowest terms.
proof fn lemma_normalize_one(n: int)
    requires
        fits(n),
    ensures
        normalize(n, 1) == NumView::Rational(n, 1),
{
    assert(gcd(abs(n), 1) == gcd(1, abs(n) % 1));
    assert(abs(n) % 1 == 0);
    assert(gcd(1, 0) == 1);
    assert(gcd(abs(n), 1) == 1);
    assert(n / 1 == n);
    assert(1int / 1 == 1);
}

/// A fraction is stored in lowest terms, and scaling numerator and
/// denominator by the same non-zero integer gives the same stored fraction.
pub proof fn lemma_rational_scale(n: int, d: int, k: int)
    requires
        rational_ok(n, d),
        k != 0,
    ensures
        num_wf(normalize(n, d)),
        normalize(k * n, k * d) == normalize(n, d),
{
    lemma_normalize_wf(n, d);
    lemma_gcd_divides(abs(n), abs(d));
    let g = gcd(abs(n), abs(d)) as int;
    lemma_abs_div(n, g);
    lemma_abs_div(d, g);
    let n1 = n / g;
    let d1 = d / g;
    let ak = abs(k) as int;
    let sk: int = if k < 0 {
        -1
    } else {
        1
    };
    assert(abs(k * n) == abs(k) * abs(n)) by (nonlinear_arith);
    assert(abs(k * d) == abs(k) * abs(d)) by (nonlinear_arith);
    lemma_gcd_scale(abs(k), abs(n), abs(d));
    let g2 = gcd(abs(k * n), abs(k * d)) as int;
    assert(g2 == ak * g);
    assert(ak * g > 0) by (nonlinear_arith)
        requires
            ak > 0,
            g > 0,
    ;
    assert(k * n == (sk * n1) * (ak * g)) by (nonlinear_arith)
        requires
            n == g * n1,
            k == sk * ak,
            sk * sk == 1,
    ;
    assert(k * d == (sk * d1) * (ak * g)) by (nonlinear_arith)
        requires
            d == g * d1,
            k == sk * ak,
            sk * sk == 1,
    ;
    lemma_div_multiples_vanish(sk * n1, ak * g);
    lemma_div_multiples_vanish(sk * d1, ak * g);
    assert((ak * g) * (sk * n1) == (sk * n1) * (ak * g)) by (nonlinear_arith);
    assert((ak * g) * (sk * d1) == (sk * d1) * (ak * g)) by (nonlinear_arith);
    assert((k * n) / g2 == sk * n1);
    assert((k * d) / g2 == sk * d1);
    assert((k * d < 0) == (if k < 0 {
        d > 0
    } else {
        d < 0
    })) by (nonlinear_arith)
        requires
            k != 0,
            d != 0,
    ;
}

/// `v` is a fraction equal to `n / d`.
pub open spec fn denotes(v: NumView, n: int, d: int) -> bool {
    match v {
        NumView::Rational(p, q) => q != 0 && p * d == n * q,
        NumView::Real(_) => false,
    }
}

/// The lowest-terms form of `n / d` denotes `n / d`.
pub proof fn lemma_normalize_denotes(n: int, d: int)
    requires
        d != 0,
    ensures
        denotes(normalize(n, d), n, d),
{
    lemma_gcd_divides(abs(n), abs(d));
    let g = gcd(abs(n), abs(d)) as int;
    lemma_abs_div(n, g);
    lemma_abs_div(d, g);
    let n1 = n / g;
    let d1 = d / g;
    assert(d1 != 0) by (nonlinear_arith)
        requires
            d == g * d1,
            d != 0,
    ;
    assert(n1 * d == n * d1) by (nonlinear_arith)
        requires
            n == g * n1,
            d == g * d1,
    ;
    assert((-n1) * d == n * (-d1)) by (nonlinear_arith)
        requires
            n1 * d == n * d1,
    ;
}

/// Sums, differences, products and quotients (by a non-zero fraction) of two
/// fractions are fractions equal to the exact result; as soon as one side is a double, the result is the
/// double computed from both sides as doubles.
pub proof fn lemma_promotion(a: NumView, b: NumView)
    requires
        num_wf(a),
        num_wf(b),
    ensures
        match (a, b) {
            (NumView::Rational(n1, d1), NumView::Rational(n2, d2)) => {
                &&& denotes(add_view(a, b), n1 * d2 + n2 * d1, d1 * d2)
                &&& denotes(sub_view(a, b), n1 * d2 - n2 * d1, d1 * d2)
                &&& denotes(mul_view(a, b), n1 * n2, d1 * d2)
                &&& div_ok(a, b) ==> denotes(div_view(a, b), n1 * d2, d1 * n2)
            },
            _ => {
                &&& add_view(a, b) == NumView::Real(ieee_add(real_value(a), real_value(b)))
                &&& sub_view(a, b) == NumView::Real(ieee_sub(real_value(a), real_value(b)))
                &&& mul_view(a, b) == NumView::Real(ieee_mul(real_value(a), real_value(b)))
                &&& div_view(a, b) == NumView::Real(ieee_div(real_value(a), real_value(b)))
            },
        },
{
    if let (NumView::Rational(n1, d1), NumView::Rational(n2, d2)) = (a, b) {
        assert(d1 * d2 != 0) by (nonlinear_arith)
            requires
                d1 > 0,
                d2 > 0,
        ;
        lemma_normalize_denotes(n1 * d2 + n2 * d1, d1 * d2);
        lemma_normalize_denotes(n1 * d2 - n2 * d1, d1 * d2);
        lemma_normalize_denotes(n1 * n2, d1 * d2);
        if div_ok(a, b) {
            lemma_normalize_denotes(n1 * d2, d1 * n2);
        }
    }
}

/// A fraction and a double are never equal, whatever they denote.
pub proof fn lemma_variant_sensitive(a: LinNum, b: LinNum)
    requires
        a@ is Rational,
        b@ is Real,
    ensures
        a != b,
{
    a.lemma_eq_view(b);
}

} // verus!
