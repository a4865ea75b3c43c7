use vstd::arithmetic::div_mod::{lemma_fundamental_div_mod, lemma_mod_multiples_basic};
use vstd::prelude::*;

use crate::strings::push_char;

verus! {

/// Why an arithmetic operation produced no number.
#[derive(Clone, Copy, Debug, PartialEq, Eq, Structural)]
pub enum Fault {
    /// A numerator or denominator left the range of `i64`.
    Overflow,
    /// The divisor was zero.
    DivisionByZero,
    /// The exact result is not a rational number (a fractional power, an irrational root).
    NotRepresentable,
}

pub open spec fn abs(x: int) -> nat {
    if x < 0 {
        (-x) as nat
    } else {
        x as nat
    }
}

pub open spec fn with_sign(negative: bool, m: int) -> int {
    if negative {
        -m
    } else {
        m
    }
}

/// Greatest common divisor, by Euclid's rule.
pub open spec fn gcd(a: nat, b: nat) -> nat
    decreases b,
{
    if b == 0 {
        a
    } else {
        gcd(b, a % b)
    }
}

/// `x` raised to the power `k`.
pub open spec fn power(x: int, k: nat) -> int
    decreases k,
{
    if k == 0 {
        1
    } else {
        x * power(x, (k - 1) as nat)
    }
}

pub open spec fn factorial(n: nat) -> nat
    decreases n,
{
    if n <= 1 {
        1
    } else {
        n * factorial((n - 1) as nat)
    }
}

/// Remainder of the division of `x` by `y` truncated toward zero: it takes the sign of `x`.
pub open spec fn trunc_rem(x: int, y: int) -> int {
    with_sign(x < 0, (abs(x) % abs(y)) as int)
}

pub proof fn lemma_gcd_pos(a: nat, b: nat)
    requires
        b > 0,
    ensures
        gcd(a, b) > 0,
    decreases b,
{
    if a % b > 0 {
        lemma_gcd_pos(b, a % b);
    } else {
        assert(gcd(b, 0) == b);
    }
}

pub proof fn lemma_gcd_one(a: nat)
    ensures
        gcd(a, 1) == 1,
{
    assert(a % 1 == 0);
    assert(gcd(1, 0) == 1);
}

pub proof fn lemma_gcd_le(a: nat, b: nat)
    requires
        b > 0,
    ensures
        gcd(a, b) <= b,
    decreases b,
{
    if a % b > 0 {
        lemma_gcd_le(b, a % b);
    } else {
        assert(gcd(b, 0) == b);
    }
}

/// A fraction whose parts fit always reduces to a number.
pub proof fn lemma_reduce_fits(n: int, d: int)
    requires
        abs(n) <= i64::MAX,
        1 <= d <= i64::MAX,
    ensures
        reduce(n, d) is Ok,
{
    lemma_gcd_pos(abs(n), abs(d));
    lemma_gcd_le(abs(n), abs(d));
    let g = gcd(abs(n), abs(d));
    assert(abs(n) / g <= abs(n)) by (nonlinear_arith)
        requires
            g >= 1,
    ;
    assert(abs(d) / g >= 1) by (nonlinear_arith)
        requires
            1 <= g <= abs(d),
    ;
    assert(abs(d) / g <= abs(d)) by (nonlinear_arith)
        requires
            g >= 1,
    ;
}

/// A fraction with denominator 1 is already in lowest terms.
pub proof fn lemma_reduce_integer(v: int)
    requires
        abs(v) <= i64::MAX,
    ensures
        reduce(v, 1) is Ok,
        reduce(v, 1)->Ok_0.numer() == v,
        reduce(v, 1)->Ok_0.denom() == 1,
{
    lemma_gcd_one(abs(v));
    assert(abs(1) == 1);
    assert(abs(v) / 1 == abs(v));
    assert(1nat / 1 == 1);
}

pub proof fn lemma_power_pos(x: int, k: nat)
    requires
        x >= 1,
    ensures
        power(x, k) >= 1,
    decreases k,
{
    if k > 0 {
        lemma_power_pos(x, (k - 1) as nat);
        let p = power(x, (k - 1) as nat);
        assert(x * p >= 1) by (nonlinear_arith)
            requires
                x >= 1,
                p >= 1,
        ;
    }
}

pub proof fn lemma_factorial_grows(i: nat, k: nat)
    requires
        i <= k,
    ensures
        factorial(i) <= factorial(k),
    decreases k,
{
    if i < k {
        lemma_factorial_grows(i, (k - 1) as nat);
        let f = factorial((k - 1) as nat);
        assert(f <= k * f) by (nonlinear_arith)
            requires
                k >= 1,
        ;
    }
}

proof fn lemma_product_bound(x: int, y: int)
    requires
        abs(x) <= i64::MAX,
        abs(y) <= i64::MAX,
    ensures
        abs(x * y) <= i64::MAX * i64::MAX,
        -(i64::MAX * i64::MAX) <= x * y <= i64::MAX * i64::MAX,
        x > 0 && y > 0 ==> x * y > 0,
{
    assert(x > 0 && y > 0 ==> x * y > 0) by (nonlinear_arith);
    let m: int = i64::MAX as int;
    assert(abs(x) * abs(y) <= m * m) by (nonlinear_arith)
        requires
            abs(x) <= m,
            abs(y) <= m,
    ;
    assert(abs(x * y) == abs(x) * abs(y)) by (nonlinear_arith);
}

/// How many digits after the point the decimal form of a number shows at most.
pub const FRACTION_DIGITS: u64 = 16;

/// The most digits after the point that a number read from a literal keeps.
pub const MAX_SCALE: u32 = 18;

pub open spec fn digit_char(d: nat) -> char {
    ((d + 48) as u8) as char
}

/// The decimal digits of `n`, most significant first, without leading zeros.
pub open spec fn decimal_digits(n: nat) -> Seq<char>
    decreases n,
{
    if n < 10 {
        seq![digit_char(n)]
    } else {
        decimal_digits(n / 10).push(digit_char(n % 10))
    }
}

/// The first `k` digits after the point of `r / d` (`r < d`), by long division, stopping
/// early where the division comes out exact.
pub open spec fn fraction_digits(r: nat, d: nat, k: nat) -> Seq<char>
    decreases k,
{
    if k == 0 || r == 0 || d == 0 {
        seq![]
    } else {
        seq![digit_char((r * 10) / d)] + fraction_digits((r * 10) % d, d, (k - 1) as nat)
    }
}

/// An exact rational number `num / den`, with `den` positive. Every operation divides its
/// result through by the greatest common divisor of its parts. Both parts stay within `i64`, the numerator strictly above `i64::MIN` so that it
/// can always be negated.
#[derive(Clone, Copy, Debug, PartialEq, Eq, Structural)]
pub struct Number {
    num: i64,
    den: i64,
}

/// The fraction `n / d` divided through by the greatest common divisor of its parts, or
/// `Overflow` where a part of that fraction does not fit.
pub closed spec fn reduce(n: int, d: int) -> Result<Number, Fault> {
    let g = gcd(abs(n), abs(d));
    let m = abs(n) / g;
    let q = abs(d) / g;
    if m <= i64::MAX && 1 <= q <= i64::MAX {
        Ok(Number { num: with_sign(n < 0, m as int) as i64, den: q as i64 })
    } else {
        Err(Fault::Overflow)
    }
}

impl Number {
    #[verifier::type_invariant]
    closed spec fn inv(self) -> bool {
        &&& self.den > 0
        &&& self.num > i64::MIN
    }

    pub closed spec fn numer(self) -> int {
        self.num as int
    }

    pub closed spec fn denom(self) -> int {
        self.den as int
    }

    /// Whether the two fractions have the same value.
    pub open spec fn same_value(self, o: Number) -> bool {
        self.numer() * o.denom() == o.numer() * self.denom()
    }

    pub open spec fn sum_spec(self, o: Number) -> Result<Number, Fault> {
        reduce(self.numer() * o.denom() + o.numer() * self.denom(), self.denom() * o.denom())
    }

    pub open spec fn difference_spec(self, o: Number) -> Result<Number, Fault> {
        reduce(self.numer() * o.denom() - o.numer() * self.denom(), self.denom() * o.denom())
    }

    pub open spec fn product_spec(self, o: Number) -> Result<Number, Fault> {
        reduce(self.numer() * o.numer(), self.denom() * o.denom())
    }

    pub open spec fn quotient_spec(self, o: Number) -> Result<Number, Fault> {
        if o.numer() == 0 {
            Err(Fault::DivisionByZero)
        } else {
            reduce(
                with_sign(o.numer() < 0, self.numer() * o.denom()),
                self.denom() * abs(o.numer()),
            )
        }
    }

    /// `self - trunc(self / o) * o`, the remainder that takes the sign of `self`.
    pub open spec fn remainder_spec(self, o: Number) -> Result<Number, Fault> {
        if o.numer() == 0 {
            Err(Fault::DivisionByZero)
        } else {
            reduce(
                trunc_rem(self.numer() * o.denom(), self.denom() * o.numer()),
                self.denom() * o.denom(),
            )
        }
    }

    /// `-self`: the negated numerator over the same denominator.
    pub closed spec fn negation_spec(self) -> Number {
        Number { num: -self.num as i64, den: self.den }
    }

    /// `|self|`: the numerator's magnitude over the same denominator.
    pub closed spec fn magnitude_spec(self) -> Number {
        Number { num: abs(self.num as int) as i64, den: self.den }
    }

    pub open spec fn is_square_root(x: int, r: int) -> bool {
        r >= 0 && r * r == x
    }

    /// The square root, where numerator and denominator are both perfect squares.
    pub open spec fn root_spec(self) -> Result<Number, Fault> {
        if (exists|r: int| Self::is_square_root(self.numer(), r)) && (exists|s: int|
            Self::is_square_root(self.denom(), s)) {
            reduce(
                choose|r: int| Self::is_square_root(self.numer(), r),
                choose|s: int| Self::is_square_root(self.denom(), s),
            )
        } else {
            Err(Fault::NotRepresentable)
        }
    }

    /// The integer part, truncated toward zero.
    pub open spec fn trunc_spec(self) -> int {
        with_sign(self.numer() < 0, (abs(self.numer()) / abs(self.denom())) as int)
    }

    pub open spec fn is_integer(self) -> bool {
        self.denom() == 1
    }

    /// `self` multiplied by itself `k` times, failing where a partial product overflows.
    pub open spec fn power_spec(self, k: nat) -> Result<Number, Fault>
        decreases k,
    {
        if k == 0 {
            reduce(1, 1)
        } else {
            match self.power_spec((k - 1) as nat) {
                Ok(p) => p.product_spec(self),
                Err(f) => Err(f),
            }
        }
    }

    /// `1 / self`: numerator and denominator change places, the sign staying on top.
    pub closed spec fn reciprocal_spec(self) -> Result<Number, Fault> {
        if self.num == 0 {
            Err(Fault::DivisionByZero)
        } else {
            Ok(
                Number {
                    num: with_sign(self.num < 0, self.den as int) as i64,
                    den: abs(self.num as int) as i64,
                },
            )
        }
    }

    /// `self` raised to the integer `e`; a fractional exponent is refused.
    pub open spec fn pow_spec(self, e: Number) -> Result<Number, Fault> {
        if !e.is_integer() {
            Err(Fault::NotRepresentable)
        } else if e.numer() >= 0 {
            self.power_spec(e.numer() as nat)
        } else {
            match self.reciprocal_spec() {
                Ok(r) => r.power_spec(abs(e.numer())),
                Err(f) => Err(f),
            }
        }
    }

    /// The factorial of the integer part; the factorial of a negative part is 1.
    pub open spec fn factorial_spec(self) -> Result<Number, Fault> {
        let k = self.trunc_spec();
        if k <= 1 {
            reduce(1, 1)
        } else {
            reduce(factorial(k as nat) as int, 1)
        }
    }

    /// The decimal form: an optional `-`, the integer part, and where the number is not an
    /// integer a `.` followed by at most `FRACTION_DIGITS` digits of the fraction.
    pub open spec fn text_spec(self) -> Seq<char> {
        let m = abs(self.numer());
        let d = abs(self.denom());
        let sign = if self.numer() < 0 {
            seq!['-']
        } else {
            Seq::<char>::empty()
        };
        let fraction = if m % d == 0 {
            Seq::<char>::empty()
        } else {
            seq!['.'] + fraction_digits(m % d, d, FRACTION_DIGITS as nat)
        };
        sign + decimal_digits(m / d) + fraction
    }

    /// The number written `mantissa` with its last `scale` digits after the point.
    pub open spec fn decimal_spec(negative: bool, mantissa: nat, scale: nat) -> Number {
        reduce(with_sign(negative, mantissa as int), power(10, scale))->Ok_0
    }

    pub open spec fn from_int_spec(v: int) -> Number {
        reduce(v, 1)->Ok_0
    }
}


fn gcd_exec(a: u128, b: u128) -> (g: u128)
    ensures
        g == gcd(a as nat, b as nat),
{
    let mut x = a;
    let mut y = b;
    while y != 0
        invariant
            gcd(x as nat, y as nat) == gcd(a as nat, b as nat),
        decreases y,
    {
        let t = x % y;
        x = y;
        y = t;
    }
    x
}

/// Builds `n / d` in lowest terms.
fn reduce_exec(n: i128, d: i128) -> (r: Result<Number, Fault>)
    requires
        d > 0,
        n > i128::MIN,
    ensures
        r == reduce(n as int, d as int),
{
    let negative = n < 0;
    let mag: u128 = if negative {
        (-n) as u128
    } else {
        n as u128
    };
    let dm = d as u128;
    proof {
        lemma_gcd_pos(mag as nat, dm as nat);
    }
    let g = gcd_exec(mag, dm);
    let m = mag / g;
    let q = dm / g;
    if m <= i64::MAX as u128 && 1 <= q && q <= i64::MAX as u128 {
        let num: i64 = if negative {
            -(m as i64)
        } else {
            m as i64
        };
        Ok(Number { num, den: q as i64 })
    } else {
        Err(Fault::Overflow)
    }
}

impl Number {
    /// The integer `v` as a number.
    pub fn from_int(v: i32) -> (r: Number)
        ensures
            r == Number::from_int_spec(v as int),
            r.numer() == v,
            r.denom() == 1,
    {
        proof {
            lemma_reduce_integer(v as int);
        }
        let r = reduce_exec(v as i128, 1);
        r.unwrap()
    }

    /// The integer `v` as a number.
    pub fn from_i64(v: i64) -> (r: Number)
        requires
            v > i64::MIN,
        ensures
            r == Number::from_int_spec(v as int),
            r.numer() == v,
            r.denom() == 1,
    {
        proof {
            lemma_reduce_integer(v as int);
        }
        reduce_exec(v as i128, 1).unwrap()
    }

    /// The fraction `num / den` in lowest terms; `None` where `den` is zero or a part of the
    /// reduced fraction does not fit.
    pub fn new(num: i64, den: i64) -> (r: Option<Number>)
        ensures
            den == 0 ==> r is None,
            den > 0 ==> r == reduce(num as int, den as int).ok(),
            den < 0 ==> r == reduce(-num, -den).ok(),
    {
        if den == 0 {
            None
        } else if den > 0 {
            reduce_exec(num as i128, den as i128).ok()
        } else {
            reduce_exec(-(num as i128), -(den as i128)).ok()
        }
    }

    pub fn numerator(&self) -> (r: i64)
        ensures
            r == self.numer(),
    {
        self.num
    }

    pub fn denominator(&self) -> (r: i64)
        ensures
            r == self.denom(),
            r > 0,
    {
        proof {
            use_type_invariant(self);
        }
        self.den
    }

    /// Whether the two numbers have the same value.
    pub fn equals(&self, o: &Number) -> (r: bool)
        ensures
            r == self.same_value(*o),
    {
        proof {
            use_type_invariant(self);
            use_type_invariant(o);
            lemma_product_bound(self.num as int, o.den as int);
            lemma_product_bound(o.num as int, self.den as int);
        }
        (self.num as i128) * (o.den as i128) == (o.num as i128) * (self.den as i128)
    }

    pub fn add(&self, o: &Number) -> (r: Result<Number, Fault>)
        ensures
            r == self.sum_spec(*o),
    {
        proof {
            use_type_invariant(self);
            use_type_invariant(o);
            lemma_product_bound(self.num as int, o.den as int);
            lemma_product_bound(o.num as int, self.den as int);
            lemma_product_bound(self.den as int, o.den as int);
        }
        let n = (self.num as i128) * (o.den as i128) + (o.num as i128) * (self.den as i128);
        let d = (self.den as i128) * (o.den as i128);
        reduce_exec(n, d)
    }

    pub fn sub(&self, o: &Number) -> (r: Result<Number, Fault>)
        ensures
            r == self.difference_spec(*o),
    {
        proof {
            use_type_invariant(self);
            use_type_invariant(o);
            lemma_product_bound(self.num as int, o.den as int);
            lemma_product_bound(o.num as int, self.den as int);
            lemma_product_bound(self.den as int, o.den as int);
        }
        let n = (self.num as i128) * (o.den as i128) - (o.num as i128) * (self.den as i128);
        let d = (self.den as i128) * (o.den as i128);
        reduce_exec(n, d)
    }

    pub fn mul(&self, o: &Number) -> (r: Result<Number, Fault>)
        ensures
            r == self.product_spec(*o),
    {
        proof {
            use_type_invariant(self);
            use_type_invariant(o);
            lemma_product_bound(self.num as int, o.num as int);
            lemma_product_bound(self.den as int, o.den as int);
        }
        let n = (self.num as i128) * (o.num as i128);
        let d = (self.den as i128) * (o.den as i128);
        reduce_exec(n, d)
    }

    pub fn div(&self, o: &Number) -> (r: Result<Number, Fault>)
        ensures
            r == self.quotient_spec(*o),
    {
        proof {
            use_type_invariant(self);
            use_type_invariant(o);
            lemma_product_bound(self.num as int, o.den as int);
            lemma_product_bound(self.den as int, o.num as int);
            lemma_product_bound(self.den as int, -o.num);
        }
        if o.num == 0 {
            return Err(Fault::DivisionByZero);
        }
        let n = (self.num as i128) * (o.den as i128);
        if o.num < 0 {
            let d = (self.den as i128) * (-(o.num as i128));
            reduce_exec(-n, d)
        } else {
            let d = (self.den as i128) * (o.num as i128);
            reduce_exec(n, d)
        }
    }

    pub fn rem(&self, o: &Number) -> (r: Result<Number, Fault>)
        ensures
            r == self.remainder_spec(*o),
    {
        proof {
            use_type_invariant(self);
            use_type_invariant(o);
            lemma_product_bound(self.num as int, o.den as int);
            lemma_product_bound(self.den as int, o.num as int);
            lemma_product_bound(self.den as int, o.den as int);
        }
        if o.num == 0 {
            return Err(Fault::DivisionByZero);
        }
        let x = (self.num as i128) * (o.den as i128);
        let y = (self.den as i128) * (o.num as i128);
        assert(y != 0) by (nonlinear_arith)
            requires
                y == (self.den as int) * (o.num as int),
                self.den > 0,
                o.num != 0,
        ;
        let xm: u128 = if x < 0 {
            (-x) as u128
        } else {
            x as u128
        };
        let ym: u128 = if y < 0 {
            (-y) as u128
        } else {
            y as u128
        };
        let m = xm % ym;
        let n: i128 = if x < 0 {
            -(m as i128)
        } else {
            m as i128
        };
        reduce_exec(n, (self.den as i128) * (o.den as i128))
    }

    pub fn neg(&self) -> (r: Number)
        ensures
            r == self.negation_spec(),
            r.numer() == -self.numer(),
            r.denom() == self.denom(),
    {
        proof {
            use_type_invariant(self);
        }
        Number { num: -self.num, den: self.den }
    }

    pub fn abs(&self) -> (r: Number)
        ensures
            r == self.magnitude_spec(),
            r.numer() == abs(self.numer()),
            r.denom() == self.denom(),
    {
        proof {
            use_type_invariant(self);
        }
        if self.num < 0 {
            Number { num: -self.num, den: self.den }
        } else {
            Number { num: self.num, den: self.den }
        }
    }

    /// The integer part, truncated toward zero.
    pub fn trunc(&self) -> (r: i64)
        ensures
            r == self.trunc_spec(),
            r > i64::MIN,
    {
        proof {
            use_type_invariant(self);
        }
        let m: i64 = if self.num < 0 {
            -self.num
        } else {
            self.num
        };
        let q = m / self.den;
        if self.num < 0 {
            -q
        } else {
            q
        }
    }

    /// `1 / self`.
    pub fn reciprocal(&self) -> (r: Result<Number, Fault>)
        ensures
            r == self.reciprocal_spec(),
            self.numer() == 0 ==> r == Err::<Number, Fault>(Fault::DivisionByZero),
            self.numer() != 0 ==> (r matches Ok(q) && q.numer() == with_sign(
                self.numer() < 0,
                self.denom(),
            ) && q.denom() == abs(self.numer())),
    {
        proof {
            use_type_invariant(self);
        }
        if self.num == 0 {
            Err(Fault::DivisionByZero)
        } else if self.num < 0 {
            Ok(Number { num: -self.den, den: -self.num })
        } else {
            Ok(Number { num: self.den, den: self.num })
        }
    }

    fn power(&self, k: u64) -> (r: Result<Number, Fault>)
        ensures
            r == self.power_spec(k as nat),
    {
        proof {
            lemma_reduce_integer(1);
            use_type_invariant(self);
        }
        if self.den == 1 && (self.num == 0 || self.num == 1 || self.num == -1) {
            proof {
                lemma_unit_power(*self, k as nat);
            }
            let num: i64 = if k == 0 || self.num == 1 {
                1
            } else if self.num == 0 {
                0
            } else if k % 2 == 0 {
                1
            } else {
                -1
            };
            return Ok(Number { num, den: 1 });
        }
        let mut acc = reduce_exec(1, 1).unwrap();
        let mut i: u64 = 0;
        while i < k
            invariant
                i <= k,
                self.power_spec(i as nat) == Ok::<Number, Fault>(acc),
            decreases k - i,
        {
            match acc.mul(self) {
                Ok(p) => {
                    acc = p;
                },
                Err(f) => {
                    proof {
                        lemma_power_failure_stays(*self, (i + 1) as nat, k as nat);
                    }
                    return Err(f);
                },
            }
            i = i + 1;
        }
        Ok(acc)
    }

    pub fn pow(&self, e: &Number) -> (r: Result<Number, Fault>)
        ensures
            r == self.pow_spec(*e),
    {
        proof {
            use_type_invariant(e);
        }
        if e.den != 1 {
            Err(Fault::NotRepresentable)
        } else if e.num >= 0 {
            self.power(e.num as u64)
        } else {
            match self.reciprocal() {
                Ok(r) => r.power((-e.num) as u64),
                Err(f) => Err(f),
            }
        }
    }

    pub fn factorial(&self) -> (r: Result<Number, Fault>)
        ensures
            r == self.factorial_spec(),
    {
        proof {
            lemma_reduce_integer(1);
        }
        let k = self.trunc();
        if k <= 1 {
            return reduce_exec(1, 1);
        }
        let mut acc: u128 = 1;
        let mut i: i64 = 1;
        while i < k
            invariant
                1 <= i <= k,
                k == self.trunc_spec(),
                acc == factorial(i as nat),
                acc <= i64::MAX,
            decreases k - i,
        {
            let next = i + 1;
            assert(factorial(next as nat) == next * factorial(i as nat));
            proof {
                assert(acc * next <= i64::MAX * i64::MAX) by (nonlinear_arith)
                    requires
                        acc <= i64::MAX,
                        next <= i64::MAX,
                        next > 0,
                ;
            }
            let p = acc * (next as u128);
            assert(p == factorial(next as nat)) by (nonlinear_arith)
                requires
                    p == acc * next,
                    factorial(next as nat) == next * factorial(i as nat),
                    acc == factorial(i as nat),
            ;
            if p > i64::MAX as u128 {
                proof {
                    assert(abs(1) == 1);
                    assert(abs(factorial(k as nat) as int) == factorial(k as nat));
                    lemma_factorial_grows(next as nat, k as nat);
                    lemma_gcd_one(factorial(k as nat));
                    assert(factorial(k as nat) / 1 == factorial(k as nat));
                    let f = factorial(k as nat) as int;
                    assert(reduce(f, 1) == Err::<Number, Fault>(Fault::Overflow));

                }
                return Err(Fault::Overflow);
            }
            acc = p;
            i = next;
        }
        proof {
            lemma_reduce_integer(acc as int);
        }
        reduce_exec(acc as i128, 1)
    }

    pub fn root(&self) -> (r: Result<Number, Fault>)
        ensures
            r == self.root_spec(),
    {
        proof {
            use_type_invariant(self);
        }
        if self.num < 0 {
            proof {
                assert forall|r: int| !Self::is_square_root(self.numer(), r) by {
                    if r >= 0 {
                        assert(r * r >= 0) by (nonlinear_arith)
                            requires
                                r >= 0,
                        ;
                    }
                }
            }
            return Err(Fault::NotRepresentable);
        }
        let rn = floor_sqrt(self.num as u64);
        let rd = floor_sqrt(self.den as u64);
        proof {
            lemma_floor_sqrt_exact(self.num as int, rn as int);
            lemma_floor_sqrt_exact(self.den as int, rd as int);
        }
        if rn * rn == self.num as u64 && rd * rd == self.den as u64 {
            assert(Self::is_square_root(self.numer(), rn as int));
            assert(Self::is_square_root(self.denom(), rd as int));
            assert(rd > 0) by (nonlinear_arith)
                requires
                    rd * rd == self.den,
                    self.den > 0,
            ;
            reduce_exec(rn as i128, rd as i128)
        } else {
            Err(Fault::NotRepresentable)
        }
    }
}

/// The powers of 0, 1 and -1, which never overflow.
closed spec fn unit_power(n: int, k: nat) -> Number {
    let v: int = if k == 0 || n == 1 {
        1
    } else if n == 0 {
        0
    } else if k % 2 == 0 {
        1
    } else {
        -1
    };
    Number { num: v as i64, den: 1 }
}

proof fn lemma_unit_power(a: Number, k: nat)
    requires
        a.den == 1,
        a.num == 0 || a.num == 1 || a.num == -1,
    ensures
        a.power_spec(k) == Ok::<Number, Fault>(unit_power(a.num as int, k)),
    decreases k,
{
    lemma_reduce_integer(1);
    if k > 0 {
        lemma_unit_power(a, (k - 1) as nat);
        let p = unit_power(a.num as int, (k - 1) as nat);
        let x = p.num * a.num;
        lemma_reduce_integer(x as int);
        assert(p.numer() * a.numer() == x);
        assert(p.denom() * a.denom() == 1);
    }
}

proof fn lemma_power_failure_stays(a: Number, i: nat, k: nat)
    requires
        a.power_spec(i) is Err,
    ensures
        i <= k ==> a.power_spec(k) == a.power_spec(i),
    decreases k,
{
    if i < k {
        lemma_power_failure_stays(a, i, (k - 1) as nat);
    }
}

/// The largest `s` with `s * s <= x`.
fn floor_sqrt(x: u64) -> (s: u64)
    ensures
        s * s <= x < (s + 1) * (s + 1),
        s < 0x1_0000_0000,
{
    let mut lo: u64 = 0;
    let mut hi: u64 = 0x1_0000_0000;
    assert(x < hi * hi) by (nonlinear_arith)
        requires
            hi == 0x1_0000_0000,
    ;
    while hi - lo > 1
        invariant
            lo < hi <= 0x1_0000_0000,
            lo * lo <= x < hi * hi,
        decreases hi - lo,
    {
        let mid = lo + (hi - lo) / 2;
        assert(mid * mid <= 0x1_0000_0000 * 0x1_0000_0000) by (nonlinear_arith)
            requires
                mid <= 0x1_0000_0000,
        ;
        if (mid as u128) * (mid as u128) <= x as u128 {
            lo = mid;
        } else {
            hi = mid;
        }
    }
    lo
}

/// A square root of `x`, if any, is the floor square root.
proof fn lemma_floor_sqrt_exact(x: int, s: int)
    requires
        s >= 0,
        s * s <= x < (s + 1) * (s + 1),
    ensures
        forall|r: int| Number::is_square_root(x, r) <==> (r == s && s * s == x),
{
    assert forall|r: int| Number::is_square_root(x, r) implies r == s by {
        if r < s {
            assert(r * r < s * s) by (nonlinear_arith)
                requires
                    0 <= r < s,
            ;
        } else if r > s {
            assert(r * r >= (s + 1) * (s + 1)) by (nonlinear_arith)
                requires
                    r >= s + 1,
                    s >= 0,
            ;
        }
    }
}


fn digit(d: u64) -> (c: char)
    requires
        d < 10,
    ensures
        c == digit_char(d as nat),
{
    ((d as u8) + 48) as char
}

fn push_decimal(out: &mut String, n: u64)
    ensures
        final(out)@ == old(out)@ + decimal_digits(n as nat),
    decreases n,
{
    if n >= 10 {
        push_decimal(out, n / 10);
    }
    push_char(out, digit(n % 10));
    proof {
        if n >= 10 {
            assert(old(out)@ + decimal_digits(n as nat) =~= old(out)@ + decimal_digits(
                (n / 10) as nat,
            ) + seq![digit_char((n % 10) as nat)]);
        } else {
            assert(old(out)@ + decimal_digits(n as nat) =~= old(out)@ + seq![
                digit_char(n as nat),
            ]);
        }
    }
}

impl Number {
    /// Appends the decimal form of the number to `out`.
    pub fn write_text(&self, out: &mut String)
        ensures
            final(out)@ == old(out)@ + self.text_spec(),
    {
        proof {
            use_type_invariant(self);
        }
        let ghost start = out@;
        let negative = self.num < 0;
        let m: u64 = if negative {
            (-self.num) as u64
        } else {
            self.num as u64
        };
        let d = self.den as u64;
        if negative {
            push_char(out, '-');
        }
        let ghost signed = out@;
        push_decimal(out, m / d);
        let ghost whole = out@;
        let mut r: u128 = (m % d) as u128;
        if r != 0 {
            push_char(out, '.');
            let ghost dotted = out@;
            let ghost r0 = r as nat;
            let mut k: u64 = FRACTION_DIGITS;
            while k > 0 && r != 0
                invariant
                    r < d,
                    d == abs(self.denom()),
                    dotted + fraction_digits(r0, d as nat, FRACTION_DIGITS as nat) == out@
                        + fraction_digits(r as nat, d as nat, k as nat),
                decreases k,
            {
                let t = r * 10;
                let q = t / (d as u128);
                assert(q < 10) by (nonlinear_arith)
                    requires
                        r < d,
                        t == r * 10,
                        q == t / (d as u128),
                        d > 0,
                ;
                let ghost before = out@;
                push_char(out, digit(q as u64));
                assert(before + fraction_digits(r as nat, d as nat, k as nat) =~= out@
                    + fraction_digits((t % (d as u128)) as nat, d as nat, (k - 1) as nat));
                r = t % (d as u128);
                k = k - 1;
            }
            assert(fraction_digits(r as nat, d as nat, k as nat) =~= Seq::<char>::empty());
        }
        proof {
            let mm = abs(self.numer());
            assert(mm == m);
            assert(out@ =~= start + self.text_spec());
        }
    }

    /// The number written `mantissa` with its last `scale` digits after the point.
    pub fn from_decimal(negative: bool, mantissa: u64, scale: u32) -> (r: Number)
        requires
            mantissa <= i64::MAX,
            scale <= MAX_SCALE,
        ensures
            r == Number::decimal_spec(negative, mantissa as nat, scale as nat),
    {
        let mut d: i64 = 1;
        let mut i: u32 = 0;
        proof {
            reveal_with_fuel(power, 19);
        }
        while i < scale
            invariant
                i <= scale <= MAX_SCALE,
                d == power(10, i as nat),
                d * power(10, (MAX_SCALE - i) as nat) == 1_000_000_000_000_000_000int,
            decreases scale - i,
        {
            proof {
                let rest = power(10, (MAX_SCALE - i - 1) as nat);
                lemma_power_pos(10, (MAX_SCALE - i - 1) as nat);
                assert(power(10, (MAX_SCALE - i) as nat) == 10 * rest);
                assert(0 <= d * 10 <= 1_000_000_000_000_000_000int && (d * 10) * rest
                    == 1_000_000_000_000_000_000int) by (nonlinear_arith)
                    requires
                        d * (10 * rest) == 1_000_000_000_000_000_000int,
                        rest >= 1,
                ;
            }
            d = d * 10;
            i = i + 1;
        }
        let n: i128 = if negative {
            -(mantissa as i128)
        } else {
            mantissa as i128
        };
        proof {
            lemma_reduce_fits(n as int, d as int);
        }
        reduce_exec(n, d as i128).unwrap()
    }
}

/// An integer is shown as its decimal digits, after a `-` where it is negative, with no
/// point and no fraction.
pub proof fn lemma_integer_text(v: int)
    requires
        abs(v) <= i64::MAX,
    ensures
        Number::from_int_spec(v).text_spec() == (if v < 0 {
            seq!['-']
        } else {
            Seq::<char>::empty()
        }) + decimal_digits(abs(v)),
{
    lemma_reduce_integer(v);
    let n = Number::from_int_spec(v);
    assert(n.numer() == v);
    assert(abs(n.denom()) == 1);
    let m = abs(v);
    assert(m % 1 == 0 && m / 1 == m) by (nonlinear_arith);
    assert(n.text_spec() =~= (if v < 0 {
        seq!['-']
    } else {
        Seq::<char>::empty()
    }) + decimal_digits(abs(v)));
}

/// The greatest common divisor divides both numbers.
pub proof fn lemma_gcd_divides(a: nat, b: nat)
    requires
        a > 0 || b > 0,
    ensures
        gcd(a, b) > 0,
        a % gcd(a, b) == 0,
        b % gcd(a, b) == 0,
    decreases b,
{
    if b == 0 {
        lemma_mod_multiples_basic(0, a as int);
        lemma_mod_multiples_basic(1, a as int);
    } else {
        let r = a % b;
        lemma_gcd_divides(b, r);
        let g = gcd(b, r);
        lemma_fundamental_div_mod(b as int, g as int);
        lemma_fundamental_div_mod(r as int, g as int);
        lemma_fundamental_div_mod(a as int, b as int);
        let s = b / g;
        let t = r / g;
        let q = a / b;
        assert(a == g * (s * q + t)) by (nonlinear_arith)
            requires
                a == b * q + r,
                b == g * s,
                r == g * t,
        ;
        lemma_mod_multiples_basic((s * q + t) as int, g as int);
        assert((g * (s * q + t)) == (s * q + t) * g) by (nonlinear_arith);
    }
}

/// A reduced fraction has the value of the fraction it was made from:
/// `numer / denom == n / d`.
pub proof fn lemma_reduce_value(n: int, d: int)
    requires
        d > 0,
        reduce(n, d) is Ok,
    ensures
        reduce(n, d)->Ok_0.numer() * d == n * reduce(n, d)->Ok_0.denom(),
        reduce(n, d)->Ok_0.denom() > 0,
{
    let g = gcd(abs(n), abs(d));
    lemma_gcd_divides(abs(n), abs(d));
    lemma_fundamental_div_mod(abs(n) as int, g as int);
    lemma_fundamental_div_mod(abs(d) as int, g as int);
    let m = abs(n) / g;
    let q = abs(d) / g;
    assert(abs(n) == g * m);
    assert(d == g * q);
    let r = reduce(n, d)->Ok_0;
    assert(r.numer() == with_sign(n < 0, m as int));
    assert(r.denom() == q);
    assert(with_sign(n < 0, m as int) * (g * q) == n * q) by (nonlinear_arith)
        requires
            abs(n) == g * m,
            n < 0 ==> with_sign(n < 0, m as int) == -m && n == -abs(n),
            n >= 0 ==> with_sign(n < 0, m as int) == m && n == abs(n),
    ;
}

/// Negation, magnitude and reciprocal, part by part: negation changes the numerator's
/// sign, magnitude drops it, and the reciprocal swaps the parts, keeping the sign on top.
pub proof fn lemma_sign_operations(x: Number)
    requires
        x.numer() > i64::MIN,
        x.denom() > 0,
    ensures
        x.negation_spec().numer() == -x.numer(),
        x.negation_spec().denom() == x.denom(),
        x.magnitude_spec().numer() == abs(x.numer()),
        x.magnitude_spec().denom() == x.denom(),
        x.numer() == 0 ==> x.reciprocal_spec() == Err::<Number, Fault>(Fault::DivisionByZero),
        x.numer() != 0 ==> (x.reciprocal_spec() matches Ok(q) && q.numer() == with_sign(
            x.numer() < 0,
            x.denom(),
        ) && q.denom() == abs(x.numer())),
{
}

} // verus!
