//! The rational numbers, held in lowest terms with a positive denominator.
use vstd::prelude::*;
use vstd::std_specs::cmp::PartialEqSpecImpl;

use crate::integer::{bigint_from_decimal, big_div_exact, big_gcd, Z};
use crate::op::AlgebraicSet;
use crate::symbol::chars_of;
use crate::text::string_from_chars;

verus! {

/// Whether `a` and `b` have no common divisor above one.
pub open spec fn coprime(a: int, b: int) -> bool {
    forall|c: int| c > 0 && #[trigger] (a % c) == 0 && b % c == 0 ==> c == 1
}

/// Whether `(n, d)` is a fraction in lowest terms with a positive
/// denominator.
pub open spec fn lowest_terms(n: int, d: int) -> bool {
    d > 0 && coprime(n, d)
}

/// Whether the fraction `(n, d)` stands for `p / q`.
pub open spec fn same_value(n: int, d: int, p: int, q: int) -> bool {
    n * q == p * d
}

/// A rational number `numerator / denominator`, in lowest terms with a
/// positive denominator.
#[derive(Debug)]
pub struct Rational {
    numerator: Z,
    denominator: Z,
}

impl Rational {
    #[verifier::type_invariant]
    spec fn in_lowest_terms(self) -> bool {
        lowest_terms(self.numerator@, self.denominator@)
    }
}

impl View for Rational {
    type V = (int, int);

    closed spec fn view(&self) -> (int, int) {
        (self.numerator@, self.denominator@)
    }
}

/// Why a text is not a rational number.
#[derive(Debug, PartialEq, Eq)]
pub enum ParseRationalError {
    /// A side of the fraction is not an integer; the description of the
    /// integer reader's error.
    Int(String),
    /// The denominator reads as zero.
    ZeroDenominator,
}

/// The index of the first `/` in `s`, if any.
pub open spec fn first_slash(s: Seq<char>) -> Option<int> {
    if exists|i: int| 0 <= i < s.len() && s[i] == '/' {
        Some(
            choose|i: int|
                0 <= i < s.len() && s[i] == '/' && forall|j: int| 0 <= j < i ==> s[j] != '/',
        )
    } else {
        None
    }
}

/// What reading `s` as an integer `n` or a fraction `n/d` gives: the
/// numerator and denominator read, or the error of the first side that
/// fails, or `None` where the denominator reads as zero.
pub open spec fn parsed_fraction(s: Seq<char>) -> Result<Option<(int, int)>, Seq<char>> {
    match first_slash(s) {
        None => match bigint_from_decimal(s) {
            Ok(n) => Ok(Some((n, 1))),
            Err(e) => Err(e),
        },
        Some(i) => match bigint_from_decimal(s.subrange(0, i)) {
            Err(e) => Err(e),
            Ok(n) => match bigint_from_decimal(s.subrange(i + 1, s.len() as int)) {
                Err(e) => Err(e),
                Ok(d) => if d == 0 {
                    Ok(None)
                } else {
                    Ok(Some((n, d)))
                },
            },
        },
    }
}

/// `c * g` divides `x` when `c` divides `x / g`, for `x == g * (x / g)`.
proof fn lemma_scaled_divisor(x: int, g: int, q: int, c: int)
    requires
        g > 0,
        c > 0,
        x == q * g,
        q % c == 0,
    ensures
        x % (c * g) == 0,
{
    vstd::arithmetic::div_mod::lemma_fundamental_div_mod(q, c);
    let k = q / c;
    assert(q == c * k);
    assert(x == (c * g) * k) by (nonlinear_arith)
        requires
            x == q * g,
            q == c * k,
    ;
    assert(c * g > 0) by (nonlinear_arith)
        requires
            c > 0,
            g > 0,
    ;
    vstd::arithmetic::div_mod::lemma_mod_multiples_basic(k, c * g);
    assert(k * (c * g) == (c * g) * k) by (nonlinear_arith);
}

/// A divisor of a positive `g` that is a multiple `c * g` has `c == 1`.
proof fn lemma_divisor_of_itself(g: int, c: int)
    requires
        g > 0,
        c > 0,
        g % (c * g) == 0,
    ensures
        c == 1,
{
    assert(c * g > 0) by (nonlinear_arith)
        requires
            c > 0,
            g > 0,
    ;
    vstd::arithmetic::div_mod::lemma_fundamental_div_mod(g, c * g);
    let m = g / (c * g);
    assert(g == (c * g) * m);
    assert(m >= 1) by (nonlinear_arith)
        requires
            g > 0,
            c * g > 0,
            g == (c * g) * m,
    ;
    assert(c == 1) by (nonlinear_arith)
        requires
            g > 0,
            c > 0,
            m >= 1,
            g == (c * g) * m,
    ;
}

/// Dividing both sides by their gcd leaves them coprime.
proof fn lemma_reduced_coprime(n: int, d: int, g: int, p: int, q: int)
    requires
        g > 0,
        n == p * g,
        d == q * g,
        forall|c: int| c > 0 && n % c == 0 && d % c == 0 ==> #[trigger] (g % c) == 0,
    ensures
        coprime(p, q),
{
    assert forall|c: int| c > 0 && #[trigger] (p % c) == 0 && q % c == 0 implies c == 1 by {
        lemma_scaled_divisor(n, g, p, c);
        lemma_scaled_divisor(d, g, q, c);
        assert(c * g > 0) by (nonlinear_arith)
            requires
                c > 0,
                g > 0,
        ;
        assert(g % (c * g) == 0);
        lemma_divisor_of_itself(g, c);
    }
}

/// Negating both sides keeps them coprime.
proof fn lemma_negated_coprime(p: int, q: int)
    requires
        coprime(p, q),
    ensures
        coprime(-p, -q),
{
    assert forall|c: int| c > 0 && #[trigger] ((-p) % c) == 0 && (-q) % c == 0 implies c == 1 by {
        vstd::arithmetic::div_mod::lemma_fundamental_div_mod(-p, c);
        vstd::arithmetic::div_mod::lemma_fundamental_div_mod(-q, c);
        let a = (-p) / c;
        let b = (-q) / c;
        assert(p == c * (-a)) by (nonlinear_arith)
            requires
                -p == c * a,
        ;
        assert(q == c * (-b)) by (nonlinear_arith)
            requires
                -q == c * b,
        ;
        vstd::arithmetic::div_mod::lemma_mod_multiples_basic(-a, c);
        vstd::arithmetic::div_mod::lemma_mod_multiples_basic(-b, c);
        assert((-a) * c == c * (-a)) by (nonlinear_arith);
        assert((-b) * c == c * (-b)) by (nonlinear_arith);
        assert(p % c == 0);
        assert(q % c == 0);
    }
}

impl Rational {
    /// `numerator / denominator` in lowest terms, with a positive
    /// denominator.
    pub fn new(numerator: Z, denominator: Z) -> (r: Rational)
        requires
            denominator@ != 0,
        ensures
            same_value(r@.0, r@.1, numerator@, denominator@),
            lowest_terms(r@.0, r@.1),
    {
        let g = big_gcd(&numerator, &denominator);
        let ghost (n, d) = (numerator@, denominator@);
        proof {
            vstd::arithmetic::div_mod::lemma_fundamental_div_mod(n, g@);
            vstd::arithmetic::div_mod::lemma_fundamental_div_mod(d, g@);
        }
        let p = big_div_exact(&numerator, &g);
        let q = big_div_exact(&denominator, &g);
        proof {
            assert(p@ * g@ == n && q@ * g@ == d);
            lemma_reduced_coprime(n, d, g@, p@, q@);
            assert(q@ != 0) by (nonlinear_arith)
                requires
                    q@ * g@ == d,
                    d != 0,
            ;
            assert(p@ * d == n * q@) by (nonlinear_arith)
                requires
                    p@ * g@ == n,
                    q@ * g@ == d,
            ;
        }
        if q.lt(&Z::zero()) {
            proof {
                lemma_negated_coprime(p@, q@);
                assert((-p@) * d == n * (-q@)) by (nonlinear_arith)
                    requires
                        p@ * d == n * q@,
                ;
            }
            Rational { numerator: p.neg(), denominator: q.neg() }
        } else {
            Rational { numerator: p, denominator: q }
        }
    }

    /// The integer `value`, as `value / 1`.
    pub fn from_z(value: Z) -> (r: Rational)
        ensures
            r@ == (value@, 1int),
            lowest_terms(r@.0, r@.1),
    {
        proof {
            assert forall|c: int| c > 0 && #[trigger] (value@ % c) == 0 && 1int % c == 0 implies c
                == 1 by {
                if c > 1 {
                    vstd::arithmetic::div_mod::lemma_small_mod(1nat, c as nat);
                }
            }
        }
        Rational { numerator: value, denominator: Z::one() }
    }

    /// The integer `value`.
    pub fn from_i64(value: i64) -> (r: Rational)
        ensures
            r@ == (value as int, 1int),
            lowest_terms(r@.0, r@.1),
    {
        Rational::from_z(Z::from_i64(value))
    }

    /// The additive identity, `0 / 1`.
    pub fn zero() -> (r: Rational)
        ensures
            r@ == (0int, 1int),
            lowest_terms(r@.0, r@.1),
    {
        Rational::from_z(Z::zero())
    }

    /// The multiplicative identity, `1 / 1`.
    pub fn one() -> (r: Rational)
        ensures
            r@ == (1int, 1int),
            lowest_terms(r@.0, r@.1),
    {
        Rational::from_z(Z::one())
    }

    /// The numerator; the fraction is in lowest terms.
    pub fn numerator(&self) -> (r: &Z)
        ensures
            r@ == self@.0,
            lowest_terms(self@.0, self@.1),
    {
        proof {
            use_type_invariant(self);
        }
        &self.numerator
    }

    /// The denominator, which is positive.
    pub fn denominator(&self) -> (r: &Z)
        ensures
            r@ == self@.1,
            lowest_terms(self@.0, self@.1),
    {
        proof {
            use_type_invariant(self);
        }
        &self.denominator
    }

    /// `-self`.
    pub fn neg(&self) -> (r: Rational)
        ensures
            r@ == (-self@.0, self@.1),
    {
        proof {
            use_type_invariant(self);
            let (n, d) = self@;
            assert forall|c: int| c > 0 && #[trigger] ((-n) % c) == 0 && d % c == 0 implies c
                == 1 by {
                vstd::arithmetic::div_mod::lemma_fundamental_div_mod(-n, c);
                let a = (-n) / c;
                assert(n == c * (-a)) by (nonlinear_arith)
                    requires
                        -n == c * a,
                ;
                vstd::arithmetic::div_mod::lemma_mod_multiples_basic(-a, c);
                assert((-a) * c == c * (-a)) by (nonlinear_arith);
                assert(n % c == 0);
            }
        }
        Rational { numerator: self.numerator.neg(), denominator: self.denominator.clone() }
    }

    /// `self + other`, in lowest terms.
    pub fn add(&self, other: &Rational) -> (r: Rational)
        ensures
            same_value(
                r@.0,
                r@.1,
                self@.0 * other@.1 + other@.0 * self@.1,
                self@.1 * other@.1,
            ),
            lowest_terms(r@.0, r@.1),
    {
        proof {
            use_type_invariant(self);
            use_type_invariant(other);
        }
        let n = self.numerator.mul(&other.denominator).add(&other.numerator.mul(&self.denominator));
        let d = self.denominator.mul(&other.denominator);
        proof {
            assert(d@ > 0) by (nonlinear_arith)
                requires
                    d@ == self@.1 * other@.1,
                    self@.1 > 0,
                    other@.1 > 0,
            ;
        }
        Rational::new(n, d)
    }

    /// `self * other`, in lowest terms.
    pub fn mul(&self, other: &Rational) -> (r: Rational)
        ensures
            same_value(r@.0, r@.1, self@.0 * other@.0, self@.1 * other@.1),
            lowest_terms(r@.0, r@.1),
    {
        proof {
            use_type_invariant(self);
            use_type_invariant(other);
        }
        let n = self.numerator.mul(&other.numerator);
        let d = self.denominator.mul(&other.denominator);
        proof {
            assert(d@ > 0) by (nonlinear_arith)
                requires
                    d@ == self@.1 * other@.1,
                    self@.1 > 0,
                    other@.1 > 0,
            ;
        }
        Rational::new(n, d)
    }

    /// `1 / self`, for a nonzero `self`.
    pub fn recip(&self) -> (r: Rational)
        requires
            self@.0 != 0,
        ensures
            same_value(r@.0, r@.1, self@.1, self@.0),
            lowest_terms(r@.0, r@.1),
    {
        Rational::new(self.denominator.clone(), self.numerator.clone())
    }

    /// Whether `self` and `other` are the same fraction.
    pub fn equals(&self, other: &Rational) -> (r: bool)
        ensures
            r == (self@ == other@),
    {
        self.numerator.equals(&other.numerator) && self.denominator.equals(&other.denominator)
    }

    /// Reads an integer (`-3`) or a fraction (`3/4`) in lowest terms.
    /// A side that is not an integer gives the integer reader's error; a
    /// denominator that reads as zero gives `ZeroDenominator`.
    pub fn parse(text: &str) -> (r: Result<Rational, ParseRationalError>)
        ensures
            match parsed_fraction(text@) {
                Err(e) => r matches Err(ParseRationalError::Int(s)) && s@ == e,
                Ok(None) => r matches Err(ParseRationalError::ZeroDenominator),
                Ok(Some((n, d))) => r matches Ok(q) && same_value(q@.0, q@.1, n, d) && lowest_terms(
                    q@.0,
                    q@.1,
                ),
            },
    {
        let chars = chars_of(text);
        let mut i: usize = 0;
        while i < chars.len() && chars[i] != '/'
            invariant
                chars@ == text@,
                i <= chars.len(),
                forall|j: int| 0 <= j < i ==> chars@[j] != '/',
            decreases chars.len() - i,
        {
            i = i + 1;
        }
        if i == chars.len() {
            proof {
                assert(!(exists|j: int| 0 <= j < text@.len() && text@[j] == '/'));
            }
            match Z::parse_decimal(text) {
                Ok(n) => Ok(Rational::from_z(n)),
                Err(e) => Err(ParseRationalError::Int(e)),
            }
        } else {
            proof {
                assert(chars@[i as int] == '/');
                assert(text@[i as int] == '/');
                assert(exists|j: int| 0 <= j < text@.len() && text@[j] == '/');
                let k = first_slash(text@)->Some_0;
                assert(0 <= k < text@.len() && text@[k] == '/');
                if k < i {
                    assert(chars@[k] != '/');
                }
                if k > i {
                    assert(text@[i as int] == '/');
                }
                assert(k == i);
                assert(first_slash(text@) == Some(i as int));
            }
            let left = string_from_chars(&chars_slice(&chars, 0, i));
            let right = string_from_chars(&chars_slice(&chars, i + 1, chars.len()));
            match Z::parse_decimal(left.as_str()) {
                Err(e) => Err(ParseRationalError::Int(e)),
                Ok(n) => match Z::parse_decimal(right.as_str()) {
                    Err(e) => Err(ParseRationalError::Int(e)),
                    Ok(d) => {
                        if d.equals(&Z::zero()) {
                            Err(ParseRationalError::ZeroDenominator)
                        } else {
                            Ok(Rational::new(n, d))
                        }
                    },
                },
            }
        }
    }
}

/// The characters of `chars` from `start` up to `end`.
fn chars_slice(chars: &Vec<char>, start: usize, end: usize) -> (r: Vec<char>)
    requires
        start <= end <= chars.len(),
    ensures
        r@ == chars@.subrange(start as int, end as int),
{
    let mut out: Vec<char> = Vec::new();
    let mut i = start;
    while i < end
        invariant
            start <= i <= end <= chars.len(),
            out@ == chars@.subrange(start as int, i as int),
        decreases end - i,
    {
        out.push(chars[i]);
        proof {
            assert(chars@.subrange(start as int, i + 1) =~= chars@.subrange(start as int, i as int).push(
                chars@[i as int],
            ));
        }
        i = i + 1;
    }
    out
}

impl Clone for Rational {
    fn clone(&self) -> (r: Self)
        ensures
            r@ == self@,
    {
        proof {
            use_type_invariant(self);
        }
        Rational { numerator: self.numerator.clone(), denominator: self.denominator.clone() }
    }
}

impl PartialEq for Rational {
    fn eq(&self, other: &Self) -> (r: bool) {
        self.equals(other)
    }
}

impl PartialEqSpecImpl for Rational {
    open spec fn obeys_eq_spec() -> bool {
        true
    }

    open spec fn eq_spec(&self, other: &Rational) -> bool {
        self@ == other@
    }
}

impl Eq for Rational {

}

} // verus!
