//! The integers `Z`, unbounded. A value is held as a sign and base 2^32
//! digits, least significant first; arithmetic is done by `num_bigint`.
use num_bigint::BigInt;
use num_bigint::Sign::{Minus, Plus};
use num_integer::Integer;
use vstd::prelude::*;
use vstd::std_specs::cmp::PartialEqSpecImpl;

use crate::op::AlgebraicSet;

verus! {

/// The value of base 2^32 digits, least significant first.
pub open spec fn magnitude_value(digits: Seq<u32>) -> int
    decreases digits.len(),
{
    if digits.len() == 0 {
        0
    } else {
        digits[0] as int + 4294967296 * magnitude_value(digits.drop_first())
    }
}

/// The integers, not bounded by the machine word.
#[derive(Debug)]
pub struct Z {
    negative: bool,
    magnitude: Vec<u32>,
}

impl View for Z {
    type V = int;

    closed spec fn view(&self) -> int {
        if self.negative {
            -magnitude_value(self.magnitude@)
        } else {
            magnitude_value(self.magnitude@)
        }
    }
}

/// `a + b`, computed by `num_bigint::BigInt`'s addition.
#[verifier::external_body]
fn big_add(a: &Z, b: &Z) -> (r: Z)
    ensures
        r@ == a@ + b@,
{
    let x = BigInt::new(if a.negative { Minus } else { Plus }, a.magnitude.clone());
    let y = BigInt::new(if b.negative { Minus } else { Plus }, b.magnitude.clone());
    let (sign, magnitude) = (x + y).to_u32_digits();
    Z { negative: sign == Minus, magnitude }
}

/// `a * b`, computed by `num_bigint::BigInt`'s multiplication.
#[verifier::external_body]
fn big_mul(a: &Z, b: &Z) -> (r: Z)
    ensures
        r@ == a@ * b@,
{
    let x = BigInt::new(if a.negative { Minus } else { Plus }, a.magnitude.clone());
    let y = BigInt::new(if b.negative { Minus } else { Plus }, b.magnitude.clone());
    let (sign, magnitude) = (x * y).to_u32_digits();
    Z { negative: sign == Minus, magnitude }
}

/// Equality of values, decided by `num_bigint::BigInt`'s `==`.
#[verifier::external_body]
fn big_eq(a: &Z, b: &Z) -> (r: bool)
    ensures
        r == (a@ == b@),
{
    let x = BigInt::new(if a.negative { Minus } else { Plus }, a.magnitude.clone());
    let y = BigInt::new(if b.negative { Minus } else { Plus }, b.magnitude.clone());
    x == y
}

/// `a < b`, decided by `num_bigint::BigInt`'s `<`.
#[verifier::external_body]
fn big_lt(a: &Z, b: &Z) -> (r: bool)
    ensures
        r == (a@ < b@),
{
    let x = BigInt::new(if a.negative { Minus } else { Plus }, a.magnitude.clone());
    let y = BigInt::new(if b.negative { Minus } else { Plus }, b.magnitude.clone());
    x < y
}

/// `a` as an integer, converted by `num_bigint::BigInt`'s `From<i64>`.
#[verifier::external_body]
fn big_from_i64(a: i64) -> (r: Z)
    ensures
        r@ == a,
{
    let (sign, magnitude) = BigInt::from(a).to_u32_digits();
    Z { negative: sign == Minus, magnitude }
}

/// The remainder of floored division, by `num_integer::Integer::mod_floor`
/// on `num_bigint::BigInt`; for a positive modulus it lies in `[0, m)`.
#[verifier::external_body]
fn big_mod_floor(a: &Z, m: &Z) -> (r: Z)
    requires
        m@ > 0,
    ensures
        r@ == a@ % m@,
{
    let x = BigInt::new(if a.negative { Minus } else { Plus }, a.magnitude.clone());
    let y = BigInt::new(if m.negative { Minus } else { Plus }, m.magnitude.clone());
    let (sign, magnitude) = x.mod_floor(&y).to_u32_digits();
    Z { negative: sign == Minus, magnitude }
}

/// The greatest common divisor, by `num_integer::Integer::gcd` on
/// `num_bigint::BigInt`: never negative, dividing both arguments, and a
/// multiple of every positive common divisor.
#[verifier::external_body]
pub(crate) fn big_gcd(a: &Z, b: &Z) -> (r: Z)
    ensures
        r@ >= 0,
        (a@ != 0 || b@ != 0) ==> r@ > 0 && a@ % r@ == 0 && b@ % r@ == 0,
        forall|c: int| c > 0 && a@ % c == 0 && b@ % c == 0 ==> #[trigger] (r@ % c) == 0,
{
    let x = BigInt::new(if a.negative { Minus } else { Plus }, a.magnitude.clone());
    let y = BigInt::new(if b.negative { Minus } else { Plus }, b.magnitude.clone());
    let (sign, magnitude) = x.gcd(&y).to_u32_digits();
    Z { negative: sign == Minus, magnitude }
}

/// `a / b` where `b` divides `a`, by `num_bigint::BigInt`'s division
/// (which truncates, and is exact here).
#[verifier::external_body]
pub(crate) fn big_div_exact(a: &Z, b: &Z) -> (r: Z)
    requires
        b@ != 0,
        a@ % b@ == 0,
    ensures
        r@ * b@ == a@,
{
    let x = BigInt::new(if a.negative { Minus } else { Plus }, a.magnitude.clone());
    let y = BigInt::new(if b.negative { Minus } else { Plus }, b.magnitude.clone());
    let (sign, magnitude) = (x / y).to_u32_digits();
    Z { negative: sign == Minus, magnitude }
}

/// The value of decimal digits with `_` separators skipped.
pub open spec fn digits_value(s: Seq<char>) -> int
    decreases s.len(),
{
    if s.len() == 0 {
        0
    } else if s.last() == '_' {
        digits_value(s.drop_last())
    } else {
        digits_value(s.drop_last()) * 10 + (s.last() as int - '0' as int)
    }
}

/// What `num_bigint::BigUint`'s radix-10 reader makes of a text: an
/// optional `+` not followed by another `+`, then a non-empty run of
/// decimal digits and `_` that does not start with `_`.
pub open spec fn unsigned_from_decimal(s: Seq<char>) -> Result<int, Seq<char>> {
    let t = if s.len() > 0 && s[0] == '+' && !(s.len() > 1 && s[1] == '+') {
        s.drop_first()
    } else {
        s
    };
    if t.len() == 0 {
        Err("cannot parse integer from empty string"@)
    } else if t[0] == '_' {
        Err("invalid digit found in string"@)
    } else if forall|i: int| 0 <= i < t.len() ==> ('0' <= #[trigger] t[i] && t[i] <= '9') || t[i] == '_' {
        Ok(digits_value(t))
    } else {
        Err("invalid digit found in string"@)
    }
}

/// What `num_bigint::BigInt`'s `FromStr` makes of a text: a leading `-`
/// not followed by `+` negates what the unsigned reader makes of the rest;
/// a failure is the description of its `ParseBigIntError`.
pub open spec fn bigint_from_decimal(s: Seq<char>) -> Result<int, Seq<char>> {
    let negative = s.len() > 0 && s[0] == '-';
    let rest = if negative && !(s.len() > 1 && s[1] == '+') {
        s.drop_first()
    } else {
        s
    };
    match unsigned_from_decimal(rest) {
        Ok(n) => Ok(if negative {
            -n
        } else {
            n
        }),
        Err(e) => Err(e),
    }
}

/// Reads a decimal integer by `num_bigint::BigInt`'s `FromStr`; a failure
/// is given by the description of the `ParseBigIntError`.
#[verifier::external_body]
fn big_parse(text: &str) -> (r: Result<Z, String>)
    ensures
        match bigint_from_decimal(text@) {
            Ok(value) => r matches Ok(z) && z@ == value,
            Err(description) => r matches Err(s) && s@ == description,
        },
{
    match text.parse::<BigInt>() {
        Ok(value) => {
            let (sign, magnitude) = value.to_u32_digits();
            Ok(Z { negative: sign == Minus, magnitude })
        },
        Err(e) => Err(e.to_string()),
    }
}

impl Z {
    /// The integer `value`.
    pub fn from_i64(value: i64) -> (r: Z)
        ensures
            r@ == value,
    {
        big_from_i64(value)
    }

    /// Zero.
    pub fn zero() -> (r: Z)
        ensures
            r@ == 0,
    {
        Z { negative: false, magnitude: Vec::new() }
    }

    /// One.
    pub fn one() -> (r: Z)
        ensures
            r@ == 1,
    {
        big_from_i64(1)
    }

    /// `self + other`.
    pub fn add(&self, other: &Z) -> (r: Z)
        ensures
            r@ == self@ + other@,
    {
        big_add(self, other)
    }

    /// `self * other`.
    pub fn mul(&self, other: &Z) -> (r: Z)
        ensures
            r@ == self@ * other@,
    {
        big_mul(self, other)
    }

    /// `-self`.
    pub fn neg(&self) -> (r: Z)
        ensures
            r@ == -self@,
    {
        Z { negative: !self.negative, magnitude: self.magnitude.clone() }
    }

    /// `self - other`.
    pub fn sub(&self, other: &Z) -> (r: Z)
        ensures
            r@ == self@ - other@,
    {
        big_add(self, &other.neg())
    }

    /// `self < other`.
    pub fn lt(&self, other: &Z) -> (r: bool)
        ensures
            r == (self@ < other@),
    {
        big_lt(self, other)
    }

    /// The least nonnegative remainder of `self` modulo a positive `modulus`.
    pub fn rem_euclid(&self, modulus: &Z) -> (r: Z)
        requires
            modulus@ > 0,
        ensures
            r@ == self@ % modulus@,
            0 <= r@ < modulus@,
    {
        big_mod_floor(self, modulus)
    }

    /// Reads a decimal literal such as `3`, `-3` or `1_000`; a failure is
    /// described in words.
    pub fn parse_decimal(text: &str) -> (r: Result<Z, String>)
        ensures
            match bigint_from_decimal(text@) {
                Ok(value) => r matches Ok(z) && z@ == value,
                Err(description) => r matches Err(s) && s@ == description,
            },
    {
        big_parse(text)
    }
}

impl AlgebraicSet for Z {
    fn equals(&self, other: &Self) -> (r: bool) {
        big_eq(self, other)
    }

    fn duplicate(&self) -> (r: Self) {
        Z { negative: self.negative, magnitude: self.magnitude.clone() }
    }
}

impl Clone for Z {
    fn clone(&self) -> (r: Self)
        ensures
            r@ == self@,
    {
        Z { negative: self.negative, magnitude: self.magnitude.clone() }
    }
}

impl PartialEq for Z {
    fn eq(&self, other: &Self) -> (r: bool) {
        big_eq(self, other)
    }
}

impl PartialEqSpecImpl for Z {
    open spec fn obeys_eq_spec() -> bool {
        true
    }

    open spec fn eq_spec(&self, other: &Z) -> bool {
        self@ == other@
    }
}

impl Eq for Z {

}

} // verus!
