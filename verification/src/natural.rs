//! Arbitrarily large natural numbers, the only values of the language.
//!
//! A `Natural` holds its base 2^32 digits, least significant first. The
//! arithmetic itself is done by `num_bigint::BigUint`; this module states what
//! each of those calls computes, in terms of the number's value.
use num_bigint::BigUint;
use vstd::prelude::*;

verus! {

/// The number that a sequence of base 2^32 digits (least significant first) stands for.
pub open spec fn limbs_value(limbs: Seq<u32>) -> nat
    decreases limbs.len(),
{
    if limbs.len() == 0 {
        0
    } else {
        limbs[0] as nat + 4294967296 * limbs_value(limbs.drop_first())
    }
}

/// The character of a decimal digit.
pub open spec fn digit_char(d: nat) -> char {
    (48 + d) as char
}

/// Whether `c` is one of the ASCII digits `0` to `9`.
pub open spec fn is_digit_char(c: char) -> bool {
    '0' <= c && c <= '9'
}

/// The decimal notation of `n`: no leading zeros, and `0` for zero.
pub open spec fn decimal_repr(n: nat) -> Seq<char>
    decreases n,
{
    if n < 10 {
        seq![digit_char(n)]
    } else {
        decimal_repr(n / 10).push(digit_char(n % 10))
    }
}

/// The value of a string of decimal digits in which underscores are skipped.
pub open spec fn digits_value(s: Seq<char>) -> nat
    decreases s.len(),
{
    if s.len() == 0 {
        0
    } else if s.last() == '_' {
        digits_value(s.drop_last())
    } else {
        digits_value(s.drop_last()) * 10 + ((s.last() as int - 48) as nat)
    }
}

/// The text that decimal parsing reads as digits: a single leading `+` is dropped.
pub open spec fn without_plus(s: Seq<char>) -> Seq<char> {
    if s.len() > 0 && s[0] == '+' && !(s.len() > 1 && s[1] == '+') {
        s.drop_first()
    } else {
        s
    }
}

/// Whether decimal parsing accepts `s`: after an optional `+`, a digit, then
/// digits and underscores.
pub open spec fn decimal_accepted(s: Seq<char>) -> bool {
    let t = without_plus(s);
    &&& t.len() > 0
    &&& t[0] != '_'
    &&& forall|i: int| 0 <= i < t.len() ==> (is_digit_char(#[trigger] t[i]) || t[i] == '_')
}

/// Every character of the decimal notation of a number is a digit.
pub proof fn lemma_decimal_repr_digits(n: nat)
    ensures
        decimal_repr(n).len() > 0,
        forall|i: int| 0 <= i < decimal_repr(n).len() ==> is_digit_char(#[trigger] decimal_repr(n)[i]),
    decreases n,
{
    if n >= 10 {
        lemma_decimal_repr_digits(n / 10);
        let s = decimal_repr(n / 10);
        assert forall|i: int| 0 <= i < decimal_repr(n).len() implies is_digit_char(
            #[trigger] decimal_repr(n)[i],
        ) by {
            if i < s.len() {
                assert(decimal_repr(n)[i] == s[i]);
            }
        }
    }
}

/// Reading the decimal notation of a number gives the number back: decimal
/// parsing accepts it and finds its value.
pub proof fn lemma_decimal_roundtrip(n: nat)
    ensures
        decimal_accepted(decimal_repr(n)),
        without_plus(decimal_repr(n)) == decimal_repr(n),
        digits_value(decimal_repr(n)) == n,
    decreases n,
{
    lemma_decimal_repr_digits(n);
    let s = decimal_repr(n);
    assert(is_digit_char(s[0]));
    let d = n % 10;
    assert(digit_char(d) as int == 48 + d);
    if n < 10 {
        assert(s.drop_last() == Seq::<char>::empty());
        assert(digits_value(s.drop_last()) == 0);
    }
    if n >= 10 {
        lemma_decimal_roundtrip(n / 10);
        let t = decimal_repr(n / 10);
        assert(s.drop_last() == t);
        assert(s.last() == digit_char(n % 10));
        assert(n == (n / 10) * 10 + n % 10);
    }
}

/// Numbers with the same decimal notation are equal.
pub proof fn lemma_decimal_repr_injective(a: nat, b: nat)
    requires
        decimal_repr(a) == decimal_repr(b),
    ensures
        a == b,
{
    lemma_decimal_roundtrip(a);
    lemma_decimal_roundtrip(b);
}

/// A natural number of any size.
pub struct Natural {
    limbs: Vec<u32>,
}

impl View for Natural {
    type V = nat;

    closed spec fn view(&self) -> nat {
        limbs_value(self.limbs@)
    }
}

proof fn lemma_limbs_zero(s: Seq<u32>)
    ensures
        (limbs_value(s) == 0) <==> (forall|i: int| 0 <= i < s.len() ==> s[i] == 0),
    decreases s.len(),
{
    if s.len() > 0 {
        lemma_limbs_zero(s.drop_first());
        if limbs_value(s) == 0 {
            assert forall|i: int| 0 <= i < s.len() implies s[i] == 0 by {
                if i > 0 {
                    assert(s.drop_first()[i - 1] == s[i]);
                }
            }
        }
        if forall|i: int| 0 <= i < s.len() ==> s[i] == 0 {
            assert forall|i: int| 0 <= i < s.drop_first().len() implies s.drop_first()[i] == 0 by {
                assert(s[i + 1] == s.drop_first()[i]);
            }
            assert(s[0] == 0);
        }
    }
}

/// `BigUint::new` followed by `+` and `to_u32_digits`: the sum of two numbers.
#[verifier::external_body]
fn big_add(a: &Natural, b: &Natural) -> (r: Natural)
    ensures
        r@ == a@ + b@,
{
    let sum = BigUint::new(a.limbs.clone()) + BigUint::new(b.limbs.clone());
    Natural { limbs: sum.to_u32_digits() }
}

/// `BigUint::new` followed by `-` and `to_u32_digits`: the difference of two
/// numbers; `-` panics when `b` is larger than `a`, which `requires` rules out.
#[verifier::external_body]
fn big_sub(a: &Natural, b: &Natural) -> (r: Natural)
    requires
        b@ <= a@,
    ensures
        r@ == a@ - b@,
{
    let diff = BigUint::new(a.limbs.clone()) - BigUint::new(b.limbs.clone());
    Natural { limbs: diff.to_u32_digits() }
}

/// `BigUint::new` followed by `<`: whether `a` is smaller than `b`.
#[verifier::external_body]
fn big_less(a: &Natural, b: &Natural) -> (r: bool)
    ensures
        r == (a@ < b@),
{
    BigUint::new(a.limbs.clone()) < BigUint::new(b.limbs.clone())
}

/// `BigUint::from_str` (decimal `from_str_radix`) followed by `to_u32_digits`:
/// it accepts an optional `+`, then a digit, then digits and underscores, and
/// reads the digits in base ten.
#[verifier::external_body]
fn big_from_decimal(s: &str) -> (r: Option<Natural>)
    ensures
        r is Some <==> decimal_accepted(s@),
        r matches Some(n) ==> n@ == digits_value(without_plus(s@)),
{
    match s.parse::<BigUint>() {
        Ok(n) => Some(Natural { limbs: n.to_u32_digits() }),
        Err(_) => None,
    }
}

/// `BigUint::new` followed by `to_str_radix(10)`: the decimal notation of the number.
#[verifier::external_body]
fn big_to_decimal(a: &Natural) -> (r: String)
    ensures
        r@ == decimal_repr(a@),
{
    BigUint::new(a.limbs.clone()).to_str_radix(10)
}

impl Natural {
    /// The number zero.
    pub fn zero() -> (r: Natural)
        ensures
            r@ == 0,
    {
        Natural { limbs: Vec::new() }
    }

    /// The number whose base 2^32 digits, least significant first, are `limbs`.
    pub fn from_limbs(limbs: Vec<u32>) -> (r: Natural)
        ensures
            r@ == limbs_value(limbs@),
    {
        Natural { limbs }
    }

    /// The base 2^32 digits of the number, least significant first.
    pub fn to_limbs(&self) -> (r: Vec<u32>)
        ensures
            limbs_value(r@) == self@,
    {
        let mut r: Vec<u32> = Vec::new();
        let mut i: usize = 0;
        while i < self.limbs.len()
            invariant
                i <= self.limbs.len(),
                r@ == self.limbs@.take(i as int),
            decreases self.limbs.len() - i,
        {
            r.push(self.limbs[i]);
            i = i + 1;
        }
        assert(r@ == self.limbs@);
        r
    }

    /// A copy of the number.
    pub fn duplicate(&self) -> (r: Natural)
        ensures
            r@ == self@,
    {
        Natural { limbs: self.to_limbs() }
    }

    /// Whether the number is zero.
    pub fn is_zero(&self) -> (r: bool)
        ensures
            r == (self@ == 0),
    {
        proof {
            lemma_limbs_zero(self.limbs@);
        }
        let mut i: usize = 0;
        while i < self.limbs.len()
            invariant
                i <= self.limbs.len(),
                forall|j: int| 0 <= j < i ==> self.limbs@[j] == 0,
            decreases self.limbs.len() - i,
        {
            if self.limbs[i] != 0 {
                proof {
                    lemma_limbs_zero(self.limbs@);
                    assert(self.limbs@[i as int] != 0);
                }
                return false;
            }
            i = i + 1;
        }
        true
    }

    /// The sum of two numbers.
    pub fn add(&self, other: &Natural) -> (r: Natural)
        ensures
            r@ == self@ + other@,
    {
        big_add(self, other)
    }

    /// Whether this number is smaller than `other`.
    pub fn less_than(&self, other: &Natural) -> (r: bool)
        ensures
            r == (self@ < other@),
    {
        big_less(self, other)
    }

    /// The difference of two numbers, or zero where `other` is the larger.
    pub fn saturating_sub(&self, other: &Natural) -> (r: Natural)
        ensures
            r@ == (if other@ > self@ { 0 } else { (self@ - other@) as nat }),
    {
        if self.less_than(other) {
            Natural::zero()
        } else {
            big_sub(self, other)
        }
    }

    /// Reads a number in decimal notation, as `BigUint`'s `FromStr` does.
    pub fn parse_decimal(s: &str) -> (r: Option<Natural>)
        ensures
            r is Some <==> decimal_accepted(s@),
            r matches Some(n) ==> n@ == digits_value(without_plus(s@)),
    {
        big_from_decimal(s)
    }

    /// The decimal notation of the number.
    pub fn to_decimal(&self) -> (r: String)
        ensures
            r@ == decimal_repr(self@),
    {
        big_to_decimal(self)
    }
}

} // verus!
