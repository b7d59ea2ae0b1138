//! Counting weights: the sum-product semirings that the counting engine accumulates in.
//!
//! Every weight stands for a real number. Branches add, components multiply.
use vstd::prelude::*;

use num_bigint::{BigInt, BigUint, Sign};
use num_rational::BigRational;

use crate::text;

verus! {

/// A number that counts can be accumulated in.
pub trait Weight: Sized {
    /// The number that this weight stands for.
    spec fn val(&self) -> real;

    /// Additive identity: the weight of a branch without models.
    fn zero() -> (r: Self)
        ensures
            r.val() == 0real,
    ;

    /// Multiplicative identity: the weight of an empty product.
    fn one() -> (r: Self)
        ensures
            r.val() == 1real,
    ;

    /// Branch aggregation: `self += rhs`.
    fn add(&mut self, rhs: &Self)
        ensures
            final(self).val() == old(self).val() + rhs.val(),
    ;

    /// Component aggregation: `self * rhs`.
    fn mul(&self, rhs: &Self) -> (r: Self)
        ensures
            r.val() == self.val() * rhs.val(),
    ;

    /// What a variable that nothing constrains contributes: one for each of its values.
    fn free_factor(var: usize) -> (r: Self)
        ensures
            r.val() == 2real,
    ;

    /// Whether this is the additive identity.
    fn is_zero(&self) -> (r: bool)
        ensures
            r == (self.val() == 0real),
    ;

    /// Another weight of the same number.
    fn copy(&self) -> (r: Self)
        ensures
            r.val() == self.val(),
    ;

    /// Whether the number is represented exactly.
    spec fn exact(&self) -> bool;

    /// Whether two weights are known to be the same number: both are represented exactly, and
    /// they are equal.
    fn same(&self, rhs: &Self) -> (r: bool)
        ensures
            r == (self.exact() && rhs.exact() && self.val() == rhs.val()),
    ;
}

/// The number with the base-2^32 digits `d`, least significant first.
pub open spec fn digits_value(d: Seq<u32>) -> nat
    decreases d.len(),
{
    if d.len() == 0 {
        0
    } else {
        d[0] as nat + 0x1_0000_0000nat * digits_value(d.drop_first())
    }
}

/// The decimal digit for `d`.
pub open spec fn digit_char(d: nat) -> char {
    if d == 0 {
        '0'
    } else if d == 1 {
        '1'
    } else if d == 2 {
        '2'
    } else if d == 3 {
        '3'
    } else if d == 4 {
        '4'
    } else if d == 5 {
        '5'
    } else if d == 6 {
        '6'
    } else if d == 7 {
        '7'
    } else if d == 8 {
        '8'
    } else {
        '9'
    }
}

/// `n` written in decimal.
pub open spec fn decimal(n: nat) -> Seq<char>
    decreases n,
{
    if n < 10 {
        seq![digit_char(n)]
    } else {
        decimal(n / 10).push(digit_char(n % 10))
    }
}

/// `BigUint` addition: the digits of the sum.
#[verifier::external_body]
fn big_add(a: &Vec<u32>, b: &Vec<u32>) -> (r: Vec<u32>)
    ensures
        digits_value(r@) == digits_value(a@) + digits_value(b@),
{
    (BigUint::from_slice(a) + BigUint::from_slice(b)).to_u32_digits()
}

/// `BigUint` multiplication: the digits of the product.
#[verifier::external_body]
fn big_mul(a: &Vec<u32>, b: &Vec<u32>) -> (r: Vec<u32>)
    ensures
        digits_value(r@) == digits_value(a@) * digits_value(b@),
{
    (BigUint::from_slice(a) * BigUint::from_slice(b)).to_u32_digits()
}

/// `BigUint` equality: whether two digit lists are the same number.
#[verifier::external_body]
fn big_eq(a: &Vec<u32>, b: &Vec<u32>) -> (r: bool)
    ensures
        r == (digits_value(a@) == digits_value(b@)),
{
    BigUint::from_slice(a) == BigUint::from_slice(b)
}

/// `BigUint::to_str_radix` with radix ten: the number in decimal.
#[verifier::external_body]
fn big_decimal(a: &Vec<u32>) -> (r: String)
    ensures
        r@ == decimal(digits_value(a@)),
{
    BigUint::from_slice(a).to_str_radix(10)
}

/// A copy of a digit list.
fn copy_digits(d: &Vec<u32>) -> (r: Vec<u32>)
    ensures
        r@ == d@,
{
    crate::network::copy_rows(d)
}

/// The digits of a machine word.
fn word_digits(n: u64) -> (r: Vec<u32>)
    ensures
        digits_value(r@) == n,
{
    let mut d: Vec<u32> = Vec::new();
    let lo: u32 = (n % 0x1_0000_0000) as u32;
    let hi: u32 = (n / 0x1_0000_0000) as u32;
    if n != 0 {
        d.push(lo);
    }
    if hi != 0 {
        d.push(hi);
    }
    proof {
        reveal_with_fuel(digits_value, 3);
        if hi != 0 {
            assert(d@.drop_first() =~= seq![hi]);
            assert(seq![hi].drop_first() =~= Seq::<u32>::empty());
        } else if n != 0 {
            assert(d@.drop_first() =~= Seq::<u32>::empty());
        }
    }
    d
}

proof fn lemma_zero_digits(d: Seq<u32>)
    ensures
        digits_value(d) == 0 <==> (forall|i: int| 0 <= i < d.len() ==> d[i] == 0),
    decreases d.len(),
{
    if d.len() > 0 {
        let t = d.drop_first();
        lemma_zero_digits(t);
        if digits_value(d) == 0 {
            assert forall|i: int| 0 <= i < d.len() implies d[i] == 0 by {
                if i > 0 {
                    assert(t[i - 1] == d[i]);
                }
            }
        }
        if forall|i: int| 0 <= i < d.len() ==> d[i] == 0 {
            assert forall|i: int| 0 <= i < t.len() implies t[i] == 0 by {
                assert(t[i] == d[i + 1]);
            }
        }
    }
}

/// Whether every digit is zero.
fn digits_are_zero(d: &Vec<u32>) -> (r: bool)
    ensures
        r == (digits_value(d@) == 0),
{
    proof {
        lemma_zero_digits(d@);
    }
    let mut i: usize = 0;
    while i < d.len()
        invariant
            i <= d@.len(),
            forall|k: int| 0 <= k < i ==> d@[k] == 0,
            digits_value(d@) == 0 <==> (forall|i: int| 0 <= i < d@.len() ==> d@[i] == 0),
        decreases d.len() - i,
    {
        if d[i] != 0 {
            return false;
        }
        i += 1;
    }
    true
}

/// Exact counts of any size.
#[derive(Clone, Debug, PartialEq, Eq)]
pub struct BigCount {
    digits: Vec<u32>,
}

impl BigCount {
    /// The number counted.
    pub closed spec fn count(&self) -> nat {
        digits_value(self.digits@)
    }

    /// A count given as a machine word.
    pub fn from_u64(n: u64) -> (r: BigCount)
        ensures
            r.count() == n,
            r.val() == n as nat as real,
    {
        BigCount { digits: word_digits(n) }
    }

    /// The count in decimal.
    pub fn to_decimal(&self) -> (r: String)
        ensures
            r@ == decimal(self.count()),
    {
        big_decimal(&self.digits)
    }
}

/// What a big count stands for is the number counted.
pub proof fn law_big_count_value(c: BigCount)
    ensures
        c.val() == c.count() as real,
{
}

impl Weight for BigCount {
    closed spec fn val(&self) -> real {
        self.count() as real
    }

    open spec fn exact(&self) -> bool {
        true
    }

    fn zero() -> Self {
        BigCount { digits: word_digits(0) }
    }

    fn one() -> Self {
        BigCount { digits: word_digits(1) }
    }

    fn add(&mut self, rhs: &Self) {
        self.digits = big_add(&self.digits, &rhs.digits);
    }

    fn mul(&self, rhs: &Self) -> Self {
        proof {
            lemma_mul_cast(self.count(), rhs.count());
        }
        BigCount { digits: big_mul(&self.digits, &rhs.digits) }
    }

    fn free_factor(var: usize) -> Self {
        BigCount { digits: word_digits(2) }
    }

    fn is_zero(&self) -> bool {
        digits_are_zero(&self.digits)
    }

    fn copy(&self) -> Self {
        BigCount { digits: copy_digits(&self.digits) }
    }

    fn same(&self, rhs: &Self) -> bool {
        big_eq(&self.digits, &rhs.digits)
    }
}

/// A count kept in a `u128` for as long as it fits. A count that outgrows the word is never
/// reported: it is remembered as too large, and `value` is not available for it.
#[derive(Clone, Copy)]
pub struct CheckedU128 {
    word: Option<u128>,
    number: Ghost<nat>,
}

impl CheckedU128 {
    #[verifier::type_invariant]
    spec fn matches_number(self) -> bool {
        match self.word {
            Some(w) => self.number@ == w,
            None => self.number@ > u128::MAX,
        }
    }

    /// The number counted.
    pub closed spec fn count(&self) -> nat {
        self.number@
    }

    /// The count fits the word.
    pub closed spec fn fits(&self) -> bool {
        self.word is Some
    }

    pub fn new(n: u128) -> (r: CheckedU128)
        ensures
            r.count() == n,
            r.fits(),
            r.val() == n as nat as real,
    {
        CheckedU128 { word: Some(n), number: Ghost(n as nat) }
    }

    /// The count, where it fits.
    pub fn value(&self) -> (r: u128)
        requires
            self.fits(),
        ensures
            r == self.count(),
    {
        proof {
            use_type_invariant(self);
        }
        self.word.unwrap()
    }

    /// The count if it fits.
    pub fn checked_value(&self) -> (r: Option<u128>)
        ensures
            r is Some <==> self.fits(),
            r is Some <==> self.count() <= u128::MAX,
            r is Some ==> r->0 == self.count(),
    {
        proof {
            use_type_invariant(self);
        }
        self.word
    }
}

/// What a checked count stands for is the number counted.
pub proof fn law_checked_count_value(c: CheckedU128)
    ensures
        c.val() == c.count() as real,
{
}

impl Weight for CheckedU128 {
    closed spec fn val(&self) -> real {
        self.count() as real
    }

    open spec fn exact(&self) -> bool {
        self.fits()
    }

    fn zero() -> Self {
        CheckedU128::new(0)
    }

    fn one() -> Self {
        CheckedU128::new(1)
    }

    fn add(&mut self, rhs: &Self) {
        proof {
            use_type_invariant(&*self);
            use_type_invariant(rhs);
        }
        let sum: Ghost<nat> = Ghost(self.number@ + rhs.number@);
        let word = match (self.word, rhs.word) {
            (Some(a), Some(b)) => a.checked_add(b),
            _ => None,
        };
        *self = CheckedU128 { word, number: sum };
    }

    fn mul(&self, rhs: &Self) -> Self {
        proof {
            use_type_invariant(self);
            use_type_invariant(rhs);
            lemma_mul_large(self.number@, rhs.number@);
            lemma_mul_cast(self.number@, rhs.number@);
        }
        let product: Ghost<nat> = Ghost(self.number@ * rhs.number@);
        let word = match (self.word, rhs.word) {
            (Some(a), Some(b)) => a.checked_mul(b),
            (Some(a), None) => if a == 0 {
                Some(0)
            } else {
                None
            },
            (None, Some(b)) => if b == 0 {
                Some(0)
            } else {
                None
            },
            (None, None) => None,
        };
        CheckedU128 { word, number: product }
    }

    fn free_factor(var: usize) -> Self {
        CheckedU128::new(2)
    }

    fn is_zero(&self) -> bool {
        proof {
            use_type_invariant(self);
        }
        match self.word {
            Some(w) => w == 0,
            None => false,
        }
    }

    fn copy(&self) -> Self {
        *self
    }

    fn same(&self, rhs: &Self) -> bool {
        proof {
            use_type_invariant(self);
            use_type_invariant(rhs);
        }
        match (self.word, rhs.word) {
            (Some(a), Some(b)) => a == b,
            _ => false,
        }
    }
}

proof fn lemma_mul_cast(a: nat, b: nat)
    ensures
        (a * b) as real == (a as real) * (b as real),
    decreases b,
{
    let x = a as real;
    let y = b as real;
    if b == 0 {
        assert(a * b == 0) by (nonlinear_arith)
            requires
                b == 0,
        ;
        assert(x * y == 0real) by (nonlinear_arith)
            requires
                y == 0real,
        ;
    } else {
        let c = (b - 1) as nat;
        lemma_mul_cast(a, c);
        let z = c as real;
        assert(a * b == a * c + a) by (nonlinear_arith)
            requires
                b == c + 1,
        ;
        assert(x * y == x * z + x) by (nonlinear_arith)
            requires
                y == z + 1real,
        ;
    }
}

proof fn lemma_mul_large(a: nat, b: nat)
    ensures
        a > u128::MAX && b >= 1 ==> a * b > u128::MAX,
        b > u128::MAX && a >= 1 ==> a * b > u128::MAX,
        a == 0 || b == 0 ==> a * b == 0,
{
    assert(a > u128::MAX && b >= 1 ==> a * b > u128::MAX) by (nonlinear_arith);
    assert(b > u128::MAX && a >= 1 ==> a * b > u128::MAX) by (nonlinear_arith);
    assert(a == 0 || b == 0 ==> a * b == 0) by (nonlinear_arith);
}

/// Exact rational weights.
#[derive(Debug, PartialEq, Eq)]
pub struct RationalWeight {
    negative: bool,
    numer: Vec<u32>,
    denom: Vec<u32>,
}

/// The number with the sign, numerator and denominator given.
pub open spec fn ratio_value(negative: bool, numer: nat, denom: nat) -> real {
    if negative {
        -((numer as real) / (denom as real))
    } else {
        (numer as real) / (denom as real)
    }
}

/// No number above one divides both.
pub open spec fn in_lowest_terms(numer: nat, denom: nat) -> bool {
    forall|d: nat| d >= 2 ==> !(#[trigger] (numer % d) == 0 && denom % d == 0)
}

impl RationalWeight {
    #[verifier::type_invariant]
    spec fn has_denominator(self) -> bool {
        &&& digits_value(self.denom@) != 0
        &&& in_lowest_terms(digits_value(self.numer@), digits_value(self.denom@))
    }

    pub closed spec fn is_negative(&self) -> bool {
        self.negative
    }

    pub closed spec fn numerator(&self) -> nat {
        digits_value(self.numer@)
    }

    pub closed spec fn denominator(&self) -> nat {
        digits_value(self.denom@)
    }

    /// The ratio of two integers.
    pub fn ratio(num: i64, den: i64) -> (r: Self)
        requires
            den != 0,
        ensures
            r.val() == (num as int as real) / (den as int as real),
    {
        let negative = (num < 0) != (den < 0);
        let n: Vec<u32> = word_digits(word_size(num));
        let d: Vec<u32> = word_digits(word_size(den));
        let r = ratio_new(negative, &n, &d);
        proof {
            let x = num as int as real;
            let y = den as int as real;
            let a = digits_value(n@) as real;
            let b = digits_value(d@) as real;
            assert(b != 0real);
            assert(a == (if num < 0 {
                -x
            } else {
                x
            }));
            assert(b == (if den < 0 {
                -y
            } else {
                y
            }));
            lemma_signed_quotient(x, y);
        }
        r
    }

    /// An integer.
    pub fn integer(n: i64) -> (r: Self)
        ensures
            r.val() == n as int as real,
    {
        let r = RationalWeight::ratio(n, 1);
        proof {
            let x = n as int as real;
            assert(x / 1real == x) by (nonlinear_arith);
        }
        r
    }

    /// The weight as `numerator/denominator` in decimal.
    pub fn to_ratio_string(&self) -> (r: String)
        ensures
            r@ == ratio_text(self.is_negative(), self.numerator(), self.denominator()),
            self.denominator() > 0,
            in_lowest_terms(self.numerator(), self.denominator()),
    {
        proof {
            use_type_invariant(self);
        }
        ratio_string(self)
    }

    /// Read a weight exactly: an integer, a decimal, or a ratio.
    pub fn parse(s: &str) -> (r: Result<Self, WeightError>)
        ensures
            match r {
                Ok(w) => weight_number(s@) == Ok::<real, WeightError>(w.val()),
                Err(e) => weight_number(s@) == Err::<real, WeightError>(e),
            },
    {
        let chars = text::chars_of(s);
        let t = text::trim(&chars);
        let slash: usize = text::find_char(&t, '/');
        if slash < t.len() {
            let front = text::part(&t, 0, slash);
            let back = text::part(&t, slash + 1, t.len());
            proof {
                assert(front@ =~= t@.take(slash as int));
                assert(back@ =~= t@.skip(slash + 1));
            }
            let (n_neg, n) = match read_big(&text::trim(&front)) {
                Some(x) => x,
                None => {
                    return Err(WeightError::BadNumerator);
                },
            };
            let (d_neg, d) = match read_big(&text::trim(&back)) {
                Some(x) => x,
                None => {
                    return Err(WeightError::BadDenominator);
                },
            };
            if digits_are_zero(&d) {
                return Err(WeightError::ZeroDenominator);
            }
            let w = ratio_new(n_neg != d_neg, &n, &d);
            proof {
                let x = signed_digits((n_neg, n)) as real;
                let y = signed_digits((d_neg, d)) as real;
                lemma_signed_parts(n_neg, digits_value(n@), d_neg, digits_value(d@));
            }
            return Ok(w);
        }
        let point: usize = text::find_char(&t, '.');
        if point < t.len() {
            let int_part = text::part(&t, 0, point);
            let frac = text::part(&t, point + 1, t.len());
            proof {
                assert(int_part@ =~= t@.take(point as int));
                assert(frac@ =~= t@.skip(point + 1));
            }
            return read_decimal(&int_part, &frac);
        }
        match read_big(&t) {
            Some((neg, n)) => {
                let one: Vec<u32> = word_digits(1);
                let w = ratio_new(neg, &n, &one);
                proof {
                    lemma_over_one(neg, digits_value(n@), digits_value(one@));
                }
                Ok(w)
            },
            None => Err(WeightError::BadInteger),
        }
    }
}

/// What is wrong with a weight.
#[derive(Clone, Copy, Debug, PartialEq, Eq, Structural)]
pub enum WeightError {
    BadNumerator,
    BadDenominator,
    ZeroDenominator,
    BadIntegerPart,
    BadFractionalPart,
    BadInteger,
}

impl WeightError {
    /// The part of a text that the error is about.
    pub open spec fn part_of(self, s: Seq<char>) -> Seq<char> {
        let t = text::trimmed(s);
        match self {
            WeightError::BadNumerator => t.take(text::first_at(t, '/')),
            WeightError::BadDenominator => t.skip(text::first_at(t, '/') + 1),
            WeightError::ZeroDenominator => t,
            WeightError::BadIntegerPart => t.take(text::first_at(t, '.')),
            WeightError::BadFractionalPart => t.skip(text::first_at(t, '.') + 1),
            WeightError::BadInteger => t,
        }
    }

    /// The part of a text that the error quotes, where the text has that error.
    pub fn quoted(self, s: &str) -> (r: String)
        requires
            weight_number(s@) == Err::<real, WeightError>(self),
        ensures
            r@ == self.part_of(s@),
    {
        let all = text::chars_of(s);
        let t = text::trim(&all);
        let slash: usize = text::find_char(&t, '/');
        let point: usize = text::find_char(&t, '.');
        let part = match self {
            WeightError::BadNumerator => text::part(&t, 0, slash),
            WeightError::BadDenominator => text::part(&t, slash + 1, t.len()),
            WeightError::ZeroDenominator => t,
            WeightError::BadIntegerPart => text::part(&t, 0, point),
            WeightError::BadFractionalPart => text::part(&t, point + 1, t.len()),
            WeightError::BadInteger => t,
        };
        text::string_of(&part)
    }

    /// The error in words.
    pub fn message(self) -> (r: &'static str)
        ensures
            r@ == (match self {
                WeightError::BadNumerator => "bad numerator"@,
                WeightError::BadDenominator => "bad denominator"@,
                WeightError::ZeroDenominator => "zero denominator"@,
                WeightError::BadIntegerPart => "bad integer part"@,
                WeightError::BadFractionalPart => "bad fractional part"@,
                WeightError::BadInteger => "bad integer"@,
            }),
    {
        match self {
            WeightError::BadNumerator => "bad numerator",
            WeightError::BadDenominator => "bad denominator",
            WeightError::ZeroDenominator => "zero denominator",
            WeightError::BadIntegerPart => "bad integer part",
            WeightError::BadFractionalPart => "bad fractional part",
            WeightError::BadInteger => "bad integer",
        }
    }
}

/// The number of digits between which underscores may stand.
pub open spec fn spaced_number(s: Seq<char>) -> nat
    decreases s.len(),
{
    if s.len() == 0 {
        0
    } else if s.last() == '_' {
        spaced_number(s.drop_last())
    } else {
        (spaced_number(s.drop_last()) * 10 + (s.last() as int - '0' as int)) as nat
    }
}

/// The integer that a text is: a sign or none, a digit, and digits and underscores.
pub open spec fn big_number(s: Seq<char>) -> Option<int> {
    let signed = s.len() > 0 && (s[0] == '-' || s[0] == '+');
    let t = if signed {
        s.drop_first()
    } else {
        s
    };
    if t.len() > 0 && text::digit(t[0]) && (forall|k: int| 0 <= k < t.len() ==> text::digit(#[trigger] t[k]) || t[k] == '_') {
        if signed && s[0] == '-' {
            Some(-(spaced_number(t) as int))
        } else {
            Some(spaced_number(t) as int)
        }
    } else {
        None
    }
}

/// The integer with that sign and those digits.
pub open spec fn signed_digits(x: (bool, Vec<u32>)) -> int {
    if x.0 {
        -(digits_value(x.1@) as int)
    } else {
        digits_value(x.1@) as int
    }
}

/// `BigInt::from_str`: the sign and the digits of the integer that a text is, if it is one.
#[verifier::external_body]
fn big_parse(s: &str) -> (r: Option<(bool, Vec<u32>)>)
    ensures
        r is Some <==> big_number(s@) is Some,
        r is Some ==> signed_digits(r->0) == big_number(s@)->0,
{
    match s.parse::<BigInt>() {
        Ok(n) => Some((n.sign() == Sign::Minus, n.magnitude().to_u32_digits())),
        Err(_) => None,
    }
}

fn read_big(chars: &Vec<char>) -> (r: Option<(bool, Vec<u32>)>)
    ensures
        r is Some <==> big_number(chars@) is Some,
        r is Some ==> signed_digits(r->0) == big_number(chars@)->0,
{
    let s = text::string_of(chars);
    big_parse(s.as_str())
}

/// Without the minus signs in front.
pub open spec fn after_minuses(s: Seq<char>) -> Seq<char>
    decreases s.len(),
{
    if s.len() > 0 && s[0] == '-' {
        after_minuses(s.drop_first())
    } else {
        s
    }
}

/// Ten to the `k`.
pub open spec fn pow10(k: nat) -> nat
    decreases k,
{
    if k == 0 {
        1
    } else {
        10 * pow10((k - 1) as nat)
    }
}

/// The integer of a part of a decimal: an empty part is zero.
pub open spec fn part_number(s: Seq<char>) -> Option<int> {
    if s.len() == 0 {
        Some(0)
    } else {
        big_number(s)
    }
}

/// A decimal: the part before the point, and the part behind it over as many tens.
pub open spec fn decimal_number(front: Seq<char>, frac: Seq<char>) -> Result<real, WeightError> {
    let negative = text::trim_front(front).len() > 0 && text::trim_front(front)[0] == '-';
    match part_number(after_minuses(text::trimmed(front))) {
        None => Err(WeightError::BadIntegerPart),
        Some(i) => match part_number(frac) {
            None => Err(WeightError::BadFractionalPart),
            Some(f) => {
                let v = i as real + (f as real) / (pow10(frac.len()) as real);
                Ok(if negative {
                    -v
                } else {
                    v
                })
            },
        },
    }
}

/// The number that a weight is: a ratio where there is a slash, a decimal where there is a
/// point, an integer otherwise.
pub open spec fn weight_number(s: Seq<char>) -> Result<real, WeightError> {
    let t = text::trimmed(s);
    let slash = text::first_at(t, '/');
    let point = text::first_at(t, '.');
    if slash < t.len() {
        match big_number(text::trimmed(t.take(slash))) {
            None => Err(WeightError::BadNumerator),
            Some(n) => match big_number(text::trimmed(t.skip(slash + 1))) {
                None => Err(WeightError::BadDenominator),
                Some(d) => if d == 0 {
                    Err(WeightError::ZeroDenominator)
                } else {
                    Ok((n as real) / (d as real))
                },
            },
        }
    } else if point < t.len() {
        decimal_number(t.take(point), t.skip(point + 1))
    } else {
        match big_number(t) {
            None => Err(WeightError::BadInteger),
            Some(n) => Ok(n as real),
        }
    }
}

/// How large a word is without its sign.
fn word_size(n: i64) -> (r: u64)
    ensures
        r == (if n < 0 {
            -(n as int)
        } else {
            n as int
        }),
{
    if n < 0 {
        (0i128 - n as i128) as u64
    } else {
        n as u64
    }
}

proof fn lemma_signed_quotient(x: real, y: real)
    requires
        y != 0real,
    ensures
        (-x) / (-y) == x / y,
        -((-x) / y) == x / y,
        -(x / (-y)) == x / y,
{
    assert((-x) / (-y) == x / y) by (nonlinear_arith)
        requires
            y != 0real,
    ;
    assert(-((-x) / y) == x / y) by (nonlinear_arith)
        requires
            y != 0real,
    ;
    assert(-(x / (-y)) == x / y) by (nonlinear_arith)
        requires
            y != 0real,
    ;
}

proof fn lemma_signed_parts(n_neg: bool, n: nat, d_neg: bool, d: nat)
    requires
        d != 0,
    ensures
        ratio_value(n_neg != d_neg, n, d) == ((if n_neg {
            -(n as int)
        } else {
            n as int
        }) as real) / ((if d_neg {
            -(d as int)
        } else {
            d as int
        }) as real),
{
    let x = (if n_neg {
        -(n as int)
    } else {
        n as int
    }) as real;
    let y = (if d_neg {
        -(d as int)
    } else {
        d as int
    }) as real;
    assert(x == (if n_neg {
        -(n as real)
    } else {
        n as real
    }));
    assert(y == (if d_neg {
        -(d as real)
    } else {
        d as real
    }));
    lemma_signed_quotient(x, y);
}

proof fn lemma_over_one(neg: bool, n: nat, one: nat)
    requires
        one == 1,
    ensures
        ratio_value(neg, n, one) == (if neg {
            -(n as int)
        } else {
            n as int
        }) as real,
{
    let x = n as real;
    assert(x / 1real == x) by (nonlinear_arith);
    assert(one as real == 1real);
}

/// The part before the point without its minus signs.
fn drop_minuses(s: &Vec<char>) -> (r: Vec<char>)
    ensures
        r@ == after_minuses(s@),
{
    let mut i: usize = 0;
    assert(s@.skip(0) =~= s@);
    while i < s.len() && s[i] == '-'
        invariant
            i <= s@.len(),
            after_minuses(s@) == after_minuses(s@.skip(i as int)),
        decreases s.len() - i,
    {
        assert(s@.skip(i as int).drop_first() =~= s@.skip(i + 1));
        i += 1;
    }
    proof {
        assert(s@.subrange(i as int, s@.len() as int) =~= s@.skip(i as int));
    }
    text::part(s, i, s.len())
}

/// The integer of a part of a decimal.
fn read_part(s: &Vec<char>) -> (r: Option<(bool, Vec<u32>)>)
    ensures
        r is Some <==> part_number(s@) is Some,
        r is Some ==> signed_digits(r->0) == part_number(s@)->0,
{
    if s.len() == 0 {
        Some((false, word_digits(0)))
    } else {
        read_big(s)
    }
}

/// Ten to the `k`.
fn tens(k: usize) -> (r: Vec<u32>)
    ensures
        digits_value(r@) == pow10(k as nat),
        pow10(k as nat) > 0,
{
    let ten = word_digits(10);
    let mut r = word_digits(1);
    let mut i: usize = 0;
    while i < k
        invariant
            i <= k,
            digits_value(ten@) == 10,
            digits_value(r@) == pow10(i as nat),
            pow10(i as nat) > 0,
        decreases k - i,
    {
        r = big_mul(&ten, &r);
        i += 1;
    }
    r
}

/// A decimal from its two parts.
fn read_decimal(front: &Vec<char>, frac: &Vec<char>) -> (r: Result<RationalWeight, WeightError>)
    ensures
        match r {
            Ok(w) => decimal_number(front@, frac@) == Ok::<real, WeightError>(w.val()),
            Err(e) => decimal_number(front@, frac@) == Err::<real, WeightError>(e),
        },
{
    let t = text::trim(front);
    proof {
        text::lemma_trim_head(front@);
    }
    let negative = t.len() > 0 && t[0] == '-';
    let whole = drop_minuses(&t);
    let (i_neg, i) = match read_part(&whole) {
        Some(x) => x,
        None => {
            return Err(WeightError::BadIntegerPart);
        },
    };
    let (f_neg, f) = match read_part(frac) {
        Some(x) => x,
        None => {
            return Err(WeightError::BadFractionalPart);
        },
    };
    let one = word_digits(1);
    let den = tens(frac.len());
    let x = ratio_new(i_neg, &i, &one);
    let y = ratio_new(f_neg, &f, &den);
    proof {
        use_type_invariant(&x);
        use_type_invariant(&y);
        lemma_over_one(i_neg, digits_value(i@), digits_value(one@));
        lemma_signed_parts(f_neg, digits_value(f@), false, digits_value(den@));
    }
    let sum = ratio_add(&x, &y);
    if negative {
        let minus = RationalWeight::integer(-1);
        proof {
            use_type_invariant(&sum);
            use_type_invariant(&minus);
            let v = sum.val();
            assert(v * (-1real) == -v) by (nonlinear_arith);
            assert(minus.val() == -1real);
        }
        Ok(ratio_mul(&sum, &minus))
    } else {
        Ok(sum)
    }
}

impl Clone for RationalWeight {
    fn clone(&self) -> (r: Self)
        ensures
            r.val() == self.val(),
    {
        self.copy()
    }
}

/// `numerator/denominator` in decimal.
pub open spec fn ratio_text(negative: bool, numer: nat, denom: nat) -> Seq<char> {
    (if negative && numer != 0 {
        seq!['-']
    } else {
        Seq::<char>::empty()
    }) + decimal(numer) + seq!['/'] + decimal(denom)
}

/// The ratio with that sign and those digits.
pub open spec fn given_ratio(x: (bool, Seq<u32>, Seq<u32>)) -> real {
    ratio_value(x.0, digits_value(x.1), digits_value(x.2))
}

/// `BigRational::new`: the ratio of two integers, in lowest terms.
#[verifier::external_body]
fn ratio_new(negative: bool, numer: &Vec<u32>, denom: &Vec<u32>) -> (r: RationalWeight)
    requires
        digits_value(denom@) != 0,
    ensures
        r.val() == given_ratio((negative, numer@, denom@)),
        r.denominator() > 0,
        in_lowest_terms(r.numerator(), r.denominator()),
{
    let sign = if negative { Sign::Minus } else { Sign::Plus };
    let q = BigRational::new(BigInt::from_slice(sign, numer), BigInt::from_slice(Sign::Plus, denom));
    RationalWeight {
        negative: q.numer().sign() == Sign::Minus,
        numer: q.numer().magnitude().to_u32_digits(),
        denom: q.denom().magnitude().to_u32_digits(),
    }
}

/// `BigRational` addition: the sum, in lowest terms.
#[verifier::external_body]
fn ratio_add(a: &RationalWeight, b: &RationalWeight) -> (r: RationalWeight)
    requires
        a.denominator() != 0,
        b.denominator() != 0,
    ensures
        r.val() == a.val() + b.val(),
        r.denominator() > 0,
        in_lowest_terms(r.numerator(), r.denominator()),
{
    let sign = |neg: bool| if neg { Sign::Minus } else { Sign::Plus };
    let x = BigRational::new(BigInt::from_slice(sign(a.negative), &a.numer), BigInt::from_slice(Sign::Plus, &a.denom));
    let y = BigRational::new(BigInt::from_slice(sign(b.negative), &b.numer), BigInt::from_slice(Sign::Plus, &b.denom));
    let q = x + y;
    RationalWeight {
        negative: q.numer().sign() == Sign::Minus,
        numer: q.numer().magnitude().to_u32_digits(),
        denom: q.denom().magnitude().to_u32_digits(),
    }
}

/// `BigRational` multiplication: the product, in lowest terms.
#[verifier::external_body]
fn ratio_mul(a: &RationalWeight, b: &RationalWeight) -> (r: RationalWeight)
    requires
        a.denominator() != 0,
        b.denominator() != 0,
    ensures
        r.val() == a.val() * b.val(),
        r.denominator() > 0,
        in_lowest_terms(r.numerator(), r.denominator()),
{
    let sign = |neg: bool| if neg { Sign::Minus } else { Sign::Plus };
    let x = BigRational::new(BigInt::from_slice(sign(a.negative), &a.numer), BigInt::from_slice(Sign::Plus, &a.denom));
    let y = BigRational::new(BigInt::from_slice(sign(b.negative), &b.numer), BigInt::from_slice(Sign::Plus, &b.denom));
    let q = x * y;
    RationalWeight {
        negative: q.numer().sign() == Sign::Minus,
        numer: q.numer().magnitude().to_u32_digits(),
        denom: q.denom().magnitude().to_u32_digits(),
    }
}

/// `BigRational` equality: whether two ratios are the same number.
#[verifier::external_body]
fn ratio_eq(a: &RationalWeight, b: &RationalWeight) -> (r: bool)
    requires
        a.denominator() != 0,
        b.denominator() != 0,
    ensures
        r == (a.val() == b.val()),
{
    let sign = |neg: bool| if neg { Sign::Minus } else { Sign::Plus };
    let x = BigRational::new(BigInt::from_slice(sign(a.negative), &a.numer), BigInt::from_slice(Sign::Plus, &a.denom));
    let y = BigRational::new(BigInt::from_slice(sign(b.negative), &b.numer), BigInt::from_slice(Sign::Plus, &b.denom));
    x == y
}

/// `BigInt`'s `Display`: numerator and denominator in decimal, around a slash.
#[verifier::external_body]
fn ratio_string(a: &RationalWeight) -> (r: String)
    requires
        a.denominator() != 0,
    ensures
        r@ == ratio_text(a.is_negative(), a.numerator(), a.denominator()),
{
    let sign = if a.negative { Sign::Minus } else { Sign::Plus };
    format!("{}/{}", BigInt::from_slice(sign, &a.numer), BigInt::from_slice(Sign::Plus, &a.denom))
}

impl Weight for RationalWeight {
    closed spec fn val(&self) -> real {
        ratio_value(self.negative, self.numerator(), self.denominator())
    }

    open spec fn exact(&self) -> bool {
        true
    }

    fn zero() -> Self {
        RationalWeight::integer(0)
    }

    fn one() -> Self {
        RationalWeight::integer(1)
    }

    fn add(&mut self, rhs: &Self) {
        proof {
            use_type_invariant(&*self);
            use_type_invariant(rhs);
        }
        *self = ratio_add(self, rhs);
    }

    fn mul(&self, rhs: &Self) -> Self {
        proof {
            use_type_invariant(self);
            use_type_invariant(rhs);
        }
        ratio_mul(self, rhs)
    }

    fn free_factor(var: usize) -> Self {
        RationalWeight::integer(2)
    }

    fn is_zero(&self) -> bool {
        proof {
            use_type_invariant(self);
            let n = self.numerator() as real;
            let d = self.denominator() as real;
            assert(d > 0real ==> (n / d == 0real) == (n == 0real)) by (nonlinear_arith);
        }
        digits_are_zero(&self.numer)
    }

    fn copy(&self) -> Self {
        proof {
            use_type_invariant(self);
        }
        RationalWeight {
            negative: self.negative,
            numer: copy_digits(&self.numer),
            denom: copy_digits(&self.denom),
        }
    }

    fn same(&self, rhs: &Self) -> bool {
        proof {
            use_type_invariant(self);
            use_type_invariant(rhs);
        }
        ratio_eq(self, rhs)
    }
}

} // verus!
