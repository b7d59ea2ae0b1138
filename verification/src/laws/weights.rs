//! What the texts of numbers mean.
use vstd::arithmetic::power;
use vstd::prelude::*;

use crate::conquer;
use crate::semiring;
use crate::semiring::WeightError;
use crate::text;

verus! {

/// The integer that decimal digits spell: each digit counts ten times the power of its place.
pub open spec fn spelled(s: Seq<char>) -> int
    decreases s.len(),
{
    if s.len() == 0 {
        0
    } else {
        (s[0] as int - '0' as int) * power::pow(10, (s.len() - 1) as nat) + spelled(s.drop_first())
    }
}

/// Digits only, possibly none.
pub open spec fn digits_only(s: Seq<char>) -> bool {
    forall|k: int| 0 <= k < s.len() ==> text::digit(#[trigger] s[k])
}

/// One digit more is ten times as much and the digit.
pub proof fn lemma_spelled_push(s: Seq<char>, c: char)
    ensures
        spelled(s.push(c)) == 10 * spelled(s) + (c as int - '0' as int),
    decreases s.len(),
{
    let t = s.push(c);
    reveal(power::pow);
    if s.len() == 0 {
        assert(t.drop_first() =~= Seq::<char>::empty());
        power::lemma_pow0(10);
        assert(power::pow(10, 0) == 1);
        let d = c as int - '0' as int;
        assert(d * 1 == d);
        assert(t[0] == c);
        assert(spelled(t) == d * power::pow(10, 0) + spelled(t.drop_first()));
        assert(spelled(t.drop_first()) == 0 && spelled(s) == 0);
    } else {
        let d = s[0] as int - '0' as int;
        let n = (s.len() - 1) as nat;
        lemma_spelled_push(s.drop_first(), c);
        assert(t.drop_first() =~= s.drop_first().push(c));
        assert(power::pow(10, n + 1) == 10 * power::pow(10, n));
        let p = power::pow(10, n);
        assert(d * (10 * p) == 10 * (d * p)) by (nonlinear_arith);
        assert(t[0] == s[0]);
        assert(spelled(t) == d * power::pow(10, (t.len() - 1) as nat) + spelled(t.drop_first()));
        assert(spelled(s) == d * p + spelled(s.drop_first()));
    }
}

proof fn lemma_spelled_digits(s: Seq<char>)
    requires
        digits_only(s),
    ensures
        spelled(s) >= 0,
        text::digits_number(s) == spelled(s),
        semiring::spaced_number(s) == spelled(s),
    decreases s.len(),
{
    if s.len() > 0 {
        let t = s.drop_last();
        assert(t.push(s.last()) =~= s);
        lemma_spelled_push(t, s.last());
        assert forall|k: int| 0 <= k < t.len() implies text::digit(#[trigger] t[k]) by {
            assert(t[k] == s[k]);
        }
        lemma_spelled_digits(t);
        assert(text::digit(s[s.len() - 1]));
        assert(s.last() != '_');
    }
}

proof fn lemma_spelled_join(a: Seq<char>, b: Seq<char>)
    ensures
        spelled(a + b) == spelled(a) * power::pow(10, b.len()) + spelled(b),
    decreases b.len(),
{
    reveal(power::pow);
    if b.len() == 0 {
        assert(a + b =~= a);
        power::lemma_pow0(10);
        let x = spelled(a);
        assert(x * 1 == x);
    } else {
        let t = b.drop_last();
        lemma_spelled_join(a, t);
        assert(t.push(b.last()) =~= b);
        assert((a + t).push(b.last()) =~= a + b);
        lemma_spelled_push(t, b.last());
        lemma_spelled_push(a + t, b.last());
        let x = spelled(a);
        let p = power::pow(10, t.len());
        assert(power::pow(10, b.len()) == 10 * p);
        assert(x * (10 * p) == 10 * (x * p)) by (nonlinear_arith);
    }
}

proof fn lemma_pow10(k: nat)
    ensures
        semiring::pow10(k) == power::pow(10, k),
        semiring::pow10(k) > 0,
    decreases k,
{
    reveal(power::pow);
    if k > 0 {
        lemma_pow10((k - 1) as nat);
    } else {
        power::lemma_pow0(10);
    }
}

proof fn lemma_untrimmed(s: Seq<char>)
    requires
        s.len() > 0 ==> !text::blank(s[0]) && !text::blank(s.last()),
    ensures
        text::trimmed(s) == s,
        text::trim_front(s) == s,
{
}

proof fn lemma_digits_whole(d: Seq<char>)
    requires
        digits_only(d),
        d.len() > 0,
    ensures
        semiring::big_number(d) == Some(spelled(d)),
        text::trimmed(d) == d,
        text::trim_front(d) == d,
        semiring::after_minuses(d) == d,
{
    lemma_spelled_digits(d);
    assert(text::digit(d[0]) && text::digit(d[d.len() - 1]));
    lemma_untrimmed(d);
    assert(d[0] != '-' && d[0] != '+');
}

proof fn lemma_part(d: Seq<char>)
    requires
        digits_only(d),
    ensures
        semiring::part_number(d) == Some(spelled(d)),
        text::trimmed(d) == d,
        text::trim_front(d) == d,
        semiring::after_minuses(d) == d,
{
    if d.len() > 0 {
        lemma_digits_whole(d);
    }
}

proof fn lemma_split(d: Seq<char>, c: char, f: Seq<char>, other: char)
    requires
        digits_only(f),
        forall|k: int| 0 <= k < d.len() ==> (#[trigger] d[k]) != c && d[k] != other,
        c == '.' || c == '/',
        other == '.' || other == '/',
        other != c,
    ensures
        text::first_at(d + seq![c] + f, c) == d.len(),
        text::first_at(d + seq![c] + f, other) == (d + seq![c] + f).len(),
        (d + seq![c] + f).take(d.len() as int) == d,
        (d + seq![c] + f).skip(d.len() as int + 1) == f,
{
    let s = d + seq![c] + f;
    assert(s.len() == d.len() + 1 + f.len());
    assert forall|k: int| 0 <= k < d.len() implies #[trigger] s[k] != c by {
        assert(s[k] == d[k]);
    }
    assert(s[d.len() as int] == c);
    text::lemma_first_at(s, c, d.len() as int);
    assert forall|k: int| 0 <= k < s.len() implies #[trigger] s[k] != other by {
        if k < d.len() {
            assert(s[k] == d[k]);
        } else if k > d.len() {
            assert(s[k] == f[k - d.len() - 1]);
            assert(text::digit(f[k - d.len() - 1]));
        }
    }
    text::lemma_first_at(s, other, s.len() as int);
    assert(s.take(d.len() as int) =~= d);
    assert(s.skip(d.len() as int + 1) =~= f);
}

proof fn lemma_no_marks(d: Seq<char>)
    requires
        forall|k: int| 0 <= k < d.len() ==> (#[trigger] d[k]) != '/' && d[k] != '.',
    ensures
        text::first_at(d, '/') == d.len(),
        text::first_at(d, '.') == d.len(),
{
    text::lemma_first_at(d, '/', d.len() as int);
    text::lemma_first_at(d, '.', d.len() as int);
}

/// Digits are read as the integer that they spell, and with a minus sign in front as its negative.
pub proof fn law_integer_weights(d: Seq<char>)
    requires
        digits_only(d),
        d.len() > 0,
    ensures
        semiring::weight_number(d) == Ok::<real, WeightError>(spelled(d) as real),
        semiring::weight_number(seq!['+'] + d) == Ok::<real, WeightError>(spelled(d) as real),
        semiring::weight_number(seq!['-'] + d) == Ok::<real, WeightError>((-spelled(d)) as real),
{
    lemma_digits_whole(d);
    assert forall|k: int| 0 <= k < d.len() implies (#[trigger] d[k]) != '/' && d[k] != '.' by {
        assert(text::digit(d[k]));
    }
    lemma_no_marks(d);
    lemma_spelled_digits(d);
    lemma_signed(d, '+');
    lemma_signed(d, '-');
}

proof fn lemma_signed(d: Seq<char>, c: char)
    requires
        digits_only(d),
        d.len() > 0,
        c == '+' || c == '-',
    ensures
        semiring::weight_number(seq![c] + d) == Ok::<real, WeightError>((if c == '-' {
            -spelled(d)
        } else {
            spelled(d)
        }) as real),
        semiring::big_number(seq![c] + d) == Some(if c == '-' {
            -spelled(d)
        } else {
            spelled(d)
        }),
        text::trimmed(seq![c] + d) == seq![c] + d,
{
    let s = seq![c] + d;
    lemma_spelled_digits(d);
    assert(s.drop_first() =~= d);
    assert forall|k: int| 0 <= k < s.len() implies (#[trigger] s[k]) != '/' && s[k] != '.' by {
        if k > 0 {
            assert(s[k] == d[k - 1]);
            assert(text::digit(d[k - 1]));
        }
    }
    assert(s.last() == d[d.len() - 1]);
    assert(text::digit(d[0]));
    lemma_untrimmed(s);
    lemma_no_marks(s);
}

/// The text of a decimal.
pub open spec fn decimal_text(d: Seq<char>, f: Seq<char>) -> Seq<char> {
    d + seq!['.'] + f
}

proof fn lemma_decimal(d: Seq<char>, f: Seq<char>)
    requires
        digits_only(d),
        digits_only(f),
    ensures
        semiring::weight_number(decimal_text(d, f)) == Ok::<real, WeightError>(spelled(d) as real + (spelled(f) as real) / (power::pow(10, f.len()) as real)),
        semiring::weight_number(seq!['-'] + decimal_text(d, f)) == Ok::<real, WeightError>(-(spelled(d) as real + (spelled(f) as real) / (power::pow(10, f.len()) as real))),
{
    let s = decimal_text(d, f);
    lemma_part(d);
    lemma_part(f);
    lemma_pow10(f.len());
    assert forall|k: int| 0 <= k < d.len() implies (#[trigger] d[k]) != '.' && d[k] != '/' by {
        assert(text::digit(d[k]));
    }
    lemma_split(d, '.', f, '/');
    assert(s.len() > 0);
    if d.len() > 0 {
        assert(s[0] == d[0]);
        assert(text::digit(d[0]));
    }
    if f.len() > 0 {
        assert(s.last() == f[f.len() - 1]);
    }
    lemma_untrimmed(s);
    let m = seq!['-'] + d;
    let t = seq!['-'] + s;
    assert(t =~= m + seq!['.'] + f);
    assert forall|k: int| 0 <= k < m.len() implies (#[trigger] m[k]) != '.' && m[k] != '/' by {
        if k > 0 {
            assert(m[k] == d[k - 1]);
            assert(text::digit(d[k - 1]));
        }
    }
    lemma_split(m, '.', f, '/');
    assert(t.last() == s.last());
    lemma_untrimmed(t);
    if d.len() > 0 {
        assert(m.last() == d[d.len() - 1]);
    }
    lemma_untrimmed(m);
    assert(m.drop_first() =~= d);
    assert(semiring::after_minuses(m) == semiring::after_minuses(d));
}

/// A decimal, times ten for each digit behind the point, is the integer that its digits spell with
/// the point left out; with a minus sign in front it is the negative of that.
pub proof fn law_decimal_weights(d: Seq<char>, f: Seq<char>)
    requires
        digits_only(d),
        digits_only(f),
    ensures
        semiring::weight_number(decimal_text(d, f)) is Ok,
        semiring::weight_number(decimal_text(d, f))->Ok_0 * (power::pow(10, f.len()) as real) == spelled(d + f) as real,
        semiring::weight_number(seq!['-'] + decimal_text(d, f)) == Ok::<real, WeightError>(-(semiring::weight_number(decimal_text(d, f))->Ok_0)),
{
    lemma_decimal(d, f);
    lemma_spelled_join(d, f);
    power::lemma_pow_positive(10, f.len());
    let p = power::pow(10, f.len());
    let q = p as real;
    let x = spelled(d);
    let y = spelled(f);
    assert(q != 0real);
    let a = x as real;
    let b = y as real;
    assert((a + b / q) * q == a * q + b) by (nonlinear_arith)
        requires
            q != 0real,
    ;
    lemma_product(x, p);
}

proof fn lemma_product(x: int, p: int)
    requires
        p >= 0,
    ensures
        (x * p) as real == (x as real) * (p as real),
    decreases p,
{
    let a = x as real;
    if p == 0 {
        assert(x * 0 == 0);
        assert(a * 0real == 0real) by (nonlinear_arith);
    } else {
        lemma_product(x, p - 1);
        let q = (p - 1) as real;
        assert(x * p == x * (p - 1) + x) by (nonlinear_arith);
        assert(p as real == q + 1real);
        assert(a * (q + 1real) == a * q + a) by (nonlinear_arith);
    }
}

/// The part behind the point adds less than one to the integer in front of it, and a zero there adds nothing.
pub proof fn law_decimals_lie_between_integers(d: Seq<char>, f: Seq<char>)
    requires
        digits_only(d),
        d.len() > 0,
        digits_only(f),
    ensures
        semiring::weight_number(d)->Ok_0 <= semiring::weight_number(decimal_text(d, f))->Ok_0 < semiring::weight_number(d)->Ok_0 + 1real,
        semiring::weight_number(decimal_text(d, seq!['0'])) == semiring::weight_number(d),
{
    let zero = seq!['0'];
    assert(digits_only(zero));
    lemma_decimal(d, f);
    lemma_decimal(d, zero);
    law_integer_weights(d);
    lemma_spelled_digits(f);
    lemma_spelled_below(f);
    power::lemma_pow_positive(10, f.len());
    power::lemma_pow_positive(10, 1);
    let q = power::pow(10, f.len()) as real;
    let b = spelled(f) as real;
    assert(0real <= b / q < 1real) by (nonlinear_arith)
        requires
            0real <= b < q,
    ;
    assert(zero.drop_first() =~= Seq::<char>::empty());
    lemma_spelled_push(Seq::<char>::empty(), '0');
    assert(zero =~= Seq::<char>::empty().push('0'));
    assert(spelled(zero) == 0);
    let q1 = power::pow(10, 1) as real;
    assert(0real / q1 == 0real) by (nonlinear_arith)
        requires
            q1 > 0real,
    ;
}

proof fn lemma_spelled_below(f: Seq<char>)
    requires
        digits_only(f),
    ensures
        spelled(f) < power::pow(10, f.len()),
    decreases f.len(),
{
    reveal(power::pow);
    if f.len() == 0 {
        power::lemma_pow0(10);
    } else {
        let t = f.drop_last();
        assert(t.push(f.last()) =~= f);
        lemma_spelled_push(t, f.last());
        assert forall|k: int| 0 <= k < t.len() implies text::digit(#[trigger] t[k]) by {
            assert(t[k] == f[k]);
        }
        lemma_spelled_below(t);
        assert(text::digit(f[f.len() - 1]));
    }
}

/// A ratio times its denominator is its numerator, whatever the signs; a zero denominator is refused.
pub proof fn law_ratio_weights(a: Seq<char>, b: Seq<char>)
    requires
        digits_only(a),
        digits_only(b),
        a.len() > 0,
        b.len() > 0,
    ensures
        spelled(b) == 0 ==> semiring::weight_number(a + seq!['/'] + b) == Err::<real, WeightError>(WeightError::ZeroDenominator),
        spelled(b) != 0 ==> semiring::weight_number(a + seq!['/'] + b) is Ok,
        spelled(b) != 0 ==> semiring::weight_number(a + seq!['/'] + b)->Ok_0 * (spelled(b) as real) == spelled(a) as real,
        spelled(b) != 0 ==> semiring::weight_number(seq!['-'] + a + seq!['/'] + b) == Ok::<real, WeightError>(-(semiring::weight_number(a + seq!['/'] + b)->Ok_0)),
{
    lemma_digits_whole(a);
    lemma_digits_whole(b);
    let s = a + seq!['/'] + b;
    assert forall|k: int| 0 <= k < a.len() implies (#[trigger] a[k]) != '.' && a[k] != '/' by {
        assert(text::digit(a[k]));
    }
    lemma_split(a, '/', b, '.');
    assert(s[0] == a[0] && s.last() == b[b.len() - 1]);
    assert(text::digit(a[0]) && text::digit(b[b.len() - 1]));
    lemma_untrimmed(s);
    let m = seq!['-'] + a;
    let t = seq!['-'] + a + seq!['/'] + b;
    assert forall|k: int| 0 <= k < m.len() implies (#[trigger] m[k]) != '.' && m[k] != '/' by {
        if k > 0 {
            assert(m[k] == a[k - 1]);
        }
    }
    lemma_split(m, '/', b, '.');
    assert(t.last() == b[b.len() - 1]);
    lemma_untrimmed(t);
    lemma_signed(a, '-');
    if spelled(b) != 0 {
        let x = spelled(a) as real;
        let y = spelled(b) as real;
        assert((x / y) * y == x) by (nonlinear_arith)
            requires
                y != 0real,
        ;
        assert((-x) / y == -(x / y)) by (nonlinear_arith)
            requires
                y != 0real,
        ;
        assert((-spelled(a)) as real == -x);
    }
}

/// A number in decimal is made of digits, has no zero in front unless it is zero, and spells the number.
pub proof fn law_decimal_digits(n: nat)
    ensures
        digits_only(semiring::decimal(n)),
        semiring::decimal(n).len() > 0,
        spelled(semiring::decimal(n)) == n,
        n > 0 ==> semiring::decimal(n)[0] != '0',
    decreases n,
{
    if n < 10 {
        let s = semiring::decimal(n);
        assert(s =~= Seq::<char>::empty().push(semiring::digit_char(n)));
        lemma_spelled_push(Seq::<char>::empty(), semiring::digit_char(n));
    } else {
        law_decimal_digits(n / 10);
        lemma_spelled_push(semiring::decimal(n / 10), semiring::digit_char(n % 10));
        let s = semiring::decimal(n);
        let t = semiring::decimal(n / 10);
        assert forall|k: int| 0 <= k < s.len() implies text::digit(#[trigger] s[k]) by {
            if k < t.len() {
                assert(s[k] == t[k]);
            }
        }
        assert(s[0] == t[0]);
    }
}

/// A weight that is written out is read back as the same number.
pub proof fn law_written_weights_are_read_back(negative: bool, numer: nat, denom: nat)
    requires
        denom > 0,
    ensures
        semiring::weight_number(semiring::ratio_text(negative, numer, denom)) == Ok::<real, WeightError>(if negative {
            -((numer as real) / (denom as real))
        } else {
            (numer as real) / (denom as real)
        }),
{
    law_decimal_digits(numer);
    law_decimal_digits(denom);
    let a = semiring::decimal(numer);
    let b = semiring::decimal(denom);
    law_ratio_weights(a, b);
    let s = semiring::ratio_text(negative, numer, denom);
    let x = numer as real;
    let y = denom as real;
    let z = semiring::weight_number(a + seq!['/'] + b)->Ok_0;
    assert(z == x / y) by (nonlinear_arith)
        requires
            z * y == x,
            y != 0real,
    ;
    if negative && numer != 0 {
        assert(s =~= seq!['-'] + a + seq!['/'] + b);
    } else {
        assert(s =~= a + seq!['/'] + b);
        if negative {
            assert(0real / y == 0real) by (nonlinear_arith)
                requires
                    y != 0real,
            ;
        }
    }
}

/// Digits are the number that they spell; a plus sign changes nothing and a minus sign negates it,
/// and a text that is neither of these is no number.
pub proof fn law_numbers_of_texts(s: Seq<char>)
    ensures
        text::unsigned(s) is Some <==> (s.len() > 0 && digits_only(s)) || (s.len() > 1 && s[0] == '+' && digits_only(s.drop_first())),
        text::signed(s) is Some <==> text::unsigned(s) is Some || (s.len() > 1 && s[0] == '-' && digits_only(s.drop_first())),
        s.len() > 0 && digits_only(s) ==> text::unsigned(s) == Some(spelled(s)) && text::signed(s) == Some(spelled(s)),
        s.len() > 1 && s[0] == '+' && digits_only(s.drop_first()) ==> text::unsigned(s) == Some(spelled(s.drop_first())) && text::signed(s) == Some(spelled(s.drop_first())),
        s.len() > 1 && s[0] == '-' && digits_only(s.drop_first()) ==> text::unsigned(s) is None && text::signed(s) == Some(-spelled(s.drop_first())),
{
    if digits_only(s) {
        lemma_spelled_digits(s);
    }
    if s.len() > 0 {
        if digits_only(s) {
            assert(text::digit(s[0]));
        }
        if digits_only(s.drop_first()) {
            lemma_spelled_digits(s.drop_first());
        }
        if s[0] == '-' || s[0] == '+' {
            assert(!text::digit(s[0]));
            assert(!digits_only(s));
        }
    }
}

/// A literal that is written out is read back as the same number.
pub proof fn law_written_literals_are_read_back(l: i64)
    ensures
        text::signed(conquer::signed_text(l)) == Some(l as int),
        text::words(conquer::signed_text(l)).len() == 1,
        text::words(conquer::signed_text(l))[0] == conquer::signed_text(l),
{
    let s = conquer::signed_text(l);
    reveal_strlit("-");
    law_numbers_of_texts(s);
    if l < 0 {
        let t = semiring::decimal((-l) as nat);
        law_decimal_digits((-l) as nat);
        assert(s[0] == '-');
        assert(s.drop_first() =~= t);
        assert forall|k: int| 0 <= k < s.len() implies !text::blank(#[trigger] s[k]) by {
            if k > 0 {
                assert(s[k] == t[k - 1]);
                assert(text::digit(t[k - 1]));
            }
        }
    } else {
        law_decimal_digits(l as nat);
        assert forall|k: int| 0 <= k < s.len() implies !text::blank(#[trigger] s[k]) by {
            assert(text::digit(s[k]));
        }
    }
    lemma_one_word(s);
}

/// A text without white space is one word.
pub proof fn lemma_one_word(s: Seq<char>)
    requires
        s.len() > 0,
        forall|k: int| 0 <= k < s.len() ==> !text::blank(#[trigger] s[k]),
    ensures
        text::words(s) == seq![s],
    decreases s.len(),
{
    let t = s.drop_last();
    assert(!text::blank(s[s.len() - 1]));
    if s.len() == 1 {
        assert(text::words(t) =~= Seq::<Seq<char>>::empty());
        assert(s =~= seq![s.last()]);
        assert(text::words(s) =~= seq![s]);
    } else {
        assert forall|k: int| 0 <= k < t.len() implies !text::blank(#[trigger] t[k]) by {
            assert(t[k] == s[k]);
        }
        lemma_one_word(t);
        assert(!text::blank(s[s.len() - 2]));
        assert(t.push(s.last()) =~= s);
        assert(text::words(s) =~= seq![s]);
    }
}

} // verus!
