//! Decimal numerals: the text form in which block hashes travel and in which
//! generations and tier masks are stored.

use vstd::arithmetic::power::pow;
use vstd::prelude::*;
use vstd::string::StringExecFns;

verus! {

/// The character of a decimal digit.
pub open spec fn digit_char(d: int) -> char
    recommends
        0 <= d < 10,
{
    ('0' as int + d) as char
}

/// Whether a character is one of `0` to `9`.
pub open spec fn is_digit(c: char) -> bool {
    '0' <= c && c <= '9'
}

/// The shortest decimal numeral of a natural number.
pub open spec fn decimal_nat(n: nat) -> Seq<char>
    decreases n,
{
    if n < 10 {
        seq![digit_char(n as int)]
    } else {
        decimal_nat(n / 10).push(digit_char((n % 10) as int))
    }
}

/// The shortest decimal numeral of an integer, with `-` in front of a negative one.
pub open spec fn decimal_int(i: int) -> Seq<char> {
    if i < 0 {
        seq!['-'] + decimal_nat((-i) as nat)
    } else {
        decimal_nat(i as nat)
    }
}

/// Whether every character is a digit.
pub open spec fn all_digits(s: Seq<char>) -> bool {
    forall|i: int| 0 <= i < s.len() ==> is_digit(#[trigger] s[i])
}

/// The number that a sequence of digits denotes.
pub open spec fn digits_value(s: Seq<char>) -> nat
    decreases s.len(),
{
    if s.len() == 0 {
        0
    } else {
        digits_value(s.drop_last()) * 10 + (s.last() as int - '0' as int) as nat
    }
}

/// The last digits of a number, as many as are asked for, with zeros in front where the
/// number has fewer.
pub open spec fn padded(n: nat, places: nat) -> Seq<char>
    decreases places,
{
    if places == 0 {
        Seq::empty()
    } else {
        padded(n / 10, (places - 1) as nat).push(digit_char((n % 10) as int))
    }
}

/// A numeral has digits only, at least one of them, and denotes the number it came from.
pub proof fn decimal_nat_reads_back(n: nat)
    ensures
        decimal_nat(n).len() > 0,
        all_digits(decimal_nat(n)),
        digits_value(decimal_nat(n)) == n,
    decreases n,
{
    if n < 10 {
        let s = decimal_nat(n);
        assert(s.drop_last() =~= Seq::<char>::empty());
        assert(digits_value(s.drop_last()) == 0);
    } else {
        decimal_nat_reads_back(n / 10);
        let s = decimal_nat(n);
        assert(s.drop_last() =~= decimal_nat(n / 10));
    }
}

/// Digits of a given number of places denote the number they came from, where it has no
/// more places.
pub proof fn padded_reads_back(n: nat, places: nat)
    requires
        n < pow(10, places),
    ensures
        padded(n, places).len() == places,
        all_digits(padded(n, places)),
        digits_value(padded(n, places)) == n,
    decreases places,
{
    reveal(pow);
    if places > 0 {
        padded_reads_back(n / 10, (places - 1) as nat);
        let s = padded(n, places);
        assert(s.drop_last() =~= padded(n / 10, (places - 1) as nat));
    }
}

/// Digits that stand one after the other: the first ones count for ten to the number of
/// the last ones.
pub proof fn digits_value_of_two(a: Seq<char>, b: Seq<char>)
    ensures
        digits_value(a + b) == digits_value(a) * pow(10, b.len()) + digits_value(b),
    decreases b.len(),
{
    reveal(pow);
    if b.len() == 0 {
        assert(a + b =~= a);
    } else {
        let c = b.drop_last();
        digits_value_of_two(a, c);
        assert((a + b).drop_last() =~= a + c);
        assert((a + b).last() == b.last());
        let p = pow(10, c.len());
        let v = digits_value(a);
        assert(pow(10, b.len()) == 10 * p);
        assert((v * p + digits_value(c)) * 10 == v * (10 * p) + digits_value(c) * 10)
            by (nonlinear_arith);
    }
}

/// A number of so many digits is below ten to their number.
pub proof fn digits_value_is_bounded(s: Seq<char>)
    requires
        all_digits(s),
    ensures
        digits_value(s) < pow(10, s.len()),
    decreases s.len(),
{
    reveal(pow);
    if s.len() > 0 {
        let c = s.drop_last();
        assert forall|i: int| 0 <= i < c.len() implies is_digit(#[trigger] c[i]) by {
            assert(c[i] == s[i]);
        }
        digits_value_is_bounded(c);
        assert(is_digit(s[s.len() - 1]));
    }
}

/// The numeral of a number other than zero has as many digits as it needs.
pub proof fn decimal_nat_is_shortest(n: nat)
    requires
        n > 0,
    ensures
        decimal_nat(n).len() > 0,
        pow(10, (decimal_nat(n).len() - 1) as nat) <= n < pow(10, decimal_nat(n).len()),
    decreases n,
{
    reveal(pow);
    if n < 10 {
        assert(pow(10, 0) == 1);
        assert(pow(10, 1) == 10 * pow(10, 0));
    } else {
        decimal_nat_is_shortest(n / 10);
        let k = decimal_nat(n / 10).len();
        assert(decimal_nat(n).len() == k + 1);
        assert(pow(10, k) == 10 * pow(10, (k - 1) as nat));
        assert(pow(10, k + 1) == 10 * pow(10, k));
    }
}

/// The numeral of a number other than zero does not start with a zero.
pub proof fn numeral_has_no_leading_zero(n: nat)
    ensures
        decimal_nat(n).len() > 0,
        n > 0 ==> decimal_nat(n)[0] != '0',
        n == 0 ==> decimal_nat(n) == seq!['0'],
    decreases n,
{
    if n >= 10 {
        numeral_has_no_leading_zero(n / 10);
        assert(decimal_nat(n)[0] == decimal_nat(n / 10)[0]);
    } else {
        assert(n == 0 ==> decimal_nat(n) =~= seq!['0']);
    }
}

/// Each digit alone denotes its own number, and only the ten digits are digits.
pub proof fn digit_denotes_itself(d: nat, c: char)
    requires
        d < 10,
    ensures
        digits_value(seq![digit_char(d as int)]) == d,
        digit_char(0) == '0' && digit_char(1) == '1' && digit_char(2) == '2' && digit_char(3) == '3'
            && digit_char(4) == '4' && digit_char(5) == '5' && digit_char(6) == '6' && digit_char(7)
            == '7' && digit_char(8) == '8' && digit_char(9) == '9',
        is_digit(c) <==> c == '0' || c == '1' || c == '2' || c == '3' || c == '4' || c == '5' || c
            == '6' || c == '7' || c == '8' || c == '9',
{
    let s = seq![digit_char(d as int)];
    assert(s.drop_last() =~= Seq::<char>::empty());
    assert(digits_value(s.drop_last()) == 0);
}

/// Distinct integers have distinct numerals.
pub proof fn decimal_int_is_injective(a: int, b: int)
    requires
        decimal_int(a) == decimal_int(b),
    ensures
        a == b,
{
    let s = decimal_int(a);
    decimal_nat_reads_back(if a < 0 { (-a) as nat } else { a as nat });
    decimal_nat_reads_back(if b < 0 { (-b) as nat } else { b as nat });
    if a < 0 {
        assert(s[0] == '-');
        if b >= 0 {
            assert(is_digit(s[0]));
        } else {
            assert(s.skip(1) =~= decimal_nat((-a) as nat));
            assert(s.skip(1) =~= decimal_nat((-b) as nat));
        }
    } else if b < 0 {
        assert(s[0] == '-');
        assert(is_digit(s[0]));
    }
}

pub(crate) fn digit_text(d: u64) -> (text: &'static str)
    requires
        d < 10,
    ensures
        text@ == seq![digit_char(d as int)],
{
    proof {
        reveal_strlit("0");
        reveal_strlit("1");
        reveal_strlit("2");
        reveal_strlit("3");
        reveal_strlit("4");
        reveal_strlit("5");
        reveal_strlit("6");
        reveal_strlit("7");
        reveal_strlit("8");
        reveal_strlit("9");
    }
    match d {
        0 => "0",
        1 => "1",
        2 => "2",
        3 => "3",
        4 => "4",
        5 => "5",
        6 => "6",
        7 => "7",
        8 => "8",
        _ => "9",
    }
}

/// Writes an unsigned number in decimal.
pub fn decimal_u128(n: u128) -> (text: String)
    ensures
        text@ == decimal_nat(n as nat),
    decreases n,
{
    let last: &'static str = digit_text((n % 10) as u64);
    if n < 10 {
        last.to_owned()
    } else {
        let mut text = decimal_u128(n / 10);
        text.append(last);
        text
    }
}

/// Writes an unsigned number in decimal.
pub fn decimal_u64(n: u64) -> (text: String)
    ensures
        text@ == decimal_nat(n as nat),
{
    decimal_u128(n as u128)
}

/// Writes a signed number in decimal.
pub fn decimal_i64(i: i64) -> (text: String)
    ensures
        text@ == decimal_int(i as int),
{
    if i < 0 {
        let magnitude: u64 = if i == i64::MIN {
            9223372036854775808
        } else {
            (-i) as u64
        };
        let mut text = "-".to_owned();
        text.append(decimal_u64(magnitude).as_str());
        proof {
            reveal_strlit("-");
            assert(text@ =~= decimal_int(i as int));
        }
        text
    } else {
        decimal_u64(i as u64)
    }
}

/// Writes the last digits of a number, as many as are asked for.
pub fn padded_u128(n: u128, places: u32) -> (text: String)
    ensures
        text@ == padded(n as nat, places as nat),
    decreases places,
{
    if places == 0 {
        proof {
            reveal_strlit("");
        }
        "".to_owned()
    } else {
        let mut text = padded_u128(n / 10, places - 1);
        text.append(digit_text((n % 10) as u64));
        text
    }
}

/// The characters of a text.
pub fn text_chars(text: &str) -> (chars: Vec<char>)
    ensures
        chars@ == text@,
{
    let mut chars: Vec<char> = Vec::new();
    for c in it: text.chars()
        invariant
            chars@ == text@.take(it.index() as int),
            it.seq() == text@,
    {
        chars.push(c);
    }
    proof {
        assert(text@.take(text@.len() as int) =~= text@);
    }
    chars
}

proof fn lemma_digits_value_grows(s: Seq<char>, i: int)
    requires
        0 <= i <= s.len(),
    ensures
        digits_value(s.take(i)) <= digits_value(s),
    decreases s.len(),
{
    if i == s.len() {
        assert(s.take(i) =~= s);
    } else {
        assert(s.drop_last().take(i) =~= s.take(i));
        lemma_digits_value_grows(s.drop_last(), i);
    }
}

/// Tells whether every character is a digit.
pub fn only_digits(chars: &[char]) -> (only: bool)
    ensures
        only == all_digits(chars@),
{
    let n = chars.len();
    let mut i: usize = 0;
    while i < n
        invariant
            n == chars@.len(),
            i <= n,
            forall|j: int| 0 <= j < i ==> is_digit(#[trigger] chars@[j]),
        decreases n - i,
    {
        if chars[i] < '0' || chars[i] > '9' {
            assert(!is_digit(chars@[i as int]));
            return false;
        }
        i = i + 1;
    }
    true
}

/// The number that a run of digits denotes, where it is no larger than a limit.
pub fn digits_up_to(chars: &[char], limit: u128) -> (value: Option<u128>)
    requires
        all_digits(chars@),
    ensures
        match value {
            Some(value) => value == digits_value(chars@) && value <= limit,
            None => digits_value(chars@) > limit,
        },
{
    let n = chars.len();
    let mut value: u128 = 0;
    let mut i: usize = 0;
    assert(chars@.take(0) =~= Seq::<char>::empty());
    while i < n
        invariant
            n == chars@.len(),
            i <= n,
            all_digits(chars@),
            value == digits_value(chars@.take(i as int)),
            value <= limit,
        decreases n - i,
    {
        let c = chars[i];
        assert(is_digit(chars@[i as int]));
        let digit: u128 = (c as u32 - '0' as u32) as u128;
        proof {
            let next = chars@.take(i + 1);
            assert(next.drop_last() =~= chars@.take(i as int));
            assert(next.last() == c);
            assert(digits_value(next) == value * 10 + digit);
            lemma_digits_value_grows(chars@, i + 1);
        }
        if digit > limit || value > (limit - digit) / 10 {
            return None;
        }
        value = value * 10 + digit;
        i = i + 1;
    }
    assert(chars@.take(n as int) =~= chars@);
    Some(value)
}

} // verus!
