//! Numbers as the Lua programs read them from stored text, and write them.
//!
//! A Lua engine converts more than plain digits: blanks may stand on both sides, a
//! sign in front, a number may have a fraction and an exponent, and it may be written
//! in base sixteen. Numbers here are exact: whole numbers of either sign as wide as
//! their type, and fractions to so many places. An engine whose numbers are doubles
//! rounds where a number has more digits than a double.

use vstd::arithmetic::div_mod;
use vstd::arithmetic::power;
use vstd::arithmetic::power::pow;
use vstd::prelude::*;
use vstd::slice::slice_subrange;
use vstd::string::StringExecFns;

use crate::decimal;
use crate::tier;

verus! {

/// How many places behind the point a number can have.
pub const MAX_PLACES: u32 = 38;

/// A number: a whole number, and `fraction` parts of which ten to the `places` make one.
#[derive(Clone, Copy, Debug, PartialEq, Eq, Structural)]
pub struct Number {
    /// The largest whole number that is not larger.
    pub floor: i128,
    pub fraction: u128,
    pub places: u32,
}

impl Number {
    /// The fraction is one, in as few places as it takes.
    pub open spec fn wf(self) -> bool {
        &&& self.places <= MAX_PLACES
        &&& self.fraction < pow(10, self.places as nat)
        &&& self.places > 0 ==> self.fraction % 10 != 0
    }

    /// Whether the number is zero.
    pub open spec fn is_nought(self) -> bool {
        self.floor == 0 && self.fraction == 0
    }

    /// The number with another whole number below it.
    pub open spec fn on(self, floor: int) -> Number {
        Number { floor: floor as i128, ..self }
    }

    /// The number with a tier's bit set.
    pub open spec fn with_tier(self, bit: u64) -> Number {
        self.on(tier::with_tier(self.floor as int, bit))
    }

    /// The number with a tier's bit cleared.
    pub open spec fn without_tier(self, bit: u64) -> Number {
        self.on(tier::without_tier(self.floor as int, bit))
    }

    /// Whether the number holds a tier's bit.
    pub open spec fn has_tier(self, bit: u64) -> bool {
        tier::has_tier(self.floor as int, bit)
    }

    /// Tells whether the number is zero.
    pub fn is_zero(&self) -> (zero: bool)
        ensures
            zero == self.is_nought(),
    {
        self.floor == 0 && self.fraction == 0
    }
}

/// A whole number.
pub open spec fn whole(n: int) -> Number {
    Number { floor: n as i128, fraction: 0, places: 0 }
}

/// How a text reads as a number.
#[derive(Clone, Copy, Debug, PartialEq, Eq, Structural)]
pub enum Reading {
    /// It denotes this number.
    Number(Number),
    /// It denotes a number of more places than can be held, with this whole number
    /// next below it.
    Fine(i128),
    /// It denotes a number that is too far from zero to be held.
    Beyond { negative: bool },
    /// It denotes no number.
    NoNumber,
    /// Engines do not agree on it.
    Unknown,
}

/// Whether a character is blank: a space, or one of tab, line feed, vertical tab, form
/// feed and carriage return.
pub open spec fn is_blank(c: char) -> bool {
    c == ' ' || ('\t' <= c && c <= '\r')
}

/// A text without the blanks in front.
pub open spec fn trim_start(s: Seq<char>) -> Seq<char>
    decreases s.len(),
{
    if s.len() > 0 && is_blank(s[0]) {
        trim_start(s.skip(1))
    } else {
        s
    }
}

/// A text without the blanks behind.
pub open spec fn trim_end(s: Seq<char>) -> Seq<char>
    decreases s.len(),
{
    if s.len() > 0 && is_blank(s.last()) {
        trim_end(s.drop_last())
    } else {
        s
    }
}

/// Whether a text starts with a sign.
pub open spec fn has_sign(s: Seq<char>) -> bool {
    s.len() > 0 && (s[0] == '+' || s[0] == '-')
}

/// Whether a text starts with `-`.
pub open spec fn is_negative(s: Seq<char>) -> bool {
    s.len() > 0 && s[0] == '-'
}

/// A text without the sign in front.
pub open spec fn unsigned(s: Seq<char>) -> Seq<char> {
    if has_sign(s) {
        s.skip(1)
    } else {
        s
    }
}

/// Where the first of two characters stands, the length of the text where none does.
pub open spec fn up_to(s: Seq<char>, a: char, b: char) -> int
    decreases s.len(),
{
    if s.len() == 0 || s[0] == a || s[0] == b {
        0
    } else {
        1 + up_to(s.skip(1), a, b)
    }
}

/// What stands before the exponent.
pub open spec fn mantissa(s: Seq<char>) -> Seq<char> {
    s.take(up_to(s, 'e', 'E'))
}

/// The digits before the point.
pub open spec fn whole_part(s: Seq<char>) -> Seq<char> {
    mantissa(s).take(up_to(mantissa(s), '.', '.'))
}

/// The digits behind the point.
pub open spec fn fraction(s: Seq<char>) -> Seq<char> {
    let point = up_to(mantissa(s), '.', '.');
    if point < mantissa(s).len() {
        mantissa(s).skip(point + 1)
    } else {
        Seq::empty()
    }
}

/// What stands behind the `e` of the exponent.
pub open spec fn exponent_text(s: Seq<char>) -> Seq<char> {
    s.skip(up_to(s, 'e', 'E') + 1)
}

/// Whether a text is digits with at most one point among them, followed, if at all, by
/// an exponent of one digit at least.
pub open spec fn is_decimal(s: Seq<char>) -> bool {
    &&& (whole_part(s) + fraction(s)).len() > 0
    &&& decimal::all_digits(whole_part(s) + fraction(s))
    &&& up_to(s, 'e', 'E') < s.len() ==> {
        let digits = unsigned(exponent_text(s));
        digits.len() > 0 && decimal::all_digits(digits)
    }
}

/// The exponent, zero where there is none.
pub open spec fn exponent(s: Seq<char>) -> int {
    if up_to(s, 'e', 'E') < s.len() {
        let size = decimal::digits_value(unsigned(exponent_text(s))) as int;
        if is_negative(exponent_text(s)) {
            -size
        } else {
            size
        }
    } else {
        0
    }
}

/// `m` parts of which ten to the `places` make one, in as few places as it takes.
pub open spec fn reduced(m: int, places: nat) -> (int, nat)
    decreases places,
{
    if places > 0 && m % 10 == 0 {
        reduced(m / 10, (places - 1) as nat)
    } else {
        (m, places)
    }
}

/// How `m` parts read of which ten to the `places` make one.
pub open spec fn parts_reading(m: int, places: nat) -> Reading {
    let one = pow(10, places);
    if !tier::fits(m / one) {
        Reading::Beyond { negative: m < 0 }
    } else if places > MAX_PLACES {
        Reading::Fine((m / one) as i128)
    } else {
        Reading::Number(
            Number {
                floor: (m / one) as i128,
                fraction: (m % one) as u128,
                places: places as u32,
            },
        )
    }
}

/// How `m` times ten to the `scale` reads.
pub open spec fn scaled_reading(m: int, scale: int) -> Reading {
    if scale >= 0 {
        parts_reading(m * pow(10, scale as nat), 0)
    } else {
        let (parts, places) = reduced(m, (-scale) as nat);
        parts_reading(parts, places)
    }
}

/// Whether a character is a digit in base sixteen.
pub open spec fn is_hex_digit(c: char) -> bool {
    decimal::is_digit(c) || ('a' <= c && c <= 'f') || ('A' <= c && c <= 'F')
}

/// The number of a digit in base sixteen.
pub open spec fn hex_digit_value(c: char) -> nat {
    if decimal::is_digit(c) {
        (c as int - '0' as int) as nat
    } else if 'a' <= c && c <= 'f' {
        (c as int - 'a' as int + 10) as nat
    } else {
        (c as int - 'A' as int + 10) as nat
    }
}

/// The number that digits in base sixteen denote.
pub open spec fn hex_value(s: Seq<char>) -> nat
    decreases s.len(),
{
    if s.len() == 0 {
        0
    } else {
        hex_value(s.drop_last()) * 16 + hex_digit_value(s.last())
    }
}

/// Whether every character is a digit in base sixteen.
pub open spec fn all_hex_digits(s: Seq<char>) -> bool {
    forall|i: int| 0 <= i < s.len() ==> is_hex_digit(#[trigger] s[i])
}

/// Whether a text has only characters that occur in a fraction in base sixteen.
pub open spec fn all_hex_fraction(s: Seq<char>) -> bool {
    forall|i: int| 0 <= i < s.len() ==> is_hex_fraction_char(#[trigger] s[i])
}

/// Whether a character occurs in a fraction in base sixteen.
pub open spec fn is_hex_fraction_char(c: char) -> bool {
    is_hex_digit(c) || c == '.' || c == 'p' || c == 'P' || c == '+' || c == '-'
}

/// Whether a text starts as a number in base sixteen does.
pub open spec fn has_hex_prefix(s: Seq<char>) -> bool {
    s.len() >= 2 && s[0] == '0' && (s[1] == 'x' || s[1] == 'X')
}

/// Up to which number engines agree in base sixteen.
pub const HEX_LIMIT: u128 = 9223372036854775807;

/// How the digits behind `0x` read. Engines do not agree on fractions in base sixteen,
/// nor on large numbers.
pub open spec fn hex_reading(negative: bool, s: Seq<char>) -> Reading {
    if s.len() == 0 {
        Reading::NoNumber
    } else if all_hex_digits(s) {
        if hex_value(s) <= HEX_LIMIT {
            Reading::Number(
                whole(
                    if negative {
                        -(hex_value(s) as int)
                    } else {
                        hex_value(s) as int
                    },
                ),
            )
        } else {
            Reading::Unknown
        }
    } else if all_hex_fraction(s) {
        Reading::Unknown
    } else {
        Reading::NoNumber
    }
}

/// Whether a character is a given small letter, or its capital.
pub open spec fn same_letter(c: char, small: char) -> bool {
    c == small || ('A' <= c && c <= 'Z' && c as int + 32 == small as int)
}

/// Whether a text is a given word, in small letters or capitals.
pub open spec fn is_word(s: Seq<char>, word: Seq<char>) -> bool {
    s.len() == word.len() && forall|i: int|
        0 <= i < s.len() ==> same_letter(#[trigger] s[i], word[i])
}

/// Whether a text names an infinity or what is no number. Some engines read these.
pub open spec fn is_named(s: Seq<char>) -> bool {
    ||| is_word(s, "inf"@)
    ||| is_word(s, "infinity"@)
    ||| is_word(s, "nan"@)
    ||| s.len() >= 4 && is_word(s.take(4), "nan("@)
}

/// How a decimal number without its sign reads.
pub open spec fn decimal_reading(negative: bool, s: Seq<char>) -> Reading {
    if is_decimal(s) {
        let size = decimal::digits_value(whole_part(s) + fraction(s)) as int;
        scaled_reading(
            if negative {
                -size
            } else {
                size
            },
            exponent(s) - fraction(s).len(),
        )
    } else {
        Reading::NoNumber
    }
}

/// How a text without blanks reads.
pub open spec fn signed_reading(s: Seq<char>) -> Reading {
    if has_hex_prefix(unsigned(s)) {
        hex_reading(is_negative(s), unsigned(s).skip(2))
    } else if is_named(unsigned(s)) {
        Reading::Unknown
    } else {
        decimal_reading(is_negative(s), unsigned(s))
    }
}

/// How a text reads as a number. Engines do not agree on a text that holds a zero
/// character.
pub open spec fn reading_of(s: Seq<char>) -> Reading {
    if s.contains('\0') {
        Reading::Unknown
    } else {
        signed_reading(trim_end(trim_start(s)))
    }
}

/// What a number has before the point when it is written.
pub open spec fn whole_size(n: Number) -> nat {
    if n.floor >= 0 {
        n.floor as nat
    } else {
        (-n.floor - 1) as nat
    }
}

/// What a number with a fraction has behind the point when it is written.
pub open spec fn fraction_size(n: Number) -> nat {
    if n.floor >= 0 {
        n.fraction as nat
    } else {
        (pow(10, n.places as nat) - n.fraction) as nat
    }
}

/// A small fraction with an exponent: one digit, the others behind a point, and the
/// exponent in two digits.
pub open spec fn exponent_form(f: nat, places: nat) -> Seq<char> {
    let more = (decimal::decimal_nat(f).len() - 1) as nat;
    let unit = pow(10, more);
    let e = places - more;
    seq![decimal::digit_char(f as int / unit)] + (if more > 0 {
        seq!['.'] + decimal::padded((f as int % unit) as nat, more)
    } else {
        Seq::empty()
    }) + seq!['e', '-', decimal::digit_char(e / 10), decimal::digit_char(e % 10)]
}

/// How a number is written: with an exponent where it has a fraction and is closer to
/// zero than a ten-thousandth, else with a point where it has a fraction.
pub open spec fn number_text(n: Number) -> Seq<char> {
    if n.places == 0 {
        decimal::decimal_int(n.floor as int)
    } else {
        let sign = if n.floor < 0 {
            seq!['-']
        } else {
            Seq::empty()
        };
        let w = whole_size(n);
        let f = fraction_size(n);
        let places = n.places as nat;
        sign + (if w == 0 && f * 10000 < pow(10, places) {
            exponent_form(f, places)
        } else {
            decimal::decimal_nat(w) + (seq!['.'] + decimal::padded(f, places))
        })
    }
}

proof fn lemma_tenfold_reading(m: int, scale: int)
    ensures
        scaled_reading(m * 10, scale) == scaled_reading(m, scale + 1),
{
    reveal(pow);
    if scale >= 0 {
        let p = pow(10, scale as nat);
        assert(pow(10, (scale + 1) as nat) == 10 * p);
        assert(m * 10 * p == m * (10 * p)) by (nonlinear_arith);
    } else if scale == -1 {
        assert(reduced(m * 10, 1) == reduced(m, 0));
        assert(m * pow(10, 0) == m);
    }
}

proof fn lemma_zero_reading(scale: int)
    ensures
        scaled_reading(0, scale) == Reading::Number(whole(0)),
{
    assert(pow(10, 0) == 1) by {
        reveal(pow);
    }
    if scale < 0 {
        lemma_reduced_zero((-scale) as nat);
    } else {
        assert(0 * pow(10, scale as nat) == 0) by (nonlinear_arith);
    }
}

proof fn lemma_reduced_zero(places: nat)
    ensures
        reduced(0, places) == (0int, 0nat),
    decreases places,
{
    if places > 0 {
        lemma_reduced_zero((places - 1) as nat);
    }
}

proof fn lemma_whole_reading(n: int)
    ensures
        scaled_reading(n, 0) == if tier::fits(n) {
            Reading::Number(whole(n))
        } else {
            Reading::Beyond { negative: n < 0 }
        },
{
    let one = pow(10, 0);
    assert(one == 1) by {
        reveal(pow);
    }
    assert(n * one == n) by (nonlinear_arith)
        requires
            one == 1,
    ;
    assert(n / one == n && n % one == 0);
}

/// Ten to the most places fits, and ten times that passes the widest mask.
pub proof fn ten_to_38_fits()
    ensures
        pow(10, 38) == 100000000000000000000000000000000000000,
        pow(10, 39) > 170141183460469231731687303715884105728,
{
    reveal(pow);
    reveal_with_fuel(pow, 40);
}

proof fn lemma_large_reading(size: nat, negative: bool, scale: int)
    requires
        scale >= 0,
        size > 170141183460469231731687303715884105728 || (size > 0 && scale >= 39),
    ensures
        scaled_reading(
            if negative {
                -(size as int)
            } else {
                size as int
            },
            scale,
        ) == (Reading::Beyond { negative }),
{
    reveal(pow);
    let p = pow(10, scale as nat);
    power::lemma_pow_positive(10, scale as nat);
    if scale >= 39 {
        ten_to_38_fits();
        power::lemma_pow_increases(10, 39, scale as nat);
    }
    assert(size * p >= size && size * p >= p && (-(size as int)) * p == -(size * p))
        by (nonlinear_arith)
        requires
            p > 0,
            size > 0,
    ;
    let m = if negative {
        -(size as int)
    } else {
        size as int
    };
    assert((m * p) / 1 == m * p);
}

/// Where a number has a fraction, its parts come apart into the whole number below it
/// and the rest.
proof fn lemma_parts(size: nat, negative: bool, places: nat, w: nat, f: nat)
    requires
        places > 0,
        size == w * pow(10, places) + f,
        0 < f < pow(10, places),
    ensures
        ({
            let m = if negative {
                -(size as int)
            } else {
                size as int
            };
            &&& m / pow(10, places) == if negative {
                -(w as int) - 1
            } else {
                w as int
            }
            &&& m % pow(10, places) == if negative {
                pow(10, places) - f
            } else {
                f as int
            }
            &&& m < 0 <==> negative
        }),
{
    let one = pow(10, places);
    power::lemma_pow_positive(10, places);
    assert(w * one >= 0) by (nonlinear_arith)
        requires
            one > 0,
            w >= 0,
    ;
    if negative {
        let m = -(size as int);
        let q = -(w as int) - 1;
        let r = one - f;
        assert(m == q * one + r) by (nonlinear_arith)
            requires
                m == -(w * one + f),
                q == -(w as int) - 1,
                r == one - f,
        ;
        div_mod::lemma_fundamental_div_mod_converse(m, one, q, r);
    } else {
        div_mod::lemma_fundamental_div_mod_converse(size as int, one, w as int, f as int);
    }
}

proof fn lemma_last_digit(size: nat, w: nat, f: nat, places: nat)
    requires
        places > 0,
        size == w * pow(10, places) + f,
    ensures
        size % 10 == f % 10,
{
    reveal(pow);
    let p = pow(10, (places - 1) as nat);
    assert(pow(10, places) == 10 * p);
    assert(w * (10 * p) == 10 * (w * p)) by (nonlinear_arith);
}

/// A number that is read is well formed.
pub proof fn scaled_reading_is_well_formed(m: int, scale: int)
    ensures
        scaled_reading(m, scale) matches Reading::Number(n) ==> n.wf(),
{
    reveal(pow);
    if scale < 0 {
        lemma_reduced_wf(m, (-scale) as nat);
        let (parts, places) = reduced(m, (-scale) as nat);
        lemma_parts_wf(parts, places);
    } else {
        lemma_parts_wf(m * pow(10, scale as nat), 0);
    }
}

proof fn lemma_reduced_wf(m: int, places: nat)
    ensures
        reduced(m, places).1 > 0 ==> reduced(m, places).0 % 10 != 0,
    decreases places,
{
    if places > 0 && m % 10 == 0 {
        lemma_reduced_wf(m / 10, (places - 1) as nat);
    }
}

proof fn lemma_parts_wf(m: int, places: nat)
    requires
        places > 0 ==> m % 10 != 0,
    ensures
        parts_reading(m, places) matches Reading::Number(n) ==> n.wf(),
{
    let one = pow(10, places);
    power::lemma_pow_positive(10, places);
    div_mod::lemma_fundamental_div_mod(m, one);
    if places <= MAX_PLACES {
        ten_to_38_fits();
        power::lemma_pow_increases(10, places, 38);
        if places > 0 {
            reveal(pow);
            let p = pow(10, (places - 1) as nat);
            let q = m / one;
            assert(one == 10 * p);
            assert((10 * p) * q == 10 * (p * q)) by (nonlinear_arith);
        }
    }
}

/// What is read is a number that is well formed.
pub proof fn reading_is_well_formed(s: Seq<char>)
    ensures
        reading_of(s) matches Reading::Number(n) ==> n.wf(),
{
    reveal(pow);
    let t = trim_end(trim_start(s));
    let u = unsigned(t);
    let size = decimal::digits_value(whole_part(u) + fraction(u)) as int;
    scaled_reading_is_well_formed(size, exponent(u) - fraction(u).len());
    scaled_reading_is_well_formed(-size, exponent(u) - fraction(u).len());
}

proof fn lemma_up_to_behind(a: Seq<char>, b: Seq<char>, x: char, y: char)
    requires
        forall|i: int| 0 <= i < a.len() ==> #[trigger] a[i] != x && a[i] != y,
    ensures
        up_to(a + b, x, y) == a.len() + up_to(b, x, y),
    decreases a.len(),
{
    if a.len() == 0 {
        assert(a + b =~= b);
    } else {
        assert((a + b)[0] == a[0]);
        assert((a + b).skip(1) =~= a.skip(1) + b);
        lemma_up_to_behind(a.skip(1), b, x, y);
    }
}

spec fn point_part(point: bool, b: Seq<char>) -> Seq<char> {
    if point {
        seq!['.'] + b
    } else {
        Seq::empty()
    }
}

spec fn exponent_part(x: Seq<char>) -> Seq<char> {
    if x.len() > 0 {
        seq!['e', '-'] + x
    } else {
        Seq::empty()
    }
}

spec fn sign_part(negative: bool) -> Seq<char> {
    if negative {
        seq!['-']
    } else {
        Seq::empty()
    }
}

/// How a text reads that is made of a sign, digits, digits behind a point and a negative
/// exponent.
#[verifier::rlimit(50)]
proof fn lemma_assembled(negative: bool, a: Seq<char>, point: bool, b: Seq<char>, x: Seq<char>)
    requires
        a.len() > 0,
        decimal::all_digits(a),
        decimal::all_digits(b),
        decimal::all_digits(x),
        !point ==> b.len() == 0,
    ensures
        ({
            let size = decimal::digits_value(a + b) as int;
            reading_of(
                sign_part(negative) + (a + point_part(point, b) + exponent_part(x)),
            ) == scaled_reading(
                if negative {
                    -size
                } else {
                    size
                },
                -(decimal::digits_value(x) as int) - b.len(),
            )
        }),
{
    let pb = point_part(point, b);
    let ex = exponent_part(x);
    let m = a + pb;
    let u = m + ex;
    let s = sign_part(negative) + u;
    assert(u == a + pb + ex);
    assert(decimal::is_digit(a[0]));
    assert(u[0] == a[0]);
    assert forall|i: int| 0 <= i < u.len() implies decimal::is_digit(#[trigger] u[i]) || u[i] == '.'
        || u[i] == 'e' || u[i] == '-' by {
        if i < a.len() {
            assert(u[i] == a[i]);
        } else if i < m.len() {
            assert(u[i] == pb[i - a.len()]);
            if i > a.len() {
                assert(u[i] == b[i - a.len() - 1]);
            }
        } else {
            assert(u[i] == ex[i - m.len()]);
            if i >= m.len() + 2 {
                assert(u[i] == x[i - m.len() - 2]);
            }
        }
    }
    assert forall|i: int| 0 <= i < s.len() implies #[trigger] s[i] != '\0' && !is_blank(s[i]) by {
        if negative {
            if i > 0 {
                assert(s[i] == u[i - 1]);
            }
        } else {
            assert(s[i] == u[i]);
        }
    }
    assert(!s.contains('\0'));
    assert(trim_start(s) == s) by {
        assert(!is_blank(s[0]));
    }
    assert(trim_end(s) == s) by {
        assert(!is_blank(s[s.len() - 1]));
    }
    assert(unsigned(s) =~= u && is_negative(s) == negative) by {
        if negative {
            assert(s[0] == '-');
            assert(s.skip(1) =~= u);
        } else {
            assert(s =~= u);
        }
    }
    assert(!has_hex_prefix(u));
    assert(!is_named(u)) by {
        reveal_strlit("inf");
        reveal_strlit("infinity");
        reveal_strlit("nan");
        reveal_strlit("nan(");
        assert(!same_letter(u[0], 'i') && !same_letter(u[0], 'n'));
        if u.len() >= 4 {
            assert(u.take(4)[0] == u[0]);
        }
    }
    assert(up_to(u, 'e', 'E') == m.len()) by {
        assert forall|i: int| 0 <= i < m.len() implies #[trigger] m[i] != 'e' && m[i] != 'E' by {
            if i < a.len() {
                assert(m[i] == a[i]);
            } else if i > a.len() {
                assert(m[i] == b[i - a.len() - 1]);
            }
        }
        lemma_up_to_behind(m, ex, 'e', 'E');
        assert(up_to(ex, 'e', 'E') == 0);
    }
    assert(mantissa(u) =~= m);
    assert(up_to(m, '.', '.') == a.len()) by {
        assert forall|i: int| 0 <= i < a.len() implies #[trigger] a[i] != '.' by {
            assert(decimal::is_digit(a[i]));
        }
        lemma_up_to_behind(a, pb, '.', '.');
        assert(up_to(pb, '.', '.') == 0);
    }
    assert(whole_part(u) =~= a);
    assert(fraction(u) =~= b);
    assert forall|i: int| 0 <= i < (a + b).len() implies decimal::is_digit(#[trigger] (a + b)[i]) by {
        if i < a.len() {
            assert((a + b)[i] == a[i]);
        } else {
            assert((a + b)[i] == b[i - a.len()]);
        }
    }
    if x.len() > 0 {
        assert(exponent_text(u) =~= seq!['-'] + x);
        assert(unsigned(exponent_text(u)) =~= x);
        assert(is_negative(exponent_text(u)));
    } else {
        assert(decimal::digits_value(x) == 0);
    }
    assert(is_decimal(u));
    assert(exponent(u) == -(decimal::digits_value(x) as int));
}

proof fn lemma_fraction_reads_back(n: Number)
    requires
        n.wf(),
        n.places > 0,
    ensures
        ({
            let size = (whole_size(n) * pow(10, n.places as nat) + fraction_size(n)) as int;
            &&& 0 < fraction_size(n) < pow(10, n.places as nat)
            &&& scaled_reading(
                if n.floor < 0 {
                    -size
                } else {
                    size
                },
                -(n.places as int),
            ) == Reading::Number(n)
        }),
{
    let places = n.places as nat;
    let one = pow(10, places);
    let w = whole_size(n);
    let f = fraction_size(n);
    power::lemma_pow_positive(10, places);
    assert(w * one >= 0) by (nonlinear_arith)
        requires
            one > 0,
            w >= 0,
    ;
    let size = (w * one + f) as nat;
    lemma_last_digit(size, w, f, places);
    assert(one % 10 == 0) by {
        reveal(pow);
        assert(one == 10 * pow(10, (places - 1) as nat));
    }
    lemma_parts(size, n.floor < 0, places, w, f);
    let m = if n.floor < 0 {
        -(size as int)
    } else {
        size as int
    };
    assert(m % 10 != 0);
    assert(reduced(m, places) == (m, places));
}

/// A number reads back as it was written.
pub proof fn number_reads_back(n: Number)
    requires
        n.wf(),
    ensures
        reading_of(number_text(n)) == Reading::Number(n),
{
    let none = Seq::<char>::empty();
    assert(decimal::all_digits(none));
    let negative = n.floor < 0;
    if n.places == 0 {
        reveal(pow);
        let size = if negative {
            (-n.floor) as nat
        } else {
            n.floor as nat
        };
        let a = decimal::decimal_nat(size);
        decimal::decimal_nat_reads_back(size);
        lemma_assembled(negative, a, false, none, none);
        assert(number_text(n) =~= sign_part(negative) + (a + point_part(false, none)
            + exponent_part(none)));
        assert(a + none =~= a);
        lemma_whole_reading(n.floor as int);
    } else {
        let places = n.places as nat;
        let w = whole_size(n);
        let f = fraction_size(n);
        lemma_fraction_reads_back(n);
        if w == 0 && f * 10000 < pow(10, places) {
            lemma_exponent_form(negative, f, places);
            assert(number_text(n) =~= sign_part(negative) + exponent_form(f, places));
        } else {
            let a = decimal::decimal_nat(w);
            let b = decimal::padded(f, places);
            decimal::decimal_nat_reads_back(w);
            decimal::padded_reads_back(f, places);
            decimal::digits_value_of_two(a, b);
            lemma_assembled(negative, a, true, b, none);
            assert(number_text(n) =~= sign_part(negative) + (a + point_part(true, b)
                + exponent_part(none)));
        }
    }
}

/// The leading digit of a small fraction, and how many digits follow it.
proof fn lemma_lead(f: nat, places: nat)
    requires
        0 < f,
        f * 10000 < pow(10, places),
    ensures
        ({
            let more = (decimal::decimal_nat(f).len() - 1) as nat;
            let unit = pow(10, more);
            &&& more + 4 < places
            &&& unit > 0
            &&& 0 < f as int / unit < 10
            &&& 0 <= f as int % unit < unit
            &&& f == (f as int / unit) * unit + f as int % unit
        }),
{
    decimal::decimal_nat_is_shortest(f);
    let more = (decimal::decimal_nat(f).len() - 1) as nat;
    let unit = pow(10, more);
    power::lemma_pow_positive(10, more);
    assert(pow(10, 4) == 10000) by {
        reveal(pow);
        reveal_with_fuel(pow, 5);
    }
    power::lemma_pow_adds(10, more, 4);
    if places <= more + 4 {
        power::lemma_pow_increases(10, places, more + 4);
    }
    let lead = f as int / unit;
    let rest = f as int % unit;
    div_mod::lemma_fundamental_div_mod(f as int, unit);
    assert(pow(10, more + 1) == 10 * unit) by {
        reveal(pow);
    }
    assert(lead >= 1 && lead < 10 && lead * unit == unit * lead) by (nonlinear_arith)
        requires
            f == unit * lead + rest,
            0 <= rest < unit,
            unit <= f < 10 * unit,
    ;
}

proof fn lemma_two_digits(e: int)
    requires
        0 <= e < 100,
    ensures
        ({
            let x = seq![decimal::digit_char(e / 10), decimal::digit_char(e % 10)];
            decimal::all_digits(x) && decimal::digits_value(x) == e
        }),
{
    let x = seq![decimal::digit_char(e / 10), decimal::digit_char(e % 10)];
    let t = x.drop_last();
    assert(t.drop_last() =~= Seq::<char>::empty());
    assert(decimal::digits_value(t.drop_last()) == 0);
    assert(t.last() == decimal::digit_char(e / 10));
    assert(decimal::digits_value(t) == e / 10);
}

/// What the form with an exponent is made of.
proof fn lemma_exponent_parts(f: nat, places: nat) -> (parts: (Seq<char>, Seq<char>, Seq<char>))
    requires
        0 < f,
        f * 10000 < pow(10, places),
        places <= MAX_PLACES,
    ensures
        ({
            let (a, b, x) = parts;
            &&& a.len() > 0 && decimal::all_digits(a)
            &&& decimal::all_digits(b)
            &&& decimal::all_digits(x)
            &&& exponent_form(f, places) == a + point_part(b.len() > 0, b) + exponent_part(x)
            &&& decimal::digits_value(a + b) == f
            &&& -(decimal::digits_value(x) as int) - b.len() == -(places as int)
        }),
{
    lemma_lead(f, places);
    let more = (decimal::decimal_nat(f).len() - 1) as nat;
    let unit = pow(10, more);
    let e = places - more;
    let lead = f as int / unit;
    let rest = (f as int % unit) as nat;
    let a = seq![decimal::digit_char(lead)];
    let b = decimal::padded(rest, more);
    let x = seq![decimal::digit_char(e / 10), decimal::digit_char(e % 10)];
    decimal::padded_reads_back(rest, more);
    lemma_two_digits(e);
    assert(decimal::digits_value(a) == lead) by {
        assert(a.drop_last() =~= Seq::<char>::empty());
        assert(decimal::digits_value(a.drop_last()) == 0);
    }
    decimal::digits_value_of_two(a, b);
    assert(exponent_form(f, places) =~= a + point_part(b.len() > 0, b) + exponent_part(x));
    (a, b, x)
}

proof fn lemma_exponent_form(negative: bool, f: nat, places: nat)
    requires
        0 < f,
        f * 10000 < pow(10, places),
        places <= MAX_PLACES,
    ensures
        reading_of(sign_part(negative) + exponent_form(f, places)) == scaled_reading(
            if negative {
                -(f as int)
            } else {
                f as int
            },
            -(places as int),
        ),
{
    let (a, b, x) = lemma_exponent_parts(f, places);
    lemma_assembled(negative, a, b.len() > 0, b, x);
}

/// Zero is well formed.
pub proof fn nought_is_well_formed()
    ensures
        whole(0).wf(),
{
    reveal(pow);
}

/// There is one number that is zero.
pub proof fn only_zero_is_nought(n: Number)
    requires
        n.wf(),
        n.is_nought(),
    ensures
        n == whole(0),
{
}

/// A text of no characters denotes no number.
pub proof fn empty_text_is_no_number()
    ensures
        reading_of(Seq::empty()) == Reading::NoNumber,
{
    let s = Seq::<char>::empty();
    reveal_strlit("inf");
    reveal_strlit("infinity");
    reveal_strlit("nan");
    assert(mantissa(s) =~= s);
    assert(whole_part(s) + fraction(s) =~= s);
}

/// The numeral of a number reads as that number.
pub proof fn decimal_numeral_reads_back(n: u64)
    ensures
        reading_of(decimal::decimal_nat(n as nat)) == Reading::Number(whole(n as int)),
{
    reveal(pow);
    number_reads_back(whole(n as int));
}

proof fn lemma_hex_value_grows(s: Seq<char>, i: int)
    requires
        0 <= i <= s.len(),
    ensures
        hex_value(s.take(i)) <= hex_value(s),
    decreases s.len(),
{
    if i == s.len() {
        assert(s.take(i) =~= s);
    } else {
        assert(s.drop_last().take(i) =~= s.take(i));
        lemma_hex_value_grows(s.drop_last(), i);
    }
}

/// The text without the blanks on either side.
fn trim(chars: &[char]) -> (rest: &[char])
    ensures
        rest@ == trim_end(trim_start(chars@)),
{
    let n = chars.len();
    let mut low: usize = 0;
    assert(chars@.skip(0) =~= chars@);
    while low < n && (chars[low] == ' ' || ('\t' <= chars[low] && chars[low] <= '\r'))
        invariant
            n == chars@.len(),
            low <= n,
            trim_start(chars@) == trim_start(chars@.skip(low as int)),
        decreases n - low,
    {
        assert(chars@.skip(low as int).skip(1) =~= chars@.skip(low + 1));
        low = low + 1;
    }
    let ghost rest = chars@.skip(low as int);
    let mut high: usize = n;
    assert(rest.take(high - low) =~= rest);
    while high > low && (chars[high - 1] == ' ' || ('\t' <= chars[high - 1] && chars[high - 1]
        <= '\r'))
        invariant
            n == chars@.len(),
            low <= high <= n,
            rest == chars@.skip(low as int),
            trim_end(rest) == trim_end(rest.take(high - low)),
        decreases high,
    {
        assert(rest.take(high - low).drop_last() =~= rest.take(high - low - 1));
        high = high - 1;
    }
    assert(chars@.subrange(low as int, high as int) =~= rest.take(high - low));
    slice_subrange(chars, low, high)
}

/// Where the first of two characters stands, the length of the text where none does.
fn position(chars: &[char], a: char, b: char) -> (at: usize)
    ensures
        at == up_to(chars@, a, b),
        at <= chars@.len(),
{
    let n = chars.len();
    let mut i: usize = 0;
    assert(chars@.skip(0) =~= chars@);
    while i < n && chars[i] != a && chars[i] != b
        invariant
            n == chars@.len(),
            i <= n,
            up_to(chars@, a, b) == i + up_to(chars@.skip(i as int), a, b),
        decreases n - i,
    {
        assert(chars@.skip(i as int).skip(1) =~= chars@.skip(i + 1));
        i = i + 1;
    }
    i
}

/// The text without the sign in front.
fn skip_sign(chars: &[char]) -> (rest: &[char])
    ensures
        rest@ == unsigned(chars@),
{
    let n = chars.len();
    if n > 0 && (chars[0] == '+' || chars[0] == '-') {
        assert(chars@.subrange(1, n as int) =~= chars@.skip(1));
        slice_subrange(chars, 1, n)
    } else {
        chars
    }
}

/// Compares a text with a word in small letters.
fn word_matches(chars: &[char], word: &str) -> (matches: bool)
    ensures
        matches == is_word(chars@, word@),
{
    let letters = decimal::text_chars(word);
    let n = chars.len();
    if letters.len() != n {
        return false;
    }
    let mut i: usize = 0;
    while i < n
        invariant
            n == chars@.len(),
            n == letters@.len(),
            letters@ == word@,
            i <= n,
            forall|j: int| 0 <= j < i ==> same_letter(#[trigger] chars@[j], word@[j]),
        decreases n - i,
    {
        let c = chars[i];
        let small = letters[i];
        let capital = 'A' <= c && c <= 'Z' && 'a' <= small && small <= 'z' && c as u32 + 32
            == small as u32;
        if c != small && !capital {
            assert(!same_letter(chars@[i as int], word@[i as int]));
            return false;
        }
        i = i + 1;
    }
    true
}

/// Tells whether a text names an infinity or what is no number.
fn names_no_number(chars: &[char]) -> (named: bool)
    ensures
        named == is_named(chars@),
{
    if word_matches(chars, "inf") || word_matches(chars, "infinity") || word_matches(
        chars,
        "nan",
    ) {
        return true;
    }
    if chars.len() < 4 {
        return false;
    }
    let head = slice_subrange(chars, 0, 4);
    assert(head@ =~= chars@.take(4));
    word_matches(head, "nan(")
}

/// Reads the digits behind `0x`.
fn read_hex(negative: bool, chars: &[char]) -> (reading: Reading)
    ensures
        reading == hex_reading(negative, chars@),
{
    let n = chars.len();
    if n == 0 {
        return Reading::NoNumber;
    }
    let mut value: u128 = 0;
    let mut large = false;
    let mut digits = true;
    let mut i: usize = 0;
    assert(chars@.take(0) =~= Seq::<char>::empty());
    while i < n
        invariant
            n == chars@.len(),
            i <= n,
            forall|j: int| 0 <= j < i ==> is_hex_fraction_char(#[trigger] chars@[j]),
            digits ==> forall|j: int| 0 <= j < i ==> is_hex_digit(#[trigger] chars@[j]),
            !digits ==> exists|j: int| 0 <= j < i && !is_hex_digit(#[trigger] chars@[j]),
            value <= HEX_LIMIT,
            digits && !large ==> value == hex_value(chars@.take(i as int)),
            digits && large ==> hex_value(chars@) > HEX_LIMIT,
        decreases n - i,
    {
        let c = chars[i];
        let digit: Option<u128> = if '0' <= c && c <= '9' {
            Some((c as u32 - '0' as u32) as u128)
        } else if 'a' <= c && c <= 'f' {
            Some((c as u32 - 'a' as u32 + 10) as u128)
        } else if 'A' <= c && c <= 'F' {
            Some((c as u32 - 'A' as u32 + 10) as u128)
        } else {
            None
        };
        match digit {
            Some(digit) => {
                proof {
                    let next = chars@.take(i + 1);
                    assert(next.drop_last() =~= chars@.take(i as int));
                    assert(next.last() == c);
                    lemma_hex_value_grows(chars@, i + 1);
                }
                if !large {
                    let next: u128 = value * 16 + digit;
                    if next <= HEX_LIMIT {
                        value = next;
                    } else {
                        large = true;
                    }
                }
            },
            None => {
                assert(!is_hex_digit(chars@[i as int]));
                if c != '.' && c != 'p' && c != 'P' && c != '+' && c != '-' {
                    assert(!is_hex_fraction_char(chars@[i as int]));
                    return Reading::NoNumber;
                }
                digits = false;
            },
        }
        i = i + 1;
    }
    assert(chars@.take(n as int) =~= chars@);
    if digits && !large {
        let size: i128 = value as i128;
        Reading::Number(
            Number {
                floor: if negative {
                    -size
                } else {
                    size
                },
                fraction: 0,
                places: 0,
            },
        )
    } else {
        Reading::Unknown
    }
}

/// More than any scale that the length of a text can make up for.
const SCALE_LIMIT: u128 = 1000000000000000000000000;

/// The number that digits denote, or a large one in place of a larger one.
fn capped_value(chars: &[char]) -> (value: u128)
    requires
        decimal::all_digits(chars@),
    ensures
        value <= SCALE_LIMIT,
        value <= decimal::digits_value(chars@),
        value < SCALE_LIMIT ==> value == decimal::digits_value(chars@),
{
    let n = chars.len();
    let mut value: u128 = 0;
    let mut i: usize = 0;
    assert(chars@.take(0) =~= Seq::<char>::empty());
    while i < n
        invariant
            n == chars@.len(),
            i <= n,
            decimal::all_digits(chars@),
            value <= SCALE_LIMIT,
            value <= decimal::digits_value(chars@.take(i as int)),
            value < SCALE_LIMIT ==> value == decimal::digits_value(chars@.take(i as int)),
        decreases n - i,
    {
        let c = chars[i];
        assert(decimal::is_digit(chars@[i as int]));
        proof {
            let next = chars@.take(i + 1);
            assert(next.drop_last() =~= chars@.take(i as int));
            assert(next.last() == c);
        }
        value = value * 10 + (c as u32 - '0' as u32) as u128;
        if value > SCALE_LIMIT {
            value = SCALE_LIMIT;
        }
        i = i + 1;
    }
    assert(chars@.take(n as int) =~= chars@);
    value
}

/// Reads the exponent of a number, or a large one in place of a larger one.
fn read_exponent(chars: &[char]) -> (value: Option<i128>)
    ensures
        match value {
            Some(value) => {
                let digits = unsigned(chars@);
                let size = decimal::digits_value(digits) as int;
                &&& digits.len() > 0 && decimal::all_digits(digits)
                &&& -SCALE_LIMIT <= value <= SCALE_LIMIT
                &&& is_negative(chars@) ==> -size <= value <= 0 && (value > -SCALE_LIMIT ==> value
                    == -size)
                &&& !is_negative(chars@) ==> 0 <= value <= size && (value < SCALE_LIMIT ==> value
                    == size)
            },
            None => unsigned(chars@).len() == 0 || !decimal::all_digits(unsigned(chars@)),
        },
{
    let digits = skip_sign(chars);
    if digits.len() == 0 || !decimal::only_digits(digits) {
        return None;
    }
    let size = capped_value(digits) as i128;
    if chars.len() > 0 && chars[0] == '-' {
        Some(-size)
    } else {
        Some(size)
    }
}

/// How far from zero a whole number can be on the far side.
const SIZE_LIMIT: u128 = 170141183460469231731687303715884105728;

/// Ten to a number of places.
fn ten_to(places: u32) -> (one: u128)
    requires
        places <= MAX_PLACES,
    ensures
        one == pow(10, places as nat),
{
    let mut one: u128 = 1;
    let mut i: u32 = 0;
    proof {
        reveal(pow);
        ten_to_38_fits();
    }
    while i < places
        invariant
            i <= places <= MAX_PLACES,
            one == pow(10, i as nat),
            pow(10, 38) == 100000000000000000000000000000000000000,
        decreases places - i,
    {
        proof {
            reveal(pow);
            power::lemma_pow_increases(10, (i + 1) as nat, 38);
            assert(pow(10, (i + 1) as nat) == 10 * one);
        }
        one = one * 10;
        i = i + 1;
    }
    one
}

spec fn signed(negative: bool, size: nat) -> int {
    if negative {
        -(size as int)
    } else {
        size as int
    }
}

/// Reads a whole number: digits, the last one no zero, times ten to a scale.
fn read_whole(negative: bool, digits: &[char], scale: u32) -> (reading: Reading)
    requires
        decimal::all_digits(digits@),
        decimal::digits_value(digits@) > 0,
    ensures
        reading == scaled_reading(
            signed(negative, decimal::digits_value(digits@)),
            scale as int,
        ),
{
    let ghost size = decimal::digits_value(digits@);
    match decimal::digits_up_to(digits, SIZE_LIMIT) {
        None => {
            proof {
                lemma_large_reading(size, negative, scale as int);
            }
            Reading::Beyond { negative }
        },
        Some(value) => {
            let mut value: u128 = value;
            let mut left: u32 = scale;
            while left > 0
                invariant
                    0 < value <= SIZE_LIMIT,
                    size == decimal::digits_value(digits@),
                    scaled_reading(signed(negative, size), scale as int) == scaled_reading(
                        signed(negative, value as nat),
                        left as int,
                    ),
                decreases left,
            {
                left = left - 1;
                proof {
                    lemma_tenfold_reading(signed(negative, value as nat), left as int);
                    assert(signed(negative, value as nat) * 10 == signed(
                        negative,
                        (value * 10) as nat,
                    ));
                }
                if value > SIZE_LIMIT / 10 {
                    proof {
                        lemma_large_reading((value * 10) as nat, negative, left as int);
                    }
                    return Reading::Beyond { negative };
                }
                value = value * 10;
            }
            proof {
                lemma_whole_reading(signed(negative, value as nat));
            }
            if negative {
                let floor: i128 = if value == SIZE_LIMIT {
                    i128::MIN
                } else {
                    -(value as i128)
                };
                Reading::Number(Number { floor, fraction: 0, places: 0 })
            } else if value == SIZE_LIMIT {
                Reading::Beyond { negative }
            } else {
                Reading::Number(Number { floor: value as i128, fraction: 0, places: 0 })
            }
        },
    }
}

/// Reads a number with a fraction: digits, the last one no zero, the last `places` of
/// them behind the point, where the places may be many in place of more.
fn read_fraction(
    negative: bool,
    digits: &[char],
    places: u128,
    Ghost(exact): Ghost<nat>,
) -> (reading: Reading)
    requires
        decimal::all_digits(digits@),
        decimal::digits_value(digits@) % 10 != 0,
        0 < places,
        places == exact || (places <= exact && places > digits@.len() && places > MAX_PLACES),
    ensures
        reading == scaled_reading(
            signed(negative, decimal::digits_value(digits@)),
            -(exact as int),
        ),
{
    let n = digits.len();
    let split: usize = if places < n as u128 {
        n - places as usize
    } else {
        0
    };
    let front = slice_subrange(digits, 0, split);
    let back = slice_subrange(digits, split, n);
    let ghost size = decimal::digits_value(digits@);
    let ghost w = decimal::digits_value(front@);
    let ghost f = decimal::digits_value(back@);
    let ghost m = signed(negative, size);
    proof {
        assert(front@ + back@ =~= digits@);
        assert forall|i: int| 0 <= i < front@.len() implies decimal::is_digit(
            #[trigger] front@[i],
        ) by {
            assert(front@[i] == digits@[i]);
        }
        assert forall|i: int| 0 <= i < back@.len() implies decimal::is_digit(
            #[trigger] back@[i],
        ) by {
            assert(back@[i] == digits@[split + i]);
        }
        decimal::digits_value_of_two(front@, back@);
        decimal::digits_value_is_bounded(back@);
        power::lemma_pow_increases(10, back@.len(), exact);
        assert(size == w * pow(10, exact) + f) by {
            if split == 0 {
                assert(front@ =~= Seq::<char>::empty());
                assert(w == 0);
                assert(0 * pow(10, exact) == 0 && 0 * pow(10, back@.len()) == 0)
                    by (nonlinear_arith);
            }
        }
        lemma_last_digit(size, w, f, exact);
        lemma_parts(size, negative, exact, w, f);
        assert(m % 10 != 0);
        assert(reduced(m, exact) == (m, exact));
    }
    match decimal::digits_up_to(front, SIZE_LIMIT - 1) {
        None => Reading::Beyond { negative },
        Some(value) => {
            let floor: i128 = if negative {
                -(value as i128) - 1
            } else {
                value as i128
            };
            if places > MAX_PLACES as u128 {
                return Reading::Fine(floor);
            }
            let one = ten_to(places as u32);
            let rest: u128 = match decimal::digits_up_to(back, one) {
                Some(rest) => rest,
                None => 0,
            };
            Reading::Number(
                Number {
                    floor,
                    fraction: if negative {
                        one - rest
                    } else {
                        rest
                    },
                    places: places as u32,
                },
            )
        },
    }
}

/// Reads digits times ten to a scale, where the scale may be a large one in place of a
/// larger one.
fn read_scaled(
    negative: bool,
    digits: &[char],
    scale: i128,
    Ghost(exact): Ghost<int>,
) -> (reading: Reading)
    requires
        decimal::all_digits(digits@),
        -SCALE_LIMIT - usize::MAX <= scale <= SCALE_LIMIT,
        scale == exact || (scale <= exact && scale > 100) || (exact <= scale && scale < -2
            * usize::MAX - 100),
    ensures
        reading == scaled_reading(signed(negative, decimal::digits_value(digits@)), exact),
{
    let mut n = digits.len();
    let mut left: i128 = scale;
    let ghost mut exact_left = exact;
    assert(digits@.take(n as int) =~= digits@);
    while n > 0 && digits[n - 1] == '0'
        invariant
            n <= digits@.len(),
            digits@.len() <= usize::MAX,
            left == scale + (digits@.len() - n),
            exact_left == exact + (digits@.len() - n),
            -SCALE_LIMIT - usize::MAX <= scale <= SCALE_LIMIT,
            scaled_reading(signed(negative, decimal::digits_value(digits@)), exact)
                == scaled_reading(
                signed(negative, decimal::digits_value(digits@.take(n as int))),
                exact_left,
            ),
        decreases n,
    {
        proof {
            let kept = digits@.take(n as int);
            assert(kept.drop_last() =~= digits@.take(n - 1));
            lemma_tenfold_reading(
                signed(negative, decimal::digits_value(kept.drop_last())),
                exact_left,
            );
            exact_left = exact_left + 1;
        }
        n = n - 1;
        left = left + 1;
    }
    let kept = slice_subrange(digits, 0, n);
    assert(kept@ =~= digits@.take(n as int));
    if n == 0 {
        proof {
            lemma_zero_reading(exact_left);
        }
        return Reading::Number(Number { floor: 0, fraction: 0, places: 0 });
    }
    proof {
        assert(decimal::is_digit(digits@[n - 1]));
        assert(kept@.last() == digits@[n - 1]);
        assert(decimal::digits_value(kept@) % 10 != 0);
    }
    if left < 0 {
        read_fraction(negative, kept, (-left) as u128, Ghost((-exact_left) as nat))
    } else if left < 39 {
        read_whole(negative, kept, left as u32)
    } else {
        proof {
            lemma_large_reading(decimal::digits_value(kept@), negative, exact_left);
        }
        Reading::Beyond { negative }
    }
}

/// Reads a decimal number without a sign.
fn read_decimal(negative: bool, chars: &[char]) -> (reading: Reading)
    ensures
        reading == decimal_reading(negative, chars@),
{
    let n = chars.len();
    let end = position(chars, 'e', 'E');
    let mut scale: i128 = 0;
    if end < n {
        let tail = slice_subrange(chars, end + 1, n);
        assert(tail@ =~= exponent_text(chars@));
        match read_exponent(tail) {
            None => {
                return Reading::NoNumber;
            },
            Some(value) => {
                scale = value;
            },
        }
    }
    let front = slice_subrange(chars, 0, end);
    assert(front@ =~= mantissa(chars@));
    let point = position(front, '.', '.');
    let mut digits: Vec<char> = Vec::new();
    let mut places: usize = 0;
    let mut i: usize = 0;
    while i < point
        invariant
            i <= point <= front@.len(),
            digits@ == front@.take(i as int),
        decreases point - i,
    {
        digits.push(front[i]);
        i = i + 1;
    }
    assert(digits@ =~= whole_part(chars@));
    if point < end {
        i = point + 1;
        while i < end
            invariant
                point + 1 <= i <= end,
                end == front@.len(),
                places == i - point - 1,
                digits@ == front@.take(point as int) + front@.subrange(point + 1, i as int),
            decreases end - i,
        {
            digits.push(front[i]);
            places = places + 1;
            i = i + 1;
        }
        assert(front@.subrange(point + 1, end as int) =~= fraction(chars@));
    }
    assert(digits@ =~= whole_part(chars@) + fraction(chars@));
    if digits.len() == 0 || !decimal::only_digits(digits.as_slice()) {
        return Reading::NoNumber;
    }
    read_scaled(
        negative,
        digits.as_slice(),
        scale - places as i128,
        Ghost(exponent(chars@) - fraction(chars@).len()),
    )
}

/// Reads a number from a text.
pub fn read_number(chars: &[char]) -> (reading: Reading)
    ensures
        reading == reading_of(chars@),
{
    let n = chars.len();
    let mut i: usize = 0;
    while i < n
        invariant
            n == chars@.len(),
            i <= n,
            forall|j: int| 0 <= j < i ==> #[trigger] chars@[j] != '\0',
        decreases n - i,
    {
        if chars[i] == '\0' {
            assert(chars@.contains('\0'));
            return Reading::Unknown;
        }
        i = i + 1;
    }
    let text = trim(chars);
    let negative = text.len() > 0 && text[0] == '-';
    let body = skip_sign(text);
    if body.len() >= 2 && body[0] == '0' && (body[1] == 'x' || body[1] == 'X') {
        let digits = slice_subrange(body, 2, body.len());
        assert(digits@ =~= body@.skip(2));
        read_hex(negative, digits)
    } else if names_no_number(body) {
        Reading::Unknown
    } else {
        read_decimal(negative, body)
    }
}

/// Writes a small fraction with an exponent.
fn exponent_form_text(f: u128, places: u32) -> (text: String)
    requires
        0 < f,
        f * 10000 < pow(10, places as nat),
        places <= MAX_PLACES,
    ensures
        text@ == exponent_form(f as nat, places as nat),
{
    let mut more: u32 = 0;
    let mut unit: u128 = 1;
    proof {
        reveal(pow);
        decimal::decimal_nat_is_shortest(f as nat);
        ten_to_38_fits();
        power::lemma_pow_increases(10, places as nat, 38);
    }
    while f / 10 >= unit
        invariant
            unit == pow(10, more as nat),
            0 < unit <= f,
            more <= places <= MAX_PLACES,
            f * 10000 < pow(10, places as nat),
            pow(10, places as nat) <= 100000000000000000000000000000000000000,
        decreases f - unit,
    {
        proof {
            reveal(pow);
            assert(pow(10, (more + 1) as nat) == 10 * unit);
            if more + 1 > places {
                power::lemma_pow_increases(10, places as nat, (more + 1) as nat);
            }
        }
        unit = unit * 10;
        more = more + 1;
    }
    proof {
        reveal(pow);
        let digits = (decimal::decimal_nat(f as nat).len() - 1) as nat;
        assert(pow(10, (more + 1) as nat) == 10 * unit);
        if digits < more {
            power::lemma_pow_increases(10, digits + 1, more as nat);
        } else if digits > more {
            power::lemma_pow_increases(10, (more + 1) as nat, digits);
        }
        assert(digits == more);
        div_mod::lemma_fundamental_div_mod(f as int, unit as int);
        assert((f as int / unit as int) < 10) by (nonlinear_arith)
            requires
                f < 10 * unit,
                unit > 0,
        ;
    }
    let e: u32 = places - more;
    let mut text = decimal::digit_text((f / unit) as u64).to_owned();
    if more > 0 {
        text.append(".");
        text.append(decimal::padded_u128(f % unit, more).as_str());
    }
    text.append("e-");
    text.append(decimal::digit_text((e / 10) as u64));
    text.append(decimal::digit_text((e % 10) as u64));
    proof {
        reveal_strlit(".");
        reveal_strlit("e-");
        assert(text@ =~= exponent_form(f as nat, places as nat));
    }
    text
}

/// Writes a number.
pub fn write_number(n: &Number) -> (text: String)
    requires
        n.wf(),
    ensures
        text@ == number_text(*n),
{
    let size: u128 = if n.floor >= 0 {
        n.floor as u128
    } else {
        (-(n.floor + 1)) as u128
    };
    if n.places == 0 {
        if n.floor >= 0 {
            return decimal::decimal_u128(size);
        }
        let mut text = "-".to_owned();
        text.append(decimal::decimal_u128(size + 1).as_str());
        proof {
            reveal_strlit("-");
            assert(text@ =~= number_text(*n));
        }
        return text;
    }
    let one = ten_to(n.places);
    proof {
        lemma_fraction_reads_back(*n);
        ten_to_38_fits();
        power::lemma_pow_increases(10, n.places as nat, 38);
    }
    let rest: u128 = if n.floor >= 0 {
        n.fraction
    } else {
        one - n.fraction
    };
    let body = if size == 0 && rest <= (one - 1) / 10000 {
        exponent_form_text(rest, n.places)
    } else {
        let mut body = decimal::decimal_u128(size);
        body.append(".");
        body.append(decimal::padded_u128(rest, n.places).as_str());
        proof {
            reveal_strlit(".");
        }
        body
    };
    let mut text = if n.floor < 0 {
        "-".to_owned()
    } else {
        "".to_owned()
    };
    text.append(body.as_str());
    proof {
        reveal_strlit("-");
        reveal_strlit("");
        assert(text@ =~= number_text(*n));
    }
    text
}

} // verus!
