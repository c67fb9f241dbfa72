//! What a stored text denotes, told by its characters.

use vstd::arithmetic::div_mod;
use vstd::arithmetic::power;
use vstd::arithmetic::power::pow;
use vstd::prelude::*;

use crate::decimal;
use crate::numeral;
use crate::numeral::{Number, Reading};

verus! {

/// A number is well formed exactly if its fraction is below one and has no more places
/// than it takes, and no more than can be held.
pub proof fn well_formed_means_shortest(n: Number)
    ensures
        n.places == 0 ==> (n.wf() <==> n.fraction == 0),
        0 < n.places <= 38 ==> (n.wf() <==> n.fraction < pow(10, n.places as nat) && n.fraction % 10
            != 0),
        n.places > 38 ==> !n.wf(),
{
    assert(pow(10, 0) == 1) by {
        reveal(pow);
    }
}

/// Whether a reading is that of `m` times ten to the `scale`: the number itself where it
/// is told, the whole number next below it where only that is, and else that the whole
/// number next below it cannot be held.
pub open spec fn is_reading_of(reading: Reading, m: int, scale: int) -> bool {
    let up = if scale > 0 {
        scale as nat
    } else {
        0
    };
    let down = if scale < 0 {
        (-scale) as nat
    } else {
        0
    };
    let floor = (m * pow(10, up)) / pow(10, down);
    match reading {
        Reading::Number(n) => {
            &&& n.wf()
            &&& n.floor == floor
            &&& (n.floor * pow(10, n.places as nat) + n.fraction) * pow(10, down) == m * pow(10, up)
                * pow(10, n.places as nat)
        },
        Reading::Fine(f) => down > 38 && f == floor,
        Reading::Beyond { negative } => {
            &&& floor < i128::MIN || floor > i128::MAX
            &&& negative <==> floor < 0
        },
        _ => false,
    }
}

proof fn lemma_reduced(m: int, places: nat)
    ensures
        ({
            let (parts, left) = numeral::reduced(m, places);
            &&& left <= places
            &&& parts * pow(10, (places - left) as nat) == m
            &&& parts / pow(10, left) == m / pow(10, places)
        }),
    decreases places,
{
    assert(pow(10, 0) == 1) by {
        reveal(pow);
    }
    assert(m * 1 == m);
    if places > 0 && m % 10 == 0 {
        let (parts, left) = numeral::reduced(m, places);
        lemma_reduced(m / 10, (places - 1) as nat);
        let p = pow(10, (places - 1 - left) as nat);
        assert(pow(10, (places - left) as nat) == 10 * p) by {
            reveal(pow);
        }
        assert(parts * (10 * p) == 10 * (parts * p)) by (nonlinear_arith);
        let q = pow(10, (places - 1) as nat);
        power::lemma_pow_positive(10, (places - 1) as nat);
        assert(pow(10, places) == 10 * q) by {
            reveal(pow);
        }
        let tenth = m / 10;
        let k = tenth / q;
        let r = tenth % q;
        div_mod::lemma_fundamental_div_mod(tenth, q);
        assert(m == k * (10 * q) + 10 * r) by (nonlinear_arith)
            requires
                m == 10 * tenth,
                tenth == q * k + r,
        ;
        div_mod::lemma_fundamental_div_mod_converse(m, 10 * q, k, 10 * r);
    }
}

proof fn lemma_scaled_reading(m: int, scale: int)
    ensures
        is_reading_of(numeral::scaled_reading(m, scale), m, scale),
{
    numeral::scaled_reading_is_well_formed(m, scale);
    assert(pow(10, 0) == 1) by {
        reveal(pow);
    }
    if scale >= 0 {
        let v = m * pow(10, scale as nat);
        assert(v / 1 == v && v % 1 == 0);
        assert(v * 1 == v);
        assert((v * 1 + 0) * 1 == v * 1);
    } else {
        let places = (-scale) as nat;
        let (parts, left) = numeral::reduced(m, places);
        lemma_reduced(m, places);
        assert(m * 1 == m);
        power::lemma_pow_positive(10, left);
        div_mod::lemma_fundamental_div_mod(parts, pow(10, left));
        power::lemma_pow_adds(10, left, (places - left) as nat);
        let one = pow(10, left);
        let rest = pow(10, (places - left) as nat);
        let q = parts / one;
        let r = parts % one;
        assert((q * one + r) * (one * rest) == (parts * rest) * one) by (nonlinear_arith)
            requires
                parts == one * q + r,
        ;
        if left <= 38 {
            assert(one <= pow(10, 38)) by {
                power::lemma_pow_increases(10, left, 38);
            }
            numeral::ten_to_38_fits();
        }
        power::lemma_pow_positive(10, (places - left) as nat);
        assert(m < 0 <==> parts < 0) by (nonlinear_arith)
            requires
                parts * rest == m,
                rest > 0,
        ;
        assert(parts < 0 <==> q < 0) by (nonlinear_arith)
            requires
                parts == one * q + r,
                0 <= r < one,
        ;
    }
}

proof fn lemma_no_stop(a: Seq<char>, b: Seq<char>, x: char, y: char)
    requires
        forall|i: int| 0 <= i < a.len() ==> #[trigger] a[i] != x && a[i] != y,
    ensures
        numeral::up_to(a + b, x, y) == a.len() + numeral::up_to(b, x, y),
    decreases a.len(),
{
    if a.len() == 0 {
        assert(a + b =~= b);
    } else {
        assert((a + b)[0] == a[0]);
        assert((a + b).skip(1) =~= a.skip(1) + b);
        lemma_no_stop(a.skip(1), b, x, y);
    }
}

/// The exponent of a number as it is written: its letter, its sign if any, its digits.
pub struct Exponent {
    pub letter: char,
    pub sign: Seq<char>,
    pub digits: Seq<char>,
}

impl Exponent {
    /// A letter `e`, a sign or none, and digits.
    pub open spec fn proper(self) -> bool {
        &&& self.letter == 'e' || self.letter == 'E'
        &&& is_sign(self.sign)
        &&& self.digits.len() > 0
        &&& decimal::all_digits(self.digits)
    }

    pub open spec fn text(self) -> Seq<char> {
        seq![self.letter] + (self.sign + self.digits)
    }

    pub open spec fn value(self) -> int {
        if self.sign == seq!['-'] {
            -(decimal::digits_value(self.digits) as int)
        } else {
            decimal::digits_value(self.digits) as int
        }
    }
}

/// A sign, or none.
pub open spec fn is_sign(sign: Seq<char>) -> bool {
    sign.len() == 0 || sign == seq!['+'] || sign == seq!['-']
}

/// The digits of a number with a point among them, if there is one.
pub open spec fn pointed(a: Seq<char>, point: bool, b: Seq<char>) -> Seq<char> {
    if point {
        a + (seq!['.'] + b)
    } else {
        a
    }
}

pub open spec fn exponent_of(exponent: Option<Exponent>) -> Seq<char> {
    match exponent {
        Some(e) => e.text(),
        None => Seq::empty(),
    }
}

proof fn lemma_unsigned(sign: Seq<char>, u: Seq<char>)
    requires
        is_sign(sign),
        u.len() > 0,
        u[0] != '+' && u[0] != '-',
    ensures
        numeral::unsigned(sign + u) == u,
        numeral::is_negative(sign + u) == (sign == seq!['-']),
{
    let s = sign + u;
    if sign.len() == 0 {
        assert(s =~= u);
        assert(sign != seq!['-']);
    } else {
        assert(sign.len() == 1);
        assert(s[0] == sign[0]);
        assert(s.skip(1) =~= u);
        assert(seq!['+'][0] == '+');
        assert(seq!['-'][0] == '-');
    }
}

/// Which digits, which places and which exponent a decimal text has.
#[verifier::rlimit(40)]
proof fn lemma_decimal_parts(a: Seq<char>, point: bool, b: Seq<char>, exponent: Option<Exponent>)
    requires
        decimal::all_digits(a),
        decimal::all_digits(b),
        !point ==> b.len() == 0,
        a.len() + b.len() > 0,
        exponent matches Some(e) ==> e.proper(),
    ensures
        ({
            let u = pointed(a, point, b) + exponent_of(exponent);
            &&& numeral::is_decimal(u)
            &&& numeral::whole_part(u) == a
            &&& numeral::fraction(u) == b
            &&& numeral::exponent(u) == match exponent {
                Some(e) => e.value(),
                None => 0,
            }
        }),
{
    let m = pointed(a, point, b);
    let ex = exponent_of(exponent);
    let u = m + ex;
    assert forall|i: int| 0 <= i < m.len() implies #[trigger] m[i] != 'e' && m[i] != 'E' by {
        if i < a.len() {
            assert(m[i] == a[i]);
            assert(decimal::is_digit(a[i]));
        } else if i > a.len() {
            assert(m[i] == b[i - a.len() - 1]);
            assert(decimal::is_digit(b[i - a.len() - 1]));
        } else {
            assert(m[i] == '.');
        }
    }
    lemma_no_stop(m, ex, 'e', 'E');
    assert(numeral::up_to(ex, 'e', 'E') == 0) by {
        if exponent is Some {
            assert(ex[0] == exponent->0.letter);
        }
    }
    assert(numeral::mantissa(u) =~= m);
    let pb = if point {
        seq!['.'] + b
    } else {
        Seq::empty()
    };
    assert(m =~= a + pb);
    assert(numeral::up_to(m, '.', '.') == a.len()) by {
        assert forall|i: int| 0 <= i < a.len() implies #[trigger] a[i] != '.' by {
            assert(decimal::is_digit(a[i]));
        }
        lemma_no_stop(a, pb, '.', '.');
        assert(numeral::up_to(pb, '.', '.') == 0);
    }
    assert(numeral::whole_part(u) =~= a);
    assert(numeral::fraction(u) =~= b);
    assert forall|i: int| 0 <= i < (a + b).len() implies decimal::is_digit(#[trigger] (a + b)[i]) by {
        if i < a.len() {
            assert((a + b)[i] == a[i]);
        } else {
            assert((a + b)[i] == b[i - a.len()]);
        }
    }
    if exponent is Some {
        let e = exponent->0;
        assert(numeral::exponent_text(u) =~= e.sign + e.digits);
        assert(decimal::is_digit(e.digits[0]));
        lemma_unsigned(e.sign, e.digits);
    }
}

proof fn lemma_not_trimmed(s: Seq<char>)
    requires
        s.len() > 0,
        !numeral::is_blank(s[0]),
        !numeral::is_blank(s.last()),
    ensures
        numeral::trim_end(numeral::trim_start(s)) == s,
{
}

/// A text of a sign or none, digits with a point among them or none, and an exponent or
/// none, denotes what its digits say, moved by its places and its exponent, below zero
/// exactly behind `-`.
#[verifier::rlimit(60)]
pub proof fn decimal_text_denotes_its_digits(
    sign: Seq<char>,
    a: Seq<char>,
    point: bool,
    b: Seq<char>,
    exponent: Option<Exponent>,
)
    requires
        is_sign(sign),
        decimal::all_digits(a),
        decimal::all_digits(b),
        !point ==> b.len() == 0,
        a.len() + b.len() > 0,
        exponent matches Some(e) ==> e.proper(),
    ensures
        ({
            let text = sign + (pointed(a, point, b) + exponent_of(exponent));
            let size = decimal::digits_value(a + b) as int;
            let scale = (match exponent {
                Some(e) => e.value(),
                None => 0,
            }) - b.len();
            is_reading_of(
                numeral::reading_of(text),
                if sign == seq!['-'] {
                    -size
                } else {
                    size
                },
                scale,
            )
        }),
{
    let m = pointed(a, point, b);
    let ex = exponent_of(exponent);
    let u = m + ex;
    let s = sign + u;
    let size = decimal::digits_value(a + b) as int;
    let scale = (match exponent {
        Some(e) => e.value(),
        None => 0,
    }) - b.len();
    lemma_plain_characters(a, point, b, exponent);
    lemma_unsigned(sign, u);
    lemma_decimal_parts(a, point, b, exponent);
    assert forall|i: int| 0 <= i < s.len() implies #[trigger] s[i] != '\0' && !numeral::is_blank(
        s[i],
    ) by {
        if i < sign.len() {
            assert(s[i] == sign[i]);
            assert(seq!['+'][0] == '+');
            assert(seq!['-'][0] == '-');
        } else {
            assert(s[i] == u[i - sign.len()]);
        }
    }
    assert(!s.contains('\0'));
    assert(!numeral::is_blank(s[0]));
    assert(!numeral::is_blank(s[s.len() - 1]));
    lemma_not_trimmed(s);
    lemma_scaled_reading(size, scale);
    lemma_scaled_reading(-size, scale);
}

proof fn lemma_plain_characters(a: Seq<char>, point: bool, b: Seq<char>, exponent: Option<Exponent>)
    requires
        decimal::all_digits(a),
        decimal::all_digits(b),
        !point ==> b.len() == 0,
        a.len() + b.len() > 0,
        exponent matches Some(e) ==> e.proper(),
    ensures
        ({
            let u = pointed(a, point, b) + exponent_of(exponent);
            &&& u.len() > 0
            &&& u[0] != '+' && u[0] != '-'
            &&& forall|i: int|
                0 <= i < u.len() ==> #[trigger] u[i] != '\0' && !numeral::is_blank(u[i])
            &&& !numeral::has_hex_prefix(u)
            &&& !numeral::is_named(u)
        }),
{
    let m = pointed(a, point, b);
    let ex = exponent_of(exponent);
    let u = m + ex;
    assert(m.len() > 0 && u[0] == m[0]);
    assert(decimal::is_digit(u[0]) || u[0] == '.') by {
        if a.len() > 0 {
            assert(m[0] == a[0]);
            assert(decimal::is_digit(a[0]));
        } else {
            assert(m[0] == '.');
        }
    }
    assert forall|i: int| 0 <= i < u.len() implies decimal::is_digit(#[trigger] u[i]) || u[i] == '.'
        || u[i] == 'e' || u[i] == 'E' || u[i] == '-' || u[i] == '+' by {
        if i < a.len() {
            assert(u[i] == a[i]);
        } else if i < m.len() {
            assert(u[i] == m[i]);
            if i > a.len() {
                assert(m[i] == b[i - a.len() - 1]);
            } else {
                assert(m[i] == '.');
            }
        } else {
            let e = exponent->0;
            let j = i - m.len();
            assert(u[i] == ex[j]);
            if j > 0 {
                if j - 1 < e.sign.len() {
                    assert(ex[j] == e.sign[j - 1]);
                    assert(seq!['+'][0] == '+');
                    assert(seq!['-'][0] == '-');
                } else {
                    assert(ex[j] == e.digits[j - 1 - e.sign.len()]);
                }
            }
        }
    }
    if u.len() > 1 {
        assert(u[1] != 'x' && u[1] != 'X');
    }
    assert(!numeral::is_named(u)) by {
        reveal_strlit("inf");
        reveal_strlit("infinity");
        reveal_strlit("nan");
        reveal_strlit("nan(");
        assert(!numeral::same_letter(u[0], 'i') && !numeral::same_letter(u[0], 'n'));
        if u.len() >= 4 {
            assert(u.take(4)[0] == u[0]);
        }
    }
}

/// Whether a character is a space, a tab, a line feed, a vertical tab, a form feed or a
/// carriage return.
pub open spec fn is_space(c: char) -> bool {
    c == ' ' || c == '\t' || c == '\n' || c == '\u{b}' || c == '\u{c}' || c == '\r'
}

proof fn lemma_trim_start_push(s: Seq<char>, c: char)
    requires
        numeral::is_blank(c),
    ensures
        numeral::trim_start(s.push(c)) == if numeral::trim_start(s).len() == 0 {
            Seq::<char>::empty()
        } else {
            numeral::trim_start(s).push(c)
        },
    decreases s.len(),
{
    if s.len() == 0 {
        assert(s.push(c).skip(1) =~= Seq::<char>::empty());
        assert(numeral::trim_start(s.push(c).skip(1)) =~= Seq::<char>::empty());
    } else {
        assert(s.push(c)[0] == s[0]);
        if numeral::is_blank(s[0]) {
            assert(s.push(c).skip(1) =~= s.skip(1).push(c));
            lemma_trim_start_push(s.skip(1), c);
        }
    }
}

/// Blanks in front of a text and behind it do not matter.
pub proof fn blanks_around_do_not_matter(s: Seq<char>, c: char)
    requires
        is_space(c),
    ensures
        numeral::reading_of(seq![c] + s) == numeral::reading_of(s),
        numeral::reading_of(s.push(c)) == numeral::reading_of(s),
{
    let front = seq![c] + s;
    let back = s.push(c);
    assert(front[0] == c);
    assert(front.skip(1) =~= s);
    assert(numeral::trim_start(front) == numeral::trim_start(s));
    assert(front.contains('\0') == s.contains('\0')) by {
        if s.contains('\0') {
            let i = choose|i: int| 0 <= i < s.len() && s[i] == '\0';
            assert(front[i + 1] == '\0');
        }
        if front.contains('\0') {
            let i = choose|i: int| 0 <= i < front.len() && front[i] == '\0';
            assert(s[i - 1] == '\0');
        }
    }
    assert(back.contains('\0') == s.contains('\0')) by {
        if s.contains('\0') {
            let i = choose|i: int| 0 <= i < s.len() && s[i] == '\0';
            assert(back[i] == '\0');
        }
        if back.contains('\0') {
            let i = choose|i: int| 0 <= i < back.len() && back[i] == '\0';
            assert(s[i] == '\0');
        }
    }
    lemma_trim_start_push(s, c);
    let t = numeral::trim_start(s);
    if t.len() > 0 {
        assert(t.push(c).last() == c);
        assert(t.push(c).drop_last() =~= t);
    } else {
        assert(t =~= Seq::<char>::empty());
    }
}

/// A text that starts with neither a blank, a sign, a digit, a point nor the first letter
/// of a word for an infinity or for what is no number, and holds no zero character, is no
/// number.
pub proof fn other_text_is_no_number(s: Seq<char>)
    requires
        s.len() > 0,
        !is_space(s[0]),
        s[0] != '+' && s[0] != '-' && s[0] != '.',
        s[0] != 'i' && s[0] != 'I' && s[0] != 'n' && s[0] != 'N',
        !('0' <= s[0] && s[0] <= '9'),
        !s.contains('\0'),
    ensures
        numeral::reading_of(s) == Reading::NoNumber,
{
    assert(numeral::trim_start(s) == s);
    let t = numeral::trim_end(s);
    lemma_trim_end_keeps_the_first(s);
    assert(t.len() > 0 && t[0] == s[0]);
    assert(numeral::unsigned(t) == t);
    assert(!numeral::is_named(t)) by {
        reveal_strlit("inf");
        reveal_strlit("infinity");
        reveal_strlit("nan");
        reveal_strlit("nan(");
        assert(!numeral::same_letter(t[0], 'i') && !numeral::same_letter(t[0], 'n'));
        if t.len() >= 4 {
            assert(t.take(4)[0] == t[0]);
        }
    }
    assert(!numeral::is_decimal(t)) by {
        lemma_up_to_is_inside(t, 'e', 'E');
        let m = numeral::mantissa(t);
        lemma_up_to_is_inside(m, '.', '.');
        if m.len() > 0 {
            assert(m[0] == t[0]);
            lemma_up_to_is_inside(m.skip(1), '.', '.');
            assert(numeral::up_to(m, '.', '.') > 0);
            assert((numeral::whole_part(t) + numeral::fraction(t))[0] == t[0]);
        } else {
            assert(m =~= Seq::<char>::empty());
            assert(numeral::up_to(m, '.', '.') == 0);
            assert((numeral::whole_part(t) + numeral::fraction(t)).len() == 0);
        }
    }
}

proof fn lemma_up_to_is_inside(s: Seq<char>, x: char, y: char)
    ensures
        0 <= numeral::up_to(s, x, y) <= s.len(),
    decreases s.len(),
{
    if s.len() > 0 && s[0] != x && s[0] != y {
        lemma_up_to_is_inside(s.skip(1), x, y);
    }
}

proof fn lemma_trim_end_keeps_the_first(s: Seq<char>)
    requires
        s.len() > 0,
        !numeral::is_blank(s[0]),
    ensures
        numeral::trim_end(s).len() > 0,
        numeral::trim_end(s)[0] == s[0],
    decreases s.len(),
{
    if numeral::is_blank(s.last()) {
        assert(s.len() > 1);
        assert(s.drop_last()[0] == s[0]);
        lemma_trim_end_keeps_the_first(s.drop_last());
    }
}

/// Digits in base sixteen that stand one after the other: the first ones count for
/// sixteen to the number of the last ones. Each digit alone counts for itself.
pub proof fn hex_value_of_two(a: Seq<char>, b: Seq<char>, c: char)
    ensures
        numeral::hex_value(a + b) == numeral::hex_value(a) * pow(16, b.len()) + numeral::hex_value(
            b,
        ),
        '0' <= c && c <= '9' ==> numeral::hex_value(seq![c]) == c as int - '0' as int,
        'a' <= c && c <= 'f' ==> numeral::hex_value(seq![c]) == c as int - 'a' as int + 10,
        'A' <= c && c <= 'F' ==> numeral::hex_value(seq![c]) == c as int - 'A' as int + 10,
    decreases b.len(),
{
    let alone = seq![c];
    assert(alone.drop_last() =~= Seq::<char>::empty());
    assert(numeral::hex_value(alone.drop_last()) == 0);
    if b.len() == 0 {
        assert(a + b =~= a);
        assert(pow(16, 0) == 1) by {
            reveal(pow);
        }
    } else {
        let d = b.drop_last();
        hex_value_of_two(a, d, c);
        assert((a + b).drop_last() =~= a + d);
        assert((a + b).last() == b.last());
        let p = pow(16, d.len());
        let v = numeral::hex_value(a);
        assert(pow(16, b.len()) == 16 * p) by {
            reveal(pow);
        }
        assert((v * p + numeral::hex_value(d)) * 16 == v * (16 * p) + numeral::hex_value(d) * 16)
            by (nonlinear_arith);
    }
}

/// A text of a sign or none, `0x` and digits in base sixteen denotes what its digits say,
/// as far as engines agree.
pub proof fn hex_text_denotes_its_digits(sign: Seq<char>, x: char, digits: Seq<char>)
    requires
        is_sign(sign),
        x == 'x' || x == 'X',
        digits.len() > 0,
        forall|i: int|
            0 <= i < digits.len() ==> {
                let c = #[trigger] digits[i];
                ('0' <= c && c <= '9') || ('a' <= c && c <= 'f') || ('A' <= c && c <= 'F')
            },
    ensures
        ({
            let size = numeral::hex_value(digits) as int;
            numeral::reading_of(sign + (seq!['0', x] + digits)) == if size <= i64::MAX {
                Reading::Number(
                    Number {
                        floor: (if sign == seq!['-'] {
                            -size
                        } else {
                            size
                        }) as i128,
                        fraction: 0,
                        places: 0,
                    },
                )
            } else {
                Reading::Unknown
            }
        }),
{
    let u = seq!['0', x] + digits;
    let s = sign + u;
    assert(u[0] == '0' && u[1] == x);
    lemma_unsigned(sign, u);
    assert forall|i: int| 0 <= i < digits.len() implies numeral::is_hex_digit(#[trigger] digits[i]) by {}
    assert forall|i: int| 0 <= i < s.len() implies #[trigger] s[i] != '\0' && !numeral::is_blank(
        s[i],
    ) by {
        if i < sign.len() {
            assert(s[i] == sign[i]);
            assert(seq!['+'][0] == '+');
            assert(seq!['-'][0] == '-');
        } else {
            let j = i - sign.len();
            assert(s[i] == u[j]);
            if j >= 2 {
                assert(u[j] == digits[j - 2]);
            }
        }
    }
    assert(!s.contains('\0'));
    assert(!numeral::is_blank(s[0]));
    assert(!numeral::is_blank(s[s.len() - 1]));
    lemma_not_trimmed(s);
    assert(u.skip(2) =~= digits);
}

/// A whole number is written as its numeral, and one with a fraction above one as the
/// numeral of what stands before the point, the point, and the fraction to its places.
pub proof fn number_is_written_out(n: Number)
    requires
        n.wf(),
    ensures
        n.places == 0 ==> numeral::number_text(n) == decimal::decimal_int(n.floor as int),
        n.places > 0 && n.floor > 0 ==> numeral::number_text(n) == decimal::decimal_nat(
            n.floor as nat,
        ) + (seq!['.'] + decimal::padded(n.fraction as nat, n.places as nat)),
        n.places > 0 && n.floor < -1 ==> numeral::number_text(n) == seq!['-'] + (
        decimal::decimal_nat((-n.floor - 1) as nat) + (seq!['.'] + decimal::padded(
            (pow(10, n.places as nat) - n.fraction) as nat,
            n.places as nat,
        ))),
{
    if n.places > 0 && n.floor > 0 {
        assert(numeral::number_text(n) =~= decimal::decimal_nat(n.floor as nat) + (seq!['.']
            + decimal::padded(n.fraction as nat, n.places as nat)));
    }
}

} // verus!
