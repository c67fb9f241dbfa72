//! Tier masks, one bit per storage tier, handled with plain arithmetic.

use vstd::arithmetic::div_mod;
use vstd::arithmetic::power2;
use vstd::prelude::*;

verus! {

/// Whether a number is the bit of one tier, a power of two.
pub open spec fn is_tier_bit(bit: u64) -> bool {
    exists|k: nat| bit == #[trigger] power2::pow2(k)
}

/// Whether a mask holds a tier's bit. No mask holds zero.
///
/// A mask below zero holds the tiers of its two's complement.
pub open spec fn has_tier(mask: int, bit: u64) -> bool {
    bit != 0 && (mask / bit as int) % 2 == 1
}

/// The mask with a tier's bit set.
pub open spec fn with_tier(mask: int, bit: u64) -> int {
    if has_tier(mask, bit) {
        mask
    } else {
        mask + bit
    }
}

/// The mask with a tier's bit cleared.
pub open spec fn without_tier(mask: int, bit: u64) -> int {
    if has_tier(mask, bit) {
        mask - bit
    } else {
        mask
    }
}

/// What a mask holds above the bits that a tier can have.
pub open spec fn above_tiers(mask: int) -> int {
    mask / 0x1_0000_0000_0000_0000
}

/// Whether a mask can be held.
pub open spec fn fits(mask: int) -> bool {
    i128::MIN <= mask <= i128::MAX
}

proof fn lemma_add_clear_bit(m: int, k: nat)
    requires
        (m / power2::pow2(k) as int) % 2 == 0,
    ensures
        ((m + power2::pow2(k)) / power2::pow2(k) as int) % 2 == 1,
        forall|j: nat| j != k ==> ((m + power2::pow2(k)) / #[trigger] power2::pow2(j) as int) % 2 == (m / power2::pow2(j) as int)
            % 2,
        forall|j: nat|
            j > k ==> (m + power2::pow2(k)) / #[trigger] power2::pow2(j) as int == m / power2::pow2(j) as int,
{
    let b = power2::pow2(k) as int;
    power2::lemma_pow2_pos(k);
    let q = m / b;
    let r = m % b;
    div_mod::lemma_fundamental_div_mod(m, b);
    let h = q / 2;
    assert(q == 2 * h);
    assert(m == b * (2 * h) + r);
    assert(m + b == b * (2 * h + 1) + r) by (nonlinear_arith)
        requires
            m == b * (2 * h) + r,
    ;
    assert(b * (2 * h + 1) == (2 * h + 1) * b) by (nonlinear_arith);
    div_mod::lemma_fundamental_div_mod_converse(m + b, b, 2 * h + 1, r);
    assert forall|j: nat| j != k implies ((m + power2::pow2(k)) / #[trigger] power2::pow2(j) as int) % 2 == (m / power2::pow2(
        j,
    ) as int) % 2 by {
        let c = power2::pow2(j) as int;
        power2::lemma_pow2_pos(j);
        if j < k {
            // b is an even multiple of c.
            power2::lemma_pow2_adds(j, (k - j) as nat);
            power2::lemma_pow2_adds(1, (k - j - 1) as nat);
            power2::lemma2_to64();
            let e = power2::pow2((k - j - 1) as nat) as int;
            assert(b == c * (2 * e));
            let q2 = m / c;
            let r2 = m % c;
            div_mod::lemma_fundamental_div_mod(m, c);
            assert(m + b == (q2 + 2 * e) * c + r2) by (nonlinear_arith)
                requires
                    m == c * q2 + r2,
                    b == c * (2 * e),
            ;
            div_mod::lemma_fundamental_div_mod_converse(m + b, c, q2 + 2 * e, r2);
        } else {
            // c is a multiple of 2 * b.
            lemma_high_bit(m, b, h, r, j, k);
        }
    }
    assert forall|j: nat| j > k implies (m + power2::pow2(k)) / #[trigger] power2::pow2(j) as int == m
        / power2::pow2(j) as int by {
        lemma_high_bit(m, b, h, r, j, k);
    }
}

proof fn lemma_high_bit(m: int, b: int, h: int, r: int, j: nat, k: nat)
    requires
        j > k,
        b == power2::pow2(k),
        0 <= r < b,
        m == b * (2 * h) + r,
    ensures
        (m + b) / power2::pow2(j) as int == m / power2::pow2(j) as int,
{
    let c = power2::pow2(j) as int;
    power2::lemma_pow2_pos(j);
    power2::lemma_pow2_adds(k + 1, (j - k - 1) as nat);
    power2::lemma_pow2_adds(k, 1);
    power2::lemma2_to64();
    let e = power2::pow2((j - k - 1) as nat) as int;
    power2::lemma_pow2_pos((j - k - 1) as nat);
    assert(power2::pow2(k + 1) == b * 2);
    assert(c == (b * 2) * e);
    let q = h / e;
    let t = h % e;
    div_mod::lemma_fundamental_div_mod(h, e);
    assert(b * (2 * h) == q * ((b * 2) * e) + (2 * b) * t) by (nonlinear_arith)
        requires
            h == e * q + t,
    ;
    assert((2 * b) * t + 2 * b <= (b * 2) * e) by (nonlinear_arith)
        requires
            t + 1 <= e,
            0 < b,
    ;
    assert((2 * b) * t >= 0) by (nonlinear_arith)
        requires
            t >= 0,
            0 < b,
    ;
    div_mod::lemma_fundamental_div_mod_converse(m, c, q, (2 * b) * t + r);
    div_mod::lemma_fundamental_div_mod_converse(m + b, c, q, (2 * b) * t + r + b);
}

proof fn lemma_tier_power(bit: u64) -> (k: nat)
    requires
        is_tier_bit(bit),
    ensures
        k < 64,
        bit == power2::pow2(k),
        bit > 0,
{
    let k = choose|k: nat| bit == #[trigger] power2::pow2(k);
    power2::lemma_pow2_pos(k);
    power2::lemma2_to64();
    if k > 64 {
        power2::lemma_pow2_strictly_increases(64, k);
    }
    k
}

proof fn lemma_same_sign_fits(a: int, b: int)
    requires
        fits(a),
        a / power2::pow2(127) as int == b / power2::pow2(127) as int,
    ensures
        fits(b),
{
    power2::lemma2_to64();
    power2::lemma_pow2_adds(64, 63);
    let c = power2::pow2(127) as int;
    power2::lemma_pow2_adds(63, 1);
    assert(power2::pow2(64) == 0x1_0000_0000_0000_0000);
    assert(power2::pow2(63) == 0x8000_0000_0000_0000);
    assert(c == 0x8000_0000_0000_0000_0000_0000_0000_0000);
    div_mod::lemma_fundamental_div_mod(a, c);
    div_mod::lemma_fundamental_div_mod(b, c);
}

/// Setting a tier's bit sets that bit and leaves the bits of the other tiers, and what
/// stands above them, as they were. The result can be held where the mask can.
pub proof fn with_tier_changes_one_bit(mask: int, bit: u64)
    requires
        is_tier_bit(bit),
    ensures
        fits(mask) ==> fits(with_tier(mask, bit)),
        has_tier(with_tier(mask, bit), bit),
        forall|other: u64|
            is_tier_bit(other) && other != bit ==> #[trigger] has_tier(with_tier(mask, bit), other)
                == has_tier(mask, other),
        above_tiers(with_tier(mask, bit)) == above_tiers(mask),
        with_tier(mask, bit) != 0,
{
    let k = lemma_tier_power(bit);
    if !has_tier(mask, bit) {
        lemma_add_clear_bit(mask, k);
        power2::lemma2_to64();
        let new = with_tier(mask, bit);
        assert(new == mask + power2::pow2(k));
        assert(new / power2::pow2(64) as int == mask / power2::pow2(64) as int);
        assert(new / power2::pow2(127) as int == mask / power2::pow2(127) as int);
        if fits(mask) {
            lemma_same_sign_fits(mask, new);
        }
        assert forall|other: u64| is_tier_bit(other) && other != bit implies #[trigger] has_tier(
            new,
            other,
        ) == has_tier(mask, other) by {
            let j = lemma_tier_power(other);
            assert(((mask + power2::pow2(k)) / power2::pow2(j) as int) % 2 == (mask / power2::pow2(
                j,
            ) as int) % 2);
        }
    }
    div_mod::lemma_basic_div(0, bit as int);
}

/// Clearing a tier's bit clears that bit and leaves the bits of the other tiers, and
/// what stands above them, as they were. The result can be held where the mask can.
pub proof fn without_tier_changes_one_bit(mask: int, bit: u64)
    requires
        is_tier_bit(bit),
    ensures
        fits(mask) ==> fits(without_tier(mask, bit)),
        !has_tier(without_tier(mask, bit), bit),
        forall|other: u64|
            is_tier_bit(other) && other != bit ==> #[trigger] has_tier(
                without_tier(mask, bit),
                other,
            ) == has_tier(mask, other),
        above_tiers(without_tier(mask, bit)) == above_tiers(mask),
{
    let k = lemma_tier_power(bit);
    if has_tier(mask, bit) {
        let b = bit as int;
        let q = mask / b;
        let r = mask % b;
        div_mod::lemma_fundamental_div_mod(mask, b);
        let low = mask - bit;
        assert(low == (q - 1) * b + r) by (nonlinear_arith)
            requires
                low == mask - b,
                mask == b * q + r,
        ;
        div_mod::lemma_fundamental_div_mod_converse(low, b, q - 1, r);
        lemma_add_clear_bit(low, k);
        power2::lemma2_to64();
        let new = without_tier(mask, bit);
        assert(new == low && mask == low + power2::pow2(k));
        assert(new / power2::pow2(64) as int == mask / power2::pow2(64) as int);
        assert(new / power2::pow2(127) as int == mask / power2::pow2(127) as int);
        if fits(mask) {
            lemma_same_sign_fits(mask, new);
        }
        assert forall|other: u64| is_tier_bit(other) && other != bit implies #[trigger] has_tier(
            new,
            other,
        ) == has_tier(mask, other) by {
            let j = lemma_tier_power(other);
            assert(((low + power2::pow2(k)) / power2::pow2(j) as int) % 2 == (low / power2::pow2(
                j,
            ) as int) % 2);
        }
    }
}

/// Clearing a bit that has just been set gives the mask back.
pub proof fn clearing_undoes_setting(mask: int, bit: u64)
    requires
        is_tier_bit(bit),
        !has_tier(mask, bit),
    ensures
        without_tier(with_tier(mask, bit), bit) == mask,
{
    with_tier_changes_one_bit(mask, bit);
}

/// The lowest bit is the bit of a tier.
pub proof fn one_is_a_tier_bit()
    ensures
        is_tier_bit(1),
{
    power2::lemma2_to64();
    assert(power2::pow2(0) == 1);
}

/// There is nothing to clear in an empty mask.
pub proof fn clearing_from_nothing(bit: u64)
    ensures
        !has_tier(0, bit),
        without_tier(0, bit) == 0,
{
    if bit != 0 {
        div_mod::lemma_basic_div(0, bit as int);
    }
}

/// A mask with nothing above the bits of tiers is empty exactly when no tier's bit is
/// set in it.
pub proof fn empty_mask_has_no_tier(mask: int)
    requires
        above_tiers(mask) == 0,
    ensures
        mask == 0 <==> forall|bit: u64| is_tier_bit(bit) ==> !#[trigger] has_tier(mask, bit),
{
    if mask == 0 {
        assert forall|bit: u64| is_tier_bit(bit) implies !#[trigger] has_tier(mask, bit) by {
            let k = lemma_tier_power(bit);
            div_mod::lemma_basic_div(0, bit as int);
        }
    } else {
        let k = highest_bit(mask as nat);
        lemma_highest_bit(mask as nat);
        let bit = power2::pow2(k) as u64;
        assert(bit == power2::pow2(k));
        power2::lemma_pow2_adds(k, 1);
        power2::lemma2_to64();
        power2::lemma_pow2_pos(k);
        div_mod::lemma_fundamental_div_mod_converse(mask, bit as int, 1, mask - bit);
        assert(is_tier_bit(bit));
        assert(has_tier(mask, bit));
    }
}

spec fn highest_bit(n: nat) -> nat
    decreases n,
{
    if n <= 1 {
        0
    } else {
        1 + highest_bit(n / 2)
    }
}

proof fn lemma_highest_bit(n: nat)
    requires
        n > 0,
    ensures
        power2::pow2(highest_bit(n)) <= n < 2 * power2::pow2(highest_bit(n)),
    decreases n,
{
    power2::lemma2_to64();
    if n > 1 {
        lemma_highest_bit(n / 2);
        power2::lemma_pow2_adds(1, highest_bit(n / 2));
    }
}

proof fn lemma_same_bits(a: nat, b: nat)
    requires
        forall|k: nat| (a / #[trigger] power2::pow2(k)) % 2 == (b / power2::pow2(k)) % 2,
    ensures
        a == b,
    decreases a + b,
{
    power2::lemma2_to64();
    assert((a / power2::pow2(0)) % 2 == (b / power2::pow2(0)) % 2);
    assert(a % 2 == b % 2);
    if a + b > 0 {
        assert forall|k: nat| ((a / 2) / #[trigger] power2::pow2(k)) % 2 == ((b / 2)
            / power2::pow2(k)) % 2 by {
            power2::lemma_pow2_pos(k);
            power2::lemma_pow2_adds(1, k);
            div_mod::lemma_div_denominator(a as int, 2, power2::pow2(k) as int);
            div_mod::lemma_div_denominator(b as int, 2, power2::pow2(k) as int);
            assert((a / power2::pow2(k + 1)) % 2 == (b / power2::pow2(k + 1)) % 2);
        }
        lemma_same_bits(a / 2, b / 2);
    }
}

/// A mask is told by its tiers and what stands above them.
pub proof fn mask_is_told_by_its_tiers(a: int, b: int)
    requires
        forall|bit: u64|
            is_tier_bit(bit) ==> #[trigger] has_tier(a, bit) == has_tier(b, bit),
        above_tiers(a) == above_tiers(b),
    ensures
        a == b,
{
    power2::lemma2_to64();
    let c = power2::pow2(64) as int;
    let low_a = a % c;
    let low_b = b % c;
    div_mod::lemma_fundamental_div_mod(a, c);
    div_mod::lemma_fundamental_div_mod(b, c);
    assert forall|k: nat| (low_a as nat / #[trigger] power2::pow2(k)) % 2 == (low_b as nat
        / power2::pow2(k)) % 2 by {
        power2::lemma_pow2_pos(k);
        if k < 64 {
            power2::lemma_pow2_strictly_increases(k, 64);
            let bit = power2::pow2(k) as u64;
            assert(bit == power2::pow2(k));
            assert(is_tier_bit(bit));
            assert(has_tier(a, bit) == has_tier(b, bit));
            lemma_low_bit(a, k);
            lemma_low_bit(b, k);
        } else {
            if k > 64 {
                power2::lemma_pow2_strictly_increases(64, k);
            }
            div_mod::lemma_basic_div(low_a, power2::pow2(k) as int);
            div_mod::lemma_basic_div(low_b, power2::pow2(k) as int);
        }
    }
    lemma_same_bits(low_a as nat, low_b as nat);
}

proof fn lemma_low_bit(a: int, k: nat)
    requires
        k < 64,
    ensures
        ((a % power2::pow2(64) as int) / power2::pow2(k) as int) % 2 == (a / power2::pow2(
            k,
        ) as int) % 2,
{
    let c = power2::pow2(64) as int;
    let b = power2::pow2(k) as int;
    power2::lemma_pow2_pos(k);
    power2::lemma_pow2_pos(64);
    power2::lemma2_to64();
    power2::lemma_pow2_adds(k, (64 - k) as nat);
    power2::lemma_pow2_adds(1, (63 - k) as nat);
    let e = power2::pow2((63 - k) as nat) as int;
    assert(c == b * (2 * e));
    let high = a / c;
    let low = a % c;
    div_mod::lemma_fundamental_div_mod(a, c);
    let q = low / b;
    let r = low % b;
    div_mod::lemma_fundamental_div_mod(low, b);
    let twice = e * high;
    assert(a == (q + 2 * twice) * b + r) by (nonlinear_arith)
        requires
            a == c * high + low,
            low == b * q + r,
            c == b * (2 * e),
            twice == e * high,
    ;
    div_mod::lemma_fundamental_div_mod_converse(a, b, q + 2 * twice, r);
}

/// Tests a tier's bit.
pub fn tier_is_set(mask: i128, bit: u64) -> (set: bool)
    ensures
        set == has_tier(mask as int, bit),
{
    if bit == 0 {
        return false;
    }
    if mask >= 0 {
        (mask as u128 / bit as u128) % 2 == 1
    } else {
        let below = (-(mask + 1)) as u128;
        let q: u128 = below / bit as u128;
        proof {
            let b = bit as int;
            let r = below as int % b;
            div_mod::lemma_fundamental_div_mod(below as int, b);
            assert(mask == (-(q as int) - 1) * b + (b - 1 - r)) by (nonlinear_arith)
                requires
                    below == b * q + r,
                    mask == -below - 1,
            ;
            div_mod::lemma_fundamental_div_mod_converse(mask as int, b, -(q as int) - 1, b - 1 - r);
        }
        q % 2 == 0
    }
}

/// Sets a tier's bit. `None` where the result does not fit in a mask, which does not
/// happen for the bit of a tier.
pub fn set_tier(mask: i128, bit: u64) -> (new: Option<i128>)
    ensures
        match new {
            Some(new) => new == with_tier(mask as int, bit),
            None => !fits(with_tier(mask as int, bit)),
        },
        is_tier_bit(bit) ==> new is Some,
{
    proof {
        if is_tier_bit(bit) {
            with_tier_changes_one_bit(mask as int, bit);
        }
    }
    if tier_is_set(mask, bit) {
        Some(mask)
    } else {
        mask.checked_add(bit as i128)
    }
}

/// Clears a tier's bit. `None` where the result does not fit in a mask, which does not
/// happen for the bit of a tier.
pub fn clear_tier(mask: i128, bit: u64) -> (new: Option<i128>)
    ensures
        match new {
            Some(new) => new == without_tier(mask as int, bit),
            None => !fits(without_tier(mask as int, bit)),
        },
        is_tier_bit(bit) ==> new is Some,
{
    proof {
        if is_tier_bit(bit) {
            without_tier_changes_one_bit(mask as int, bit);
        }
    }
    if tier_is_set(mask, bit) {
        mask.checked_sub(bit as i128)
    } else {
        Some(mask)
    }
}

/// The bits of tiers are the powers of two that fit.
pub proof fn tier_bits_are_the_powers_of_two(k: nat)
    requires
        k < 64,
    ensures
        is_tier_bit(power2::pow2(k) as u64),
        (power2::pow2(k) as u64) == power2::pow2(k),
{
    power2::lemma2_to64();
    power2::lemma_pow2_strictly_increases(k, 64);
}

/// A mask holds a tier exactly if its binary digit at the tier's place is one. Setting
/// the tier makes that digit one and clearing it makes it zero, with all other digits as
/// they were, above and below.
pub proof fn tier_is_a_binary_digit(high: int, digit: int, low: int, k: nat)
    requires
        k < 64,
        digit == 0 || digit == 1,
        0 <= low < power2::pow2(k),
    ensures
        ({
            let place = power2::pow2(k) as int;
            let bit = power2::pow2(k) as u64;
            let mask = (2 * high + digit) * place + low;
            &&& has_tier(mask, bit) <==> digit == 1
            &&& with_tier(mask, bit) == (2 * high + 1) * place + low
            &&& without_tier(mask, bit) == (2 * high) * place + low
        }),
{
    tier_bits_are_the_powers_of_two(k);
    power2::lemma_pow2_pos(k);
    let place = power2::pow2(k) as int;
    let q = 2 * high + digit;
    let mask = q * place + low;
    div_mod::lemma_fundamental_div_mod_converse(mask, place, q, low);
    assert((2 * high + 1) * place == (2 * high) * place + place) by (nonlinear_arith);
}

} // verus!
