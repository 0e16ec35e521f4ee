//! Keys: which amounts may serve as one, and which of those are poor.
use vstd::prelude::*;
use vstd::arithmetic::div_mod::lemma_mod_multiples_basic;
use crate::keypad::is_digit;
use crate::roll::{generate_key, rolled, unrolled};

verus! {

/// Ten to the power of `e`.
pub open spec fn ten_to(e: nat) -> nat
    decreases e,
{
    if e == 0 {
        1
    } else {
        10 * ten_to((e - 1) as nat)
    }
}

/// Whether `n` is one of 1, 10, 100, and so on.
pub open spec fn is_power_of_ten(n: nat) -> bool {
    exists|e: nat| n == #[trigger] ten_to(e)
}

/// How good an amount is as a key.
#[derive(Debug, Clone, Copy, PartialEq, Eq, Structural)]
pub enum KeyQuality {
    /// Zero: no key at all. Encoding and decoding refuse it.
    Invalid,
    /// A power of ten. It is accepted, but its owner should draw another.
    Degenerate,
    /// Any other amount.
    Sound,
}

/// The quality of each amount.
pub open spec fn quality_of(key: u32) -> KeyQuality {
    if key == 0 {
        KeyQuality::Invalid
    } else if is_power_of_ten(key as nat) {
        KeyQuality::Degenerate
    } else {
        KeyQuality::Sound
    }
}

/// The powers of ten grow with the exponent.
pub proof fn lemma_ten_to_grows(low: nat, high: nat)
    requires
        low <= high,
    ensures
        ten_to(low) <= ten_to(high),
        ten_to(low) >= 1,
    decreases high,
{
    if low < high {
        lemma_ten_to_grows(low, (high - 1) as nat);
    } else if low > 0 {
        lemma_ten_to_grows((low - 1) as nat, (low - 1) as nat);
    }
}

/// The powers of ten that a key can be are the ten from 1 to 1,000,000,000.
pub proof fn lemma_powers_of_ten_in_range(key: u32)
    ensures
        is_power_of_ten(key as nat) <==> (key == 1 || key == 10 || key == 100 || key == 1_000
            || key == 10_000 || key == 100_000 || key == 1_000_000 || key == 10_000_000 || key
            == 100_000_000 || key == 1_000_000_000),
{
    reveal_with_fuel(ten_to, 11);
    assert(ten_to(0) == 1);
    assert(ten_to(1) == 10);
    assert(ten_to(2) == 100);
    assert(ten_to(3) == 1_000);
    assert(ten_to(4) == 10_000);
    assert(ten_to(5) == 100_000);
    assert(ten_to(6) == 1_000_000);
    assert(ten_to(7) == 10_000_000);
    assert(ten_to(8) == 100_000_000);
    assert(ten_to(9) == 1_000_000_000);
    assert(ten_to(10) == 10_000_000_000);
    if is_power_of_ten(key as nat) {
        let e = choose|e: nat| key as nat == #[trigger] ten_to(e);
        if e >= 10 {
            lemma_ten_to_grows(10, e);
        }
    }
}

/// Why a power of ten from 10 up is a poor key: it is a whole number of turns
/// of the cycle, so rolling by it leaves every digit where it was.
pub proof fn lemma_power_of_ten_rolls_nothing(digit: char, key: nat)
    requires
        is_digit(digit),
        is_power_of_ten(key),
        key != 1,
    ensures
        rolled(digit, key) == digit,
        unrolled(digit, key) == digit,
{
    let e = choose|e: nat| key == #[trigger] ten_to(e);
    assert(e != 0);
    let rest = ten_to((e - 1) as nat) as int;
    assert(key == 10 * rest);
    lemma_mod_multiples_basic(rest, 10);
    assert((rest * 10) % 10 == 0);
    crate::roll::lemma_roll_by_last_place(digit, key);
}

/// Judges a key. Zero is no key; a power of ten is flagged, not refused.
pub fn assess_key(key: u32) -> (quality: KeyQuality)
    ensures
        quality == quality_of(key),
        quality == KeyQuality::Degenerate <==> is_power_of_ten(key as nat),
        quality == KeyQuality::Invalid <==> key == 0,
{
    proof {
        lemma_powers_of_ten_in_range(key);
    }
    match key {
        0 => KeyQuality::Invalid,
        1 | 10 | 100 | 1_000 | 10_000 | 100_000 | 1_000_000 | 10_000_000 | 100_000_000
        | 1_000_000_000 => KeyQuality::Degenerate,
        _ => KeyQuality::Sound,
    }
}

/// Draws a key and judges it. Whatever was drawn is handed out: a power of
/// ten comes with the flag `Degenerate`, zero with `Invalid`, and neither is
/// held back.
pub fn generate_flagged_key() -> (drawn: (u32, KeyQuality))
    ensures
        drawn.1 == quality_of(drawn.0),
        drawn.1 == KeyQuality::Degenerate <==> is_power_of_ten(drawn.0 as nat),
{
    let key = generate_key();
    (key, assess_key(key))
}

} // verus!
