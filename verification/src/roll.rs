//! The rotation transform: cyclic shifts of a digit, one step at a time or by
//! a whole key, and the same undone over a run of digits.
use vstd::prelude::*;
use vstd::arithmetic::div_mod::{
    lemma_add_mod_noop, lemma_add_mod_noop_right, lemma_small_mod, lemma_sub_mod_noop,
    lemma_sub_mod_noop_right,
};
use crate::keypad::is_digit;
use rayon::iter::ParallelIterator;
use rayon::str::ParallelString;

verus! {

/// The number that a digit character writes: 0 for `'0'` up to 9 for `'9'`.
pub open spec fn digit_value(digit: char) -> int {
    digit as int - '0' as int
}

/// The digit character that writes the number `value`, for 0 up to 9.
pub open spec fn digit_char(value: int) -> char {
    (value + '0' as int) as char
}

/// The digit `amount` steps after `digit` on the cycle 0, 1, .., 9, 0.
pub open spec fn rolled(digit: char, amount: nat) -> char {
    digit_char((digit_value(digit) + amount) % 10)
}

/// The digit `amount` steps before `digit` on the cycle 0, 1, .., 9, 0.
pub open spec fn unrolled(digit: char, amount: nat) -> char {
    digit_char((digit_value(digit) - amount) % 10)
}

/// Whether every character of `s` is a keypad digit.
pub open spec fn all_digits(s: Seq<char>) -> bool {
    forall|i: int| 0 <= i < s.len() ==> is_digit(#[trigger] s[i])
}

/// A run of digits with each one rolled forward by `amount`.
pub open spec fn rolled_seq(s: Seq<char>, amount: nat) -> Seq<char> {
    Seq::new(s.len(), |i: int| rolled(s[i], amount))
}

/// A run of digits with each one rolled back by `amount`.
pub open spec fn unrolled_seq(s: Seq<char>, amount: nat) -> Seq<char> {
    Seq::new(s.len(), |i: int| unrolled(s[i], amount))
}

/// Rolling forward and back by any amount stays among the ten digits.
pub proof fn lemma_roll_stays_digit(digit: char, amount: nat)
    requires
        is_digit(digit),
    ensures
        is_digit(rolled(digit, amount)),
        is_digit(unrolled(digit, amount)),
{
    let v = digit_value(digit);
    assert(0 <= (v + amount) % 10 < 10);
    assert(0 <= (v - amount) % 10 < 10);
}

/// Rolling by no steps changes nothing, and each further step is one more
/// move to the next digit: `rolled` is `amount` single steps in a row.
pub proof fn lemma_roll_is_repeated_step(digit: char, amount: nat)
    requires
        is_digit(digit),
    ensures
        rolled(digit, 0) == digit,
        rolled(digit, amount + 1) == rolled(rolled(digit, amount), 1),
        unrolled(digit, 0) == digit,
        unrolled(digit, amount + 1) == unrolled(unrolled(digit, amount), 1),
{
    let v = digit_value(digit);
    let up = (v + amount) % 10;
    let down = (v - amount) % 10;
    assert(digit_value(digit_char(up)) == up);
    assert(digit_value(digit_char(down)) == down);
    lemma_add_mod_noop(v + amount, 1, 10);
    lemma_small_mod(1, 10);
    assert((up + 1) % 10 == (v + amount + 1) % 10);
    lemma_sub_mod_noop(v - amount, 1, 10);
    assert((down - 1) % 10 == (v - amount - 1) % 10);
}

/// Only the last decimal place of the amount matters.
pub proof fn lemma_roll_by_last_place(digit: char, amount: nat)
    requires
        is_digit(digit),
    ensures
        rolled(digit, amount) == rolled(digit, amount % 10),
        unrolled(digit, amount) == unrolled(digit, amount % 10),
{
    let v = digit_value(digit);
    lemma_add_mod_noop_right(v, amount as int, 10);
    lemma_sub_mod_noop_right(v, amount as int, 10);
}

/// Rolling back undoes rolling forward by the same amount, and the other way
/// round.
pub proof fn lemma_unroll_undoes_roll(digit: char, amount: nat)
    requires
        is_digit(digit),
    ensures
        unrolled(rolled(digit, amount), amount) == digit,
        rolled(unrolled(digit, amount), amount) == digit,
{
    let v = digit_value(digit);
    let up = (v + amount) % 10;
    let down = (v - amount) % 10;
    assert(digit_value(digit_char(up)) == up);
    assert(digit_value(digit_char(down)) == down);
    lemma_sub_mod_noop(v + amount, amount as int, 10);
    lemma_sub_mod_noop_right(up, amount as int, 10);
    assert((up - amount) % 10 == (v + amount - amount) % 10);
    lemma_add_mod_noop(v - amount, amount as int, 10);
    lemma_add_mod_noop_right(down, amount as int, 10);
    assert((down + amount) % 10 == (v - amount + amount) % 10);
    lemma_small_mod(v as nat, 10);
}

/// The round trip over a whole run: rolling every digit forward and then
/// every digit back gives the run again.
pub proof fn lemma_unroll_seq_undoes_roll_seq(s: Seq<char>, amount: nat)
    requires
        all_digits(s),
    ensures
        all_digits(rolled_seq(s, amount)),
        unrolled_seq(rolled_seq(s, amount), amount) == s,
{
    assert forall|i: int| 0 <= i < s.len() implies unrolled(
        #[trigger] rolled_seq(s, amount)[i],
        amount,
    ) == s[i] by {
        lemma_unroll_undoes_roll(s[i], amount);
    }
    assert forall|i: int| 0 <= i < s.len() implies is_digit(
        #[trigger] rolled_seq(s, amount)[i],
    ) by {
        lemma_roll_stays_digit(s[i], amount);
    }
    assert(unrolled_seq(rolled_seq(s, amount), amount) =~= s);
}

/// Moves a digit one step forward: `'0'` to `'1'`, .., `'9'` back to `'0'`.
pub fn add_one(c: char) -> (next: char)
    requires
        is_digit(c),
    ensures
        next == rolled(c, 1),
{
    match c {
        '0' => '1',
        '1' => '2',
        '2' => '3',
        '3' => '4',
        '4' => '5',
        '5' => '6',
        '6' => '7',
        '7' => '8',
        '8' => '9',
        _ => '0',
    }
}

/// Moves a digit one step back: `'1'` to `'0'`, .., `'0'` round to `'9'`.
pub fn sub_one(c: char) -> (previous: char)
    requires
        is_digit(c),
    ensures
        previous == unrolled(c, 1),
{
    match c {
        '1' => '0',
        '2' => '1',
        '3' => '2',
        '4' => '3',
        '5' => '4',
        '6' => '5',
        '7' => '6',
        '8' => '7',
        '9' => '8',
        _ => '9',
    }
}

/// Rolls `digit` forward by `roll` steps. As ten steps come back to the
/// start, it takes `roll % 10` single steps.
pub fn roll_digit(digit: char, roll: u32) -> (output: char)
    requires
        is_digit(digit),
        roll != 0,
    ensures
        output == rolled(digit, roll as nat),
{
    let steps: u32 = roll % 10;
    let mut output = digit;
    let mut taken: u32 = 0;
    while taken < steps
        invariant
            taken <= steps,
            is_digit(digit),
            is_digit(output),
            output == rolled(digit, taken as nat),
        decreases steps - taken,
    {
        proof {
            lemma_roll_is_repeated_step(digit, taken as nat);
        }
        output = add_one(output);
        taken = taken + 1;
    }
    proof {
        lemma_roll_by_last_place(digit, roll as nat);
    }
    output
}

/// Rolls `digit` back by `roll` steps, in `roll % 10` single steps.
pub fn unroll_digit(digit: char, roll: u32) -> (output: char)
    requires
        is_digit(digit),
        roll != 0,
    ensures
        output == unrolled(digit, roll as nat),
{
    let steps: u32 = roll % 10;
    let mut output = digit;
    let mut taken: u32 = 0;
    while taken < steps
        invariant
            taken <= steps,
            is_digit(digit),
            is_digit(output),
            output == unrolled(digit, taken as nat),
        decreases steps - taken,
    {
        proof {
            lemma_roll_is_repeated_step(digit, taken as nat);
        }
        output = sub_one(output);
        taken = taken + 1;
    }
    proof {
        lemma_roll_by_last_place(digit, roll as nat);
    }
    output
}

/// Calls rayon's `par_chars`, `map` and `collect` on the run: every character
/// is handed to `unroll_digit` on some worker thread, and `collect` puts the
/// results into a `String` in the order of the characters they came from. The
/// contract claims just that: the output holds, place by place, each input
/// digit rolled back by `roll`.
#[verifier::external_body]
fn par_unroll(crypt: &str, roll: u32) -> (out: String)
    requires
        roll != 0,
        all_digits(crypt@),
    ensures
        out@ == unrolled_seq(crypt@, roll as nat),
{
    crypt.par_chars().map(|c| unroll_digit(c, roll)).collect()
}

/// Rolls every digit of `crypt` back by `roll`. The digits are independent of
/// each other and are worked on in parallel; the result keeps their order.
pub fn unroll_crypt(crypt: String, roll: u32) -> (out: String)
    requires
        roll != 0,
        all_digits(crypt@),
    ensures
        out@ == unrolled_seq(crypt@, roll as nat),
        out@.len() == crypt@.len(),
        all_digits(out@),
{
    let out = par_unroll(crypt.as_str(), roll);
    proof {
        assert forall|i: int| 0 <= i < out@.len() implies is_digit(#[trigger] out@[i]) by {
            lemma_roll_stays_digit(crypt@[i], roll as nat);
        }
    }
    out
}

/// Draws a key: calls `rand::random::<u32>()`, which gives a value drawn
/// uniformly from the thread's generator. Nothing is claimed of the value: it
/// may be any `u32`, zero and the powers of ten included.
#[verifier::external_body]
pub fn generate_key() -> (key: u32)
{
    rand::random::<u32>()
}

} // verus!
