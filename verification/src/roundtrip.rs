//! The round trip: what was encoded is decoded again.
use vstd::prelude::*;
use crate::decoder::{decoded, key_pair, lemma_decode_of_digits};
use crate::encoder::encoded;
use crate::error::CipherError;
use crate::escape::{in_escape, opens};
use crate::keypad::{digit_of, is_digit, is_letter, lemma_keypad_inverse, lower};
use crate::roll::{all_digits, lemma_unroll_seq_undoes_roll_seq, rolled_seq};
use crate::solver::{
    candidates, lemma_first_complete_match_is_chosen, letter_fits, resolved, solved, word_fits,
};

verus! {

/// Whether every character of `message` is a letter.
pub open spec fn all_letters(message: Seq<char>) -> bool {
    forall|i: int| 0 <= i < message.len() ==> is_letter(#[trigger] message[i])
}

/// A message with each letter in lower case.
pub open spec fn lowered(message: Seq<char>) -> Seq<char> {
    Seq::new(message.len(), |i: int| lower(message[i]))
}

/// The digits that the letters of a message are filed under.
pub open spec fn digits_of(message: Seq<char>) -> Seq<char> {
    Seq::new(message.len(), |i: int| digit_of(message[i]))
}

/// A message of letters alone is encoded to its digits, rolled forward by
/// the key where there is one.
pub proof fn lemma_encoding_of_letters(message: Seq<char>, key_option: Option<u32>)
    requires
        all_letters(message),
    ensures
        all_digits(digits_of(message)),
        encoded(message, key_option) == (match key_option {
            Some(k) => rolled_seq(digits_of(message), k as nat),
            None => digits_of(message),
        }),
{
    let digits = digits_of(message);
    assert forall|i: int| 0 <= i < digits.len() implies is_digit(#[trigger] digits[i]) by {
        lemma_keypad_inverse(digits[i], message[i]);
    }
    assert forall|i: int| 0 <= i < message.len() implies !in_escape(message, i) by {
        if in_escape(message, i) {
            let open = choose|open: int| opens(message, open, i);
            assert(is_letter(message[open]));
        }
    }
    match key_option {
        Some(k) => {
            assert(encoded(message, key_option) =~= rolled_seq(digits, k as nat));
        },
        None => {
            assert(encoded(message, key_option) =~= digits);
        },
    }
}

/// The round trip of a word. Take a message of letters alone and any key but
/// zero, or no key. If the message in lower case stands in the word list,
/// and no word before it has as many letters and the same digits, then
/// decoding what the message was encoded to gives the message in lower case.
pub proof fn lemma_decode_undoes_encode(
    message: Seq<char>,
    key_option: Option<u32>,
    words: Seq<Seq<char>>,
    place: int,
)
    requires
        message.len() > 0,
        all_letters(message),
        key_option != Some(0u32),
        0 <= place < words.len(),
        words[place] == lowered(message),
        forall|i: int|
            0 <= i < place && word_fits(#[trigger] words[i], digits_of(message)) ==> words[i].len()
                != message.len(),
    ensures
        decoded(encoded(message, key_option), key_option, words) == Ok::<Seq<char>, CipherError>(
            lowered(message),
        ),
{
    let digits = digits_of(message);
    let cipher = encoded(message, key_option);
    lemma_encoding_of_letters(message, key_option);
    match key_option {
        Some(k) => {
            lemma_unroll_seq_undoes_roll_seq(digits, k as nat);
            assert(solved(words, cipher, key_pair(key_option)) == resolved(words, digits));
        },
        None => {},
    }
    lemma_decode_of_digits(cipher, key_option, words);
    assert forall|k: int| 0 <= k < digits.len() implies letter_fits(
        words[place],
        k,
        #[trigger] digits[k],
    ) by {
        lemma_keypad_inverse(digits[k], lower(message[k]));
    }
    assert(candidates(words, digits).contains(place));
    lemma_first_complete_match_is_chosen(words, digits, place);
}

/// The round trip of nothing: the empty message is encoded to the empty text
/// and decoded to the empty message.
pub proof fn lemma_round_trip_of_nothing(key_option: Option<u32>, words: Seq<Seq<char>>)
    requires
        key_option != Some(0u32),
    ensures
        decoded(encoded(Seq::<char>::empty(), key_option), key_option, words) == Ok::<
            Seq<char>,
            CipherError,
        >(Seq::<char>::empty()),
{
    let nothing = Seq::<char>::empty();
    assert(encoded(nothing, key_option) =~= nothing);
    lemma_decode_of_digits(nothing, key_option, words);
    crate::decoder::lemma_empty_run_resolves_to_nothing(words, key_pair(key_option));
}

} // verus!
