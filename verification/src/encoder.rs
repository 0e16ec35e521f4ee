//! The encoder: letters to digits, with everything else and every escape
//! left as it is.
use vstd::prelude::*;
use crate::error::CipherError;
use crate::escape::{in_escape, lemma_escape_step};
use crate::keypad::{digit_of, is_letter, letter_digit};
use crate::roll::{roll_digit, rolled};

verus! {

/// What one character becomes. A brace, a character inside an escape and a
/// character that is no letter stay as they are. A letter outside an escape
/// becomes its digit, rolled forward by the key where there is one.
pub open spec fn encoded_char(c: char, escaped: bool, key: Option<u32>) -> char {
    if c == '{' || c == '}' || escaped || !is_letter(c) {
        c
    } else {
        match key {
            Some(k) => rolled(digit_of(c), k as nat),
            None => digit_of(c),
        }
    }
}

/// The cipher text of `text`: each character encoded in its place.
pub open spec fn encoded(text: Seq<char>, key: Option<u32>) -> Seq<char> {
    Seq::new(text.len(), |i: int| encoded_char(text[i], in_escape(text, i), key))
}

/// Encodes a message. Each letter outside an escape becomes the digit of its
/// cluster, rolled forward by the key if one is given; all other characters
/// are copied, the braces too. An opening brace inside an escape keeps the
/// escape open, and a closing brace outside one is copied like the rest. A
/// key of zero is refused.
pub fn encode(input: String, key_option: Option<u32>) -> (result: Result<String, CipherError>)
    ensures
        match result {
            Ok(output) => key_option != Some(0u32) && output@ == encoded(input@, key_option),
            Err(e) => e == CipherError::InvalidRotationAmount && key_option == Some(0u32),
        },
{
    broadcast use vstd::string::group_string_axioms;

    if let Some(k) = key_option {
        if k == 0 {
            return Err(CipherError::InvalidRotationAmount);
        }
    }
    let text = input.as_str();
    let mut output = String::new();
    let mut escape_characters = false;
    assert(output@ =~= encoded(text@, key_option).take(0));
    for c in it: text.chars()
        invariant
            it.seq() == text@,
            key_option != Some(0u32),
            escape_characters == in_escape(text@, it.index()),
            output@ == encoded(text@, key_option).take(it.index()),
    {
        let ghost at = it.index();
        proof {
            lemma_escape_step(text@, at);
        }
        let written = if c == '{' {
            escape_characters = true;
            c
        } else if c == '}' {
            escape_characters = false;
            c
        } else if escape_characters {
            c
        } else {
            match letter_digit(c) {
                Some(digit) => match key_option {
                    Some(key) => roll_digit(digit, key),
                    None => digit,
                },
                None => c,
            }
        };
        output.push(written);
        assert(output@ =~= encoded(text@, key_option).take(at + 1));
    }
    assert(encoded(text@, key_option).take(text@.len() as int) =~= encoded(text@, key_option));
    Ok(output)
}

} // verus!
