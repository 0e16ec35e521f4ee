//! The fixed relation between the ten digits and their letter clusters.
use vstd::prelude::*;

verus! {

/// Whether `c` is one of the ten keypad digits `'0'..='9'`.
pub open spec fn is_digit(c: char) -> bool {
    '0' <= c <= '9'
}

/// Whether `c` is an ASCII letter of either case.
pub open spec fn is_letter(c: char) -> bool {
    ('a' <= c <= 'z') || ('A' <= c <= 'Z')
}

/// The lower-case form of an ASCII letter; every other character is itself.
pub open spec fn lower(c: char) -> char {
    if 'A' <= c <= 'Z' {
        ((c as int) + 32) as char
    } else {
        c
    }
}

/// The letters that the digit `digit` stands for. A character that is no
/// digit stands for none.
pub open spec fn cluster(digit: char) -> Set<char> {
    if digit == '1' {
        set!['q', 'a', 'z']
    } else if digit == '2' {
        set!['w', 's', 'x']
    } else if digit == '3' {
        set!['e', 'd', 'c']
    } else if digit == '4' {
        set!['r', 'f', 'v']
    } else if digit == '5' {
        set!['t', 'g', 'b']
    } else if digit == '6' {
        set!['y', 'h', 'n']
    } else if digit == '7' {
        set!['u', 'j', 'm']
    } else if digit == '8' {
        set!['i', 'k']
    } else if digit == '9' {
        set!['o', 'l']
    } else if digit == '0' {
        set!['p']
    } else {
        Set::empty()
    }
}

/// Whether `digit` could stand for the letter `c`, whatever the case of `c`.
pub open spec fn digit_matches(digit: char, c: char) -> bool {
    cluster(digit).contains(lower(c))
}

/// The digit under which the letter `c` is filed, whatever its case. Only
/// meaningful where `is_letter(c)`.
pub open spec fn digit_of(c: char) -> char {
    let l = lower(c);
    if l == 'q' || l == 'a' || l == 'z' {
        '1'
    } else if l == 'w' || l == 's' || l == 'x' {
        '2'
    } else if l == 'e' || l == 'd' || l == 'c' {
        '3'
    } else if l == 'r' || l == 'f' || l == 'v' {
        '4'
    } else if l == 't' || l == 'g' || l == 'b' {
        '5'
    } else if l == 'y' || l == 'h' || l == 'n' {
        '6'
    } else if l == 'u' || l == 'j' || l == 'm' {
        '7'
    } else if l == 'i' || l == 'k' {
        '8'
    } else if l == 'o' || l == 'l' {
        '9'
    } else {
        '0'
    }
}

/// Lower-cases an ASCII letter and leaves every other character alone.
pub fn to_lower(c: char) -> (r: char)
    ensures
        r == lower(c),
{
    if 'A' <= c && c <= 'Z' {
        let code: u8 = c as u8;
        (code + 32) as char
    } else {
        c
    }
}

/// Tells whether the digit `digit` could stand for the character `c`. The
/// letter's case does not matter; a character outside the alphabet matches no
/// digit.
pub fn digit_could_match_char(digit: char, c: char) -> (hit: bool)
    requires
        is_digit(digit),
    ensures
        hit == digit_matches(digit, c),
{
    let l = to_lower(c);
    match digit {
        '1' => l == 'q' || l == 'a' || l == 'z',
        '2' => l == 'w' || l == 's' || l == 'x',
        '3' => l == 'e' || l == 'd' || l == 'c',
        '4' => l == 'r' || l == 'f' || l == 'v',
        '5' => l == 't' || l == 'g' || l == 'b',
        '6' => l == 'y' || l == 'h' || l == 'n',
        '7' => l == 'u' || l == 'j' || l == 'm',
        '8' => l == 'i' || l == 'k',
        '9' => l == 'o' || l == 'l',
        _ => l == 'p',
    }
}

/// Finds the digit that encodes the character `c`: `Some` of its digit for a
/// letter of either case, `None` for anything else.
pub fn letter_digit(c: char) -> (d: Option<char>)
    ensures
        d == (if is_letter(c) { Some(digit_of(c)) } else { None }),
{
    let l = to_lower(c);
    if !('a' <= l && l <= 'z') {
        return None;
    }
    let d = match l {
        'q' | 'a' | 'z' => '1',
        'w' | 's' | 'x' => '2',
        'e' | 'd' | 'c' => '3',
        'r' | 'f' | 'v' => '4',
        't' | 'g' | 'b' => '5',
        'y' | 'h' | 'n' => '6',
        'u' | 'j' | 'm' => '7',
        'i' | 'k' => '8',
        'o' | 'l' => '9',
        _ => '0',
    };
    Some(d)
}

/// Every letter is filed under a digit, and under that digit alone: `digit`
/// could stand for `c` exactly when `c` is a letter and `digit` is the digit
/// that encodes it.
pub proof fn lemma_keypad_inverse(digit: char, c: char)
    ensures
        digit_matches(digit, c) <==> (is_letter(c) && digit == digit_of(c)),
        is_letter(c) ==> is_digit(digit_of(c)),
{
}

/// Each of the ten digits stands for at least one letter, and for small
/// letters only.
pub proof fn lemma_cluster_shape(digit: char)
    requires
        is_digit(digit),
    ensures
        !cluster(digit).is_empty(),
        forall|c: char| #[trigger] cluster(digit).contains(c) ==> 'a' <= c <= 'z',
{
    assert(cluster(digit).contains(
        if digit == '1' {
            'q'
        } else if digit == '2' {
            'w'
        } else if digit == '3' {
            'e'
        } else if digit == '4' {
            'r'
        } else if digit == '5' {
            't'
        } else if digit == '6' {
            'y'
        } else if digit == '7' {
            'u'
        } else if digit == '8' {
            'i'
        } else if digit == '9' {
            'o'
        } else {
            'p'
        },
    ));
}

/// A character that is no digit stands for no letter at all.
pub proof fn lemma_only_digits_match(digit: char, c: char)
    requires
        digit_matches(digit, c),
    ensures
        is_digit(digit),
        is_letter(c),
{
}

/// Matching looks at the letter only through its lower-case form.
pub proof fn lemma_match_ignores_case(digit: char, c: char)
    ensures
        digit_matches(digit, c) == digit_matches(digit, lower(c)),
        lower(lower(c)) == lower(c),
{
}

} // verus!
