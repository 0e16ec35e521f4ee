use keycrypto::keypad::{digit_could_match_char, letter_digit, to_lower};

const CLUSTERS: [(char, &str); 10] = [
    ('1', "qaz"),
    ('2', "wsx"),
    ('3', "edc"),
    ('4', "rfv"),
    ('5', "tgb"),
    ('6', "yhn"),
    ('7', "ujm"),
    ('8', "ik"),
    ('9', "ol"),
    ('0', "p"),
];

#[test]
fn every_digit_matches_the_letters_of_its_cluster() {
    for (digit, letters) in CLUSTERS {
        for letter in letters.chars() {
            assert!(digit_could_match_char(digit, letter), "{digit} {letter}");
        }
    }
}

#[test]
fn every_letter_belongs_to_exactly_one_digit() {
    for letter in 'a'..='z' {
        let owners = ('0'..='9').filter(|d| digit_could_match_char(*d, letter)).count();
        assert_eq!(owners, 1, "{letter}");
    }
}

#[test]
fn the_clusters_cover_the_alphabet_and_nothing_else() {
    let total: usize = CLUSTERS.iter().map(|(_, letters)| letters.len()).sum();
    assert_eq!(total, 26);
    for digit in '0'..='9' {
        for other in ['0', '9', ' ', '?', '{', '}', '-', '@', '[', '`', '~', '\u{e9}', '\u{212a}'] {
            assert!(!digit_could_match_char(digit, other), "{digit} {other:?}");
        }
    }
}

#[test]
fn matching_ignores_the_case_of_the_letter() {
    assert!(digit_could_match_char('6', 'H'));
    assert!(digit_could_match_char('6', 'h'));
    assert!(digit_could_match_char('0', 'P'));
    assert!(digit_could_match_char('1', 'Z'));
    assert!(!digit_could_match_char('1', 'H'));
    for (digit, letters) in CLUSTERS {
        for letter in letters.chars() {
            assert!(digit_could_match_char(digit, letter.to_ascii_uppercase()));
        }
    }
}

#[test]
fn a_digit_does_not_match_the_letters_of_its_neighbours() {
    assert!(!digit_could_match_char('1', 'w'));
    assert!(!digit_could_match_char('2', 'q'));
    assert!(!digit_could_match_char('8', 'o'));
    assert!(!digit_could_match_char('9', 'p'));
    assert!(!digit_could_match_char('0', 'o'));
}

#[test]
fn letter_digit_is_the_inverse_of_the_clusters() {
    for (digit, letters) in CLUSTERS {
        for letter in letters.chars() {
            assert_eq!(letter_digit(letter), Some(digit));
            assert_eq!(letter_digit(letter.to_ascii_uppercase()), Some(digit));
        }
    }
}

#[test]
fn letter_digit_knows_no_digit_for_other_characters() {
    for other in ['0', '5', ' ', ',', '{', '}', '@', '[', '`', '~', '\u{e9}', '\u{df}', '\u{212a}'] {
        assert_eq!(letter_digit(other), None, "{other:?}");
    }
}

#[test]
fn to_lower_changes_ascii_capitals_only() {
    assert_eq!(to_lower('A'), 'a');
    assert_eq!(to_lower('Z'), 'z');
    assert_eq!(to_lower('m'), 'm');
    assert_eq!(to_lower('@'), '@');
    assert_eq!(to_lower('['), '[');
    assert_eq!(to_lower('7'), '7');
    assert_eq!(to_lower('\u{c9}'), '\u{c9}');
}
