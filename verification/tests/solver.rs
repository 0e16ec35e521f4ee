use keycrypto::solver::{question_marks, solve, CandidateSet};

fn strings(words: &[&str]) -> Vec<String> {
    words.iter().map(|w| w.to_string()).collect()
}

#[test]
fn resolves_a_word_without_a_key() {
    let words = strings(&["hi", "there"]);
    assert_eq!(solve(&words, "68", (false, 0)), "hi");
    assert_eq!(solve(&words, "56343", (false, 0)), "there");
}

#[test]
fn resolves_a_word_with_a_key() {
    let words = strings(&["hi", "there"]);
    assert_eq!(solve(&words, "79", (true, 1)), "hi");
    assert_eq!(solve(&words, "68", (true, 10)), "hi");
    assert_eq!(solve(&words, "35", (true, 4_294_967_297u64 as u32 + 6)), "hi");
}

#[test]
fn the_flag_decides_whether_the_key_is_used() {
    let words = strings(&["hi"]);
    assert_eq!(solve(&words, "68", (false, 1)), "hi");
    assert_eq!(solve(&words, "68", (true, 1)), "??");
}

#[test]
fn a_crypt_without_a_match_gives_question_marks_of_its_length() {
    let words = strings(&["hi", "there"]);
    assert_eq!(solve(&words, "11", (false, 0)), "??");
    assert_eq!(solve(&words, "6", (false, 0)), "hi");
    assert_eq!(solve(&words, "681", (false, 0)), "???");
    assert_eq!(solve(&words, "0000000", (false, 0)), "???????");
    assert_eq!(solve(&[], "123", (false, 0)), "???");
}

#[test]
fn an_empty_crypt_resolves_to_nothing() {
    let words = strings(&["hi", "there"]);
    assert_eq!(solve(&words, "", (false, 0)), "");
    assert_eq!(solve(&words, "", (true, 3)), "");
}

#[test]
fn a_candidate_that_runs_out_of_letters_is_dropped() {
    let words = strings(&["hi"]);
    assert_eq!(solve(&words, "688", (false, 0)), "???");
}

#[test]
fn modular_is_preferred_to_modularity() {
    let crypt = "7937914";
    assert_eq!(solve(&strings(&["modular", "modularity"]), crypt, (false, 0)), "modular");
    assert_eq!(solve(&strings(&["modularity", "modular"]), crypt, (false, 0)), "modular");
}

#[test]
fn a_longer_word_answers_a_prefix_when_no_complete_match_exists() {
    assert_eq!(solve(&strings(&["modularity"]), "7937914", (false, 0)), "modularity");
    assert_eq!(
        solve(&strings(&["modularity", "modulars"]), "7937914", (false, 0)),
        "modulars"
    );
}

#[test]
fn of_two_words_of_one_length_the_first_in_the_list_wins() {
    assert_eq!(solve(&strings(&["hi", "ni", "yk"]), "68", (false, 0)), "hi");
    assert_eq!(solve(&strings(&["ni", "yk", "hi"]), "68", (false, 0)), "ni");
    assert_eq!(solve(&strings(&["yk", "hi", "ni"]), "68", (false, 0)), "yk");
}

#[test]
fn a_crypt_of_one_digit_finds_a_word_of_one_letter() {
    let words = strings(&["a", "i", "o"]);
    assert_eq!(solve(&words, "1", (false, 0)), "a");
    assert_eq!(solve(&words, "8", (false, 0)), "i");
    assert_eq!(solve(&words, "9", (false, 0)), "o");
    assert_eq!(solve(&words, "5", (false, 0)), "?");
}

#[test]
fn words_match_whatever_their_case() {
    let words = strings(&["Hi", "THERE"]);
    assert_eq!(solve(&words, "68", (false, 0)), "Hi");
    assert_eq!(solve(&words, "56343", (false, 0)), "THERE");
}

#[test]
fn length_is_counted_in_bytes_as_a_string_counts_it() {
    assert_eq!(solve(&strings(&["a\u{f1}", "abc"]), "1", (false, 0)), "a\u{f1}");
    assert_eq!(solve(&strings(&["abc", "a\u{f1}"]), "1", (false, 0)), "abc");
    assert_eq!(solve(&strings(&["abcd", "a\u{f1}"]), "1", (false, 0)), "a\u{f1}");
}

#[test]
fn the_same_question_has_the_same_answer() {
    let words = strings(&["hello", "help", "hi", "jello", "yellow"]);
    let first = solve(&words, "63999", (false, 0));
    for _ in 0..20 {
        assert_eq!(solve(&words, "63999", (false, 0)), first);
    }
    assert_eq!(first, "hello");
}

#[test]
fn seeding_keeps_the_words_whose_first_letter_fits() {
    let words = strings(&["hello", "apple", "yes", "no", "maybe"]);
    let set = CandidateSet::seed(&words, '6');
    assert_eq!(set.len(), 3);
    assert!(!set.is_empty());
    assert_eq!(set.select(&words), Some(3));
    let none = CandidateSet::seed(&words, '0');
    assert_eq!(none.len(), 0);
    assert!(none.is_empty());
    assert_eq!(none.select(&words), None);
}

#[test]
fn narrowing_never_grows_the_set() {
    let words = strings(&["hello", "help", "hi", "jello", "yellow", "he", "h"]);
    let crypt = ['6', '3', '9', '9', '9', '2'];
    let mut set = CandidateSet::seed(&words, crypt[0]);
    let mut sizes = vec![set.len()];
    for position in 1..crypt.len() {
        set = set.narrow(&words, position, crypt[position]);
        sizes.push(set.len());
    }
    assert_eq!(sizes, vec![6, 4, 3, 2, 2, 1]);
    assert_eq!(set.select(&words), Some(4));
}

#[test]
fn an_empty_set_stays_empty() {
    let words = strings(&["hello", "help"]);
    let mut set = CandidateSet::seed(&words, '6').narrow(&words, 1, '0');
    assert!(set.is_empty());
    for position in 2..6 {
        set = set.narrow(&words, position, '9');
        assert!(set.is_empty());
        assert_eq!(set.len(), 0);
    }
}

#[test]
fn select_takes_the_shortest_and_of_several_the_first() {
    let words = strings(&["hello", "help", "hi", "ha", "h"]);
    let set = CandidateSet::seed(&words, '6');
    assert_eq!(set.select(&words), Some(4));
    let set = set.narrow(&words, 1, '3');
    assert_eq!(set.select(&words), Some(1));
    let two = strings(&["hello", "jelly", "yes"]);
    assert_eq!(CandidateSet::seed(&two, '6').narrow(&two, 1, '3').select(&two), Some(2));
    let tie = strings(&["hello", "nelly"]);
    assert_eq!(CandidateSet::seed(&tie, '6').select(&tie), Some(0));
}

#[test]
fn question_marks_writes_as_many_as_asked() {
    assert_eq!(question_marks(0), "");
    assert_eq!(question_marks(1), "?");
    assert_eq!(question_marks(5), "?????");
}
