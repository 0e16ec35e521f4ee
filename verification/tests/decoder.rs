use keycrypto::decoder::{append_solution, decode};
use keycrypto::error::CipherError;
use keycrypto::wordlist::WordList;

fn word_list(words: &[&str]) -> WordList {
    WordList::new(words.iter().map(|w| w.to_string()).collect()).unwrap()
}

fn plain(text: &str, words: &WordList) -> Result<String, CipherError> {
    decode(text.to_string(), None, words)
}

#[test]
fn an_escape_is_passed_through_without_its_braces() {
    let words = word_list(&["hi"]);
    assert_eq!(plain("{hello}", &words), Ok("hello".to_string()));
    assert_eq!(plain("{12}", &words), Ok("12".to_string()));
    assert_eq!(plain("{}", &words), Ok(String::new()));
    assert_eq!(decode("{hello}".to_string(), Some(7), &words), Ok("hello".to_string()));
}

#[test]
fn digits_in_an_escape_stay_while_digits_around_it_are_resolved() {
    let words = word_list(&["hi", "we"]);
    assert_eq!(plain("68{12}23", &words), Ok("hi12we".to_string()));
    assert_eq!(plain("ab{12}cd", &words), Ok("ab12cd".to_string()));
}

#[test]
fn a_greeting_with_a_literal_number_is_decoded() {
    let words = word_list(&["hello", "hi"]);
    assert_eq!(plain("63999, {12}", &words), Ok("hello, 12".to_string()));
}

#[test]
fn the_pieces_come_out_in_the_order_of_the_text() {
    let words = word_list(&["hi", "there", "we", "go"]);
    assert_eq!(
        plain("68 56343, 23 59! {1} 68", &words),
        Ok("hi there, we go! 1 hi".to_string())
    );
}

#[test]
fn a_run_of_digits_ends_at_any_other_character() {
    let words = word_list(&["hi", "h", "i"]);
    assert_eq!(plain("68", &words), Ok("hi".to_string()));
    assert_eq!(plain("6 8", &words), Ok("h i".to_string()));
    assert_eq!(plain("6-8", &words), Ok("h-i".to_string()));
    assert_eq!(plain("6{}8", &words), Ok("hi".to_string()));
}

#[test]
fn a_run_without_a_match_becomes_question_marks() {
    let words = word_list(&["hi"]);
    assert_eq!(plain("000 68 1", &words), Ok("??? hi ?".to_string()));
    assert_eq!(plain("12345", &word_list(&[])), Ok("?????".to_string()));
}

#[test]
fn decoding_goes_on_after_a_run_without_a_match() {
    let words = word_list(&["hi", "there"]);
    assert_eq!(plain("11{x}68,56343", &words), Ok("??xhi,there".to_string()));
}

#[test]
fn a_key_rolls_each_run_back_before_it_is_resolved() {
    let words = word_list(&["hi", "there"]);
    assert_eq!(decode("79".to_string(), Some(1), &words), Ok("hi".to_string()));
    assert_eq!(decode("79 67454".to_string(), Some(1), &words), Ok("hi there".to_string()));
    assert_eq!(decode("79{79}".to_string(), Some(1), &words), Ok("hi79".to_string()));
    assert_eq!(decode("68".to_string(), Some(1), &words), Ok("??".to_string()));
}

#[test]
fn a_key_of_zero_is_refused() {
    let words = word_list(&["hi"]);
    assert_eq!(decode("68".to_string(), Some(0), &words), Err(CipherError::InvalidRotationAmount));
    assert_eq!(decode(String::new(), Some(0), &words), Err(CipherError::InvalidRotationAmount));
    assert_eq!(
        decode("{{".to_string(), Some(0), &words),
        Err(CipherError::InvalidRotationAmount)
    );
}

#[test]
fn an_escape_inside_an_escape_is_refused() {
    let words = word_list(&["hi"]);
    assert_eq!(plain("{a{b}}", &words), Err(CipherError::NestedEscape));
    assert_eq!(plain("{{", &words), Err(CipherError::NestedEscape));
    assert_eq!(plain("68 {x{", &words), Err(CipherError::NestedEscape));
    assert_eq!(decode("{1{".to_string(), Some(3), &words), Err(CipherError::NestedEscape));
}

#[test]
fn an_escape_may_be_opened_again_once_it_is_closed() {
    let words = word_list(&["hi"]);
    assert_eq!(plain("{a}{b}", &words), Ok("ab".to_string()));
    assert_eq!(plain("{a}68{b}", &words), Ok("ahib".to_string()));
}

#[test]
fn an_escape_left_open_runs_to_the_end() {
    let words = word_list(&["hi"]);
    assert_eq!(plain("68{68", &words), Ok("hi68".to_string()));
}

#[test]
fn a_closing_brace_outside_an_escape_is_dropped_and_ends_no_run() {
    let words = word_list(&["hi", "h", "i"]);
    assert_eq!(plain("}", &words), Ok(String::new()));
    assert_eq!(plain("a}b", &words), Ok("ab".to_string()));
    assert_eq!(plain("6}8", &words), Ok("hi".to_string()));
    assert_eq!(plain("{a}}68", &words), Ok("ahi".to_string()));
}

#[test]
fn the_empty_text_decodes_to_the_empty_text() {
    let words = word_list(&["hi"]);
    assert_eq!(plain("", &words), Ok(String::new()));
    assert_eq!(decode(String::new(), Some(5), &words), Ok(String::new()));
}

#[test]
fn characters_that_are_no_ascii_digits_are_copied() {
    let words = word_list(&["hi"]);
    assert_eq!(plain("caf\u{e9} \u{663}\u{bd} 68", &words), Ok("caf\u{e9} \u{663}\u{bd} hi".to_string()));
}

#[test]
fn the_shorter_of_two_words_is_chosen_in_a_text_too() {
    let words = word_list(&["modularity", "modular"]);
    assert_eq!(plain("7937914!", &words), Ok("modular!".to_string()));
}

#[test]
fn append_solution_writes_the_answer_after_what_is_there() {
    let words: Vec<String> = vec!["hi".to_string()];
    let mut output = String::from("say ");
    append_solution(&mut output, &words, "68", (false, 0));
    assert_eq!(output, "say hi");
    append_solution(&mut output, &words, "79", (true, 1));
    assert_eq!(output, "say hihi");
    append_solution(&mut output, &words, "00", (false, 0));
    assert_eq!(output, "say hihi??");
}
