use keycrypto::decoder::decode;
use keycrypto::encoder::encode;
use keycrypto::wordlist::WordList;

fn word_list(words: &[&str]) -> WordList {
    WordList::new(words.iter().map(|w| w.to_string()).collect()).unwrap()
}

#[test]
fn hi_with_key_one_makes_the_round_trip() {
    let words = word_list(&["hi"]);
    let cipher = encode("hi".to_string(), Some(1)).unwrap();
    assert_eq!(cipher, "79");
    assert_eq!(decode(cipher, Some(1), &words), Ok("hi".to_string()));
}

#[test]
fn a_word_of_the_list_makes_the_round_trip_under_any_key() {
    let words = word_list(&["hello", "hi", "modular", "modularity", "there"]);
    for word in ["hello", "hi", "modular", "modularity", "there"] {
        for key in [None, Some(1u32), Some(9), Some(10), Some(77), Some(4_294_967_295)] {
            let cipher = encode(word.to_string(), key).unwrap();
            assert_eq!(decode(cipher, key, &words), Ok(word.to_string()), "{word} {key:?}");
        }
    }
}

#[test]
fn the_round_trip_gives_the_message_in_lower_case() {
    let words = word_list(&["hello"]);
    let cipher = encode("HeLLo".to_string(), Some(4)).unwrap();
    assert_eq!(decode(cipher, Some(4), &words), Ok("hello".to_string()));
}

#[test]
fn an_earlier_word_with_the_same_digits_takes_the_place_of_the_message() {
    let words = word_list(&["ni", "hi"]);
    let cipher = encode("hi".to_string(), None).unwrap();
    assert_eq!(decode(cipher, None, &words), Ok("ni".to_string()));
}

#[test]
fn a_sentence_makes_the_round_trip_word_by_word() {
    let words = word_list(&["we", "go", "there"]);
    let cipher = encode("we go {2} there!".to_string(), Some(3)).unwrap();
    assert_eq!(cipher, "56 82 {2} 89676!");
    assert_eq!(decode(cipher, Some(3), &words), Ok("we go 2 there!".to_string()));
}

#[test]
fn the_wrong_key_does_not_give_the_message_back() {
    let words = word_list(&["hi"]);
    let cipher = encode("hi".to_string(), Some(1)).unwrap();
    assert_eq!(decode(cipher, Some(2), &words), Ok("??".to_string()));
}
