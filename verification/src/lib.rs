//! A reversible digit cipher over a ten-key letter layout, with a
//! dictionary-assisted decoder that resolves each run of digits to the most
//! plausible word by elimination.
pub mod decoder;
pub mod encoder;
pub mod error;
pub mod escape;
pub mod key;
pub mod keypad;
pub mod roll;
pub mod roundtrip;
pub mod solver;
pub mod text;
pub mod wordlist;

pub use decoder::decode;
pub use encoder::encode;
pub use error::CipherError;
pub use key::{assess_key, generate_flagged_key, KeyQuality};
pub use keypad::digit_could_match_char;
pub use roll::{add_one, generate_key, roll_digit, sub_one, unroll_crypt, unroll_digit};
pub use solver::{solve, CandidateSet};
pub use wordlist::WordList;
