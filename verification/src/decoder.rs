//! The decoder: scans a text, passes escapes and other characters through,
//! and resolves each run of digits against the word list.
use vstd::prelude::*;
use vstd::string::*;
use crate::error::CipherError;
use crate::escape::{
    brace_free, has_nested_escape, in_escape, lemma_escape_ignores_rest, lemma_escape_step,
};
use crate::keypad::is_digit;
use crate::roll::{all_digits, unrolled_seq};
use crate::solver::{no_empty_entry, placeholder, resolved, solve, solved, views_of};
use crate::wordlist::WordList;

verus! {

/// The three states of the scan.
#[derive(Debug, Clone, Copy, PartialEq, Eq, Structural)]
pub enum Mode {
    /// Outside an escape, with no digits pending.
    Scanning,
    /// Outside an escape, with a run of digits pending.
    InCrypt,
    /// Inside an escape.
    InEscape,
}

/// Where a scan stands after some of the text: what has been written, the
/// digits read since the last flush, and whether an escape is open.
pub struct ScanState {
    pub output: Seq<char>,
    pub pending: Seq<char>,
    pub in_escape: bool,
}

/// The key as the solver takes it: whether there is one, and its amount.
pub open spec fn key_pair(key_option: Option<u32>) -> (bool, u32) {
    match key_option {
        Some(k) => (true, k),
        None => (false, 0u32),
    }
}

impl ScanState {
    /// The state before the first character.
    pub open spec fn start() -> ScanState {
        ScanState { output: Seq::empty(), pending: Seq::empty(), in_escape: false }
    }

    /// The state's name.
    pub open spec fn mode(self) -> Mode {
        if self.in_escape {
            Mode::InEscape
        } else if self.pending.len() > 0 {
            Mode::InCrypt
        } else {
            Mode::Scanning
        }
    }

    /// The output with the pending digits resolved and written after it.
    pub open spec fn flushed(self, words: Seq<Seq<char>>, key_data: (bool, u32)) -> Seq<char> {
        self.output + solved(words, self.pending, key_data)
    }

    /// The state after one more character, or `None` where that character
    /// opens an escape inside an escape.
    ///
    /// Inside an escape a closing brace ends it and any other character is
    /// written as it is. Outside, a digit joins the pending run; an opening
    /// brace flushes the run and opens an escape; a closing brace is dropped
    /// and leaves the run pending; any other character flushes the run and is
    /// written after it.
    pub open spec fn step(self, c: char, words: Seq<Seq<char>>, key_data: (bool, u32)) -> Option<
        ScanState,
    > {
        if self.in_escape {
            if c == '{' {
                None
            } else if c == '}' {
                Some(ScanState { in_escape: false, ..self })
            } else {
                Some(ScanState { output: self.output.push(c), ..self })
            }
        } else if is_digit(c) {
            Some(ScanState { pending: self.pending.push(c), ..self })
        } else if c == '{' {
            Some(
                ScanState {
                    output: self.flushed(words, key_data),
                    pending: Seq::empty(),
                    in_escape: true,
                },
            )
        } else if c == '}' {
            Some(self)
        } else {
            Some(
                ScanState {
                    output: self.flushed(words, key_data).push(c),
                    pending: Seq::empty(),
                    in_escape: false,
                },
            )
        }
    }
}

/// The state after the whole of `text`, or `None` where the scan has failed
/// on the way.
pub open spec fn scanned(text: Seq<char>, words: Seq<Seq<char>>, key_data: (bool, u32)) -> Option<
    ScanState,
>
    decreases text.len(),
{
    if text.len() == 0 {
        Some(ScanState::start())
    } else {
        match scanned(text.drop_last(), words, key_data) {
            Some(state) => state.step(text.last(), words, key_data),
            None => None,
        }
    }
}

/// What decoding `text` gives: the error for a key of zero or for a nested
/// escape, and otherwise the output of the scan with the last pending run
/// flushed.
pub open spec fn decoded(text: Seq<char>, key_option: Option<u32>, words: Seq<Seq<char>>) -> Result<
    Seq<char>,
    CipherError,
> {
    if key_option == Some(0u32) {
        Err(CipherError::InvalidRotationAmount)
    } else {
        match scanned(text, words, key_pair(key_option)) {
            Some(end) => Ok(end.flushed(words, key_pair(key_option))),
            None => Err(CipherError::NestedEscape),
        }
    }
}

/// An empty run resolves to nothing, with a key or without.
pub proof fn lemma_empty_run_resolves_to_nothing(words: Seq<Seq<char>>, key_data: (bool, u32))
    ensures
        solved(words, Seq::<char>::empty(), key_data) == Seq::<char>::empty(),
{
    assert(unrolled_seq(Seq::<char>::empty(), key_data.1 as nat) =~= Seq::<char>::empty());
    assert(placeholder(0) =~= Seq::<char>::empty());
}

/// Once a scan has failed, it has failed for every longer text.
pub proof fn lemma_scan_failure_lasts(
    text: Seq<char>,
    upto: int,
    words: Seq<Seq<char>>,
    key_data: (bool, u32),
)
    requires
        0 <= upto <= text.len(),
        scanned(text.take(upto), words, key_data) is None,
    ensures
        scanned(text, words, key_data) is None,
    decreases text.len(),
{
    if upto == text.len() {
        assert(text.take(upto) =~= text);
    } else {
        assert(text.drop_last().take(upto) =~= text.take(upto));
        lemma_scan_failure_lasts(text.drop_last(), upto, words, key_data);
    }
}

/// What a scan that has not failed knows: the pending run holds digits only,
/// the escape flag says whether the end of the text lies inside an escape,
/// no digits are pending inside an escape, and no place of the text opens an
/// escape inside an escape.
pub proof fn lemma_scan_state(text: Seq<char>, words: Seq<Seq<char>>, key_data: (bool, u32))
    requires
        scanned(text, words, key_data) is Some,
    ensures
        all_digits(scanned(text, words, key_data)->0.pending),
        scanned(text, words, key_data)->0.in_escape == in_escape(text, text.len() as int),
        scanned(text, words, key_data)->0.in_escape ==> scanned(
            text,
            words,
            key_data,
        )->0.pending.len() == 0,
        !has_nested_escape(text),
    decreases text.len(),
{
    if text.len() > 0 {
        let front = text.drop_last();
        let last = text.len() - 1;
        lemma_scan_state(front, words, key_data);
        lemma_escape_step(text, last);
        assert forall|at: int| 0 <= at <= last implies in_escape(front, at) == in_escape(
            text,
            at,
        ) by {
            lemma_escape_ignores_rest(text, front, at);
        }
        if has_nested_escape(text) {
            let at = choose|at: int|
                0 <= at < text.len() && text[at] == '{' && #[trigger] in_escape(text, at);
            if at < last {
                assert(front[at] == '{' && in_escape(front, at));
            }
        }
    }
}

/// A scan fails on exactly the texts that open an escape inside an escape.
pub proof fn lemma_scan_fails_on_nesting(text: Seq<char>, words: Seq<Seq<char>>, key_data: (bool, u32))
    ensures
        scanned(text, words, key_data) is None <==> has_nested_escape(text),
    decreases text.len(),
{
    if scanned(text, words, key_data) is Some {
        lemma_scan_state(text, words, key_data);
    } else {
        let front = text.drop_last();
        let last = text.len() - 1;
        lemma_scan_fails_on_nesting(front, words, key_data);
        if scanned(front, words, key_data) is None {
            let at = choose|at: int|
                0 <= at < front.len() && front[at] == '{' && #[trigger] in_escape(front, at);
            lemma_escape_ignores_rest(text, front, at);
            assert(text[at] == '{' && in_escape(text, at));
        } else {
            lemma_scan_state(front, words, key_data);
            lemma_escape_ignores_rest(text, front, last);
            assert(text[last] == '{' && in_escape(text, last));
        }
    }
}

/// A text of digits alone is one pending run when its end is reached.
pub proof fn lemma_scan_of_digits(text: Seq<char>, words: Seq<Seq<char>>, key_data: (bool, u32))
    requires
        all_digits(text),
    ensures
        scanned(text, words, key_data) == Some(
            ScanState { output: Seq::empty(), pending: text, in_escape: false },
        ),
    decreases text.len(),
{
    if text.len() > 0 {
        let front = text.drop_last();
        lemma_scan_of_digits(front, words, key_data);
        assert(is_digit(text[text.len() - 1]));
        assert(front.push(text.last()) =~= text);
    } else {
        assert(text =~= Seq::<char>::empty());
    }
}

/// An opening brace outside an escape flushes what is pending, and what
/// follows it up to the next brace is written as it stands.
pub proof fn lemma_scan_inside_escape(
    left: Seq<char>,
    inner: Seq<char>,
    words: Seq<Seq<char>>,
    key_data: (bool, u32),
)
    requires
        scanned(left, words, key_data) is Some,
        !scanned(left, words, key_data)->0.in_escape,
        brace_free(inner),
    ensures
        scanned(left.push('{') + inner, words, key_data) == Some(
            ScanState {
                output: scanned(left, words, key_data)->0.flushed(words, key_data) + inner,
                pending: Seq::empty(),
                in_escape: true,
            },
        ),
    decreases inner.len(),
{
    let before = scanned(left, words, key_data)->0;
    let text = left.push('{') + inner;
    if inner.len() > 0 {
        let front = inner.drop_last();
        let c = inner.last();
        assert forall|k: int| 0 <= k < front.len() implies #[trigger] front[k] != '{' && front[k]
            != '}' by {
            assert(front[k] == inner[k]);
        }
        lemma_scan_inside_escape(left, front, words, key_data);
        assert(text.drop_last() =~= left.push('{') + front);
        assert(text.last() == c);
        assert(inner[inner.len() - 1] != '{' && inner[inner.len() - 1] != '}');
        let written = before.flushed(words, key_data);
        assert((written + front).push(c) =~= written + inner);
        let inside = ScanState {
            output: written + front,
            pending: Seq::<char>::empty(),
            in_escape: true,
        };
        assert(scanned(text, words, key_data) == inside.step(c, words, key_data));
    } else {
        assert(text.drop_last() =~= left);
        assert(text.last() == '{');
        assert(!is_digit('{'));
        assert(before.flushed(words, key_data) + inner =~= before.flushed(words, key_data));
        assert(scanned(text, words, key_data) == before.step('{', words, key_data));
    }
}

/// An escape stands between what comes before and after it: its braces go,
/// what is between them is written as it stands, digits included, and the
/// two sides are decoded each by itself.
pub proof fn lemma_decode_around_escape(
    left: Seq<char>,
    inner: Seq<char>,
    right: Seq<char>,
    key_option: Option<u32>,
    words: Seq<Seq<char>>,
)
    requires
        key_option != Some(0u32),
        decoded(left, key_option, words) is Ok,
        !in_escape(left, left.len() as int),
        brace_free(inner),
    ensures
        decoded(left.push('{') + inner.push('}') + right, key_option, words) == (match decoded(
            right,
            key_option,
            words,
        ) {
            Ok(rest) => Ok::<Seq<char>, CipherError>(
                decoded(left, key_option, words)->Ok_0 + inner + rest,
            ),
            Err(e) => Err::<Seq<char>, CipherError>(e),
        }),
{
    let key_data = key_pair(key_option);
    lemma_scan_state(left, words, key_data);
    lemma_scan_inside_escape(left, inner, words, key_data);
    let written = scanned(left, words, key_data)->0.flushed(words, key_data);
    let head = left.push('{') + inner.push('}');
    assert(head.drop_last() =~= left.push('{') + inner);
    assert(head.last() == '}');
    let inside = ScanState {
        output: written + inner,
        pending: Seq::<char>::empty(),
        in_escape: true,
    };
    assert(scanned(head, words, key_data) == inside.step('}', words, key_data));
    lemma_decode_in_pieces(head, right, key_option, words);
    lemma_empty_run_resolves_to_nothing(words, key_data);
    let after = scanned(head, words, key_data)->0;
    assert(after.flushed(words, key_data) =~= written + inner);
}

/// An escape passes through: a text that is one escape decodes to what
/// stands between its braces, whatever the word list and the key.
pub proof fn lemma_escape_passes_through(
    inner: Seq<char>,
    key_option: Option<u32>,
    words: Seq<Seq<char>>,
)
    requires
        brace_free(inner),
        key_option != Some(0u32),
    ensures
        decoded(seq!['{'] + inner + seq!['}'], key_option, words) == Ok::<Seq<char>, CipherError>(
            inner,
        ),
{
    let nothing = Seq::<char>::empty();
    let key_data = key_pair(key_option);
    lemma_empty_run_resolves_to_nothing(words, key_data);
    assert(ScanState::start().flushed(words, key_data) =~= nothing);
    assert(!in_escape(nothing, 0));
    lemma_decode_around_escape(nothing, inner, nothing, key_option, words);
    assert(nothing.push('{') + inner.push('}') + nothing =~= seq!['{'] + inner + seq!['}']);
    assert(nothing + inner + nothing =~= inner);
}

/// A text of digits alone decodes to what its one run resolves to.
pub proof fn lemma_decode_of_digits(
    text: Seq<char>,
    key_option: Option<u32>,
    words: Seq<Seq<char>>,
)
    requires
        all_digits(text),
        key_option != Some(0u32),
    ensures
        decoded(text, key_option, words) == Ok::<Seq<char>, CipherError>(
            solved(words, text, key_pair(key_option)),
        ),
{
    let key_data = key_pair(key_option);
    lemma_scan_of_digits(text, words, key_data);
    let end = scanned(text, words, key_data)->0;
    assert(end.flushed(words, key_data) =~= solved(words, text, key_data));
}

/// A state with `prefix` written before its output.
pub open spec fn with_prefix(prefix: Seq<char>, state: ScanState) -> ScanState {
    ScanState { output: prefix + state.output, ..state }
}

/// The same for a scan that may have failed.
pub open spec fn after_prefix(prefix: Seq<char>, state: Option<ScanState>) -> Option<ScanState> {
    match state {
        Some(s) => Some(with_prefix(prefix, s)),
        None => None,
    }
}

/// A step only adds to the end of the output: what was written before it
/// stays in front.
pub proof fn lemma_step_keeps_prefix(
    prefix: Seq<char>,
    state: ScanState,
    c: char,
    words: Seq<Seq<char>>,
    key_data: (bool, u32),
)
    ensures
        with_prefix(prefix, state).step(c, words, key_data) == after_prefix(
            prefix,
            state.step(c, words, key_data),
        ),
{
    let moved = with_prefix(prefix, state);
    let run = solved(words, state.pending, key_data);
    assert((prefix + state.output).push(c) =~= prefix + state.output.push(c));
    assert(moved.flushed(words, key_data) =~= prefix + state.flushed(words, key_data));
    assert((prefix + state.output + run).push(c) =~= prefix + (state.output + run).push(c));
}

/// Where the scan of `left` ends outside an escape with no digits pending,
/// the scan of a text that goes on after `left` is the scan of the rest,
/// written after the output of `left`.
pub proof fn lemma_scan_resumes(
    left: Seq<char>,
    right: Seq<char>,
    words: Seq<Seq<char>>,
    key_data: (bool, u32),
)
    requires
        scanned(left, words, key_data) is Some,
        scanned(left, words, key_data)->0.mode() == Mode::Scanning,
    ensures
        scanned(left + right, words, key_data) == after_prefix(
            scanned(left, words, key_data)->0.output,
            scanned(right, words, key_data),
        ),
    decreases right.len(),
{
    let end = scanned(left, words, key_data)->0;
    if right.len() == 0 {
        assert(left + right =~= left);
        assert(end.pending =~= Seq::<char>::empty());
        assert(end.output + Seq::<char>::empty() =~= end.output);
    } else {
        let front = right.drop_last();
        lemma_scan_resumes(left, front, words, key_data);
        assert((left + right).drop_last() =~= left + front);
        assert((left + right).last() == right.last());
        match scanned(front, words, key_data) {
            Some(state) => {
                lemma_step_keeps_prefix(end.output, state, right.last(), words, key_data);
            },
            None => {},
        }
    }
}

/// Decoding goes piece by piece, in the order of the text. Where `left` ends
/// outside an escape with no digits pending, a text that goes on after it
/// decodes to what `left` decodes to, followed by what the rest decodes to,
/// and fails where the rest fails.
pub proof fn lemma_decode_in_pieces(
    left: Seq<char>,
    right: Seq<char>,
    key_option: Option<u32>,
    words: Seq<Seq<char>>,
)
    requires
        key_option != Some(0u32),
        scanned(left, words, key_pair(key_option)) is Some,
        scanned(left, words, key_pair(key_option))->0.mode() == Mode::Scanning,
    ensures
        decoded(left, key_option, words) is Ok,
        decoded(left + right, key_option, words) == (match decoded(right, key_option, words) {
            Ok(rest) => Ok::<Seq<char>, CipherError>(
                decoded(left, key_option, words)->Ok_0 + rest,
            ),
            Err(e) => Err::<Seq<char>, CipherError>(e),
        }),
{
    let key_data = key_pair(key_option);
    let end = scanned(left, words, key_data)->0;
    lemma_scan_resumes(left, right, words, key_data);
    lemma_empty_run_resolves_to_nothing(words, key_data);
    assert(end.pending =~= Seq::<char>::empty());
    assert(end.flushed(words, key_data) =~= end.output);
    match scanned(right, words, key_data) {
        Some(state) => {
            let whole = scanned(left + right, words, key_data)->0;
            assert(whole.flushed(words, key_data) =~= end.output + state.flushed(
                words,
                key_data,
            ));
        },
        None => {},
    }
}

/// A character that is no digit and no brace ends the run before it and
/// stands between the two sides' answers: a text that has one outside an
/// escape decodes side by side.
pub proof fn lemma_decode_around_separator(
    left: Seq<char>,
    c: char,
    right: Seq<char>,
    key_option: Option<u32>,
    words: Seq<Seq<char>>,
)
    requires
        key_option != Some(0u32),
        !is_digit(c),
        c != '{',
        c != '}',
        decoded(left, key_option, words) is Ok,
        !in_escape(left, left.len() as int),
    ensures
        decoded(left.push(c) + right, key_option, words) == (match decoded(
            right,
            key_option,
            words,
        ) {
            Ok(rest) => Ok::<Seq<char>, CipherError>(
                decoded(left, key_option, words)->Ok_0.push(c) + rest,
            ),
            Err(e) => Err::<Seq<char>, CipherError>(e),
        }),
{
    let key_data = key_pair(key_option);
    lemma_scan_state(left, words, key_data);
    let before = scanned(left, words, key_data)->0;
    let head = left.push(c);
    assert(head.drop_last() =~= left);
    assert(head.last() == c);
    assert(scanned(head, words, key_data) == before.step(c, words, key_data));
    lemma_decode_in_pieces(head, right, key_option, words);
    lemma_empty_run_resolves_to_nothing(words, key_data);
    let after = scanned(head, words, key_data)->0;
    assert(after.flushed(words, key_data) =~= before.flushed(words, key_data).push(c));
}

/// Resolves `crypt` and writes the answer at the end of `output`.
pub fn append_solution(
    output: &mut String,
    word_list: &[String],
    crypt: &str,
    key_data: (bool, u32),
)
    requires
        no_empty_entry(views_of(word_list@)),
        all_digits(crypt@),
        key_data.0 ==> key_data.1 != 0,
    ensures
        final(output)@ == old(output)@ + solved(views_of(word_list@), crypt@, key_data),
{
    let word = solve(word_list, crypt, key_data);
    output.append(word.as_str());
}

/// Calls `rayon::scope` and, inside it, `Scope::spawn` with one task, which
/// calls `append_solution`. `scope` returns only when every task spawned in
/// it has run to its end, so the contract claims what that one call of
/// `append_solution` ensures: the answer to `crypt` stands at the end of
/// `output` when the wrapper returns.
#[verifier::external_body]
fn append_solution_in_scope(
    output: &mut String,
    word_list: &[String],
    crypt: &str,
    key_data: (bool, u32),
)
    requires
        no_empty_entry(views_of(word_list@)),
        all_digits(crypt@),
        key_data.0 ==> key_data.1 != 0,
    ensures
        final(output)@ == old(output)@ + solved(views_of(word_list@), crypt@, key_data),
{
    rayon::scope(|s| s.spawn(|_| append_solution(output, word_list, crypt, key_data)));
}

/// Decodes a text. Digits outside an escape are gathered into runs, and each
/// run is resolved against the word list, after being rolled back by the key
/// if one is given; what stands between `{` and `}` is copied without the
/// braces; every other character is copied as it is. The pieces come out in
/// the order in which they stand in the text.
///
/// A key of zero is refused, and so is a text that opens an escape inside an
/// escape.
pub fn decode(input: String, key_option: Option<u32>, words: &WordList) -> (result: Result<
    String,
    CipherError,
>)
    ensures
        match result {
            Ok(output) => decoded(input@, key_option, words@) == Ok::<Seq<char>, CipherError>(
                output@,
            ),
            Err(e) => decoded(input@, key_option, words@) == Err::<Seq<char>, CipherError>(e),
        },
        result is Err <==> key_option == Some(0u32) || has_nested_escape(input@),
{
    broadcast use vstd::string::group_string_axioms;

    let key_data: (bool, u32) = match key_option {
        Some(k) => {
            if k == 0 {
                return Err(CipherError::InvalidRotationAmount);
            }
            (true, k)
        },
        None => (false, 0),
    };
    let word_list = words.entries();
    let text = input.as_str();
    let ghost list = words@;
    let mut output = String::new();
    let mut current_crypt = String::new();
    let mut escape_characters = false;
    assert(text@.take(0) =~= Seq::<char>::empty());
    for c in it: text.chars()
        invariant
            it.seq() == text@,
            text@ == input@,
            list == words@,
            key_option != Some(0u32),
            key_data == key_pair(key_option),
            key_data.0 ==> key_data.1 != 0,
            list == views_of(word_list@),
            no_empty_entry(list),
            all_digits(current_crypt@),
            scanned(text@.take(it.index()), list, key_data) == Some(
                ScanState {
                    output: output@,
                    pending: current_crypt@,
                    in_escape: escape_characters,
                },
            ),
    {
        let ghost at = it.index();
        let ghost before = ScanState {
            output: output@,
            pending: current_crypt@,
            in_escape: escape_characters,
        };
        proof {
            assert(text@.take(at + 1).drop_last() =~= text@.take(at));
            assert(text@.take(at + 1).last() == c);
            assert(scanned(text@.take(at + 1), list, key_data) == before.step(c, list, key_data));
            lemma_empty_run_resolves_to_nothing(list, key_data);
        }
        if escape_characters {
            if c == '{' {
                proof {
                    lemma_scan_failure_lasts(text@, at + 1, list, key_data);
                    lemma_scan_fails_on_nesting(text@, list, key_data);
                }
                return Err(CipherError::NestedEscape);
            } else if c == '}' {
                escape_characters = false;
            } else {
                output.push(c);
            }
        } else if '0' <= c && c <= '9' {
            current_crypt.push(c);
        } else if c == '{' {
            if !current_crypt.as_str().is_empty() {
                append_solution_in_scope(&mut output, word_list, current_crypt.as_str(), key_data);
                current_crypt = String::new();
            }
            assert(output@ =~= before.flushed(list, key_data));
            assert(current_crypt@ =~= Seq::<char>::empty());
            escape_characters = true;
        } else if c == '}' {
            // No escape is open: the brace is dropped, and a pending run goes on.
        } else {
            if !current_crypt.as_str().is_empty() {
                append_solution_in_scope(&mut output, word_list, current_crypt.as_str(), key_data);
                current_crypt = String::new();
            }
            assert(output@ =~= before.flushed(list, key_data));
            assert(current_crypt@ =~= Seq::<char>::empty());
            output.push(c);
        }
    }
    assert(text@.take(text@.len() as int) =~= text@);
    proof {
        lemma_empty_run_resolves_to_nothing(list, key_data);
        lemma_scan_fails_on_nesting(text@, list, key_data);
    }
    if !current_crypt.as_str().is_empty() {
        append_solution(&mut output, word_list, current_crypt.as_str(), key_data);
    }
    assert(output@ =~= scanned(text@, list, key_data)->0.flushed(list, key_data));
    Ok(output)
}

} // verus!
