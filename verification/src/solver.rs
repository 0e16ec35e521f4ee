//! The candidate solver: resolves one run of digits to a word of the list by
//! elimination, position by position, or to a placeholder where no word is
//! left.
use vstd::prelude::*;
use vstd::string::*;
use vstd::utf8::{encode_utf8, is_ascii_chars_encode_utf8};
use vstd::set_lib::{lemma_int_range, lemma_len_subset, set_int_range};
use crate::keypad::{digit_could_match_char, digit_matches, is_digit, lemma_only_digits_match};
use crate::roll::{all_digits, unroll_crypt, unrolled_seq};

verus! {

/// The words of a list as sequences of characters, in the list's order.
pub open spec fn views_of(entries: Seq<String>) -> Seq<Seq<char>> {
    Seq::new(entries.len(), |i: int| entries[i]@)
}

/// Whether every word of the list has at least one letter.
pub open spec fn no_empty_entry(words: Seq<Seq<char>>) -> bool {
    forall|i: int| 0 <= i < words.len() ==> (#[trigger] words[i]).len() > 0
}

/// Whether `word` has a letter at `position` that `digit` could stand for.
pub open spec fn letter_fits(word: Seq<char>, position: int, digit: char) -> bool {
    0 <= position < word.len() && digit_matches(digit, word[position])
}

/// Whether `word` is consistent with all of `digits`: it has a letter for
/// each digit, and each digit could stand for the letter at its place. The
/// word may go on after the last digit.
pub open spec fn word_fits(word: Seq<char>, digits: Seq<char>) -> bool {
    forall|k: int| 0 <= k < digits.len() ==> letter_fits(word, k, #[trigger] digits[k])
}

/// The candidate set for `digits`: the places in the list of the words that
/// are consistent with all of them.
pub open spec fn candidates(words: Seq<Seq<char>>, digits: Seq<char>) -> Set<int> {
    Set::new(|i: int| 0 <= i < words.len() && word_fits(words[i], digits))
}

/// The length by which candidates are compared: the number of bytes that the
/// word takes as a string, which for a word of ASCII letters is the number of
/// its letters.
pub open spec fn byte_len(word: Seq<char>) -> nat {
    encode_utf8(word).len()
}

/// Whether the word at place `j` is the one to select from `pool`: it is in
/// the pool, no word of the pool is shorter, and no word of its own length
/// stands before it in the list.
pub open spec fn is_best(words: Seq<Seq<char>>, pool: Set<int>, j: int) -> bool {
    &&& pool.contains(j)
    &&& forall|i: int| #[trigger]
        pool.contains(i) ==> {
            ||| byte_len(words[j]) < byte_len(words[i])
            ||| (byte_len(words[j]) == byte_len(words[i]) && j <= i)
        }
}

/// A run of `n` question marks, which stands for a run of digits that no
/// word matches.
pub open spec fn placeholder(n: nat) -> Seq<char> {
    Seq::new(n, |i: int| '?')
}

/// What a run of digits resolves to: the selected word of its candidate set,
/// or as many question marks as there are digits where the set is empty. An
/// empty run resolves to nothing.
pub open spec fn resolved(words: Seq<Seq<char>>, digits: Seq<char>) -> Seq<char> {
    let pool = candidates(words, digits);
    if digits.len() == 0 || pool.is_empty() {
        placeholder(digits.len())
    } else {
        words[choose|j: int| is_best(words, pool, j)]
    }
}

/// The candidate set is finite: it holds places of the list only.
pub proof fn lemma_candidates_finite(words: Seq<Seq<char>>, digits: Seq<char>)
    ensures
        candidates(words, digits).finite(),
        candidates(words, digits).len() <= words.len(),
{
    lemma_int_range(0, words.len() as int);
    lemma_len_subset(candidates(words, digits), set_int_range(0, words.len() as int));
}

/// One more digit filters the candidate set by the letter at that digit's
/// place, and by nothing else.
pub proof fn lemma_candidates_step(words: Seq<Seq<char>>, digits: Seq<char>, k: int)
    requires
        0 <= k < digits.len(),
    ensures
        candidates(words, digits.take(k + 1)) == candidates(words, digits.take(k)).filter(
            |i: int| letter_fits(words[i], k, digits[k]),
        ),
{
    let before = candidates(words, digits.take(k));
    let after = candidates(words, digits.take(k + 1));
    let kept = before.filter(|i: int| letter_fits(words[i], k, digits[k]));
    assert forall|i: int| after.contains(i) implies kept.contains(i) by {
        assert(digits.take(k + 1)[k] == digits[k]);
        assert forall|m: int| 0 <= m < k implies letter_fits(
            words[i],
            m,
            #[trigger] digits.take(k)[m],
        ) by {
            assert(digits.take(k + 1)[m] == digits.take(k)[m]);
        }
    }
    assert forall|i: int| kept.contains(i) implies after.contains(i) by {
        assert forall|m: int| 0 <= m < k + 1 implies letter_fits(
            words[i],
            m,
            #[trigger] digits.take(k + 1)[m],
        ) by {
            if m < k {
                assert(digits.take(k + 1)[m] == digits.take(k)[m]);
            }
        }
    }
    assert(after =~= kept);
}

/// The candidate set only shrinks as digits are consumed: the set for a
/// longer run of the same digits is part of the set for a shorter one, is no
/// larger, and is empty once the shorter one's is.
pub proof fn lemma_candidates_shrink(words: Seq<Seq<char>>, digits: Seq<char>, k: int, m: int)
    requires
        0 <= k <= m <= digits.len(),
    ensures
        candidates(words, digits.take(m)).subset_of(candidates(words, digits.take(k))),
        candidates(words, digits.take(m)).len() <= candidates(words, digits.take(k)).len(),
        candidates(words, digits.take(k)).is_empty() ==> candidates(
            words,
            digits.take(m),
        ).is_empty(),
{
    let wide = candidates(words, digits.take(k));
    let tight = candidates(words, digits.take(m));
    assert forall|i: int| tight.contains(i) implies wide.contains(i) by {
        assert forall|n: int| 0 <= n < k implies letter_fits(
            words[i],
            n,
            #[trigger] digits.take(k)[n],
        ) by {
            assert(digits.take(m)[n] == digits.take(k)[n]);
        }
    }
    lemma_candidates_finite(words, digits.take(k));
    lemma_len_subset(tight, wide);
}

/// Every candidate has a letter for each digit: none is shorter than the run
/// of digits, counted in letters or in bytes.
pub proof fn lemma_candidates_cover_digits(words: Seq<Seq<char>>, digits: Seq<char>, i: int)
    requires
        candidates(words, digits).contains(i),
    ensures
        words[i].len() >= digits.len(),
        byte_len(words[i]) >= digits.len(),
{
    if digits.len() > 0 {
        let last = digits.len() - 1;
        assert(letter_fits(words[i], last, digits[last]));
    }
    lemma_byte_len_bounds(words[i]);
}

/// A word takes at least one byte for each of its characters.
pub proof fn lemma_byte_len_bounds(word: Seq<char>)
    ensures
        byte_len(word) >= word.len(),
    decreases word.len(),
{
    if word.len() > 0 {
        lemma_byte_len_bounds(word.drop_first());
    }
}

/// At most one place of a pool is the best: the selection is determined by
/// the list and the pool.
pub proof fn lemma_best_is_unique(words: Seq<Seq<char>>, pool: Set<int>, a: int, b: int)
    requires
        is_best(words, pool, a),
        is_best(words, pool, b),
    ensures
        a == b,
{
}

/// Whether the word at place `j` is the one to select among the places of
/// `pool` below `limit`.
spec fn is_best_below(words: Seq<Seq<char>>, pool: Set<int>, limit: int, j: int) -> bool {
    &&& pool.contains(j)
    &&& 0 <= j < limit
    &&& forall|i: int| #[trigger]
        pool.contains(i) && 0 <= i < limit ==> {
            ||| byte_len(words[j]) < byte_len(words[i])
            ||| (byte_len(words[j]) == byte_len(words[i]) && j <= i)
        }
}

proof fn lemma_best_exists_below(words: Seq<Seq<char>>, pool: Set<int>, limit: int)
    requires
        0 <= limit,
        exists|i: int| #[trigger] pool.contains(i) && 0 <= i < limit,
    ensures
        exists|j: int| is_best_below(words, pool, limit, j),
    decreases limit,
{
    let top = limit - 1;
    if exists|i: int| #[trigger] pool.contains(i) && 0 <= i < top {
        lemma_best_exists_below(words, pool, top);
        let j = choose|j: int| is_best_below(words, pool, top, j);
        if pool.contains(top) && byte_len(words[top]) < byte_len(words[j]) {
            assert(is_best_below(words, pool, limit, top));
        } else {
            assert(is_best_below(words, pool, limit, j));
        }
    } else {
        assert(pool.contains(top));
        assert(is_best_below(words, pool, limit, top));
    }
}

/// A pool of places of the list that is not empty has a best place: some
/// word is the shortest, and of several the first.
pub proof fn lemma_best_exists(words: Seq<Seq<char>>, pool: Set<int>)
    requires
        !pool.is_empty(),
        forall|i: int| #[trigger] pool.contains(i) ==> 0 <= i < words.len(),
    ensures
        exists|j: int| is_best(words, pool, j),
{
    let some = choose|i: int| pool.contains(i);
    assert(pool.contains(some));
    lemma_best_exists_below(words, pool, words.len() as int);
    let j = choose|j: int| is_best_below(words, pool, words.len() as int, j);
    assert(is_best(words, pool, j));
}

/// Where words are left, the answer is the best of them: a word of the list
/// that is consistent with every digit.
pub proof fn lemma_resolved_is_best(words: Seq<Seq<char>>, digits: Seq<char>) -> (j: int)
    requires
        digits.len() > 0,
        !candidates(words, digits).is_empty(),
    ensures
        is_best(words, candidates(words, digits), j),
        0 <= j < words.len(),
        word_fits(words[j], digits),
        resolved(words, digits) == words[j],
{
    let pool = candidates(words, digits);
    lemma_best_exists(words, pool);
    choose|j: int| is_best(words, pool, j)
}

/// Whether `answer` is an answer to `digits`: the placeholder where the run is
/// empty or no word is consistent with it, and otherwise the word at a best
/// place of the candidate set.
pub open spec fn is_answer(words: Seq<Seq<char>>, digits: Seq<char>, answer: Seq<char>) -> bool {
    let pool = candidates(words, digits);
    if digits.len() == 0 || pool.is_empty() {
        answer == placeholder(digits.len())
    } else {
        exists|j: int| #[trigger] is_best(words, pool, j) && answer == words[j]
    }
}

/// Every run of digits has exactly one answer, and `resolved` is it: the
/// same list and the same digits give the same answer.
pub proof fn lemma_answer_is_determined(
    words: Seq<Seq<char>>,
    digits: Seq<char>,
    answer: Seq<char>,
)
    ensures
        is_answer(words, digits, resolved(words, digits)),
        is_answer(words, digits, answer) ==> answer == resolved(words, digits),
{
    let pool = candidates(words, digits);
    if digits.len() > 0 && !pool.is_empty() {
        let chosen = lemma_resolved_is_best(words, digits);
        if is_answer(words, digits, answer) {
            let j = choose|j: int| #[trigger] is_best(words, pool, j) && answer == words[j];
            lemma_best_is_unique(words, pool, j, chosen);
        }
    }
}

/// Where no word is consistent with the digits, the answer is one question
/// mark for each digit.
pub proof fn lemma_no_match_gives_placeholder(words: Seq<Seq<char>>, digits: Seq<char>)
    requires
        candidates(words, digits).is_empty(),
    ensures
        resolved(words, digits) == placeholder(digits.len()),
        resolved(words, digits).len() == digits.len(),
        forall|i: int| 0 <= i < digits.len() ==> #[trigger] resolved(words, digits)[i] == '?',
{
}

/// A word that is consistent with the digits and has a letter for each of
/// them and no more is preferred to every longer one: the first such word of
/// the list is the answer.
pub proof fn lemma_first_complete_match_is_chosen(
    words: Seq<Seq<char>>,
    digits: Seq<char>,
    j: int,
)
    requires
        digits.len() > 0,
        candidates(words, digits).contains(j),
        words[j].len() == digits.len(),
        forall|i: int|
            0 <= i < j && #[trigger] candidates(words, digits).contains(i) ==> words[i].len()
                != digits.len(),
    ensures
        is_best(words, candidates(words, digits), j),
        resolved(words, digits) == words[j],
{
    let pool = candidates(words, digits);
    let word = words[j];
    assert forall|k: int| 0 <= k < word.len() implies '\0' <= #[trigger] word[k] <= '\u{7f}' by {
        assert(letter_fits(word, k, digits[k]));
        lemma_only_digits_match(digits[k], word[k]);
    }
    is_ascii_chars_encode_utf8(word);
    assert(byte_len(word) == digits.len());
    assert forall|i: int| #[trigger] pool.contains(i) implies {
        ||| byte_len(words[j]) < byte_len(words[i])
        ||| (byte_len(words[j]) == byte_len(words[i]) && j <= i)
    } by {
        lemma_candidates_cover_digits(words, digits, i);
        lemma_byte_len_bounds(words[i]);
    }
    assert(is_best(words, pool, j));
    let chosen = choose|b: int| is_best(words, pool, b);
    lemma_best_is_unique(words, pool, j, chosen);
}

/// The digits that a run stands for under a key: where `key_data.0` is set,
/// each digit rolled back by `key_data.1`, and the run itself otherwise.
pub open spec fn plain_digits(crypt: Seq<char>, key_data: (bool, u32)) -> Seq<char> {
    if key_data.0 {
        unrolled_seq(crypt, key_data.1 as nat)
    } else {
        crypt
    }
}

/// What a run of digits resolves to under a key.
pub open spec fn solved(words: Seq<Seq<char>>, crypt: Seq<char>, key_data: (bool, u32)) -> Seq<
    char,
> {
    resolved(words, plain_digits(crypt, key_data))
}

/// Whether `place` occurs among the first `upto` entries of `places`.
spec fn occurs(places: Seq<usize>, upto: int, place: int) -> bool {
    exists|k: int| 0 <= k < upto && k < places.len() && #[trigger] places[k] == place
}

/// Whether the entries of `places` grow strictly from each to the next.
spec fn ascending(places: Seq<usize>) -> bool {
    forall|a: int, b: int| 0 <= a < b < places.len() ==> #[trigger] places[a] < #[trigger] places[b]
}

/// The working set of one resolution: the places in the word list of the
/// words that are still consistent with the digits consumed so far. The
/// places are kept in the list's order, each once.
pub struct CandidateSet {
    indices: Vec<usize>,
}

impl View for CandidateSet {
    type V = Set<int>;

    closed spec fn view(&self) -> Set<int> {
        Set::new(|i: int| occurs(self.indices@, self.indices@.len() as int, i))
    }
}

impl CandidateSet {
    #[verifier::type_invariant]
    spec fn ordered(&self) -> bool {
        ascending(self.indices@)
    }

    /// Whether every place of the set lies inside a list of `limit` words.
    pub open spec fn within(&self, limit: nat) -> bool {
        forall|i: int| #[trigger] self@.contains(i) ==> 0 <= i < limit
    }

    proof fn lemma_view_len(&self)
        requires
            self.ordered(),
        ensures
            self@.finite(),
            self@.len() == self.indices@.len(),
    {
        let places = self.indices@.map_values(|x: usize| x as int);
        assert forall|a: int, b: int| 0 <= a < places.len() && 0 <= b < places.len() && a != b
            implies places[a] != places[b] by {
            if a < b {
                assert(self.indices@[a] < self.indices@[b]);
            } else {
                assert(self.indices@[b] < self.indices@[a]);
            }
        }
        places.unique_seq_to_set();
        vstd::seq_lib::seq_to_set_is_finite(places);
        assert forall|i: int| self@.contains(i) implies places.to_set().contains(i) by {
            let k = choose|k: int|
                0 <= k < self.indices@.len() && #[trigger] self.indices@[k] == i;
            assert(places[k] == i);
        }
        assert forall|i: int| places.to_set().contains(i) implies self@.contains(i) by {
            let k = choose|k: int| 0 <= k < places.len() && places[k] == i;
            assert(self.indices@[k] == i);
        }
        assert(self@ =~= places.to_set());
    }

    /// Seeds the set from the first digit: the one pass over the whole list.
    /// It holds every word whose first letter the digit could stand for.
    pub fn seed(words: &[String], digit: char) -> (set: CandidateSet)
        requires
            is_digit(digit),
            no_empty_entry(views_of(words@)),
        ensures
            set@ == candidates(views_of(words@), seq![digit]),
            set.within(words@.len()),
    {
        let ghost list = views_of(words@);
        let mut indices: Vec<usize> = Vec::new();
        let mut i: usize = 0;
        while i < words.len()
            invariant
                i <= words.len(),
                list == views_of(words@),
                no_empty_entry(list),
                is_digit(digit),
                ascending(indices@),
                forall|k: int| 0 <= k < indices@.len() ==> #[trigger] indices@[k] < i,
                forall|k: int|
                    0 <= k < indices@.len() ==> letter_fits(
                        list[#[trigger] indices@[k] as int],
                        0,
                        digit,
                    ),
                forall|j: int|
                    0 <= j < i && letter_fits(#[trigger] list[j], 0, digit) ==> occurs(
                        indices@,
                        indices@.len() as int,
                        j,
                    ),
            decreases words.len() - i,
        {
            let word = words[i].as_str();
            assert(word@ == list[i as int]);
            let first = word.get_char(0);
            if digit_could_match_char(digit, first) {
                let ghost before = indices@;
                indices.push(i);
                assert forall|j: int|
                    0 <= j < i + 1 && letter_fits(#[trigger] list[j], 0, digit) implies occurs(
                    indices@,
                    indices@.len() as int,
                    j,
                ) by {
                    if j < i {
                        let k = choose|k: int|
                            0 <= k < before.len() && #[trigger] before[k] == j;
                        assert(indices@[k] == j);
                    } else {
                        assert(indices@[before.len() as int] == j);
                    }
                }
            }
            i = i + 1;
        }
        let set = CandidateSet { indices };
        proof {
            let first = seq![digit];
            assert forall|j: int| set@.contains(j) implies candidates(list, first).contains(j) by {
                let k = choose|k: int|
                    0 <= k < set.indices@.len() && #[trigger] set.indices@[k] == j;
                assert(letter_fits(list[set.indices@[k] as int], 0, digit));
            }
            assert forall|j: int| candidates(list, first).contains(j) implies set@.contains(j) by {
                assert(letter_fits(list[j], 0, first[0]));
            }
            assert(set@ =~= candidates(list, first));
        }
        set
    }

    /// Consumes one more digit: keeps the candidates that have a letter at
    /// `position` which `digit` could stand for, and drops the rest, those
    /// that have run out of letters among them. The result is a fresh set;
    /// it is part of this one and no larger.
    pub fn narrow(&self, words: &[String], position: usize, digit: char) -> (next: CandidateSet)
        requires
            is_digit(digit),
            self.within(words@.len()),
        ensures
            next@ == self@.filter(
                |i: int| letter_fits(views_of(words@)[i], position as int, digit),
            ),
            next@.subset_of(self@),
            next@.len() <= self@.len(),
            self@.is_empty() ==> next@.is_empty(),
            next.within(words@.len()),
    {
        proof {
            use_type_invariant(self);
            self.lemma_view_len();
            assert forall|k: int| 0 <= k < self.indices@.len() implies #[trigger] self.indices@[k]
                < words@.len() by {
                assert(self@.contains(self.indices@[k] as int));
            }
        }
        let ghost list = views_of(words@);
        let mut indices: Vec<usize> = Vec::new();
        let mut at: usize = 0;
        while at < self.indices.len()
            invariant
                at <= self.indices@.len(),
                list == views_of(words@),
                is_digit(digit),
                ascending(self.indices@),
                forall|k: int|
                    0 <= k < self.indices@.len() ==> #[trigger] self.indices@[k] < words@.len(),
                ascending(indices@),
                forall|k: int|
                    0 <= k < indices@.len() ==> occurs(
                        self.indices@,
                        at as int,
                        #[trigger] indices@[k] as int,
                    ),
                forall|k: int|
                    0 <= k < indices@.len() ==> letter_fits(
                        list[#[trigger] indices@[k] as int],
                        position as int,
                        digit,
                    ),
                forall|m: int|
                    0 <= m < at && letter_fits(
                        list[#[trigger] self.indices@[m] as int],
                        position as int,
                        digit,
                    ) ==> occurs(indices@, indices@.len() as int, self.indices@[m] as int),
            decreases self.indices@.len() - at,
        {
            let place = self.indices[at];
            let word = words[place].as_str();
            assert(word@ == list[place as int]);
            let keep = position < word.unicode_len() && digit_could_match_char(
                digit,
                word.get_char(position),
            );
            if keep {
                let ghost before = indices@;
                indices.push(place);
                assert(ascending(indices@)) by {
                    assert forall|a: int, b: int| 0 <= a < b < indices@.len() implies #[trigger]
                        indices@[a] < #[trigger] indices@[b] by {
                        if b == before.len() {
                            assert(occurs(self.indices@, at as int, before[a] as int));
                            let m = choose|m: int|
                                0 <= m < at && m < self.indices@.len()
                                    && #[trigger] self.indices@[m] == before[a] as int;
                            assert(self.indices@[m] < self.indices@[at as int]);
                        } else {
                            assert(before[a] < before[b]);
                        }
                    }
                }
                assert forall|k: int| 0 <= k < indices@.len() implies occurs(
                    self.indices@,
                    at + 1,
                    #[trigger] indices@[k] as int,
                ) by {
                    if k < before.len() {
                        assert(occurs(self.indices@, at as int, before[k] as int));
                        let m = choose|m: int|
                            0 <= m < at && m < self.indices@.len()
                                && #[trigger] self.indices@[m] == before[k] as int;
                        assert(self.indices@[m] == indices@[k]);
                    } else {
                        assert(self.indices@[at as int] == indices@[k]);
                    }
                }
                assert forall|m: int|
                    0 <= m < at + 1 && letter_fits(
                        list[#[trigger] self.indices@[m] as int],
                        position as int,
                        digit,
                    ) implies occurs(indices@, indices@.len() as int, self.indices@[m] as int) by {
                    if m < at {
                        assert(occurs(before, before.len() as int, self.indices@[m] as int));
                        let k = choose|k: int|
                            0 <= k < before.len() && #[trigger] before[k] == self.indices@[m];
                        assert(indices@[k] == self.indices@[m]);
                    } else {
                        assert(indices@[before.len() as int] == self.indices@[m]);
                    }
                }
            } else {
                assert forall|k: int| 0 <= k < indices@.len() implies occurs(
                    self.indices@,
                    at + 1,
                    #[trigger] indices@[k] as int,
                ) by {
                    assert(occurs(self.indices@, at as int, indices@[k] as int));
                    let m = choose|m: int|
                        0 <= m < at && m < self.indices@.len()
                            && #[trigger] self.indices@[m] == indices@[k] as int;
                    assert(self.indices@[m] == indices@[k]);
                }
            }
            at = at + 1;
        }
        let next = CandidateSet { indices };
        proof {
            let kept = self@.filter(|i: int| letter_fits(list[i], position as int, digit));
            assert forall|j: int| next@.contains(j) implies kept.contains(j) by {
                let k = choose|k: int|
                    0 <= k < next.indices@.len() && #[trigger] next.indices@[k] == j;
                assert(occurs(self.indices@, at as int, next.indices@[k] as int));
                assert(letter_fits(list[next.indices@[k] as int], position as int, digit));
            }
            assert forall|j: int| kept.contains(j) implies next@.contains(j) by {
                let m = choose|m: int|
                    0 <= m < self.indices@.len() && #[trigger] self.indices@[m] == j;
                assert(letter_fits(list[self.indices@[m] as int], position as int, digit));
            }
            assert(next@ =~= kept);
            lemma_len_subset(next@, self@);
        }
        next
    }

    /// The number of candidates left.
    pub fn len(&self) -> (n: usize)
        ensures
            self@.finite(),
            n == self@.len(),
    {
        proof {
            use_type_invariant(self);
            self.lemma_view_len();
        }
        self.indices.len()
    }

    /// Whether no candidate is left.
    pub fn is_empty(&self) -> (none: bool)
        ensures
            none == self@.is_empty(),
    {
        proof {
            use_type_invariant(self);
            self.lemma_view_len();
            if self.indices@.len() > 0 {
                assert(self@.contains(self.indices@[0] as int));
            }
        }
        self.indices.len() == 0
    }

    /// Picks the word to answer with: the shortest candidate, and of several
    /// of that length the one that stands first in the list. `None` where no
    /// candidate is left.
    pub fn select(&self, words: &[String]) -> (choice: Option<usize>)
        requires
            self.within(words@.len()),
        ensures
            match choice {
                Some(j) => j < words@.len() && is_best(views_of(words@), self@, j as int),
                None => self@.is_empty(),
            },
    {
        proof {
            use_type_invariant(self);
            self.lemma_view_len();
            assert forall|k: int| 0 <= k < self.indices@.len() implies #[trigger] self.indices@[k]
                < words@.len() by {
                assert(self@.contains(self.indices@[k] as int));
            }
        }
        if self.indices.len() == 0 {
            return None;
        }
        let ghost list = views_of(words@);
        let mut best: usize = self.indices[0];
        let mut best_len: usize = words[best].as_str().as_bytes().len();
        let mut at: usize = 1;
        while at < self.indices.len()
            invariant
                1 <= at <= self.indices@.len(),
                list == views_of(words@),
                ascending(self.indices@),
                forall|k: int|
                    0 <= k < self.indices@.len() ==> #[trigger] self.indices@[k] < words@.len(),
                occurs(self.indices@, at as int, best as int),
                best < words@.len(),
                best_len == byte_len(list[best as int]),
                forall|m: int|
                    0 <= m < at ==> {
                        ||| best_len < byte_len(list[#[trigger] self.indices@[m] as int])
                        ||| (best_len == byte_len(list[self.indices@[m] as int]) && best
                            <= self.indices@[m])
                    },
            decreases self.indices@.len() - at,
        {
            let place = self.indices[at];
            let place_len = words[place].as_str().as_bytes().len();
            proof {
                let m = choose|m: int|
                    0 <= m < at && m < self.indices@.len() && #[trigger] self.indices@[m] == best;
                assert(self.indices@[m] < self.indices@[at as int]);
            }
            if place_len < best_len {
                best = place;
                best_len = place_len;
            }
            at = at + 1;
        }
        proof {
            assert forall|i: int| #[trigger] self@.contains(i) implies {
                ||| byte_len(list[best as int]) < byte_len(list[i])
                ||| (byte_len(list[best as int]) == byte_len(list[i]) && best <= i)
            } by {
                let m = choose|m: int|
                    0 <= m < self.indices@.len() && #[trigger] self.indices@[m] == i;
                assert(self.indices@[m] == i);
            }
        }
        Some(best)
    }
}

/// Writes the placeholder for a run of `n` digits: `n` question marks.
pub fn question_marks(n: usize) -> (marks: String)
    ensures
        marks@ == placeholder(n as nat),
{
    let mut marks = String::new();
    let mut written: usize = 0;
    while written < n
        invariant
            written <= n,
            marks@ == placeholder(written as nat),
        decreases n - written,
    {
        marks.push('?');
        written = written + 1;
        assert(marks@ =~= placeholder(written as nat));
    }
    marks
}

/// Resolves one run of digits against the word list. Where `key_data.0` is
/// set the digits are first rolled back by the key `key_data.1`. The
/// candidate set is seeded from the first digit and narrowed by each further
/// one; the answer is the shortest word left, the first of several in the
/// list's order, or one question mark for each digit where none is left.
pub fn solve(word_list: &[String], crypt: &str, key_data: (bool, u32)) -> (solution: String)
    requires
        no_empty_entry(views_of(word_list@)),
        all_digits(crypt@),
        key_data.0 ==> key_data.1 != 0,
    ensures
        solution@ == solved(views_of(word_list@), crypt@, key_data),
        candidates(views_of(word_list@), plain_digits(crypt@, key_data)).is_empty()
            ==> solution@ == placeholder(crypt@.len()),
{
    let ghost list = views_of(word_list@);
    let digits: String = if key_data.0 {
        unroll_crypt(crypt.to_owned(), key_data.1)
    } else {
        crypt.to_owned()
    };
    let run = digits.as_str();
    let n = run.unicode_len();
    if n == 0 {
        assert(run@ =~= Seq::<char>::empty());
        return question_marks(0);
    }
    let mut pool = CandidateSet::seed(word_list, run.get_char(0));
    let mut position: usize = 1;
    assert(run@.take(1) =~= seq![run@[0]]);
    while position < n
        invariant
            1 <= position <= n,
            n == run@.len(),
            all_digits(run@),
            list == views_of(word_list@),
            pool.within(word_list@.len()),
            pool@ == candidates(list, run@.take(position as int)),
        decreases n - position,
    {
        proof {
            lemma_candidates_step(list, run@, position as int);
        }
        pool = pool.narrow(word_list, position, run.get_char(position));
        position = position + 1;
    }
    assert(run@.take(n as int) =~= run@);
    match pool.select(word_list) {
        Some(j) => {
            proof {
                let chosen = choose|j: int| is_best(list, pool@, j);
                lemma_best_is_unique(list, pool@, j as int, chosen);
            }
            word_list[j].clone()
        },
        None => question_marks(n),
    }
}

} // verus!
