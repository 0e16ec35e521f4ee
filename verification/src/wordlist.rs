//! The word list: loaded once, checked once, and read by every resolution.
use vstd::prelude::*;
use crate::error::CipherError;
use crate::solver::{no_empty_entry, views_of};

verus! {

/// The lines of a text: the pieces between its line feeds, in order. A text
/// with `n` line feeds has `n + 1` lines, so a text that ends in a line feed
/// has an empty last line.
pub open spec fn lines_of(text: Seq<char>) -> Seq<Seq<char>>
    decreases text.len(),
{
    if text.len() == 0 {
        seq![Seq::empty()]
    } else {
        let before = lines_of(text.drop_last());
        if text.last() == '\n' {
            before.push(Seq::empty())
        } else {
            before.drop_last().push(before.last().push(text.last()))
        }
    }
}

/// The text that has the given lines: the lines in order, with one line feed
/// between each two of them.
pub open spec fn joined(lines: Seq<Seq<char>>) -> Seq<char>
    decreases lines.len(),
{
    if lines.len() == 0 {
        Seq::empty()
    } else if lines.len() == 1 {
        lines[0]
    } else {
        joined(lines.drop_last()).push('\n') + lines.last()
    }
}

/// Whether no line holds a line feed.
pub open spec fn feed_free(lines: Seq<Seq<char>>) -> bool {
    forall|i: int, k: int|
        0 <= i < lines.len() && 0 <= k < lines[i].len() ==> #[trigger] lines[i][k] != '\n'
}

/// The lines of a text hold no line feed, and joined again they give the
/// text.
pub proof fn lemma_lines_join_to_text(text: Seq<char>)
    ensures
        lines_of(text).len() >= 1,
        feed_free(lines_of(text)),
        joined(lines_of(text)) == text,
    decreases text.len(),
{
    let lines = lines_of(text);
    if text.len() == 0 {
        assert(joined(lines) =~= text);
    } else {
        let front = text.drop_last();
        let c = text.last();
        let before = lines_of(front);
        lemma_lines_join_to_text(front);
        assert(front.push(c) =~= text);
        if c == '\n' {
            assert(lines.drop_last() =~= before);
            assert(joined(lines) =~= joined(before).push('\n'));
            assert forall|i: int, k: int|
                0 <= i < lines.len() && 0 <= k < lines[i].len() implies #[trigger] lines[i][k]
                != '\n' by {
                assert(lines[i] == before[i]);
            }
        } else {
            let grown = before.last().push(c);
            assert forall|i: int, k: int|
                0 <= i < lines.len() && 0 <= k < lines[i].len() implies #[trigger] lines[i][k]
                != '\n' by {
                if i < lines.len() - 1 {
                    assert(lines[i] == before[i]);
                } else if k < before.last().len() {
                    assert(lines[i][k] == before[before.len() - 1][k]);
                }
            }
            if before.len() == 1 {
                assert(joined(lines) =~= joined(before).push(c));
            } else {
                assert(lines.drop_last() =~= before.drop_last());
                assert(joined(lines) =~= (joined(before.drop_last()).push('\n')
                    + before.last()).push(c));
            }
        }
    }
}

/// A text without a line feed is one line.
pub proof fn lemma_one_line(line: Seq<char>)
    requires
        forall|k: int| 0 <= k < line.len() ==> #[trigger] line[k] != '\n',
    ensures
        lines_of(line) == seq![line],
    decreases line.len(),
{
    if line.len() == 0 {
        assert(lines_of(line) =~~= seq![line]);
    } else {
        let front = line.drop_last();
        lemma_one_line(front);
        assert(front.push(line.last()) =~= line);
        assert(line[line.len() - 1] != '\n');
        assert(seq![front].drop_last().push(seq![front].last().push(line.last())) =~~= seq![line]);
    }
}

/// Splitting undoes joining: the lines of the text joined from lines without
/// a line feed are those lines. With the law before, a text and its lines
/// determine each other.
pub proof fn lemma_lines_of_joined(lines: Seq<Seq<char>>)
    requires
        lines.len() >= 1,
        feed_free(lines),
    ensures
        lines_of(joined(lines)) == lines,
    decreases lines.len(), lines.last().len(),
{
    let last = lines.last();
    assert forall|k: int| 0 <= k < last.len() implies #[trigger] last[k] != '\n' by {
        assert(lines[lines.len() - 1][k] != '\n');
    }
    if lines.len() == 1 {
        lemma_one_line(lines[0]);
        assert(seq![lines[0]] =~= lines);
    } else {
        let front = lines.drop_last();
        assert forall|i: int, k: int|
            0 <= i < front.len() && 0 <= k < front[i].len() implies #[trigger] front[i][k]
            != '\n' by {
            assert(lines[i][k] != '\n');
        }
        if last.len() == 0 {
            lemma_lines_of_joined(front);
            let text = joined(lines);
            assert(text =~= joined(front).push('\n'));
            assert(text.drop_last() =~= joined(front));
            assert(front.push(Seq::<char>::empty()) =~~= lines);
        } else {
            let c = last.last();
            let shorter = front.push(last.drop_last());
            assert forall|i: int, k: int|
                0 <= i < shorter.len() && 0 <= k < shorter[i].len() implies #[trigger] shorter[i][k]
                != '\n' by {
                if i < front.len() {
                    assert(lines[i][k] != '\n');
                } else {
                    assert(shorter[i][k] == lines[lines.len() - 1][k]);
                }
            }
            lemma_lines_of_joined(shorter);
            let text = joined(lines);
            assert(shorter.drop_last() =~= front);
            assert(text.drop_last() =~= joined(shorter));
            assert(text.last() == c);
            assert(last.drop_last().push(c) =~= last);
            assert(shorter.drop_last().push(shorter.last().push(c)) =~~= lines);
        }
    }
}

/// Splits a text at its line feeds.
pub fn split_lines(contents: &str) -> (lines: Vec<String>)
    ensures
        views_of(lines@) == lines_of(contents@),
{
    broadcast use vstd::string::group_string_axioms;

    let mut lines: Vec<String> = Vec::new();
    let mut current = String::new();
    assert(views_of(lines@).push(current@) =~= lines_of(contents@.take(0)));
    for c in it: contents.chars()
        invariant
            it.seq() == contents@,
            views_of(lines@).push(current@) == lines_of(contents@.take(it.index())),
    {
        let ghost before = contents@.take(it.index());
        let ghost after = contents@.take(it.index() + 1);
        assert(after.drop_last() =~= before);
        assert(after.last() == c);
        if c == '\n' {
            lines.push(current);
            current = String::new();
            assert(views_of(lines@).push(current@) =~= lines_of(before).push(Seq::empty()));
        } else {
            let ghost line = current@;
            current.push(c);
            assert(views_of(lines@).push(current@) =~= lines_of(before).drop_last().push(
                line.push(c),
            ));
        }
    }
    assert(contents@.take(contents@.len() as int) =~= contents@);
    lines.push(current);
    lines
}

/// Looks for an entry without a letter: the place of the first one, or
/// `None` where every entry has one.
pub fn first_empty_entry(entries: &[String]) -> (found: Option<usize>)
    ensures
        match found {
            Some(i) => {
                &&& i < entries@.len()
                &&& entries@[i as int]@.len() == 0
                &&& forall|j: int| 0 <= j < i ==> (#[trigger] entries@[j])@.len() > 0
            },
            None => no_empty_entry(views_of(entries@)),
        },
{
    let mut i: usize = 0;
    while i < entries.len()
        invariant
            i <= entries@.len(),
            forall|j: int| 0 <= j < i ==> (#[trigger] entries@[j])@.len() > 0,
        decreases entries@.len() - i,
    {
        if entries[i].as_str().is_empty() {
            return Some(i);
        }
        i = i + 1;
    }
    assert forall|j: int| 0 <= j < views_of(entries@).len() implies (#[trigger] views_of(
        entries@,
    )[j]).len() > 0 by {
        assert(entries@[j]@.len() > 0);
    }
    None
}

/// A word list that has passed its check: an ordered list of words, none of
/// them empty. It is built once and only read afterwards.
pub struct WordList {
    entries: Vec<String>,
}

impl View for WordList {
    type V = Seq<Seq<char>>;

    closed spec fn view(&self) -> Seq<Seq<char>> {
        views_of(self.entries@)
    }
}

impl WordList {
    #[verifier::type_invariant]
    spec fn filled(&self) -> bool {
        no_empty_entry(views_of(self.entries@))
    }

    /// Takes the entries as the word list if none of them is empty, and
    /// refuses them otherwise.
    pub fn new(entries: Vec<String>) -> (loaded: Result<WordList, CipherError>)
        ensures
            match loaded {
                Ok(list) => list@ == views_of(entries@) && no_empty_entry(list@),
                Err(e) => e == CipherError::EmptyWordListEntry && !no_empty_entry(
                    views_of(entries@),
                ),
            },
    {
        match first_empty_entry(entries.as_slice()) {
            Some(i) => {
                assert(views_of(entries@)[i as int].len() == 0);
                Err(CipherError::EmptyWordListEntry)
            },
            None => Ok(WordList { entries }),
        }
    }

    /// Reads a word list from a text with one word on each line. A text with
    /// an empty line is refused, one that ends in a line feed among them.
    pub fn from_text(contents: &str) -> (loaded: Result<WordList, CipherError>)
        ensures
            match loaded {
                Ok(list) => list@ == lines_of(contents@) && no_empty_entry(list@),
                Err(e) => e == CipherError::EmptyWordListEntry && !no_empty_entry(
                    lines_of(contents@),
                ),
            },
    {
        WordList::new(split_lines(contents))
    }

    /// The words, in order.
    pub fn entries(&self) -> (words: &[String])
        ensures
            views_of(words@) == self@,
            no_empty_entry(self@),
    {
        proof {
            use_type_invariant(self);
        }
        self.entries.as_slice()
    }

    /// The number of words.
    pub fn len(&self) -> (n: usize)
        ensures
            n == self@.len(),
    {
        self.entries.len()
    }
}

} // verus!
