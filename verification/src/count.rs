//! Counting the lines, words, characters and bytes of a text.
use vstd::prelude::*;
use vstd::string::StringSliceAdditionalSpecFns;
use crate::text::{is_space, is_whitespace};

verus! {

/// The counts of a text.
#[derive(Debug, Clone, Copy, PartialEq, Eq, Structural)]
pub struct Counts {
    pub lines: usize,
    pub words: usize,
    pub chars: usize,
    pub bytes: usize,
}

/// How many line feeds `text` holds.
pub open spec fn line_feeds(text: Seq<char>) -> nat
    decreases text.len(),
{
    if text.len() == 0 {
        0
    } else {
        line_feeds(text.drop_last()) + if text.last() == '\n' {
            1nat
        } else {
            0nat
        }
    }
}

/// The number of lines of `text`: each line feed ends a line, and what
/// stands behind the last line feed is a line if it is not empty.
pub open spec fn line_count(text: Seq<char>) -> nat {
    line_feeds(text) + if text.len() > 0 && text.last() != '\n' {
        1nat
    } else {
        0nat
    }
}

/// The number of words of `text`: the places where a character that is not
/// white space stands at the start or behind white space.
pub open spec fn word_count(text: Seq<char>) -> nat
    decreases text.len(),
{
    if text.len() == 0 {
        0
    } else {
        let init = text.drop_last();
        word_count(init) + if !is_space(text.last()) && (init.len() == 0 || is_space(init.last())) {
            1nat
        } else {
            0nat
        }
    }
}

/// There are no more line feeds than characters.
pub proof fn lemma_line_feeds_bound(text: Seq<char>)
    ensures
        line_feeds(text) <= text.len(),
    decreases text.len(),
{
    if text.len() > 0 {
        lemma_line_feeds_bound(text.drop_last());
    }
}

/// There are no more words than characters.
pub proof fn lemma_word_count_bound(text: Seq<char>)
    ensures
        word_count(text) <= text.len(),
    decreases text.len(),
{
    if text.len() > 0 {
        lemma_word_count_bound(text.drop_last());
    }
}

/// Counts the lines, the words, the characters and the bytes of `text`.
pub fn count(text: &str) -> (counts: Counts)
    ensures
        counts.lines == line_count(text@),
        counts.words == word_count(text@),
        counts.chars == text@.len(),
        counts.bytes == text.spec_bytes().len(),
{
    let bytes = text.as_bytes().len();
    let chars = text.unicode_len();
    let mut feeds: usize = 0;
    let mut words: usize = 0;
    let mut after_space = true;
    let mut after_feed = true;
    for c in it: text.chars()
        invariant
            it.seq() == text@,
            text@.len() == chars,
            feeds == line_feeds(text@.take(it.index() as int)),
            words == word_count(text@.take(it.index() as int)),
            after_space == (it.index() == 0 || is_space(text@[it.index() - 1])),
            after_feed == (it.index() == 0 || text@[it.index() - 1] == '\n'),
    {
        let ghost seen = text@.take(it.index() as int);
        let ghost next = text@.take(it.index() + 1);
        proof {
            assert(next.drop_last() == seen);
            lemma_line_feeds_bound(seen);
            lemma_word_count_bound(seen);
        }
        let space = is_whitespace(c);
        if !space && after_space {
            words += 1;
        }
        if c == '\n' {
            feeds += 1;
        }
        after_space = space;
        after_feed = c == '\n';
    }
    proof {
        assert(text@.take(text@.len() as int) == text@);
        if text@.len() > 0 {
            lemma_line_feeds_bound(text@.drop_last());
        }
    }
    let lines = if after_feed {
        feeds
    } else {
        feeds + 1
    };
    Counts { lines, words, chars, bytes }
}

} // verus!
