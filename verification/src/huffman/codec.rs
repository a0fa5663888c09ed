//! Turning a text into its bit string with a code table, and a bit string
//! back into text with an inverted table.
use vstd::prelude::*;
use vstd::slice::slice_subrange;
use vstd::string::StringExecFns;
use crate::huffman::error::Error;
use crate::huffman::table::{HuffmanTable, InvertedTable};
use crate::text::{chars_of, push_char};

verus! {

/// The first symbol of `text` that has no code in `table`, if there is one.
pub open spec fn first_missing(text: Seq<char>, table: Map<char, Seq<char>>) -> Option<char>
    decreases text.len(),
{
    if text.len() == 0 {
        None
    } else if !table.contains_key(text[0]) {
        Some(text[0])
    } else {
        first_missing(text.drop_first(), table)
    }
}

/// The codes of the symbols of `text`, one after the other.
pub open spec fn encoded_bits(text: Seq<char>, table: Map<char, Seq<char>>) -> Seq<char>
    decreases text.len(),
{
    if text.len() == 0 {
        Seq::empty()
    } else {
        table[text[0]] + encoded_bits(text.drop_first(), table)
    }
}

/// What a scan of `bits` decodes, where the window over the next code is
/// `bits[0..end)`. A window that is a code gives its symbol, and the scan
/// goes on behind it with a window of one bit; any other window grows by one
/// bit. The scan fails when it reaches the end of `bits` with bits left in
/// the window.
pub open spec fn scan(bits: Seq<char>, table: Map<Seq<char>, char>, end: int) -> Option<Seq<char>>
    decreases bits.len(), bits.len() - end + 1,
{
    if end < 1 || end > bits.len() {
        if bits.len() == 0 {
            Some(Seq::empty())
        } else {
            None
        }
    } else if table.contains_key(bits.take(end)) {
        match scan(bits.skip(end), table, 1) {
            Some(rest) => Some(seq![table[bits.take(end)]] + rest),
            None => None,
        }
    } else {
        scan(bits, table, end + 1)
    }
}

/// The text that `bits` decodes to, if the bits are a sequence of codes.
pub open spec fn decoded_text(bits: Seq<char>, table: Map<Seq<char>, char>) -> Option<Seq<char>> {
    scan(bits, table, 1)
}

/// `done` followed by what is still to come, if that is anything.
pub open spec fn followed_by(done: Seq<char>, coming: Option<Seq<char>>) -> Option<Seq<char>> {
    match coming {
        Some(rest) => Some(done + rest),
        None => None,
    }
}

/// Replaces every symbol of `contents` by its code. Fails with the first
/// symbol that has no code in `table`.
pub fn to_bitstring(contents: &str, table: &HuffmanTable) -> (r: Result<String, Error>)
    ensures
        match r {
            Ok(bits) => first_missing(contents@, table@) is None && bits@ == encoded_bits(
                contents@,
                table@,
            ),
            Err(e) => first_missing(contents@, table@) matches Some(c) && e == Error::MissingCode(c),
        },
{
    let mut acc = String::new();
    let ghost text = contents@;
    assert(text.skip(0) == text);
    for c in it: contents.chars()
        invariant
            it.seq() == text,
            text == contents@,
            first_missing(text, table@) == first_missing(text.skip(it.index() as int), table@),
            encoded_bits(text, table@) == acc@ + encoded_bits(
                text.skip(it.index() as int),
                table@,
            ),
    {
        let ghost i = it.index() as int;
        assert(text.skip(i).drop_first() == text.skip(i + 1));
        assert(text.skip(i)[0] == c);
        match table.get(&c) {
            Some(code) => {
                acc.append(code.as_str());
            },
            None => {
                assert(first_missing(text.skip(i), table@) == Some(c));
                return Err(Error::MissingCode(c));
            },
        }
    }
    Ok(acc)
}

/// Decodes a bit string with a two-pointer scan: the window from the end of
/// the last code grows bit by bit until it is a code of `table`, whose
/// symbol is then emitted. Fails if the bits end inside a window.
pub fn bitstring_to_text(contents: &str, table: &InvertedTable) -> (r: Result<String, Error>)
    ensures
        match r {
            Ok(text) => decoded_text(contents@, table@) == Some(text@),
            Err(e) => decoded_text(contents@, table@) is None && e == Error::UndecodableSequence,
        },
{
    let bits = chars_of(contents);
    let mut out = String::new();
    let mut start: usize = 0;
    let mut last: usize = 0;
    assert(bits@.skip(0) == bits@);
    while last < bits.len()
        invariant
            start <= last <= bits.len(),
            bits@ == contents@,
            decoded_text(bits@, table@) == followed_by(
                out@,
                scan(bits@.skip(start as int), table@, last - start + 1),
            ),
        decreases bits.len() - last,
    {
        let end = last + 1;
        let window = slice_subrange(bits.as_slice(), start, end);
        let ghost open = bits@.skip(start as int);
        assert(open.take(end - start) == window@);
        if let Some(ch) = table.get(window) {
            assert(open.skip(end - start) == bits@.skip(end as int));
            let ghost coming = scan(bits@.skip(end as int), table@, 1);
            assert(followed_by(out@, followed_by(seq![ch], coming)) == followed_by(
                out@.push(ch),
                coming,
            )) by {
                if let Some(rest) = coming {
                    assert(out@ + (seq![ch] + rest) == out@.push(ch) + rest);
                }
            }
            push_char(&mut out, ch);
            start = end;
        }
        last += 1;
    }
    if start == bits.len() {
        Ok(out)
    } else {
        Err(Error::UndecodableSequence)
    }
}

} // verus!
