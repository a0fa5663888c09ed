//! Cutting columns from records: reading a list of column numbers, and
//! picking the columns of a record.
//!
//! Column numbers are written from 1; the columns of a record are counted
//! from 0.
use vstd::prelude::*;
use vstd::slice::slice_subrange;
use vstd::string::StringExecFns;
use crate::text::chars_of;

verus! {

/// Why a list of column numbers cannot be read.
#[derive(Debug, Clone, Copy, PartialEq, Eq, Structural)]
pub enum FieldError {
    /// A part of the list is not a number that fits the machine.
    InvalidNumber,
    /// A column number is 0.
    Zero,
}

/// Whether `c` is an ASCII digit.
pub open spec fn is_decimal(c: char) -> bool {
    '0' <= c <= '9'
}

/// The number that a string of digits denotes.
pub open spec fn digits_value(s: Seq<char>) -> nat
    decreases s.len(),
{
    if s.len() == 0 {
        0
    } else {
        digits_value(s.drop_last()) * 10 + (s.last() as u32 - '0' as u32) as nat
    }
}

/// The digits of a number: the string without its plus sign, if it has one.
pub open spec fn unsigned_part(s: Seq<char>) -> Seq<char> {
    if s.len() > 0 && s[0] == '+' {
        s.drop_first()
    } else {
        s
    }
}

/// The number that `s` denotes, if it is one or more digits, with or
/// without a plus sign before them, and the number fits a `usize`.
pub open spec fn number(s: Seq<char>) -> Option<nat> {
    let digits = unsigned_part(s);
    if digits.len() > 0 && (forall|i: int| 0 <= i < digits.len() ==> is_decimal(digits[i]))
        && digits_value(digits) <= usize::MAX {
        Some(digits_value(digits))
    } else {
        None
    }
}

/// The length of the part of `s` before the first `sep`, or of all of `s`
/// if it holds none.
pub open spec fn first_part_len(s: Seq<char>, sep: char) -> nat
    decreases s.len(),
{
    if s.len() == 0 || s[0] == sep {
        0
    } else {
        1 + first_part_len(s.drop_first(), sep)
    }
}

/// The parts of `s` between the occurrences of `sep`.
pub open spec fn split(s: Seq<char>, sep: char) -> Seq<Seq<char>>
    decreases s.len(),
{
    let n = first_part_len(s, sep) as int;
    if n >= s.len() {
        seq![s]
    } else {
        proof {
            lemma_first_part_len(s, sep);
        }
        seq![s.take(n)] + split(s.skip(n + 1), sep)
    }
}

/// The parts of a list of column numbers: split at commas if it holds any,
/// otherwise at spaces.
pub open spec fn parts(s: Seq<char>) -> Seq<Seq<char>> {
    if s.contains(',') {
        split(s, ',')
    } else {
        split(s, ' ')
    }
}

/// The columns that a list of column numbers names, counted from 0. An
/// invalid number anywhere in the list counts before a zero.
pub open spec fn fields(s: Seq<char>) -> Result<Seq<nat>, FieldError> {
    let p = parts(s);
    if exists|i: int| 0 <= i < p.len() && number(p[i]) is None {
        Err(FieldError::InvalidNumber)
    } else if exists|i: int| 0 <= i < p.len() && number(p[i]) == Some(0nat) {
        Err(FieldError::Zero)
    } else {
        Ok(Seq::new(p.len(), |i: int| (number(p[i]).unwrap() - 1) as nat))
    }
}

/// The first part of a string is no longer than the string, holds no
/// separator, and ends at the end or before a separator.
pub proof fn lemma_first_part_len(s: Seq<char>, sep: char)
    ensures
        first_part_len(s, sep) <= s.len(),
        forall|i: int| 0 <= i < first_part_len(s, sep) ==> s[i] != sep,
        first_part_len(s, sep) < s.len() ==> s[first_part_len(s, sep) as int] == sep,
    decreases s.len(),
{
    if s.len() > 0 && s[0] != sep {
        let rest = s.drop_first();
        lemma_first_part_len(rest, sep);
        assert forall|i: int| 0 <= i < first_part_len(s, sep) implies s[i] != sep by {
            if i > 0 {
                assert(s[i] == rest[i - 1]);
            }
        }
    }
}

/// A string of digits denotes no less than its beginnings.
pub proof fn lemma_digits_value_grows(s: Seq<char>, k: int)
    requires
        0 <= k <= s.len(),
    ensures
        digits_value(s.take(k)) <= digits_value(s),
    decreases s.len() - k,
{
    if k < s.len() {
        lemma_digits_value_grows(s, k + 1);
        assert(s.take(k + 1).drop_last() == s.take(k));
    } else {
        assert(s.take(k) == s);
    }
}

/// Reads a number: one or more digits, with or without a plus sign before
/// them.
pub fn parse_number(s: &[char]) -> (n: Option<usize>)
    ensures
        match n {
            Some(v) => number(s@) == Some(v as nat),
            None => number(s@) is None,
        },
{
    let start: usize = if s.len() > 0 && s[0] == '+' {
        1
    } else {
        0
    };
    let digits = slice_subrange(s, start, s.len());
    assert(digits@ == unsigned_part(s@));
    if digits.len() == 0 {
        return None;
    }
    let mut value: usize = 0;
    let mut i: usize = 0;
    while i < digits.len()
        invariant
            i <= digits@.len(),
            digits@ == unsigned_part(s@),
            forall|k: int| 0 <= k < i ==> is_decimal(digits@[k]),
            value == digits_value(digits@.take(i as int)),
        decreases digits@.len() - i,
    {
        let c = digits[i];
        if !('0' <= c && c <= '9') {
            return None;
        }
        let d = (c as u32 - '0' as u32) as usize;
        let ghost next = digits@.take(i + 1);
        assert(next.drop_last() == digits@.take(i as int));
        assert(digits_value(next) == value * 10 + d);
        if value > (usize::MAX - d) / 10 {
            proof {
                lemma_digits_value_grows(digits@, i + 1);
            }
            return None;
        }
        value = value * 10 + d;
        i += 1;
    }
    assert(digits@.take(digits@.len() as int) == digits@);
    Some(value)
}

/// Reads a list of column numbers, written from 1 and separated by commas
/// or by spaces, and returns the columns counted from 0.
pub fn parse_fields(s: &str) -> (r: Result<Vec<usize>, FieldError>)
    ensures
        match r {
            Ok(list) => fields(s@) == Ok::<Seq<nat>, FieldError>(
                Seq::new(list@.len(), |i: int| list@[i] as nat),
            ),
            Err(e) => fields(s@) == Err::<Seq<nat>, FieldError>(e),
        },
{
    let chars = chars_of(s);
    let sep = if has_char(chars.as_slice(), ',') {
        ','
    } else {
        ' '
    };
    let ghost all = parts(s@);
    let mut numbers: Vec<usize> = Vec::new();
    let mut start: usize = 0;
    assert(chars@.skip(0) == chars@);
    loop
        invariant_except_break
            start <= chars@.len(),
            all == Seq::new(numbers@.len(), |i: int| all[i]) + split(chars@.skip(start as int), sep),
        invariant
            chars@ == s@,
            all == parts(s@),
            all == split(chars@, sep),
            numbers@.len() <= all.len(),
            forall|i: int| 0 <= i < numbers@.len() ==> number(all[i]) == Some(numbers@[i] as nat),
        ensures
            numbers@.len() == all.len(),
        decreases chars@.len() - start,
    {
        let ghost rest = chars@.skip(start as int);
        let ghost done = Seq::new(numbers@.len(), |i: int| all[i]);
        let mut end = start;
        while end < chars.len() && chars[end] != sep
            invariant
                start <= end <= chars@.len(),
                first_part_len(rest, sep) == (end - start) + first_part_len(
                    chars@.skip(end as int),
                    sep,
                ),
                rest == chars@.skip(start as int),
            decreases chars@.len() - end,
        {
            assert(chars@.skip(end as int).drop_first() == chars@.skip(end + 1));
            end += 1;
        }
        let piece = slice_subrange(chars.as_slice(), start, end);
        proof {
            assert(first_part_len(rest, sep) == end - start);
            assert(piece@ == rest.take(end - start));
            assert(all[numbers@.len() as int] == (done + split(rest, sep))[done.len() as int]);
            if end == chars@.len() {
                assert(rest.take(end - start) == rest);
            } else {
                assert(rest.skip(end - start + 1) == chars@.skip(end + 1));
            }
            assert(all[numbers@.len() as int] == piece@);
        }
        match parse_number(piece) {
            Some(n) => {
                numbers.push(n);
            },
            None => {
                proof {
                    let k = numbers@.len() as int;
                    assert(split(rest, sep).len() >= 1);
                    assert(0 <= k < all.len() && number(all[k]) is None);
                }
                return Err(FieldError::InvalidNumber);
            },
        }
        if end == chars.len() {
            break;
        }
        proof {
            let grown = Seq::new(numbers@.len(), |i: int| all[i]);
            assert(grown + split(chars@.skip(end + 1), sep) =~= done + split(rest, sep));
        }
        start = end + 1;
    }
    let mut list: Vec<usize> = Vec::new();
    let mut i: usize = 0;
    while i < numbers.len()
        invariant
            i <= numbers@.len(),
            numbers@.len() == all.len(),
            all == parts(s@),
            forall|k: int| 0 <= k < numbers@.len() ==> number(all[k]) == Some(numbers@[k] as nat),
            list@.len() == i,
            forall|k: int| 0 <= k < i ==> (#[trigger] numbers@[k]) > 0,
            forall|k: int| 0 <= k < i ==> (#[trigger] list@[k]) == numbers@[k] - 1,
        decreases numbers@.len() - i,
    {
        if numbers[i] == 0 {
            assert(number(all[i as int]) == Some(0nat));
            assert(forall|k: int| 0 <= k < all.len() ==> number(all[k]) is Some);
            return Err(FieldError::Zero);
        }
        list.push(numbers[i] - 1);
        i += 1;
    }
    proof {
        assert forall|k: int| 0 <= k < all.len() implies number(all[k]) is Some && number(all[k])
            != Some(0nat) by {
            assert(list@[k] == numbers@[k] - 1);
        }
        assert(Seq::new(list@.len(), |k: int| list@[k] as nat) =~= Seq::new(
            all.len(),
            |k: int| (number(all[k]).unwrap() - 1) as nat,
        ));
    }
    Ok(list)
}

/// Whether `s` holds the character `c`.
pub fn has_char(s: &[char], c: char) -> (found: bool)
    ensures
        found == s@.contains(c),
{
    let mut i: usize = 0;
    while i < s.len()
        invariant
            i <= s@.len(),
            forall|k: int| 0 <= k < i ==> s@[k] != c,
        decreases s@.len() - i,
    {
        if s[i] == c {
            return true;
        }
        i += 1;
    }
    false
}

/// The columns `fields` of a record, one after the other, if the record
/// has them all.
pub open spec fn selected(record: Seq<Seq<char>>, fields: Seq<usize>) -> Option<Seq<char>>
    decreases fields.len(),
{
    if fields.len() == 0 {
        Some(Seq::empty())
    } else if fields[0] >= record.len() {
        None
    } else {
        match selected(record, fields.drop_first()) {
            Some(rest) => Some(record[fields[0] as int] + rest),
            None => None,
        }
    }
}

/// The position of the first of `fields` that the record lacks, if there
/// is one.
pub open spec fn first_missing_field(record_len: nat, fields: Seq<usize>) -> Option<int>
    decreases fields.len(),
{
    if fields.len() == 0 {
        None
    } else if fields[0] >= record_len {
        Some(0)
    } else {
        match first_missing_field(record_len, fields.drop_first()) {
            Some(k) => Some(k + 1),
            None => None,
        }
    }
}

/// Picks the columns `fields` of a record and joins them, in the order of
/// `fields`. Gives nothing if the record lacks one of them.
pub fn select_fields(record: &Vec<String>, fields: &[usize]) -> (line: Option<String>)
    ensures
        match line {
            Some(text) => selected(Seq::new(record@.len(), |i: int| record@[i]@), fields@) == Some(
                text@,
            ),
            None => selected(Seq::new(record@.len(), |i: int| record@[i]@), fields@) is None,
        },
{
    let ghost columns = Seq::new(record@.len(), |i: int| record@[i]@);
    let mut i: usize = 0;
    while i < fields.len()
        invariant
            i <= fields@.len(),
            columns == Seq::new(record@.len(), |i: int| record@[i]@),
            forall|k: int| 0 <= k < i ==> fields@[k] < record@.len(),
        decreases fields@.len() - i,
    {
        if fields[i] >= record.len() {
            proof {
                lemma_selected_none(columns, fields@, i as int);
            }
            return None;
        }
        i += 1;
    }
    let mut line = String::new();
    let mut j: usize = fields.len();
    assert(fields@.skip(j as int) =~= Seq::empty());
    while j > 0
        invariant
            j <= fields@.len(),
            columns == Seq::new(record@.len(), |i: int| record@[i]@),
            forall|k: int| 0 <= k < fields@.len() ==> fields@[k] < record@.len(),
            selected(columns, fields@.skip(j as int)) == Some(line@),
        decreases j,
    {
        j -= 1;
        let column = &record[fields[j]];
        let ghost before = line@;
        line = column.clone().concat(line.as_str());
        proof {
            assert(fields@.skip(j as int).drop_first() == fields@.skip(j + 1));
            assert(fields@.skip(j as int)[0] == fields@[j as int]);
        }
    }
    assert(fields@.skip(0) == fields@);
    Some(line)
}

/// A record that lacks one of the columns gives nothing.
proof fn lemma_selected_none(record: Seq<Seq<char>>, fields: Seq<usize>, k: int)
    requires
        0 <= k < fields.len(),
        fields[k] >= record.len(),
    ensures
        selected(record, fields) is None,
    decreases fields.len(),
{
    if k > 0 && fields[0] < record.len() {
        lemma_selected_none(record, fields.drop_first(), k - 1);
    }
}

} // verus!
