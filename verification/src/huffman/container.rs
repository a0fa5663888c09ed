//! The binary container of a compressed text.
//!
//! A container is, in this order: the length of the serialized code table
//! as an unsigned 64-bit integer, little-endian; the serialized code table;
//! the packed payload; and one byte that counts the meaningful bits of the
//! last payload byte. The last byte is there even if the payload is empty.
use vstd::bytes::{spec_u64_from_le_bytes, spec_u64_to_le_bytes, u64_from_le_bytes, u64_to_le_bytes};
use vstd::prelude::*;
use vstd::slice::slice_subrange;
use crate::huffman::bits::{bitstring_from_bytes, compress, pack, tail_count, unpack};
use crate::huffman::codec::{
    bitstring_to_text, decoded_text, encoded_bits, first_missing, to_bitstring,
};
use crate::huffman::codes::code_entries;
use crate::huffman::error::Error;
use crate::huffman::laws::{
    lemma_decode_inverts_encode, lemma_no_code_missing, lemma_single_symbol, symbol_count,
};
use crate::huffman::table::{bind_all, entries_map, entries_of, swapped, HuffmanTable};

verus! {

/// The error type of `bincode`.
#[verifier::external_type_specification]
#[verifier::external_body]
pub struct ExBincodeErrorKind(bincode::ErrorKind);

/// The bytes that `bincode::serialize` gives for a list of entries.
pub uninterp spec fn bincode_encoding(entries: Seq<(char, Seq<char>)>) -> Seq<u8>;

/// The list of entries that `bincode::deserialize` reads from `bytes`, if it
/// reads one.
pub uninterp spec fn bincode_decoding(bytes: Seq<u8>) -> Option<Seq<(char, Seq<char>)>>;

/// Serializes a list of entries with `bincode::serialize`.
///
/// Not proved: that the call succeeds, that the bytes depend on the entries
/// alone, and that `bincode::deserialize` reads the same entries back from
/// them. The call has no size limit, writes into a vector, and is given a
/// sequence of known length, so bincode has no error to report; reading
/// back what was written is what bincode is documented to do.
#[verifier::external_body]
fn serialize_entries(entries: &Vec<(char, String)>) -> (r: Result<
    Vec<u8>,
    Box<bincode::ErrorKind>,
>)
    ensures
        r is Ok,
        r matches Ok(bytes) ==> bytes@ == bincode_encoding(entries_of(entries@))
            && bincode_decoding(bytes@) == Some(entries_of(entries@)),
{
    bincode::serialize(entries)
}

/// Reads a list of entries with `bincode::deserialize`.
///
/// Not proved: that the outcome depends on the bytes alone.
#[verifier::external_body]
fn deserialize_entries(bytes: &[u8]) -> (r: Result<Vec<(char, String)>, Box<bincode::ErrorKind>>)
    ensures
        match r {
            Ok(entries) => bincode_decoding(bytes@) == Some(entries_of(entries@)),
            Err(_) => bincode_decoding(bytes@) is None,
        },
{
    bincode::deserialize(bytes)
}

/// The container made of a serialized table, a payload and the count of the
/// bits in use in the last payload byte.
pub open spec fn container_bytes(table_bytes: Seq<u8>, payload: Seq<u8>, tail: u8) -> Seq<u8> {
    spec_u64_to_le_bytes(table_bytes.len() as u64) + table_bytes + payload + seq![tail]
}

/// The two parts of a container, if `bytes` is long enough to hold the
/// length prefix and the table that the prefix announces: the bytes of the
/// table, and what stands behind them.
pub open spec fn container_parts(bytes: Seq<u8>) -> Option<(Seq<u8>, Seq<u8>)> {
    if bytes.len() < 8 {
        None
    } else {
        let n = spec_u64_from_le_bytes(bytes.take(8)) as int;
        if bytes.len() < 8 + n {
            None
        } else {
            Some((bytes.subrange(8, 8 + n), bytes.skip(8 + n)))
        }
    }
}

/// The container of a text, given the bytes of its serialized code table.
pub open spec fn encoded_with(text: Seq<char>, table_bytes: Seq<u8>) -> Seq<u8> {
    let bits = encoded_bits(text, entries_map(code_entries(text)));
    container_bytes(table_bytes, pack(bits), tail_count(bits.len()))
}

/// The container of a text.
pub open spec fn encoded(text: Seq<char>) -> Seq<u8> {
    encoded_with(text, bincode_encoding(code_entries(text)))
}

/// Whether the code table of a text survives serialization: its bytes are
/// read back as its entries, and there are no more of them than the length
/// prefix of a container can count.
pub open spec fn table_serializes(text: Seq<char>) -> bool {
    let entries = code_entries(text);
    bincode_encoding(entries).len() <= u64::MAX && bincode_decoding(bincode_encoding(entries))
        == Some(entries)
}

/// What reading a container gives: the entries of its code table, in
/// which of two entries for one symbol the later one counts, the payload,
/// and the count of the bits in use in the last payload byte.
///
/// The container is read from the front. It is malformed if it is too
/// short for the length prefix or for the table that the prefix announces.
/// Then the table is read, and only then the rest is looked at: it is
/// malformed if nothing stands behind the table, where the last byte should
/// be. The last byte is taken as the count whatever it holds.
pub open spec fn container_contents(bytes: Seq<u8>) -> Result<
    (Seq<(char, Seq<char>)>, Seq<u8>, u8),
    Error,
> {
    match container_parts(bytes) {
        None => Err(Error::MalformedContainer),
        Some((table_bytes, rest)) => match bincode_decoding(table_bytes) {
            None => Err(Error::SerializationFailure),
            Some(entries) => if rest.len() == 0 {
                Err(Error::MalformedContainer)
            } else {
                Ok((bind_all(Seq::empty(), entries), rest.drop_last(), rest.last()))
            },
        },
    }
}

/// What a container decodes to. A container that has been read is
/// malformed if its last byte counts more than the 8 bits that a byte has;
/// otherwise its payload is unpacked and scanned.
pub open spec fn decoded(bytes: Seq<u8>) -> Result<Seq<char>, Error> {
    match container_contents(bytes) {
        Err(e) => Err(e),
        Ok((entries, payload, tail)) => if tail > 8 {
            Err(Error::MalformedContainer)
        } else {
            match decoded_text(unpack(payload, tail), entries_map(swapped(entries))) {
                Some(text) => Ok(text),
                None => Err(Error::UndecodableSequence),
            }
        },
    }
}

/// Assembles a container from the serialized table, the packed payload and
/// the count of the bits in use in the last payload byte.
pub fn write_encoded(encoded_tbl: &[u8], encoded: &[u8], bits_filled: u8) -> (container: Vec<u8>)
    ensures
        container@ == container_bytes(encoded_tbl@, encoded@, bits_filled),
{
    let mut container = u64_to_le_bytes(encoded_tbl.len() as u64);
    let mut i: usize = 0;
    while i < encoded_tbl.len()
        invariant
            i <= encoded_tbl@.len(),
            container@ == spec_u64_to_le_bytes(encoded_tbl@.len() as u64) + encoded_tbl@.take(
                i as int,
            ),
        decreases encoded_tbl@.len() - i,
    {
        container.push(encoded_tbl[i]);
        i += 1;
    }
    assert(encoded_tbl@.take(encoded_tbl@.len() as int) == encoded_tbl@);
    let mut j: usize = 0;
    while j < encoded.len()
        invariant
            j <= encoded@.len(),
            container@ == spec_u64_to_le_bytes(encoded_tbl@.len() as u64) + encoded_tbl@
                + encoded@.take(j as int),
        decreases encoded@.len() - j,
    {
        container.push(encoded[j]);
        j += 1;
    }
    assert(encoded@.take(encoded@.len() as int) == encoded@);
    container.push(bits_filled);
    container
}

/// Splits a container into the serialized table and what stands behind
/// it: the payload with the byte that counts the bits of its last byte.
pub fn split_container(bytes: &[u8]) -> (r: Result<(&[u8], &[u8]), Error>)
    ensures
        match r {
            Ok((table_bytes, rest)) => container_parts(bytes@) == Some((table_bytes@, rest@)),
            Err(e) => container_parts(bytes@) is None && e == Error::MalformedContainer,
        },
{
    if bytes.len() < 8 {
        return Err(Error::MalformedContainer);
    }
    let prefix = slice_subrange(bytes, 0, 8);
    assert(prefix@ == bytes@.take(8));
    let table_len = u64_from_le_bytes(prefix);
    if table_len > (bytes.len() - 8) as u64 {
        return Err(Error::MalformedContainer);
    }
    let table_end = 8 + table_len as usize;
    let table_bytes = slice_subrange(bytes, 8, table_end);
    let rest = slice_subrange(bytes, table_end, bytes.len());
    assert(rest@ == bytes@.skip(table_end as int));
    Ok((table_bytes, rest))
}

/// Reads a container: the code table, the payload, and the last byte,
/// which counts the bits in use in the last payload byte and is returned
/// whatever it holds.
///
/// Fails with `MalformedContainer` if the container is shorter than its
/// length prefix announces; then with `SerializationFailure` if the table
/// cannot be read; then with `MalformedContainer` if the last byte is
/// missing.
pub fn read_encoded(bytes: &[u8]) -> (r: Result<(HuffmanTable, Vec<u8>, u8), Error>)
    ensures
        match r {
            Ok((table, payload, tail)) => container_contents(bytes@) == Ok::<_, Error>(
                (table.entries(), payload@, tail),
            ),
            Err(e) => container_contents(bytes@) == Err::<
                (Seq<(char, Seq<char>)>, Seq<u8>, u8),
                Error,
            >(e),
        },
{
    let (table_bytes, rest) = match split_container(bytes) {
        Ok(parts) => parts,
        Err(e) => {
            return Err(e);
        },
    };
    let entries = match deserialize_entries(table_bytes) {
        Ok(entries) => entries,
        Err(_) => {
            return Err(Error::SerializationFailure);
        },
    };
    if rest.len() == 0 {
        return Err(Error::MalformedContainer);
    }
    let tail = rest[rest.len() - 1];
    let table = HuffmanTable::from_entries(&entries);
    let mut contents: Vec<u8> = Vec::new();
    let mut i: usize = 0;
    while i < rest.len() - 1
        invariant
            rest@.len() > 0,
            i <= rest@.len() - 1,
            contents@ == rest@.take(i as int),
        decreases rest@.len() - i,
    {
        contents.push(rest[i]);
        i += 1;
    }
    assert(rest@.take(rest@.len() - 1) == rest@.drop_last());
    Ok((table, contents, tail))
}

/// Decodes a payload with a code table: unpacks the bits and scans them
/// with the inverted table.
pub fn decode_with(table: &HuffmanTable, payload: &[u8], bits_filled: u8) -> (r: Result<
    String,
    Error,
>)
    requires
        bits_filled <= 8,
    ensures
        match r {
            Ok(text) => decoded_text(
                unpack(payload@, bits_filled),
                entries_map(swapped(table.entries())),
            ) == Some(text@),
            Err(e) => decoded_text(
                unpack(payload@, bits_filled),
                entries_map(swapped(table.entries())),
            ) is None && e == Error::UndecodableSequence,
        },
{
    let inverted = table.invert();
    let bit_string = bitstring_from_bytes(payload, bits_filled);
    bitstring_to_text(bit_string.as_str(), &inverted)
}

/// Decodes a container into the text that it holds.
///
/// Fails as `read_encoded` does if the container cannot be read; then with
/// `MalformedContainer` if its last byte counts more than 8 bits; then with
/// `UndecodableSequence` if the payload ends inside a code.
pub fn decode(container: &[u8]) -> (r: Result<String, Error>)
    ensures
        match r {
            Ok(text) => decoded(container@) == Ok::<Seq<char>, Error>(text@),
            Err(e) => decoded(container@) == Err::<Seq<char>, Error>(e),
        },
{
    let (table, contents, bits_filled) = match read_encoded(container) {
        Ok(parts) => parts,
        Err(e) => {
            return Err(e);
        },
    };
    if bits_filled > 8 {
        return Err(Error::MalformedContainer);
    }
    decode_with(&table, contents.as_slice(), bits_filled)
}

/// Encodes `contents` with `table` and assembles the container around the
/// serialized table `encoded_tbl`. Fails with the first symbol of
/// `contents` that has no code.
pub fn encode_with(contents: &str, table: &HuffmanTable, encoded_tbl: &[u8]) -> (r: Result<
    Vec<u8>,
    Error,
>)
    ensures
        match r {
            Ok(container) => first_missing(contents@, table@) is None && container@ == {
                let bits = encoded_bits(contents@, table@);
                container_bytes(encoded_tbl@, pack(bits), tail_count(bits.len()))
            },
            Err(e) => first_missing(contents@, table@) matches Some(c) && e == Error::MissingCode(c),
        },
{
    let encoded = match to_bitstring(contents, table) {
        Ok(bits) => bits,
        Err(e) => {
            return Err(e);
        },
    };
    let (compressed, bits_filled) = compress(encoded.as_str());
    Ok(write_encoded(encoded_tbl, compressed.as_slice(), bits_filled))
}

/// Compresses a text into a container: derives the code table of the text,
/// encodes the text with it, and assembles the container around the
/// serialized table.
///
/// Every text is encoded, and the container depends on the text alone.
/// It decodes to the text, unless the text has exactly one distinct symbol:
/// the code of that symbol is empty, so the container holds no bits and
/// decodes to the empty text.
pub fn encode(contents: &str) -> (r: Result<Vec<u8>, Error>)
    ensures
        r matches Ok(container) && table_serializes(contents@) && container@ == encoded(
            contents@,
        ) && decoded(container@) == Ok::<Seq<char>, Error>(
            if symbol_count(contents@) == 1 {
                Seq::empty()
            } else {
                contents@
            },
        ),
{
    let table = HuffmanTable::from_text(contents);
    let encoded_tbl = match serialize_entries(table.as_entries()) {
        Ok(bytes) => bytes,
        Err(_) => {
            return Err(Error::SerializationFailure);
        },
    };
    proof {
        lemma_no_code_missing(contents@);
        assert(encoded_tbl@.len() == encoded_tbl.len());
        if symbol_count(contents@) == 1 {
            lemma_single_symbol(contents@);
        } else {
            lemma_decode_inverts_encode(contents@);
        }
    }
    encode_with(contents, &table, encoded_tbl.as_slice())
}

} // verus!
