//! What holds of the codes of a text and of its container.
use vstd::arithmetic::power2::{lemma_pow2_unfold, pow2};
use vstd::bytes::{lemma_auto_spec_u64_to_from_le_bytes, spec_u64_to_le_bytes};
use vstd::prelude::*;
use crate::huffman::bits::{
    is_bit_string, lemma_unpack_pack, pack, tail_count, unpack, unpacked_len,
};
use crate::huffman::codec::{decoded_text, encoded_bits, first_missing, scan};
use crate::huffman::codes::{
    code_entries, codes_below, codes_of, key_count, leaves, lemma_bind_all_fresh,
    lemma_code_entries_keys, lemma_key_count_zero, lemma_leaves_total, lemma_symbols, symbols,
};
use crate::huffman::container::{
    bincode_encoding, container_bytes, container_parts, decoded, encoded, table_serializes,
};
use crate::huffman::error::Error;
use crate::huffman::table::{
    bind_all, entries_map, lemma_position, lookup, position, swapped,
};
use crate::huffman::tree::{build, lemma_build_wf, lemma_root_is_internal, Node};

verus! {

/// Whether no code of `s` is a prefix of the code of another entry.
pub open spec fn prefix_free(s: Seq<(char, Seq<char>)>) -> bool {
    forall|i: int, j: int|
        0 <= i < s.len() && 0 <= j < s.len() && i != j ==> !(#[trigger] s[i]).1.is_prefix_of(
            (#[trigger] s[j]).1,
        )
}

/// Whether every code of `s` begins with `prefix`.
pub open spec fn all_extend(s: Seq<(char, Seq<char>)>, prefix: Seq<char>) -> bool {
    forall|i: int| 0 <= i < s.len() ==> prefix.is_prefix_of((#[trigger] s[i]).1)
}

/// Whether every code of `s` is a string of `'0'` and `'1'`.
pub open spec fn all_bit_strings(s: Seq<(char, Seq<char>)>) -> bool {
    forall|i: int| 0 <= i < s.len() ==> is_bit_string((#[trigger] s[i]).1)
}

/// The number of distinct symbols of `text`.
pub open spec fn symbol_count(text: Seq<char>) -> nat {
    symbols(text).len()
}

/// The codes below a node all begin with the code of the node, and none of
/// them is a prefix of another.
pub proof fn lemma_codes_prefix_free(node: Node, prefix: Seq<char>)
    ensures
        all_extend(codes_of(node, prefix), prefix),
        prefix_free(codes_of(node, prefix)),
    decreases node,
{
    let codes = codes_of(node, prefix);
    if node.ch is None {
        let left_prefix = prefix.push('0');
        let right_prefix = prefix.push('1');
        let below_left = codes_below(node.left, left_prefix);
        let below_right = codes_below(node.right, right_prefix);
        if let Some(child) = node.left {
            lemma_codes_prefix_free(*child, left_prefix);
        }
        if let Some(child) = node.right {
            lemma_codes_prefix_free(*child, right_prefix);
        }
        assert(codes == below_left + below_right);
        let n = prefix.len() as int;
        assert forall|i: int| 0 <= i < codes.len() implies prefix.is_prefix_of(
            (#[trigger] codes[i]).1,
        ) && codes[i].1.len() > n && codes[i].1[n] == (if i < below_left.len() {
            '0'
        } else {
            '1'
        }) by {
            let code = codes[i].1;
            if i < below_left.len() {
                assert(codes[i] == below_left[i]);
                assert(left_prefix.is_prefix_of(code));
                assert(code.subrange(0, n + 1)[n] == left_prefix[n]);
                assert(code.subrange(0, n) =~= code.subrange(0, n + 1).subrange(0, n));
            } else {
                assert(codes[i] == below_right[i - below_left.len()]);
                assert(right_prefix.is_prefix_of(code));
                assert(code.subrange(0, n + 1)[n] == right_prefix[n]);
                assert(code.subrange(0, n) =~= code.subrange(0, n + 1).subrange(0, n));
            }
        }
        assert forall|i: int, j: int|
            0 <= i < codes.len() && 0 <= j < codes.len() && i != j implies !(
            #[trigger] codes[i]).1.is_prefix_of((#[trigger] codes[j]).1) by {
            let a = codes[i].1;
            let b = codes[j].1;
            if i < below_left.len() && j < below_left.len() {
                assert(codes[i] == below_left[i] && codes[j] == below_left[j]);
            } else if i >= below_left.len() && j >= below_left.len() {
                assert(codes[i] == below_right[i - below_left.len()]);
                assert(codes[j] == below_right[j - below_left.len()]);
            } else if a.is_prefix_of(b) {
                assert(b.subrange(0, a.len() as int)[n] == a[n]);
            }
        }
    }
}

/// The codes below a node are strings of `'0'` and `'1'` if the code of the
/// node is.
pub proof fn lemma_codes_are_bits(node: Node, prefix: Seq<char>)
    requires
        is_bit_string(prefix),
    ensures
        all_bit_strings(codes_of(node, prefix)),
    decreases node,
{
    let codes = codes_of(node, prefix);
    if node.ch is None {
        let below_left = codes_below(node.left, prefix.push('0'));
        let below_right = codes_below(node.right, prefix.push('1'));
        if let Some(child) = node.left {
            lemma_codes_are_bits(*child, prefix.push('0'));
        }
        if let Some(child) = node.right {
            lemma_codes_are_bits(*child, prefix.push('1'));
        }
        assert(codes == below_left + below_right);
        assert forall|i: int| 0 <= i < codes.len() implies is_bit_string(
            (#[trigger] codes[i]).1,
        ) by {
            if i < below_left.len() {
                assert(codes[i] == below_left[i]);
            } else {
                assert(codes[i] == below_right[i - below_left.len()]);
            }
        }
    }
}

/// The tree of a text is well formed: every leaf holds a symbol, every
/// other node has two children and the sum of their frequencies.
pub proof fn lemma_text_tree_wf(text: Seq<char>)
    requires
        0 < text.len() <= u64::MAX,
    ensures
        build(leaves(text)).wf(),
{
    lemma_symbols(text);
    assert(text.contains(text[0]));
    lemma_leaves_total(text);
    lemma_build_wf(leaves(text));
}

/// Where the bits begin with the code of entry `i`, a scan whose window
/// has not passed the end of that code gives the symbol of the entry, and
/// then what the bits behind the code give.
proof fn lemma_scan_code(
    entries: Seq<(char, Seq<char>)>,
    i: int,
    rest: Seq<char>,
    end: int,
)
    requires
        prefix_free(entries),
        0 <= i < entries.len(),
        1 <= end <= entries[i].1.len(),
    ensures
        scan(entries[i].1 + rest, entries_map(swapped(entries)), end) == match scan(
            rest,
            entries_map(swapped(entries)),
            1,
        ) {
            Some(text) => Some(seq![entries[i].0] + text),
            None => None,
        },
    decreases entries[i].1.len() - end,
{
    let code = entries[i].1;
    let bits = code + rest;
    let inverted = swapped(entries);
    let window = bits.take(end);
    assert(window == code.take(end));
    lemma_position(inverted, window);
    assert(inverted[i].0 == code);
    match position(inverted, window) {
        Some(j) => {
            assert(entries[j].1 == window);
            if j != i {
                assert(entries[j].1.is_prefix_of(entries[i].1));
            }
            assert(j == i);
            assert(end == code.len());
            assert(bits.skip(end) == rest);
        },
        None => {
            if end == code.len() {
                assert(window == code);
                assert(inverted[i].0 == window);
            }
            lemma_scan_code(entries, i, rest, end + 1);
        },
    }
}

/// Decoding undoes encoding: where no code is empty or a prefix of another
/// and every symbol of the text has a code, the bits of the text decode to
/// the text.
pub proof fn lemma_scan_encoded(entries: Seq<(char, Seq<char>)>, text: Seq<char>)
    requires
        prefix_free(entries),
        forall|i: int| 0 <= i < entries.len() ==> (#[trigger] entries[i]).1.len() > 0,
        first_missing(text, entries_map(entries)) is None,
    ensures
        decoded_text(encoded_bits(text, entries_map(entries)), entries_map(swapped(entries)))
            == Some(text),
    decreases text.len(),
{
    if text.len() > 0 {
        let c = text[0];
        let rest = text.drop_first();
        lemma_position(entries, c);
        let i = position(entries, c).unwrap();
        lemma_scan_encoded(entries, rest);
        lemma_scan_code(entries, i, encoded_bits(rest, entries_map(entries)), 1);
        assert(seq![c] + rest == text);
    }
}

/// Every symbol of a text has a code in the table of the text.
pub proof fn lemma_no_code_missing(text: Seq<char>)
    ensures
        first_missing(text, entries_map(code_entries(text))) is None,
{
    let entries = code_entries(text);
    assert forall|c: char| text.contains(c) implies entries_map(entries).contains_key(c) by {
        lemma_code_entries_keys(text, c);
        lemma_key_count_zero(entries, c);
        lemma_position(entries, c);
    }
    lemma_none_missing(text, text, entries_map(entries));
}

/// No code is missing for a text whose symbols all have one.
proof fn lemma_none_missing(whole: Seq<char>, text: Seq<char>, table: Map<char, Seq<char>>)
    requires
        forall|c: char| whole.contains(c) ==> table.contains_key(c),
        forall|k: int| 0 <= k < text.len() ==> whole.contains(#[trigger] text[k]),
    ensures
        first_missing(text, table) is None,
    decreases text.len(),
{
    if text.len() > 0 {
        assert(whole.contains(text[0]));
        let rest = text.drop_first();
        assert forall|k: int| 0 <= k < rest.len() implies whole.contains(#[trigger] rest[k]) by {
            assert(rest[k] == text[k + 1]);
        }
        lemma_none_missing(whole, rest, table);
    }
}

/// The bits of a text are a string of `'0'` and `'1'` where all the codes
/// are.
pub proof fn lemma_encoded_bits_are_bits(entries: Seq<(char, Seq<char>)>, text: Seq<char>)
    requires
        all_bit_strings(entries),
        first_missing(text, entries_map(entries)) is None,
    ensures
        is_bit_string(encoded_bits(text, entries_map(entries))),
    decreases text.len(),
{
    if text.len() > 0 {
        lemma_position(entries, text[0]);
        lemma_encoded_bits_are_bits(entries, text.drop_first());
    }
}

/// A container splits into the parts from which it was assembled.
pub proof fn lemma_container_parts(table_bytes: Seq<u8>, payload: Seq<u8>, tail: u8)
    requires
        table_bytes.len() <= u64::MAX,
    ensures
        container_parts(container_bytes(table_bytes, payload, tail)) == Some(
            (table_bytes, payload.push(tail)),
        ),
        payload.push(tail).drop_last() == payload,
        payload.push(tail).last() == tail,
{
    lemma_auto_spec_u64_to_from_le_bytes();
    let prefix = spec_u64_to_le_bytes(table_bytes.len() as u64);
    let bytes = container_bytes(table_bytes, payload, tail);
    let n = table_bytes.len() as int;
    assert(bytes.take(8) == prefix);
    assert(bytes.subrange(8, 8 + n) == table_bytes);
    assert(bytes.skip(8 + n) == payload.push(tail));
    assert(payload.push(tail).drop_last() == payload);
}

/// Prefix-free codes: in the code table of a text the code of one symbol is
/// never a prefix of the code of another.
pub proof fn lemma_code_table_prefix_free(text: Seq<char>, a: char, b: char)
    requires
        text.contains(a),
        text.contains(b),
        a != b,
    ensures
        entries_map(code_entries(text)).contains_key(a),
        entries_map(code_entries(text)).contains_key(b),
        !entries_map(code_entries(text))[a].is_prefix_of(entries_map(code_entries(text))[b]),
{
    let entries = code_entries(text);
    lemma_code_entries_keys(text, a);
    lemma_code_entries_keys(text, b);
    lemma_key_count_zero(entries, a);
    lemma_key_count_zero(entries, b);
    lemma_position(entries, a);
    lemma_position(entries, b);
    lemma_codes_prefix_free(build(leaves(text)), Seq::empty());
    let i = position(entries, a).unwrap();
    let j = position(entries, b).unwrap();
    assert(!entries[i].1.is_prefix_of(entries[j].1));
}

/// The code table of a text with no or with several distinct symbols can
/// be decoded with: it is what reading its entries back gives, every symbol
/// of the text has a code, the codes are strings of `'0'` and `'1'`, none is
/// empty and none is a prefix of another.
pub proof fn lemma_decodable(text: Seq<char>)
    requires
        symbol_count(text) != 1,
    ensures
        bind_all(Seq::empty(), code_entries(text)) == code_entries(text),
        first_missing(text, entries_map(code_entries(text))) is None,
        all_bit_strings(code_entries(text)),
        prefix_free(code_entries(text)),
        forall|i: int|
            0 <= i < code_entries(text).len() ==> (#[trigger] code_entries(text)[i]).1.len() > 0,
{
    let entries = code_entries(text);
    assert forall|c: char| key_count(entries, c) <= 1 by {
        lemma_code_entries_keys(text, c);
    }
    lemma_bind_all_fresh(entries);
    lemma_no_code_missing(text);
    if text.len() > 0 {
        let root = build(leaves(text));
        lemma_symbols(text);
        lemma_root_is_internal(leaves(text));
        lemma_codes_prefix_free(root, Seq::empty());
        lemma_codes_are_bits(root, Seq::empty());
        let left_prefix = Seq::<char>::empty().push('0');
        let right_prefix = Seq::<char>::empty().push('1');
        let below_left = codes_below(root.left, left_prefix);
        let below_right = codes_below(root.right, right_prefix);
        if let Some(child) = root.left {
            lemma_codes_prefix_free(*child, left_prefix);
        }
        if let Some(child) = root.right {
            lemma_codes_prefix_free(*child, right_prefix);
        }
        assert forall|i: int| 0 <= i < entries.len() implies (#[trigger] entries[i]).1.len()
            > 0 by {
            if i < below_left.len() {
                assert(entries[i] == below_left[i]);
                assert(left_prefix.is_prefix_of(entries[i].1));
            } else {
                assert(entries[i] == below_right[i - below_left.len()]);
                assert(right_prefix.is_prefix_of(entries[i].1));
            }
        }
    }
}

/// Round trip: the container of a text decodes to the text, where the text
/// is empty or has at least two distinct symbols, and its code table
/// survives serialization.
pub proof fn lemma_decode_inverts_encode(text: Seq<char>)
    requires
        symbol_count(text) != 1,
        table_serializes(text),
    ensures
        decoded(encoded(text)) == Ok::<Seq<char>, Error>(text),
{
    let entries = code_entries(text);
    let bits = encoded_bits(text, entries_map(entries));
    lemma_container_parts(bincode_encoding(entries), pack(bits), tail_count(bits.len()));
    lemma_decodable(text);
    lemma_scan_encoded(entries, text);
    lemma_encoded_bits_are_bits(entries, text);
    lemma_unpack_pack(bits);
}

/// How many symbols of `text` the first `m` bits of its code stand for, if
/// a code ends with bit `m`.
pub open spec fn symbols_within(text: Seq<char>, table: Map<char, Seq<char>>, m: int) -> Option<
    int,
>
    decreases text.len(),
{
    if m == 0 {
        Some(0)
    } else if m < 0 || text.len() == 0 || table[text[0]].len() > m {
        None
    } else {
        match symbols_within(text.drop_first(), table, m - table[text[0]].len()) {
            Some(k) => Some(k + 1),
            None => None,
        }
    }
}

/// A scan of a proper beginning of one code finds no code and fails.
proof fn lemma_scan_inside_code(entries: Seq<(char, Seq<char>)>, i: int, m: int, end: int)
    requires
        prefix_free(entries),
        0 <= i < entries.len(),
        0 < m < entries[i].1.len(),
        1 <= end <= m + 1,
    ensures
        scan(entries[i].1.take(m), entries_map(swapped(entries)), end) is None,
    decreases m + 1 - end,
{
    let code = entries[i].1;
    let bits = code.take(m);
    let inverted = swapped(entries);
    if end <= m {
        let window = bits.take(end);
        assert(window == code.take(end));
        lemma_position(inverted, window);
        if let Some(j) = position(inverted, window) {
            assert(entries[j].1 == window);
            assert(entries[j].1.is_prefix_of(entries[i].1));
            assert(false);
        }
        lemma_scan_inside_code(entries, i, m, end + 1);
    }
}

/// The first `m` bits of the code of a text decode to the symbols that they
/// stand for if a code ends with bit `m`, and otherwise to nothing.
pub proof fn lemma_scan_beginning(entries: Seq<(char, Seq<char>)>, text: Seq<char>, m: int)
    requires
        prefix_free(entries),
        forall|i: int| 0 <= i < entries.len() ==> (#[trigger] entries[i]).1.len() > 0,
        first_missing(text, entries_map(entries)) is None,
        0 <= m <= encoded_bits(text, entries_map(entries)).len(),
    ensures
        decoded_text(
            encoded_bits(text, entries_map(entries)).take(m),
            entries_map(swapped(entries)),
        ) == match symbols_within(text, entries_map(entries), m) {
            Some(k) => Some(text.take(k)),
            None => None,
        },
        symbols_within(text, entries_map(entries), m) matches Some(k) ==> 0 <= k <= text.len() && (
        m < encoded_bits(text, entries_map(entries)).len() ==> k < text.len()),
    decreases text.len(),
{
    let table = entries_map(entries);
    let inverted = entries_map(swapped(entries));
    let bits = encoded_bits(text, table);
    if m == 0 {
        assert(bits.take(0) =~= Seq::empty());
        assert(text.take(0) =~= Seq::empty());
        if text.len() == 0 {
            assert(bits.len() == 0);
        }
    } else {
        let c = text[0];
        let rest = text.drop_first();
        lemma_position(entries, c);
        let i = position(entries, c).unwrap();
        let code = entries[i].1;
        let rest_bits = encoded_bits(rest, table);
        assert(bits == code + rest_bits);
        if m < code.len() {
            assert(bits.take(m) == code.take(m));
            lemma_scan_inside_code(entries, i, m, 1);
        } else {
            let left = m - code.len();
            assert(bits.take(m) == code + rest_bits.take(left));
            lemma_scan_code(entries, i, rest_bits.take(left), 1);
            lemma_scan_beginning(entries, rest, left);
            if let Some(k) = symbols_within(rest, table, left) {
                assert(seq![c] + rest.take(k) == text.take(k + 1));
            }
        }
    }
}

/// Without their last byte, packed bits unpack to a beginning of the bits.
pub proof fn lemma_unpack_shortened(bits: Seq<char>)
    requires
        is_bit_string(bits),
        bits.len() > 0,
    ensures
        unpack(pack(bits).drop_last(), tail_count(bits.len())) == bits.take(
            unpacked_len((pack(bits).len() - 1) as nat, tail_count(bits.len())) as int,
        ),
        unpacked_len((pack(bits).len() - 1) as nat, tail_count(bits.len())) < bits.len(),
{
    let packed = pack(bits);
    let short = packed.drop_last();
    let tail = tail_count(bits.len());
    let m = unpacked_len(short.len(), tail) as int;
    let whole = unpack(packed, tail);
    let out = unpack(short, tail);
    lemma_unpack_pack(bits);
    assert(bits.len() == 8 * (packed.len() - 1) + tail);
    assert(m < bits.len());
    assert forall|p: int| 0 <= p < m implies out[p] == bits[p] by {
        assert(short[p / 8] == packed[p / 8]);
        assert(whole[p] == bits[p]);
    }
    assert(out =~= bits.take(m));
}

/// Truncation: a container of a text whose payload has lost its last byte
/// fails to decode with `UndecodableSequence`, unless the bits that are
/// left end where a code ends. Then it decodes to the symbols before that
/// place, which are fewer than the text has.
pub proof fn lemma_truncated_payload(text: Seq<char>)
    requires
        symbol_count(text) != 1,
        table_serializes(text),
        encoded_bits(text, entries_map(code_entries(text))).len() > 0,
    ensures
        ({
            let table = entries_map(code_entries(text));
            let bits = encoded_bits(text, table);
            let tail = tail_count(bits.len());
            let payload = pack(bits).drop_last();
            let left = unpacked_len(payload.len(), tail) as int;
            &&& encoded(text) == container_bytes(
                bincode_encoding(code_entries(text)),
                pack(bits),
                tail,
            )
            &&& decoded(container_bytes(bincode_encoding(code_entries(text)), payload, tail))
                == match symbols_within(
                text,
                table,
                left,
            ) {
                Some(k) => Ok::<Seq<char>, Error>(text.take(k)),
                None => Err(Error::UndecodableSequence),
            }
            &&& symbols_within(text, table, left) matches Some(k) ==> 0 <= k < text.len()
        }),
{
    let entries = code_entries(text);
    let table = entries_map(entries);
    let bits = encoded_bits(text, table);
    let tail = tail_count(bits.len());
    let payload = pack(bits).drop_last();
    lemma_container_parts(bincode_encoding(entries), payload, tail);
    lemma_decodable(text);
    lemma_encoded_bits_are_bits(entries, text);
    lemma_unpack_shortened(bits);
    lemma_scan_beginning(entries, text, unpacked_len(payload.len(), tail) as int);
}

/// The bits of a text are none where every code of its symbols is empty.
proof fn lemma_no_bits(text: Seq<char>, table: Map<char, Seq<char>>)
    requires
        forall|k: int| 0 <= k < text.len() ==> table[#[trigger] text[k]].len() == 0,
    ensures
        encoded_bits(text, table).len() == 0,
    decreases text.len(),
{
    if text.len() > 0 {
        let rest = text.drop_first();
        assert(table[text[0]].len() == 0);
        assert forall|k: int| 0 <= k < rest.len() implies table[#[trigger] rest[k]].len() == 0 by {
            assert(rest[k] == text[k + 1]);
        }
        lemma_no_bits(rest, table);
    }
}

/// One distinct symbol: the code of the symbol is empty, the container of
/// the text holds no bits, and it decodes to the empty text.
pub proof fn lemma_single_symbol(text: Seq<char>)
    requires
        symbol_count(text) == 1,
        table_serializes(text),
    ensures
        code_entries(text) == seq![(text[0], Seq::<char>::empty())],
        encoded(text) == container_bytes(bincode_encoding(code_entries(text)), Seq::empty(), 8),
        decoded(encoded(text)) == Ok::<Seq<char>, Error>(Seq::empty()),
{
    let entries = code_entries(text);
    let table = entries_map(entries);
    let c = symbols(text)[0];
    lemma_symbols(text);
    assert(leaves(text)[0].ch == Some(c));
    assert(entries =~= seq![(c, Seq::<char>::empty())]);
    assert forall|k: int| 0 <= k < text.len() implies #[trigger] text[k] == c by {
        assert(text.contains(text[k]));
        assert(symbols(text).contains(text[k]));
    }
    assert(lookup(entries, c) == Some(Seq::<char>::empty()));
    lemma_no_bits(text, table);
    let bits = encoded_bits(text, table);
    assert(bits =~= Seq::empty());
    assert(pack(bits) =~= Seq::empty());
    lemma_container_parts(bincode_encoding(entries), pack(bits), 8);
    assert forall|x: char| key_count(entries, x) <= 1 by {
        lemma_code_entries_keys(text, x);
    }
    lemma_bind_all_fresh(entries);
    assert(unpack(Seq::empty(), 8) =~= Seq::empty());
}

/// The length of the longest way from `node` down to a leaf.
pub open spec fn height(node: Node) -> nat
    decreases node,
{
    match (node.left, node.right) {
        (Some(l), Some(r)) => if height(*l) >= height(*r) {
            1 + height(*l)
        } else {
            1 + height(*r)
        },
        _ => 0,
    }
}

/// The sum, over the entries of `s`, of 2 to the power of what the code
/// lacks to the length `bound`.
pub open spec fn weight_sum(s: Seq<(char, Seq<char>)>, bound: nat) -> nat
    decreases s.len(),
{
    if s.len() == 0 {
        0
    } else {
        weight_sum(s.drop_last(), bound) + pow2((bound - s.last().1.len()) as nat)
    }
}

/// The weights of two lists are those of their concatenation.
proof fn lemma_weight_sum_concat(
    a: Seq<(char, Seq<char>)>,
    b: Seq<(char, Seq<char>)>,
    bound: nat,
)
    ensures
        weight_sum(a + b, bound) == weight_sum(a, bound) + weight_sum(b, bound),
    decreases b.len(),
{
    if b.len() == 0 {
        assert(a + b == a);
    } else {
        lemma_weight_sum_concat(a, b.drop_last(), bound);
        assert((a + b).drop_last() == a + b.drop_last());
    }
}

/// The codes below a node of a well-formed tree fill the room below the
/// code of the node: their weights add up to the weight of that code.
pub proof fn lemma_codes_fill(node: Node, prefix: Seq<char>, bound: nat)
    requires
        node.wf(),
        prefix.len() + height(node) <= bound,
    ensures
        weight_sum(codes_of(node, prefix), bound) == pow2((bound - prefix.len()) as nat),
        forall|i: int|
            0 <= i < codes_of(node, prefix).len() ==> (#[trigger] codes_of(node, prefix)[i]).1.len()
                <= bound,
    decreases node,
{
    let codes = codes_of(node, prefix);
    match (node.left, node.right) {
        (Some(l), Some(r)) => {
            let below_left = codes_of(*l, prefix.push('0'));
            let below_right = codes_of(*r, prefix.push('1'));
            lemma_codes_fill(*l, prefix.push('0'), bound);
            lemma_codes_fill(*r, prefix.push('1'), bound);
            lemma_weight_sum_concat(below_left, below_right, bound);
            lemma_pow2_unfold((bound - prefix.len()) as nat);
            assert(codes == below_left + below_right);
            assert forall|i: int| 0 <= i < codes.len() implies (#[trigger] codes[i]).1.len()
                <= bound by {
                if i < below_left.len() {
                    assert(codes[i] == below_left[i]);
                } else {
                    assert(codes[i] == below_right[i - below_left.len()]);
                }
            }
        },
        _ => {
            assert(codes == seq![(node.ch.unwrap(), prefix)]);
            assert(weight_sum(codes.drop_last(), bound) == 0);
        },
    }
}

/// The code of a text is complete: with `h` the length of its longest
/// code, the codes of lengths `n` weigh 2 to the power of `h - n` each and
/// 2 to the power of `h` together, as the leaves of a full binary tree do.
pub proof fn lemma_code_is_complete(text: Seq<char>)
    requires
        0 < text.len() <= u64::MAX,
    ensures
        weight_sum(code_entries(text), height(build(leaves(text)))) == pow2(
            height(build(leaves(text))),
        ),
        forall|i: int|
            0 <= i < code_entries(text).len() ==> (#[trigger] code_entries(text)[i]).1.len()
                <= height(build(leaves(text))),
{
    lemma_text_tree_wf(text);
    lemma_codes_fill(build(leaves(text)), Seq::empty(), height(build(leaves(text))));
}

} // verus!
