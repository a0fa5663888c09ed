use std::collections::HashMap;

use texttools::huffman::{
    bitstring_from_bytes, bitstring_to_text, compress, decode, decode_with, encode, encode_with,
    read_encoded, to_bitstring, write_encoded, Error, HuffmanTable, Node,
};

fn code(table: &HuffmanTable, ch: char) -> String {
    table.get(&ch).unwrap().clone()
}

#[test]
fn test_encoding_table() {
    // Arrange
    let counts = HashMap::from([
        ('C', 32),
        ('D', 42),
        ('E', 120),
        ('K', 7),
        ('L', 42),
        ('M', 24),
        ('U', 37),
        ('Z', 2),
    ]);
    let contents = counts
        .iter()
        .map(|(k, v)| k.to_string().repeat(*v as usize))
        .collect::<String>();

    // Act
    let table = HuffmanTable::from(&contents);

    // Assert
    assert_eq!(table.get(&'C').unwrap(), "1110");
    assert_eq!(table.get(&'D').unwrap(), "101");
    assert_eq!(table.get(&'E').unwrap(), "0");
    assert_eq!(table.get(&'K').unwrap(), "111101");
    assert_eq!(table.get(&'L').unwrap(), "110");
    assert_eq!(table.get(&'M').unwrap(), "11111");
    assert_eq!(table.get(&'U').unwrap(), "100");
    assert_eq!(table.get(&'Z').unwrap(), "111100");
}

#[test]
fn test_byte_from_str() {
    let test_cases = vec![
        (String::from("10010110"), vec![0b10010110], 8),
        (String::from("10010110010"), vec![0b10010110, 0b01000000], 3),
        (
            String::from("1001011010010110"),
            vec![0b10010110, 0b10010110],
            8,
        ),
    ];

    for (input, expected_vec, expected_bits) in test_cases {
        let (result, valid_bits) = compress(&input);
        assert_eq!(result, expected_vec);
        assert_eq!(valid_bits, expected_bits);
    }
}

#[test]
fn test_decompress() {
    let test_cases = vec![
        (vec![0b10010110, 0b01000000], 3, "10010110010"),
        (vec![0b10010110], 8, "10010110"),
    ];

    for (input, valid_bits, expected) in test_cases {
        let result = bitstring_from_bytes(&input, valid_bits);
        assert_eq!(&result, expected);
    }
}

#[test]
fn compress_of_empty_string_has_no_bytes_and_tail_eight() {
    let (bytes, tail) = compress("");
    assert_eq!(bytes, Vec::<u8>::new());
    assert_eq!(tail, 8);
    assert_eq!(bitstring_from_bytes(&bytes, tail), "");
}

#[test]
fn compress_pads_the_last_byte_with_zeros() {
    assert_eq!(compress("1"), (vec![0b1000_0000], 1));
    assert_eq!(compress("1111111"), (vec![0b1111_1110], 7));
    assert_eq!(compress("000000001"), (vec![0, 0b1000_0000], 1));
}

#[test]
fn compress_counts_any_other_character_as_zero() {
    assert_eq!(compress("1x1"), (vec![0b1010_0000], 3));
}

#[test]
fn unpacking_inverts_packing() {
    for bits in ["", "0", "1", "10010110", "100101100", "1111111100000000111"] {
        let (bytes, tail) = compress(bits);
        assert_eq!(bitstring_from_bytes(&bytes, tail), bits);
    }
}

#[test]
fn unpacking_with_no_valid_bits_skips_the_last_byte() {
    assert_eq!(bitstring_from_bytes(&[0b1010_1010, 0xff], 0), "10101010");
}

#[test]
fn node_order_is_frequency_then_leaf_then_symbol() {
    let a1 = Node::new(Some('a'), 1);
    let b1 = Node::new(Some('b'), 1);
    let a2 = Node::new(Some('a'), 2);
    let inner1 = Node::new(None, 1);
    assert!(a1.precedes(&b1));
    assert!(!b1.precedes(&a1));
    assert!(b1.precedes(&a2));
    assert!(a1.precedes(&inner1));
    assert!(!inner1.precedes(&a1));
    assert!(!inner1.precedes(&inner1));
    assert!(inner1.precedes(&a2));
}

#[test]
fn tree_of_two_leaves_has_the_lower_symbol_on_the_left() {
    let mut queue = vec![Node::new(Some('b'), 3), Node::new(Some('a'), 3)];
    let root = Node::from_queue(&mut queue);
    assert!(queue.is_empty());
    assert_eq!(root.ch, None);
    assert_eq!(root.freq, 6);
    assert_eq!(root.left.unwrap().ch, Some('a'));
    assert_eq!(root.right.unwrap().ch, Some('b'));
}

#[test]
fn tree_of_one_leaf_is_the_leaf() {
    let mut queue = vec![Node::new(Some('x'), 5)];
    let root = Node::from_queue(&mut queue);
    assert_eq!(root.ch, Some('x'));
    assert_eq!(root.freq, 5);
    assert!(root.left.is_none() && root.right.is_none());
}

#[test]
fn leaf_leaves_the_queue_before_an_internal_node_of_equal_frequency() {
    // a:1 b:1 c:2: the parent of a and b has frequency 2, like c.
    let table = HuffmanTable::from_text("abcc");
    assert_eq!(code(&table, 'c'), "0");
    assert_eq!(code(&table, 'a'), "10");
    assert_eq!(code(&table, 'b'), "11");
}

#[test]
fn internal_nodes_of_equal_frequency_leave_in_order_of_creation() {
    let table = HuffmanTable::from_text("abcd");
    assert_eq!(code(&table, 'a'), "00");
    assert_eq!(code(&table, 'b'), "01");
    assert_eq!(code(&table, 'c'), "10");
    assert_eq!(code(&table, 'd'), "11");
}

#[test]
fn table_of_empty_text_is_empty() {
    let table = HuffmanTable::from_text("");
    assert_eq!(table.len(), 0);
    assert!(table.get(&'a').is_none());
}

#[test]
fn table_of_single_symbol_has_the_empty_code() {
    let table = HuffmanTable::from_text("aaaa");
    assert_eq!(table.len(), 1);
    assert_eq!(code(&table, 'a'), "");
}

#[test]
fn table_does_not_depend_on_the_order_of_the_text() {
    let one = HuffmanTable::from_text("aabbbcdddd");
    let other = HuffmanTable::from_text("ddddcbbbaa");
    for ch in ['a', 'b', 'c', 'd'] {
        assert_eq!(code(&one, ch), code(&other, ch));
    }
}

#[test]
fn derived_codes_are_prefix_free() {
    let text = "the quick brown fox jumps over the lazy dog";
    let table = HuffmanTable::from_text(text);
    let symbols: Vec<char> = text.chars().collect();
    for a in &symbols {
        for b in &symbols {
            if a != b {
                assert!(!code(&table, *b).starts_with(&code(&table, *a)));
            }
        }
    }
}

#[test]
fn insert_replaces_the_code_of_a_symbol() {
    let mut table = HuffmanTable::new();
    table.insert('a', String::from("0"));
    table.insert('b', String::from("10"));
    table.insert('a', String::from("11"));
    assert_eq!(table.len(), 2);
    assert_eq!(code(&table, 'a'), "11");
    assert_eq!(code(&table, 'b'), "10");
    assert!(table.get(&'c').is_none());
}

#[test]
fn from_entries_lets_the_later_entry_count() {
    let list = vec![
        ('a', String::from("0")),
        ('b', String::from("10")),
        ('a', String::from("11")),
    ];
    let table = HuffmanTable::from_entries(&list);
    assert_eq!(table.len(), 2);
    assert_eq!(code(&table, 'a'), "11");
}

#[test]
fn inverted_table_maps_codes_to_symbols() {
    let mut table = HuffmanTable::new();
    table.insert('a', String::from("0"));
    table.insert('b', String::from("10"));
    let inverted = table.invert();
    assert_eq!(inverted.get(&['0']), Some('a'));
    assert_eq!(inverted.get(&['1', '0']), Some('b'));
    assert_eq!(inverted.get(&['1']), None);
    assert_eq!(inverted.get(&[]), None);
}

#[test]
fn to_bitstring_concatenates_codes_in_text_order() {
    let mut table = HuffmanTable::new();
    table.insert('a', String::from("0"));
    table.insert('b', String::from("10"));
    table.insert('c', String::from("11"));
    assert_eq!(to_bitstring("abcab", &table), Ok(String::from("01011010")));
    assert_eq!(to_bitstring("", &table), Ok(String::new()));
}

#[test]
fn to_bitstring_reports_the_first_symbol_without_code() {
    let mut table = HuffmanTable::new();
    table.insert('a', String::from("0"));
    assert_eq!(to_bitstring("aaxay", &table), Err(Error::MissingCode('x')));
}

#[test]
fn bitstring_to_text_scans_code_by_code() {
    let mut table = HuffmanTable::new();
    table.insert('a', String::from("0"));
    table.insert('b', String::from("10"));
    table.insert('c', String::from("11"));
    let inverted = table.invert();
    assert_eq!(bitstring_to_text("01011010", &inverted), Ok(String::from("abcab")));
    assert_eq!(bitstring_to_text("", &inverted), Ok(String::new()));
}

#[test]
fn bitstring_to_text_fails_inside_a_code() {
    let mut table = HuffmanTable::new();
    table.insert('a', String::from("0"));
    table.insert('b', String::from("10"));
    let inverted = table.invert();
    assert_eq!(bitstring_to_text("0101", &inverted), Err(Error::UndecodableSequence));
    assert_eq!(bitstring_to_text("11", &inverted), Err(Error::UndecodableSequence));
}

#[test]
fn write_encoded_lays_out_the_container() {
    let container = write_encoded(&[0xaa, 0xbb, 0xcc], &[0x01, 0x02], 5);
    assert_eq!(
        container,
        vec![3, 0, 0, 0, 0, 0, 0, 0, 0xaa, 0xbb, 0xcc, 0x01, 0x02, 5]
    );
}

#[test]
fn write_encoded_keeps_the_last_byte_for_an_empty_payload() {
    assert_eq!(write_encoded(&[], &[], 8), vec![0, 0, 0, 0, 0, 0, 0, 0, 8]);
}

#[test]
fn encode_gives_the_exact_container() {
    let container = encode("ab").unwrap();
    let mut expected: Vec<u8> = Vec::new();
    expected.extend_from_slice(&28u64.to_le_bytes());
    expected.extend_from_slice(&2u64.to_le_bytes());
    expected.push(b'a');
    expected.extend_from_slice(&1u64.to_le_bytes());
    expected.push(b'0');
    expected.push(b'b');
    expected.extend_from_slice(&1u64.to_le_bytes());
    expected.push(b'1');
    expected.push(0b0100_0000);
    expected.push(2);
    assert_eq!(container, expected);
}

#[test]
fn encode_of_empty_text_has_an_empty_payload() {
    let container = encode("").unwrap();
    let mut expected: Vec<u8> = Vec::new();
    expected.extend_from_slice(&8u64.to_le_bytes());
    expected.extend_from_slice(&0u64.to_le_bytes());
    expected.push(8);
    assert_eq!(container, expected);
    assert_eq!(decode(&container), Ok(String::new()));
}

#[test]
fn encode_with_assembles_around_the_given_table_bytes() {
    let mut table = HuffmanTable::new();
    table.insert('a', String::from("0"));
    table.insert('b', String::from("1"));
    let container = encode_with("abba", &table, &[7, 7]).unwrap();
    assert_eq!(container, vec![2, 0, 0, 0, 0, 0, 0, 0, 7, 7, 0b0110_0000, 4]);
    assert_eq!(encode_with("abc", &table, &[7, 7]), Err(Error::MissingCode('c')));
}

#[test]
fn decode_with_reads_a_payload() {
    let mut table = HuffmanTable::new();
    table.insert('a', String::from("0"));
    table.insert('b', String::from("1"));
    assert_eq!(decode_with(&table, &[0b0110_0000], 4), Ok(String::from("abba")));
    assert_eq!(decode_with(&table, &[], 8), Ok(String::new()));
}

#[test]
fn decode_inverts_encode() {
    let texts = [
        "",
        "ab",
        "abracadabra",
        "the quick brown fox jumps over the lazy dog",
        "na\u{ef}ve caf\u{e9} \u{1f600}\u{1f600} \u{4e2d}\u{6587}",
        "aaaaaaaaaaaaaaaaaaaaaaaaaaaaaaaaaaaaaaaab",
    ];
    for text in texts {
        let container = encode(text).unwrap();
        assert_eq!(decode(&container), Ok(String::from(text)));
    }
}

#[test]
fn encoding_is_deterministic() {
    let text = "so much depends upon a red wheel barrow";
    assert_eq!(encode(text).unwrap(), encode(text).unwrap());
}

#[test]
fn single_symbol_text_has_an_empty_payload() {
    let container = encode("aaaa").unwrap();
    let (table, payload, tail) = read_encoded(&container).unwrap();
    assert_eq!(code(&table, 'a'), "");
    assert_eq!(payload, Vec::<u8>::new());
    assert_eq!(tail, 8);
    assert_eq!(decode(&container), Ok(String::new()));
}

#[test]
fn read_encoded_gives_table_payload_and_tail() {
    let container = encode("abb").unwrap();
    let (table, payload, tail) = read_encoded(&container).unwrap();
    assert_eq!(table.len(), 2);
    assert_eq!(code(&table, 'a'), "0");
    assert_eq!(code(&table, 'b'), "1");
    assert_eq!(payload, vec![0b0110_0000]);
    assert_eq!(tail, 3);
}

#[test]
fn truncated_payload_is_undecodable() {
    // a: "0", b: "10", c: "11"; the bits are 11 11 10 10 | 0 0 0 with three
    // bits in use in the second byte. Without that byte the first three bits
    // of the first are read: the code of c and the start of another.
    let text = "ccbbaaa";
    let mut container = encode(text).unwrap();
    let tail = container.pop().unwrap();
    assert_eq!(tail, 3);
    container.pop();
    container.push(tail);
    assert_eq!(decode(&container), Err(Error::UndecodableSequence));
}

#[test]
fn truncated_payload_that_ends_on_a_code_decodes_to_a_prefix() {
    // the bits are 0 10 11 0 10 | 11 0; the first three bits of the first
    // byte are the codes of a and b
    let text = "abcabca";
    let mut container = encode(text).unwrap();
    let tail = container.pop().unwrap();
    container.pop();
    container.push(tail);
    assert_eq!(decode(&container), Ok(String::from("ab")));
}

#[test]
fn container_without_length_prefix_is_malformed() {
    assert_eq!(decode(&[]), Err(Error::MalformedContainer));
    assert_eq!(decode(&[1, 0, 0, 0, 0, 0, 0]), Err(Error::MalformedContainer));
}

#[test]
fn container_shorter_than_its_prefix_announces_is_malformed() {
    let mut container = encode("abracadabra").unwrap();
    container.truncate(12);
    assert_eq!(decode(&container), Err(Error::MalformedContainer));
    assert_eq!(
        decode(&[0xff, 0xff, 0xff, 0xff, 0xff, 0xff, 0xff, 0xff, 1, 2, 3]),
        Err(Error::MalformedContainer)
    );
}

#[test]
fn container_without_last_byte_is_malformed() {
    let container = encode("").unwrap();
    let without_tail = &container[..container.len() - 1];
    assert_eq!(decode(without_tail), Err(Error::MalformedContainer));
}

#[test]
fn tail_count_above_eight_is_malformed() {
    let mut container = encode("abracadabra").unwrap();
    let last = container.len() - 1;
    container[last] = 9;
    assert_eq!(decode(&container), Err(Error::MalformedContainer));
    // reading still gives the byte as it is
    let (_, _, tail) = read_encoded(&container).unwrap();
    assert_eq!(tail, 9);
}

#[test]
fn read_encoded_returns_the_last_byte_whatever_it_holds() {
    let table_bytes = bincode::serialize(&vec![('a', String::from("0")), ('b', String::from("1"))])
        .unwrap();
    for last in [0u8, 1, 8, 9, 200, 255] {
        let container = write_encoded(&table_bytes, &[0xa5, 0x5a], last);
        let (table, payload, tail) = read_encoded(&container).unwrap();
        assert_eq!(table.len(), 2);
        assert_eq!(code(&table, 'a'), "0");
        assert_eq!(code(&table, 'b'), "1");
        assert_eq!(payload, vec![0xa5, 0x5a]);
        assert_eq!(tail, last);
    }
}

#[test]
fn decode_refuses_every_count_above_eight() {
    let table_bytes = bincode::serialize(&vec![('a', String::from("0")), ('b', String::from("1"))])
        .unwrap();
    for last in [9u8, 10, 200, 255] {
        let container = write_encoded(&table_bytes, &[0xa5], last);
        assert_eq!(decode(&container), Err(Error::MalformedContainer));
    }
    let container = write_encoded(&table_bytes, &[0xa5], 8);
    assert_eq!(decode(&container), Ok(String::from("babaabab")));
    let container = write_encoded(&table_bytes, &[0xa5], 0);
    assert_eq!(decode(&container), Ok(String::new()));
}

#[test]
fn unreadable_table_is_a_serialization_failure() {
    // the table announces one entry, but its bytes end after the symbol
    let table_bytes = [1u8, 0, 0, 0, 0, 0, 0, 0, b'a'];
    let container = write_encoded(&table_bytes, &[], 8);
    assert_eq!(decode(&container), Err(Error::SerializationFailure));
    assert!(read_encoded(&container).is_err());
}

#[test]
fn decode_reads_a_table_that_was_serialized_from_a_map() {
    let map = HashMap::from([('a', String::from("0")), ('b', String::from("1"))]);
    let table_bytes = bincode::serialize(&map).unwrap();
    let container = write_encoded(&table_bytes, &[0b0110_0000], 4);
    assert_eq!(decode(&container), Ok(String::from("abba")));
}

#[test]
fn table_of_a_container_can_be_read_as_a_map() {
    let text = "abracadabra";
    let container = encode(text).unwrap();
    let table_len = u64::from_le_bytes(container[..8].try_into().unwrap()) as usize;
    let map: HashMap<char, String> = bincode::deserialize(&container[8..8 + table_len]).unwrap();
    let table = HuffmanTable::from_text(text);
    assert_eq!(map.len(), table.len());
    for (symbol, bits) in &map {
        assert_eq!(&code(&table, *symbol), bits);
    }
}

#[test]
fn later_entry_of_a_serialized_table_counts() {
    let entries = vec![('a', String::from("0")), ('b', String::from("1")), ('a', String::from("1"))];
    let table_bytes = bincode::serialize(&entries).unwrap();
    let container = write_encoded(&table_bytes, &[0b0100_0000], 2);
    let (table, _, _) = read_encoded(&container).unwrap();
    assert_eq!(table.len(), 2);
    assert_eq!(code(&table, 'a'), "1");
    // both symbols have the code "1" now, and the first entry with it counts
    assert_eq!(decode(&container), Err(Error::UndecodableSequence));
}

#[test]
fn unreadable_table_counts_before_a_missing_last_byte() {
    // the prefix announces nine bytes, which are there, and nothing more
    let mut container: Vec<u8> = Vec::new();
    container.extend_from_slice(&9u64.to_le_bytes());
    container.extend_from_slice(&[1, 0, 0, 0, 0, 0, 0, 0, b'a']);
    assert_eq!(decode(&container), Err(Error::SerializationFailure));
    assert!(matches!(read_encoded(&container), Err(Error::SerializationFailure)));
}

#[test]
fn readable_table_without_last_byte_is_malformed() {
    let mut container: Vec<u8> = Vec::new();
    container.extend_from_slice(&8u64.to_le_bytes());
    container.extend_from_slice(&0u64.to_le_bytes());
    assert_eq!(decode(&container), Err(Error::MalformedContainer));
}

#[test]
fn table_too_short_for_its_prefix_is_malformed() {
    let mut container: Vec<u8> = Vec::new();
    container.extend_from_slice(&9u64.to_le_bytes());
    container.extend_from_slice(&[1, 0, 0, 0, 0, 0, 0, 0]);
    assert_eq!(decode(&container), Err(Error::MalformedContainer));
}

#[test]
fn encode_succeeds_on_every_kind_of_text() {
    for text in ["", "a", "aaaa", "ab", "\u{0}\u{10ffff}", "line\nline\n"] {
        assert!(encode(text).is_ok());
    }
}

#[test]
fn inverted_table_leads_back() {
    let table = HuffmanTable::from_text("abracadabra");
    let inverted = table.invert();
    assert_eq!(inverted.len(), table.len());
    for symbol in ['a', 'b', 'r', 'c', 'd'] {
        let bits: Vec<char> = code(&table, symbol).chars().collect();
        assert_eq!(inverted.get(&bits), Some(symbol));
    }
    assert_eq!(inverted.get(&['0', '0', '0', '0', '0', '0', '0']), None);
}

#[test]
fn table_holds_one_entry_for_a_symbol() {
    let mut table = HuffmanTable::new();
    table.insert('a', String::from("0"));
    table.insert('a', String::from("1"));
    table.insert('a', String::from("10"));
    assert_eq!(table.len(), 1);
    assert_eq!(table.as_entries(), &vec![('a', String::from("10"))]);
    let inverted = table.invert();
    assert_eq!(inverted.len(), 1);
    assert_eq!(inverted.get(&['1', '0']), Some('a'));
    assert_eq!(inverted.get(&['0']), None);
}

#[test]
fn code_lengths_are_those_of_a_full_tree() {
    for text in ["ab", "abracadabra", "the quick brown fox jumps over the lazy dog", "aabbbcdddd"] {
        let table = HuffmanTable::from_text(text);
        let mut symbols: Vec<char> = text.chars().collect();
        symbols.sort();
        symbols.dedup();
        let longest = symbols.iter().map(|c| code(&table, *c).len()).max().unwrap();
        let sum: u64 = symbols
            .iter()
            .map(|c| 1u64 << (longest - code(&table, *c).len()))
            .sum();
        assert_eq!(sum, 1u64 << longest, "{:?}", text);
    }
}

#[test]
fn table_depends_on_the_counts_alone() {
    let one = HuffmanTable::from_text("aaabbcccccd");
    let other = HuffmanTable::from_text("dcbacbacacc");
    assert_eq!(one.as_entries(), other.as_entries());
}
