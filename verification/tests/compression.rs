use cli_tools::bits::Code;
use cli_tools::decoder::{DecodeError, Decoder, Header};
use cli_tools::encoder::Encoder;
use cli_tools::header::HeaderError;
use cli_tools::tree::{build_huffman_tree, create_pq, HuffmanNode, HuffmanQueue};
use std::collections::HashMap;

fn chars(s: &str) -> Vec<char> {
    s.chars().collect()
}

fn leaf(c: char, f: u32) -> HuffmanNode {
    HuffmanNode { character: Some(c), frequency: f, left_child: None, right_child: None }
}

fn bits(b: &[bool]) -> Code {
    Code::from_bools(b)
}

#[test]
fn test_read_header() {
    let mut decoder = Decoder::default();

    let mut raw_bytes: Vec<u8> = Vec::new();
    raw_bytes.extend_from_slice(&1_u32.to_be_bytes());
    raw_bytes.extend_from_slice(&4_u32.to_be_bytes());
    raw_bytes.extend_from_slice(&('a' as u32).to_be_bytes());
    raw_bytes.extend_from_slice(&4_u32.to_be_bytes());

    let output = decoder.read_header(&raw_bytes).unwrap();

    let mut expected_freq_map = HashMap::new();
    expected_freq_map.insert('a' as u32, 4_u32);

    let expected = Header { char_count: 1, total_char_count: 4, freq_map: expected_freq_map, offset_end: 16 };

    assert_eq!(output, expected);
}

#[test]
fn test_read_header_too_short() {
    let mut decoder = Decoder::default();
    let raw_bytes: Vec<u8> = vec![0, 0, 0];

    assert!(decoder.read_header(&raw_bytes).is_err());
}

#[test]
fn test_decode_text() {
    // "aaaabbc" freqs (a:4, b:2, c:1) produce codes a=[1], b=[0,1], c=[0,0]
    let encoder = Encoder::default();
    let freqs = encoder.get_frequencies(&chars("aaaabbc"));
    let mut pq = create_pq(&freqs);
    let tree = build_huffman_tree(&mut pq).unwrap();

    // "ac" -> bits [1,0,0] padded to one byte -> 0b1000_0000
    let raw_bytes: Vec<u8> = vec![0b1000_0000];

    let decoder = Decoder::default();
    let header = Header { char_count: 3, total_char_count: 2, freq_map: freqs, offset_end: 0 };

    let output = decoder.decode_text(&header, &raw_bytes, &tree).unwrap();

    assert_eq!(output, "ac");
}

#[test]
fn test_get_frequencies() {
    let encoder = Encoder::default();
    let output = encoder.get_frequencies(&chars("aaaa"));

    let mut expected = HashMap::new();
    expected.insert('a' as u32, 4);

    assert_eq!(output, expected);
}

#[test]
fn test_generate_prefix_code_table() {
    let encoder = Encoder::default();
    let freqs = encoder.get_frequencies(&chars("aaaabbc"));
    let mut pq = create_pq(&freqs);
    let tree = build_huffman_tree(&mut pq).unwrap();
    let output = encoder.generate_prefix_code_table(tree);

    assert_eq!(output.get(&('a' as u32)), Some(&bits(&[true])));
    assert_eq!(output.get(&('b' as u32)), Some(&bits(&[false, true])));
    assert_eq!(output.get(&('c' as u32)), Some(&bits(&[false, false])));
}

#[test]
fn test_generate_prefix_code_table_single_symbol() {
    let encoder = Encoder::default();
    let freqs = encoder.get_frequencies(&chars("a"));
    let mut pq = create_pq(&freqs);
    let tree = build_huffman_tree(&mut pq).unwrap();
    let output = encoder.generate_prefix_code_table(tree);

    assert_eq!(output.get(&('a' as u32)), Some(&bits(&[false])));
}

#[test]
fn test_create_header() {
    let encoder = Encoder::default();
    let mut freqs = HashMap::new();
    freqs.insert('a' as u32, 4_u32);

    let output = encoder.create_header(1_u32, freqs);
    let mut expected: Vec<u8> = Vec::new();
    expected.extend_from_slice(&1_u32.to_be_bytes());
    expected.extend_from_slice(&1_u32.to_be_bytes());
    expected.extend_from_slice(&('a' as u32).to_be_bytes());
    expected.extend_from_slice(&4_u32.to_be_bytes());

    assert_eq!(output, expected);
}

#[test]
fn test_encode_text() {
    let encoder = Encoder::default();
    let mut table = HashMap::new();
    table.insert('a' as u32, bits(&[false]));
    table.insert('b' as u32, bits(&[true]));

    let output = encoder.encode_text(&chars("ab"), table);

    assert_eq!(output, vec![0b0100_0000]);
}

#[test]
fn prefix_code_table_follows_the_tree() {
    let encoder = Encoder::default();
    let tree = HuffmanNode {
        character: None,
        frequency: 2,
        left_child: Some(Box::new(leaf('a', 1))),
        right_child: Some(Box::new(leaf('b', 1))),
    };
    let table = encoder.generate_prefix_code_table(tree);
    assert_eq!(table.get(&('a' as u32)).map(|c| c.to_bools()), Some(vec![false]));
    assert_eq!(table.get(&('b' as u32)).map(|c| c.to_bools()), Some(vec![true]));
    assert_eq!(table.len(), 2);
}

#[test]
fn encode_text_packs_codes_across_bytes() {
    let encoder = Encoder::default();
    let mut table = HashMap::new();
    table.insert('x' as u32, bits(&[true, false, true]));
    table.insert('y' as u32, bits(&[false, true]));
    // x y x y x = 101 01 101 01 101 -> 1010_1101 0110_1xxx
    let output = encoder.encode_text(&chars("xyxyx"), table);
    assert_eq!(output.len(), 2);
    assert_eq!(output[0], 0b1010_1101);
    assert_eq!(output[1], 0b0110_1000);
}

#[test]
fn test_create_pq() {
    let encoder = Encoder::default();
    let freqs = encoder.get_frequencies(&chars("aaaa"));
    let mut pq = create_pq(&freqs);

    assert_eq!(pq.len(), 1);
    assert_eq!(pq.pop(), Some((leaf('a', 4), 4)));
    assert!(pq.is_empty());
}

#[test]
fn test_build_huffman_tree() {
    let encoder = Encoder::default();
    let freqs = encoder.get_frequencies(&chars("aaaabb"));
    let mut pq = create_pq(&freqs);
    let output = build_huffman_tree(&mut pq).unwrap();

    let left_child = leaf('b', 2);
    let right_child = leaf('a', 4);

    let expected = HuffmanNode {
        character: None,
        frequency: right_child.frequency + left_child.frequency,
        left_child: Some(Box::new(left_child)),
        right_child: Some(Box::new(right_child)),
    };

    assert_eq!(output, expected);
}

#[test]
fn build_huffman_tree_of_nothing_is_an_empty_node() {
    let mut pq = HuffmanQueue::new();
    let output = build_huffman_tree(&mut pq).unwrap();
    assert_eq!(output, HuffmanNode::default());
}

#[test]
fn build_huffman_tree_of_one_leaf_puts_it_on_the_left() {
    let mut pq = HuffmanQueue::new();
    pq.push(leaf('x', 7));
    let output = build_huffman_tree(&mut pq).unwrap();
    let expected = HuffmanNode { character: None, frequency: 7, left_child: Some(Box::new(leaf('x', 7))), right_child: None };
    assert_eq!(output, expected);
}

#[test]
fn huffman_queue_pops_smallest_frequency_first() {
    let mut pq = HuffmanQueue::new();
    pq.push(leaf('a', 5));
    pq.push(leaf('b', 1));
    pq.push(leaf('c', 3));
    assert_eq!(pq.pop().map(|p| p.1), Some(1));
    assert_eq!(pq.pop().map(|p| p.1), Some(3));
    assert_eq!(pq.pop().map(|p| p.1), Some(5));
    assert_eq!(pq.pop(), None);
}

#[test]
fn is_leaf_means_no_children() {
    assert!(leaf('a', 1).is_leaf());
    let inner = HuffmanNode { character: None, frequency: 1, left_child: Some(Box::new(leaf('a', 1))), right_child: None };
    assert!(!inner.is_leaf());
}

#[test]
fn read_header_reports_each_error() {
    let mut decoder = Decoder::default();
    assert_eq!(decoder.read_header(&[0, 0, 0]), Err(HeaderError::TooShort));
    assert_eq!(decoder.read_header(&[0, 0, 0, 1, 0, 0]), Err(HeaderError::MissingTotalCount));
    assert_eq!(decoder.read_header(&[0, 0, 0, 1, 0, 0, 0, 2, 0, 0]), Err(HeaderError::MissingChar));
    let mut bad = vec![0, 0, 0, 1, 0, 0, 0, 2];
    bad.extend_from_slice(&0xD800_u32.to_be_bytes());
    assert_eq!(decoder.read_header(&bad), Err(HeaderError::InvalidChar(0xD800)));
    let mut short = vec![0, 0, 0, 1, 0, 0, 0, 2];
    short.extend_from_slice(&('a' as u32).to_be_bytes());
    short.extend_from_slice(&[0, 0]);
    assert_eq!(decoder.read_header(&short), Err(HeaderError::MissingFrequency));
}

#[test]
fn read_header_with_no_entries() {
    let mut decoder = Decoder::default();
    let output = decoder.read_header(&[0, 0, 0, 0, 0, 0, 0, 9, 0xFF]).unwrap();
    assert_eq!(output, Header { char_count: 0, total_char_count: 9, freq_map: HashMap::new(), offset_end: 8 });
}

#[test]
fn encode_then_decode_gives_the_text_back() {
    // all frequencies differ, so that every tree the construction can give is the same
    let mixed = format!("{}{}{}{}", "é".repeat(8), "✓".repeat(4), "xx", "y");
    for text in ["aaaabbc", "ab\nbbbb\n\n", mixed.as_str()] {
        let encoder = Encoder::default();
        let bytes = encoder.encode(&chars(text)).unwrap();
        let mut decoder = Decoder::default();
        assert!(decoder.can_decode(&bytes));
        assert_eq!(decoder.decode(&bytes).unwrap(), text);
    }
}

#[test]
fn encoded_file_starts_with_the_counts() {
    let encoder = Encoder::default();
    let bytes = encoder.encode(&chars("aaaabbc")).unwrap();
    assert_eq!(&bytes[0..4], &3_u32.to_be_bytes());
    assert_eq!(&bytes[4..8], &7_u32.to_be_bytes());
    // three entries of eight bytes, then 4*1 + 2*2 + 1*2 = 10 bits in two bytes
    assert_eq!(bytes.len(), 8 + 3 * 8 + 2);
}

#[test]
fn decode_text_of_a_single_symbol_adds_the_character_after_the_padding() {
    // the tree of "a" alone is a root with 'a' as its left leaf; the code of 'a' is [0]
    let encoder = Encoder::default();
    let bytes = encoder.encode(&chars("a")).unwrap();
    let mut decoder = Decoder::default();
    assert_eq!(decoder.decode(&bytes).unwrap(), "aa");
}

#[test]
fn decode_text_reports_a_bit_the_tree_has_no_child_for() {
    let tree = HuffmanNode { character: None, frequency: 1, left_child: Some(Box::new(leaf('a', 1))), right_child: None };
    let header = Header { char_count: 1, total_char_count: 1, freq_map: HashMap::new(), offset_end: 0 };
    let decoder = Decoder::default();
    assert_eq!(decoder.decode_text(&header, &[0b1000_0000], &tree), Err(DecodeError::TreeMismatch));
}

#[test]
fn decode_text_reports_a_leaf_without_character() {
    let tree = HuffmanNode {
        character: None,
        frequency: 1,
        left_child: Some(Box::new(HuffmanNode::default())),
        right_child: None,
    };
    let header = Header { char_count: 1, total_char_count: 1, freq_map: HashMap::new(), offset_end: 0 };
    let decoder = Decoder::default();
    assert_eq!(decoder.decode_text(&header, &[0], &tree), Err(DecodeError::NoCharacterInLeaf));
}

#[test]
fn decode_reports_a_bad_header() {
    let mut decoder = Decoder::default();
    assert_eq!(decoder.decode(&[1, 2]), Err(DecodeError::Header(HeaderError::TooShort)));
}

#[test]
fn paths_are_kept() {
    let e = Encoder::new(Some("in.txt"), String::from("out.bin"));
    assert_eq!(e.input_file_path(), Some("in.txt"));
    assert_eq!(e.output_file_path(), "out.bin");
    let d = Decoder::new(None, String::from("plain.txt"));
    assert_eq!(d.input_file_path(), None);
    assert_eq!(d.output_file_path(), "plain.txt");
}

#[test]
fn decoding_an_encoded_empty_text_finds_a_leaf_without_character() {
    let encoder = Encoder::default();
    let bytes = encoder.encode(&[]).unwrap();
    assert_eq!(bytes, vec![0, 0, 0, 0, 0, 0, 0, 0]);
    let mut decoder = Decoder::default();
    assert_eq!(decoder.decode(&bytes), Err(DecodeError::NoCharacterInLeaf));
}

#[test]
fn build_huffman_tree_merges_any_subtrees() {
    // subtrees that are not full trees are merged all the same
    let half = HuffmanNode { character: None, frequency: 3, left_child: Some(Box::new(leaf('a', 3))), right_child: None };
    let mut pq = HuffmanQueue::new();
    pq.push(half);
    pq.push(leaf('b', 1));
    let output = build_huffman_tree(&mut pq).unwrap();
    assert_eq!(output.frequency, 4);
    assert_eq!(output.left_child.as_deref(), Some(&leaf('b', 1)));
    assert_eq!(output.right_child.as_ref().map(|n| n.frequency), Some(3));
}

#[test]
fn encode_text_clears_the_padding_bits() {
    let encoder = Encoder::default();
    let mut table = HashMap::new();
    table.insert('a' as u32, bits(&[true, true, true]));
    let output = encoder.encode_text(&chars("aaa"), table);
    assert_eq!(output, vec![0b1111_1111, 0b1000_0000]);
}

#[test]
fn can_encode_accepts_ordinary_texts() {
    let encoder = Encoder::default();
    assert!(encoder.can_encode(&chars("hello world")));
    assert!(encoder.can_encode(&[]));
}
