use compression::bits::NewBitVec;
use compression::errors::HuffmanEncodingError;
use compression::freq::count_chars;
use compression::header::{build_decoding_table, serialize_huffman_encoding};
use compression::huffman::{char_count_to_huffman_encoding, combine, HuffmanNode};
use compression::{decode, encode};

fn lines_of(text: &[&str]) -> Vec<Vec<char>> {
    text.iter().map(|l| l.chars().collect()).collect()
}

fn table_bits(table: &[(char, NewBitVec)]) -> Vec<(char, Vec<bool>)> {
    table.iter().map(|(c, b)| (*c, b.to_bools())).collect()
}

#[test]
fn new_bit_vec_basics() {
    let mut b = NewBitVec::new();
    assert_eq!(b.len(), 0);
    b.push(true);
    b.push(false);
    b.push(true);
    assert_eq!(b.len(), 3);
    assert_eq!(b.to_bools(), vec![true, false, true]);
    b.clear();
    assert_eq!(b.len(), 0);
    assert_eq!(b.to_bools(), Vec::<bool>::new());
}

#[test]
fn count_chars_single_line() {
    // one line, no trailing terminator: the terminator's synthetic count
    // is zero
    let freq = count_chars(&lines_of(&["aaab"]));
    assert_eq!(freq, vec![('\n', 0), ('a', 3), ('b', 1)]);
}

#[test]
fn count_chars_two_lines() {
    let freq = count_chars(&lines_of(&["ab", "a"]));
    assert_eq!(freq, vec![('\n', 1), ('a', 2), ('b', 1)]);
}

#[test]
fn count_chars_empty_input() {
    let freq = count_chars(&Vec::new());
    assert_eq!(freq, vec![('\n', 0)]);
}

#[test]
fn combine_two_leaves() {
    let merged = combine(HuffmanNode::Leaf(1, 'x'), HuffmanNode::Leaf(2, 'y'));
    match merged {
        HuffmanNode::Interior(count, map) => {
            assert_eq!(count, 3);
            assert_eq!(
                table_bits(&map),
                vec![('x', vec![false]), ('y', vec![true])]
            );
        }
        HuffmanNode::Leaf(..) => panic!("merge must build an interior node"),
    }
}

#[test]
fn combine_leaf_with_interior() {
    let inner = combine(HuffmanNode::Leaf(1, 'x'), HuffmanNode::Leaf(2, 'y'));
    let merged = combine(HuffmanNode::Leaf(5, 'z'), inner);
    match merged {
        HuffmanNode::Interior(count, map) => {
            assert_eq!(count, 8);
            // the leaf popped first heads the zero branch; the interior's
            // codes gain a leading one
            assert_eq!(
                table_bits(&map),
                vec![
                    ('x', vec![true, false]),
                    ('y', vec![true, true]),
                    ('z', vec![false]),
                ]
            );
        }
        HuffmanNode::Leaf(..) => panic!("merge must build an interior node"),
    }
}

#[test]
fn builder_scenario_aaab() {
    // frequencies a:3, b:1, terminator:0; the two least merge first, so
    // `a` alone gets a one-bit code and the terminator a longer one
    let freq = count_chars(&lines_of(&["aaab"]));
    let table = char_count_to_huffman_encoding(freq);
    assert_eq!(
        table_bits(&table),
        vec![
            ('\n', vec![false, false]),
            ('a', vec![true]),
            ('b', vec![false, true]),
        ]
    );
}

#[test]
fn tie_break_by_character() {
    // equal counts merge in code-point order, so the tree is the same on
    // every run
    let freq = count_chars(&lines_of(&["ba"]));
    let table = char_count_to_huffman_encoding(freq);
    assert_eq!(
        table_bits(&table),
        vec![
            ('\n', vec![false, false]),
            ('a', vec![false, true]),
            ('b', vec![true]),
        ]
    );
}

#[test]
fn builder_degenerate_single_symbol() {
    // a frequency table of one entry yields a single zero-length code
    let table = char_count_to_huffman_encoding(vec![('\n', 0)]);
    assert_eq!(table_bits(&table), vec![('\n', Vec::new())]);
}

#[test]
fn codes_are_prefix_free() {
    let freq = count_chars(&lines_of(&["the quick brown fox", "jumps over the lazy dog"]));
    assert!(freq.len() >= 2);
    let table = table_bits(&char_count_to_huffman_encoding(freq));
    for (i, (_, a)) in table.iter().enumerate() {
        for (j, (_, b)) in table.iter().enumerate() {
            if i != j {
                assert!(
                    a.len() > b.len() || a[..] != b[..a.len()],
                    "one code is a prefix of another"
                );
            }
        }
    }
}

#[test]
fn degenerate_stream_decoding_terminates() {
    // a header of an empty table followed by body bytes: nothing matches,
    // nothing loops, and the unmatched bits fall away
    let wire = vec![0x0A, 0x0A, 0x0A, 0x0A, 0xAB];
    assert_eq!(decode(&wire), Ok(Vec::new()));
}

#[test]
fn encode_exact_wire_bytes() {
    let out = encode(&lines_of(&["aaab"]));
    let expected = vec![
        // header: the terminator's entry as an empty line plus digits,
        // then one line per character
        0x0A, 0x30, 0x30, 0x0A, // "\n" coded 00
        0x61, 0x31, 0x0A, // 'a' coded 1
        0x62, 0x30, 0x31, 0x0A, // 'b' coded 01
        0x0A, 0x0A, // end of header
        // body: bits 1 1 1 0 1 0 0 packed least-significant-bit first
        0x17,
    ];
    assert_eq!(out, expected);
}

#[test]
fn round_trip_single_line() {
    let text = lines_of(&["aaab"]);
    let wire = encode(&text);
    let back = decode(&wire).expect("a fresh wire image must decode");
    assert_eq!(back, vec!['a', 'a', 'a', 'b', '\n']);
}

#[test]
fn round_trip_several_lines() {
    let text = lines_of(&["the quick brown fox", "jumps over", "", "the lazy dog"]);
    let wire = encode(&text);
    let back = decode(&wire).expect("a fresh wire image must decode");
    let expected: Vec<char> = "the quick brown fox\njumps over\n\nthe lazy dog\n"
        .chars()
        .collect();
    assert_eq!(back, expected);
}

#[test]
fn round_trip_multibyte_characters() {
    // codes é:1, a:01, terminator:00 — eight body bits exactly, so no
    // padding can complete the terminator's all-zero code
    let text = lines_of(&["ééééa"]);
    let wire = encode(&text);
    let back = decode(&wire).expect("a fresh wire image must decode");
    let expected: Vec<char> = "ééééa\n".chars().collect();
    assert_eq!(back, expected);
}

#[test]
fn decode_three_byte_character() {
    // a crafted image whose table codes a three-byte character
    let wire = vec![
        0x0A, 0x31, 0x30, 0x0A, // "\n" coded 10
        0x61, 0x30, 0x31, 0x0A, // 'a' coded 01
        0xE2, 0x82, 0xAC, 0x31, 0x31, 0x0A, // '€' coded 11
        0x0A, 0x0A, // end of header
        0x1E, // bits 0 1 1 1 1 0, then two padding zeros
    ];
    let back = decode(&wire).expect("the crafted image must decode");
    assert_eq!(back, vec!['a', '€', '\n']);
}

#[test]
fn round_trip_empty_input() {
    let wire = encode(&Vec::new());
    assert_eq!(wire, vec![0x0A, 0x0A, 0x0A, 0x0A]);
    let back = decode(&wire).expect("the degenerate image must decode");
    assert_eq!(back, Vec::<char>::new());
}

#[test]
fn all_empty_lines_collapse() {
    // with no character besides the terminator the single code is empty,
    // codes no bits, and the image reads back as empty input: such texts
    // do not round trip
    let wire = encode(&lines_of(&["", ""]));
    let back = decode(&wire).expect("the image must still decode");
    assert_eq!(back, Vec::<char>::new());
}

#[test]
fn padding_that_completes_a_code_appends_characters() {
    // codes a:01, b:1, terminator:00 — five body bits leave three zero
    // padding bits, and the first two complete the terminator's code, so
    // such texts gain a spurious terminator and do not round trip
    let wire = encode(&lines_of(&["ab"]));
    let back = decode(&wire).expect("the image must still decode");
    assert_eq!(back, vec!['a', 'b', '\n', '\n']);
}

#[test]
fn header_round_trip_with_terminator_entry() {
    let freq = count_chars(&lines_of(&["aaab"]));
    let table = char_count_to_huffman_encoding(freq);
    let mut wire = serialize_huffman_encoding(&table);
    wire.push(0x0A);
    wire.push(0x0A);
    let (parsed, pos) = build_decoding_table(&wire).expect("a written header must parse");
    assert_eq!(pos, wire.len());
    assert_eq!(table_bits(&parsed), table_bits(&table));
    // re-encoding the parsed table reproduces the same header
    let again = serialize_huffman_encoding(&parsed);
    assert_eq!(again, serialize_huffman_encoding(&table));
}

#[test]
fn padding_bits_are_dropped() {
    // codes a:01, b:11, terminator:10 — no run of zeros is a code, so the
    // two padding zeros of the final byte fall away silently
    let wire = vec![
        0x0A, 0x31, 0x30, 0x0A, // "\n" coded 10
        0x61, 0x30, 0x31, 0x0A, // 'a' coded 01
        0x62, 0x31, 0x31, 0x0A, // 'b' coded 11
        0x0A, 0x0A, // end of header
        0x1E, // bits 0 1 1 1 1 0, then two padding zeros
    ];
    let back = decode(&wire).expect("preceding characters must decode");
    assert_eq!(back, vec!['a', 'b', '\n']);
}

#[test]
fn runaway_candidate_fails() {
    // the only code is 0, and the body holds forty one-bits: the
    // candidate outgrows the width of the count type without matching
    let mut wire = vec![0x61, 0x30, 0x0A, 0x0A, 0x0A];
    wire.extend([0xFF; 5]);
    match decode(&wire) {
        Err(HuffmanEncodingError::RunawayCode(bits)) => {
            assert_eq!(bits.len(), 33);
            assert!(bits.iter().all(|b| *b));
        }
        other => panic!("expected a runaway-code failure, got {:?}", other),
    }
}

#[test]
fn malformed_digit_fails_with_partial_bits() {
    // 'a' coded "0x": the bad digit arrives after one good bit
    let wire = vec![0x61, 0x30, 0x78, 0x0A, 0x0A, 0x0A];
    assert_eq!(
        decode(&wire),
        Err(HuffmanEncodingError::MalformedDigit(vec![false]))
    );
}

#[test]
fn truncated_header_fails() {
    assert_eq!(decode(&vec![0x61, 0x30, 0x31]), Err(HuffmanEncodingError::TruncatedHeader));
    assert_eq!(decode(&Vec::new()), Err(HuffmanEncodingError::TruncatedHeader));
    // a lone empty line leaves the look-ahead with nothing to read
    assert_eq!(decode(&vec![0x0A]), Err(HuffmanEncodingError::TruncatedHeader));
}

#[test]
fn invalid_character_encoding_fails() {
    // a header line may not start with a stray continuation byte
    let wire = vec![0xFF, 0x30, 0x0A, 0x0A, 0x0A];
    assert_eq!(decode(&wire), Err(HuffmanEncodingError::InvalidEncoding));
}

#[test]
fn serialize_multibyte_entry() {
    let mut code = NewBitVec::new();
    code.push(true);
    let table = vec![('é', code)];
    // 'é' is 0xC3 0xA9 in its natural byte encoding
    assert_eq!(serialize_huffman_encoding(&table), vec![0xC3, 0xA9, 0x31, 0x0A]);
}
