use huffcomp::bits::{pack_bits, unpack_bits};
use huffcomp::container::{frame, unframe};
use huffcomp::tree_codec::{parse_tree, tree_bytes, tree_entries, tree_from_bytes};
use huffcomp::{
    char_freq, check_extension, compress, decompress, fill_code_table, text_of_symbols,
    FormatError, HuffError, HuffmanTree, Node, NodeType,
};

fn round_trip(text: &str) {
    let c = compress(text).expect("compress");
    let d = decompress(&c).expect("decompress");
    assert_eq!(d, text);
}

#[test]
fn char_freq_counts_in_first_occurrence_order() {
    let t = char_freq("aaabbc");
    assert_eq!(t, vec![(97, 3), (98, 2), (99, 1)]);
    let t = char_freq("cbcé");
    assert_eq!(t, vec![(99, 2), (98, 1), (233, 1)]);
    assert_eq!(char_freq(""), vec![]);
}

#[test]
fn node_new_has_no_children() {
    let n = Node::new(NodeType::Character(65), 7);
    assert_eq!(n.value, NodeType::Character(65));
    assert_eq!(n.frequency, 7);
    assert!(n.left.is_none() && n.right.is_none());
}

#[test]
fn tree_for_aaabbc_joins_c_and_b_first() {
    let tree = HuffmanTree::new(&char_freq("aaabbc"));
    let root = tree.get_root();
    assert_eq!(root.value, NodeType::Joint);
    assert_eq!(root.frequency, 6);
    let left = root.left.as_ref().unwrap();
    let right = root.right.as_ref().unwrap();
    assert_eq!(left.value, NodeType::Character(97));
    assert_eq!(left.frequency, 3);
    assert_eq!(right.value, NodeType::Joint);
    assert_eq!(right.frequency, 3);
    assert_eq!(right.left.as_ref().unwrap().value, NodeType::Character(99));
    assert_eq!(right.right.as_ref().unwrap().value, NodeType::Character(98));
}

#[test]
fn code_table_for_aaabbc() {
    let tree = HuffmanTree::new(&char_freq("aaabbc"));
    let mut table: Vec<(u32, Vec<bool>)> = Vec::new();
    fill_code_table(&mut table, &tree);
    assert_eq!(
        table,
        vec![(97, vec![false]), (99, vec![true, false]), (98, vec![true, true])]
    );
}

#[test]
fn code_table_appends_to_what_is_there() {
    let tree = HuffmanTree::new(&char_freq("xy"));
    let mut table: Vec<(u32, Vec<bool>)> = vec![(1, vec![true])];
    fill_code_table(&mut table, &tree);
    assert_eq!(table, vec![(1, vec![true]), (120, vec![false]), (121, vec![true])]);
}

#[test]
fn code_table_replaces_old_codes_of_the_same_symbols() {
    let tree = HuffmanTree::new(&char_freq("zzzz"));
    let mut table: Vec<(u32, Vec<bool>)> = vec![(122, vec![true]), (5, vec![true, true])];
    fill_code_table(&mut table, &tree);
    assert_eq!(table, vec![(5, vec![true, true]), (122, vec![false])]);
}

#[test]
fn single_symbol_gets_one_bit_code() {
    let tree = HuffmanTree::new(&char_freq("zzzz"));
    assert_eq!(tree.get_root().value, NodeType::Character(122));
    let mut table: Vec<(u32, Vec<bool>)> = Vec::new();
    fill_code_table(&mut table, &tree);
    assert_eq!(table, vec![(122, vec![false])]);
}

#[test]
fn codes_of_built_tree_are_prefix_free() {
    let tree = HuffmanTree::new(&char_freq("the quick brown fox jumps over the lazy dog"));
    let mut table: Vec<(u32, Vec<bool>)> = Vec::new();
    fill_code_table(&mut table, &tree);
    for (i, (_, a)) in table.iter().enumerate() {
        for (j, (_, b)) in table.iter().enumerate() {
            if i != j {
                assert!(!(a.len() <= b.len() && b[..a.len()] == a[..]));
            }
        }
    }
}

#[test]
fn compress_aaabbc_container_layout() {
    let c = compress("aaabbc").unwrap();
    // tree: 5 preorder entries; 8-byte count, 2 joints of 9 bytes, 3 leaves of 13
    assert_eq!(c.len(), 8 + 65 + 8 + 2);
    assert_eq!(&c[0..8], &[0, 0, 0, 0, 0, 0, 0, 65]);
    assert_eq!(&c[73..81], &[0, 0, 0, 0, 0, 0, 0, 9]);
    // bits 0 0 0 11 11 10, then padding
    assert_eq!(&c[81..], &[0b0001_1111, 0b0000_0000]);
    let expected_tree = bincode::serialize(&vec![
        (None::<u32>, 6u64),
        (Some(97u32), 3u64),
        (None, 3),
        (Some(99), 1),
        (Some(98), 2),
    ])
    .unwrap();
    assert_eq!(&c[8..73], &expected_tree[..]);
}

#[test]
fn aaabbc_round_trip() {
    round_trip("aaabbc");
}

#[test]
fn single_symbol_round_trip() {
    round_trip("a");
    round_trip("aaaa");
    let c = compress("aaaa").unwrap();
    let n = c.len();
    assert_eq!(&c[n - 9..], &[0, 0, 0, 0, 0, 0, 0, 4, 0]);
}

#[test]
fn unicode_and_control_round_trip() {
    round_trip("héllo wörld ✓ 日本語 🦀");
    round_trip("\n\r\0\t line\r\n");
    round_trip("ab");
    round_trip("abcdefghijklmnopqrstuvwxyz0123456789 ABCDEFGHIJKLMNOPQRSTUVWXYZ");
}

#[test]
fn longer_text_round_trip() {
    let mut s = String::new();
    for i in 0..2000u32 {
        s.push(char::from_u32(32 + (i * 7919) % 300).unwrap());
    }
    round_trip(&s);
}

#[test]
fn compress_is_deterministic() {
    let t = "mississippi river banks";
    assert_eq!(compress(t).unwrap(), compress(t).unwrap());
}

#[test]
fn empty_input_is_input_error() {
    assert!(matches!(compress(""), Err(HuffError::Input(_))));
    assert!(matches!(decompress(&vec![]), Err(HuffError::Input(_))));
}

#[test]
fn truncated_tree_is_format_error() {
    let c = compress("aaabbc").unwrap();
    for k in 1..73 {
        let cut = c[..k].to_vec();
        assert_eq!(decompress(&cut), Err(HuffError::Format(FormatError::Container)));
    }
}

#[test]
fn truncated_payload_and_extra_bytes_are_format_errors() {
    let c = compress("aaabbc").unwrap();
    let cut = c[..c.len() - 1].to_vec();
    assert_eq!(decompress(&cut), Err(HuffError::Format(FormatError::Container)));
    let mut longer = c.clone();
    longer.push(0);
    assert_eq!(decompress(&longer), Err(HuffError::Format(FormatError::Container)));
}

#[test]
fn bad_tree_bytes_are_format_error() {
    let c = frame(&vec![1, 2, 3], 0, &vec![]);
    assert_eq!(decompress(&c), Err(HuffError::Format(FormatError::Tree)));
    // a joint whose right child is missing
    let tb = bincode::serialize(&vec![(None::<u32>, 2u64), (Some(97u32), 1u64)]).unwrap();
    let c = frame(&tb, 1, &vec![0]);
    assert_eq!(decompress(&c), Err(HuffError::Format(FormatError::Tree)));
}

#[test]
fn trailing_bytes_after_the_tree_are_format_error() {
    let c = compress("aaabbc").unwrap();
    let mut tb = c[8..73].to_vec();
    tb.push(0);
    let bad = frame(&tb, 9, &vec![0b0001_1111, 0]);
    assert_eq!(decompress(&bad), Err(HuffError::Format(FormatError::Tree)));
}

#[test]
fn empty_input_messages() {
    match compress("") {
        Err(HuffError::Input(e)) => assert_eq!(e.0, "File must not be empty"),
        other => panic!("unexpected {:?}", other),
    }
    match decompress(&vec![]) {
        Err(HuffError::Input(e)) => assert_eq!(e.0, "File must not be empty"),
        other => panic!("unexpected {:?}", other),
    }
}

#[test]
fn bits_ending_inside_a_code_are_format_error() {
    let c = compress("aaabbc").unwrap();
    let tb = c[8..73].to_vec();
    // "0" decodes to a, then "1" stops inside the code of b or c
    let bad = frame(&tb, 2, &vec![0b0100_0000]);
    assert_eq!(decompress(&bad), Err(HuffError::Format(FormatError::Bits)));
    let good = frame(&tb, 3, &vec![0b0110_0000]);
    assert_eq!(decompress(&good), Ok(String::from("ab")));
}

#[test]
fn non_scalar_leaf_is_format_error() {
    let tb = bincode::serialize(&vec![(Some(0xD800u32), 1u64)]).unwrap();
    let c = frame(&tb, 1, &vec![0]);
    assert_eq!(decompress(&c), Err(HuffError::Format(FormatError::Tree)));
    // rejected even where no bit reaches the leaf
    let c = frame(&tb, 0, &vec![]);
    assert_eq!(decompress(&c), Err(HuffError::Format(FormatError::Tree)));
    let tb = bincode::serialize(&vec![
        (None::<u32>, 2u64),
        (Some(97u32), 1u64),
        (Some(0x110000u32), 1u64),
    ])
    .unwrap();
    let c = frame(&tb, 1, &vec![0]);
    assert_eq!(decompress(&c), Err(HuffError::Format(FormatError::Tree)));
}

#[test]
fn padding_bits_are_not_decoded() {
    let c = compress("aaabbc").unwrap();
    let tb = c[8..73].to_vec();
    // nine data bits, then seven padding bits that would read as "aaaaaaa"
    let d = decompress(&frame(&tb, 9, &vec![0b0001_1111, 0b0000_0000])).unwrap();
    assert_eq!(d, "aaabbc");
    let d = decompress(&frame(&tb, 9, &vec![0b0001_1111, 0b0111_1111])).unwrap();
    assert_eq!(d, "aaabbc");
}

#[test]
fn wrong_extension_is_input_error() {
    assert!(check_extension("notes.txt").is_err());
    assert!(check_extension("notes").is_err());
    assert!(check_extension(".huff").is_err());
    assert!(check_extension("dir/.huff").is_err());
    assert!(check_extension("notes.huff.txt").is_err());
    assert!(check_extension("notes.huff").is_ok());
    assert!(check_extension("dir/notes.txt.huff").is_ok());
}

#[test]
fn pack_and_unpack_bits() {
    assert_eq!(pack_bits(&vec![true, false, true]), vec![0b1010_0000]);
    assert_eq!(pack_bits(&vec![]), Vec::<u8>::new());
    let nine = vec![true, true, true, true, true, true, true, true, true];
    assert_eq!(pack_bits(&nine), vec![0xFF, 0x80]);
    assert_eq!(unpack_bits(&vec![0b1010_0000], 3), vec![true, false, true]);
    assert_eq!(unpack_bits(&vec![0xFF, 0x80], 9), nine);
    assert_eq!(unpack_bits(&vec![0xFF], 0), Vec::<bool>::new());
}

#[test]
fn frame_and_unframe() {
    let f = frame(&vec![7, 8], 10, &vec![1, 2]);
    assert_eq!(
        f,
        vec![0, 0, 0, 0, 0, 0, 0, 2, 7, 8, 0, 0, 0, 0, 0, 0, 0, 10, 1, 2]
    );
    assert_eq!(unframe(&f), Some((vec![7, 8], 10, vec![1, 2])));
    assert_eq!(unframe(&vec![0; 7]), None);
    assert_eq!(unframe(&frame(&vec![7, 8], 17, &vec![1, 2])), None);
}

#[test]
fn tree_bytes_round_trip() {
    let tree = HuffmanTree::new(&char_freq("abracadabra"));
    let root = tree.get_root();
    let e = tree_entries(root);
    assert_eq!(e[0], (None, 11));
    let b = tree_bytes(root);
    assert_eq!(b, bincode::serialize(&e).unwrap());
    let back = tree_from_bytes(&b).unwrap();
    assert_eq!(tree_entries(&back), e);
    assert!(parse_tree(&vec![(None, 1), (Some(1), 1)]).is_none());
    assert!(parse_tree(&vec![(Some(1), 1), (Some(2), 1)]).is_none());
}

#[test]
fn symbols_to_text() {
    assert_eq!(text_of_symbols(&vec![104, 105, 0x1F980]), Some(String::from("hi🦀")));
    assert_eq!(text_of_symbols(&vec![104, 0x110000]), None);
}
