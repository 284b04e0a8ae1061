use bzippr::huff::{FrequencyTable, HuffmanEncoder, HuffmanError, Node, MAX_HUFFMAN_LEN};
use bzippr::mtf::{MtfIndex, MtfTransform};

const RUNA: usize = 1337;
const RUNB: usize = 1338;

fn get_mtf(indices: &[usize], stack: &[u8]) -> MtfTransform {
    MtfTransform::from_parts(
        indices
            .iter()
            .map(|&i| match i {
                RUNA => MtfIndex::RunA,
                RUNB => MtfIndex::RunB,
                v => MtfIndex::Val(v as u8),
            })
            .collect(),
        stack.to_vec(),
    )
}

fn freq_table(indices: &[usize], stack: &[u8]) -> Vec<usize> {
    FrequencyTable::build(&get_mtf(indices, stack)).unwrap().counts().clone()
}

fn num_syms(indices: &[usize], stack: &[u8]) -> usize {
    FrequencyTable::build(&get_mtf(indices, stack)).unwrap().len()
}

fn root_freq(indices: &[usize], stack: &[u8]) -> usize {
    HuffmanEncoder::new(&get_mtf(indices, stack)).unwrap().root().as_ref().unwrap().freq
}

fn leaf(freq: usize, symbol: Option<usize>) -> Node {
    Node { left: None, right: None, freq, symbol }
}

fn assert_prefix_free(table: &[(Option<usize>, Vec<bool>)]) {
    for (i, (_, a)) in table.iter().enumerate() {
        for (j, (_, b)) in table.iter().enumerate() {
            if i != j {
                assert!(!(a.len() <= b.len() && b[..a.len()] == a[..]));
            }
        }
    }
}

#[test]
fn test_freq_map_empty() {
    assert_eq!(freq_table(&[], &[]), vec![0, 0, 1]);
}

#[test]
fn test_freq_map_one_run() {
    assert_eq!(freq_table(&[RUNA, RUNA, RUNB], &[0]), vec![2, 1, 1]);
}

#[test]
fn test_freq_map_run_at_end() {
    assert_eq!(
        freq_table(&[1, 2, 3, RUNA, RUNA, RUNB], &[1, 10, 100, 42]),
        vec![2, 1, 1, 1, 1, 1]
    );
}

#[test]
fn test_freq_map_value_beyond_alphabet() {
    let mtf = get_mtf(&[RUNA, 9], &[1, 2]);
    assert_eq!(FrequencyTable::build(&mtf).unwrap_err(), HuffmanError::OutOfRange);
    assert_eq!(HuffmanEncoder::new(&mtf).err(), Some(HuffmanError::OutOfRange));
}

#[test]
fn test_freq_map_end_of_block_counts_once() {
    // Val(2) shares its key with the end-of-block symbol of a two-byte stack
    assert_eq!(freq_table(&[2, 2, 1], &[1, 2]), vec![0, 0, 1, 1]);
}

#[test]
fn test_encode_empty() {
    let expected = Node {
        left: Some(Box::new(Node {
            left: Some(Box::new(leaf(0, Some(0)))),
            right: Some(Box::new(leaf(0, Some(1)))),
            freq: 0,
            symbol: None,
        })),
        right: Some(Box::new(leaf(1, Some(2)))),
        freq: 1,
        symbol: None,
    };
    let enc = HuffmanEncoder::new(&MtfTransform::empty()).unwrap();
    assert_eq!(enc.root().as_ref().unwrap(), &expected);
    assert_eq!(
        enc.code_table(),
        &vec![
            (Some(0), vec![false, false]),
            (Some(1), vec![false, true]),
            (Some(2), vec![true]),
        ]
    );
}

#[test]
fn test_freqs_in_tree_empty() {
    assert_eq!(root_freq(&[], &[]), 1);
}

#[test]
fn test_freqs_in_tree_one_run() {
    assert_eq!(root_freq(&[RUNA, RUNA, RUNB], &[0]), 4);
}

#[test]
fn test_freqs_in_tree_run_at_end() {
    assert_eq!(root_freq(&[1, 2, 3, RUNA, RUNA, RUNB], &[1, 10, 100, 42]), 7);
}

#[test]
fn test_new_leaf_empty() {
    assert_eq!(Node::new_leaf(0, None), leaf(0, None));
}

#[test]
fn test_new_leaf_lotsa_42s() {
    assert_eq!(Node::new_leaf(1337, Some(42)), leaf(1337, Some(42)));
}

#[test]
fn test_new_leaf_whole_lotta_nuthin() {
    assert_eq!(Node::new_leaf(1337, None), leaf(1337, None));
}

#[test]
fn test_new_branch_empty() {
    assert_eq!(
        Node::new_branch(Node::new_leaf(0, None), Node::new_leaf(0, None)),
        Node {
            left: Some(Box::new(leaf(0, None))),
            right: Some(Box::new(leaf(0, None))),
            freq: 0,
            symbol: None
        }
    );
}

#[test]
fn test_new_branch_long() {
    assert_eq!(
        Node::new_branch(Node::new_leaf(1312, Some(42)), Node::new_leaf(25, Some(23))),
        Node {
            left: Some(Box::new(leaf(1312, Some(42)))),
            right: Some(Box::new(leaf(25, Some(23)))),
            freq: 1337,
            symbol: None
        }
    );
}

#[test]
fn test_get_depth() {
    let b = Node::new_branch(
        Node::new_branch(Node::new_leaf(1, Some(0)), Node::new_leaf(1, Some(1))),
        Node::new_leaf(3, Some(2)),
    );
    assert_eq!(b.get_depth(), 3);
    assert_eq!(Node::new_leaf(1, None).get_depth(), 1);
}

#[test]
fn test_num_syms_empty() {
    assert_eq!(num_syms(&[], &[]), 3);
}

#[test]
fn test_num_syms_one_run() {
    assert_eq!(num_syms(&[RUNA, RUNA, RUNB], &[0]), 3);
}

#[test]
fn test_num_syms_run_at_end() {
    assert_eq!(num_syms(&[1, 2, 3, RUNA, RUNA, RUNB], &[1, 10, 100, 42]), 6);
}

#[test]
fn test_num_syms_one_symbol() {
    assert_eq!(num_syms(&[RUNA, RUNB], &[97]), 3);
}

#[test]
fn test_num_syms_run_at_beginning() {
    assert_eq!(num_syms(&[RUNA, 1, 1, 1, 1, 1], &[97, 98]), 4);
}

#[test]
fn test_num_syms_back_and_forth() {
    assert_eq!(num_syms(&[RUNA, 1, 2, RUNA, 1, 2, RUNA, 1, 2, RUNA, 1, 2], &[97, 98, 99]), 5);
}

#[test]
fn test_num_syms_runas_at_end() {
    assert_eq!(num_syms(&[RUNA, 1, 2, RUNA, RUNA], &[97, 98, 99]), 5);
}

#[test]
fn test_num_syms_bbyaeeeeeeafeeeybzzzzzzzzzyz() {
    assert_eq!(
        num_syms(
            &[1, RUNA, 4, 2, 3, RUNA, RUNB, 1, 4, 2, RUNB, 3, 4, 5, RUNB, RUNA, RUNA, 2, 1],
            &[97, 98, 101, 102, 121, 122]
        ),
        8
    );
}

#[test]
fn test_alphabet_size_of_encoded_streams() {
    for data in [&b""[..], b"a", b"cba", b"hello world", b"aaaaabbbbbccccc"] {
        let mtf = MtfTransform::encode(data);
        let expected = std::cmp::max(mtf.num_stack(), 1) + 2;
        assert_eq!(FrequencyTable::build(&mtf).unwrap().len(), expected);
    }
}

#[test]
fn test_codes_bounded_for_skewed_weights() {
    // weights growing like the Fibonacci numbers give a Huffman tree deeper
    // than the bound, so the weights must be scaled
    let mut symbols = Vec::new();
    let (mut a, mut b) = (1usize, 1usize);
    for v in 1..=28u8 {
        for _ in 0..a {
            symbols.push(MtfIndex::Val(v));
        }
        let c = a + b;
        a = b;
        b = c;
    }
    let stack: Vec<u8> = (0..29u8).collect();
    let mtf = MtfTransform::from_parts(symbols, stack);
    let enc = HuffmanEncoder::new(&mtf).unwrap();
    let table = enc.code_table();
    assert_eq!(table.len(), 31);
    assert!(table.iter().all(|(_, code)| code.len() <= MAX_HUFFMAN_LEN));
    assert!(enc.root().as_ref().unwrap().get_depth() <= MAX_HUFFMAN_LEN);
    assert_prefix_free(table);
}

#[test]
fn test_codes_prefix_free_for_encoded_block() {
    let mtf = MtfTransform::encode(b"the quick brown fox jumps over the lazy dog, again and again");
    let enc = HuffmanEncoder::new(&mtf).unwrap();
    let table = enc.code_table();
    assert_eq!(table.len(), FrequencyTable::build(&mtf).unwrap().len());
    assert!(table.iter().all(|(_, code)| !code.is_empty() && code.len() <= MAX_HUFFMAN_LEN));
    assert_prefix_free(table);
}

#[test]
fn test_huffman_empty_encoder() {
    let enc = HuffmanEncoder::empty();
    assert!(enc.root().is_none());
    assert!(enc.code_table().is_empty());
}
