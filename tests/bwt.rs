use bzippr::bwt::{get_from_index, get_shifts, sort_table, BwtEncoded, BwtError};

fn encode_parts(data: &[u8]) -> (Vec<u8>, usize) {
    let e = BwtEncoded::encode(data);
    (e.data().clone(), e.original_index())
}

fn round_trip(data: &[u8]) {
    let encoded = BwtEncoded::encode(data);
    let decoded = encoded.decode().unwrap();
    assert_eq!(decoded, data.to_vec());
}

#[test]
fn test_bwt_encode_aab() {
    assert_eq!(encode_parts(b"aba"), (b"baa".to_vec(), 1));
}

#[test]
fn test_bwt_encode_zbcba() {
    assert_eq!(encode_parts(b"zbcba"), (b"bczba".to_vec(), 4));
}

#[test]
fn test_bwt_encode_single_byte() {
    assert_eq!(encode_parts(b"a"), (b"a".to_vec(), 0));
}

#[test]
fn test_bwt_encode_three_identical_bytes() {
    assert_eq!(encode_parts(b"aaa"), (b"aaa".to_vec(), 0));
}

#[test]
fn test_bwt_encode_empty() {
    assert_eq!(encode_parts(b""), (Vec::new(), 0));
}

#[test]
fn test_bwt_encode_banana() {
    // the last column of the sorted rotations of BANANA
    assert_eq!(encode_parts(b"BANANA"), (b"NNBAAA".to_vec(), 3));
    assert_eq!(BwtEncoded::new(b"NNBAAA".to_vec(), 3).decode().unwrap(), b"BANANA".to_vec());
}

#[test]
fn test_get_from_index_banana() {
    assert_eq!(get_from_index(b"ANABAN", 3), b"BANANA".to_vec());
}

#[test]
fn test_get_from_index_index_0() {
    assert_eq!(get_from_index(b"AB", 0), b"AB".to_vec());
}

#[test]
fn test_get_from_index_index_1() {
    assert_eq!(get_from_index(b"AB", 1), b"BA".to_vec());
}

#[test]
fn test_get_from_index_empty() {
    assert_eq!(get_from_index(b"", 1), Vec::<u8>::new());
}

#[test]
fn test_get_shifts_three_bytes() {
    assert_eq!(get_shifts(b"abc"), vec![b"abc".to_vec(), b"bca".to_vec(), b"cab".to_vec()]);
}

#[test]
fn test_get_shifts_two_bytes() {
    assert_eq!(get_shifts(b"ab"), vec![b"ab".to_vec(), b"ba".to_vec()]);
}

#[test]
fn test_get_shifts_one_byte() {
    assert_eq!(get_shifts(b"a"), vec![vec![b'a']]);
}

#[test]
fn test_get_shifts_empty() {
    assert_eq!(get_shifts(b""), vec![Vec::<u8>::new()]);
}

#[test]
fn test_sort_table_empty() {
    let mut input: Vec<Vec<u8>> = vec![];
    assert_eq!(sort_table(&mut input), 0);
    assert_eq!(input, Vec::<Vec<u8>>::new());
}

#[test]
fn test_sort_table_one_element() {
    let mut input = vec![b"sadfiuasdiufasiudfnasdf".to_vec()];
    assert_eq!(sort_table(&mut input), 0);
    assert_eq!(input, vec![b"sadfiuasdiufasiudfnasdf".to_vec()]);
}

#[test]
fn test_sort_table_switch_entries() {
    let mut input = vec![vec![100, 1], vec![1, 100]];
    assert_eq!(sort_table(&mut input), 1);
    assert_eq!(input, vec![vec![1, 100], vec![100, 1]]);
}

#[test]
fn test_sort_table_already_sorted() {
    let mut input = vec![vec![1, 100], vec![100, 1]];
    assert_eq!(sort_table(&mut input), 0);
    assert_eq!(input, vec![vec![1, 100], vec![100, 1]]);
}

#[test]
fn test_sort_table_prefix_first_and_duplicates() {
    let mut input = vec![vec![5, 1], vec![5], vec![5, 1], vec![0, 9]];
    assert_eq!(sort_table(&mut input), 2);
    assert_eq!(input, vec![vec![0, 9], vec![5], vec![5, 1], vec![5, 1]]);
}

#[test]
fn test_bwt_decode_three_bytes() {
    assert_eq!(BwtEncoded::new(b"baa".to_vec(), 1).decode().unwrap(), b"aba".to_vec());
}

#[test]
fn test_bwt_decode_five_bytes() {
    assert_eq!(BwtEncoded::new(b"bczba".to_vec(), 4).decode().unwrap(), b"zbcba".to_vec());
}

#[test]
fn test_bwt_decode_single_byte() {
    assert_eq!(BwtEncoded::new(b"a".to_vec(), 0).decode().unwrap(), b"a".to_vec());
}

#[test]
fn test_bwt_decode_three_identical_bytes() {
    assert_eq!(BwtEncoded::new(b"aaa".to_vec(), 0).decode().unwrap(), b"aaa".to_vec());
}

#[test]
fn test_bwt_decode_empty() {
    assert_eq!(BwtEncoded::new(Vec::new(), 0).decode().unwrap(), Vec::<u8>::new());
}

#[test]
fn test_bwt_decode_index_out_of_range() {
    assert_eq!(BwtEncoded::new(b"baa".to_vec(), 3).decode(), Err(BwtError::OutOfRange));
}

#[test]
fn test_roundtrip_three_bytes() {
    round_trip(b"baa");
}

#[test]
fn test_roundtrip_five_bytes() {
    round_trip(b"bczba");
}

#[test]
fn test_roundtrip_single_byte() {
    round_trip(b"a");
}

#[test]
fn test_roundtrip_three_identical_bytes() {
    round_trip(b"aaa");
}

#[test]
fn test_roundtrip_emojis() {
    round_trip("üöÇ‚≠êÔ∏èüêùü§Ø".as_bytes());
}

#[test]
fn test_roundtrip_empty() {
    round_trip(b"");
}

#[test]
fn test_roundtrip_binary_bytes() {
    let data: Vec<u8> = (0..200u32).map(|i| ((i * 37 + 11) % 256) as u8).collect();
    round_trip(&data);
}

#[test]
fn test_roundtrip_repetitive_block() {
    let data = b"12345678901234567890123aaaaaaaaaa45678901234567890abcabcabc00000000zz".repeat(2);
    round_trip(&data);
}

#[test]
fn test_bwt_data_is_permutation() {
    let data = b"mississippi";
    let (last, index) = encode_parts(data);
    let mut a = last.clone();
    let mut b = data.to_vec();
    a.sort();
    b.sort();
    assert_eq!(a, b);
    assert!(index < data.len());
}

#[test]
fn test_bwt_len_and_empty() {
    let e = BwtEncoded::encode(b"abc");
    assert_eq!(e.len(), 3);
    assert!(!e.is_empty());
    assert!(BwtEncoded::empty().is_empty());
    assert_eq!(BwtEncoded::empty().original_index(), 0);
}
