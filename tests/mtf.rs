use bzippr::mtf::{emit_run, MtfError, MtfIndex, MtfTransform};

const RUNA: usize = 1337;
const RUNB: usize = 1338;

fn to_symbols(indices: &[usize]) -> Vec<MtfIndex> {
    indices
        .iter()
        .map(|&i| match i {
            RUNA => MtfIndex::RunA,
            RUNB => MtfIndex::RunB,
            v => MtfIndex::Val(v as u8),
        })
        .collect()
}

fn encode(data: &[u8]) -> (Vec<usize>, Vec<u8>) {
    let mtf = MtfTransform::encode(data);
    (
        mtf.indices()
            .iter()
            .map(|i| match i {
                MtfIndex::RunA => RUNA,
                MtfIndex::RunB => RUNB,
                MtfIndex::Val(v) => *v as usize,
            })
            .collect(),
        mtf.stack().clone(),
    )
}

fn decode(indices: &[usize], stack: &[u8]) -> Vec<u8> {
    MtfTransform::from_parts(to_symbols(indices), stack.to_vec()).decode().unwrap()
}

#[test]
fn test_mtf_encode_empty() {
    assert_eq!(encode(b""), (vec![], vec![]));
}

#[test]
fn test_mtf_encode_zero() {
    assert_eq!(encode(&[0]), (vec![RUNA], vec![0]));
}

#[test]
fn test_mtf_encode_zeroes() {
    assert_eq!(encode(&[0, 0, 0, 0, 0, 0]), (vec![RUNB, RUNB], vec![0]));
}

#[test]
fn test_mtf_encode_single_byte() {
    assert_eq!(encode(b"a"), (vec![RUNA], vec![97]));
}

#[test]
fn test_mtf_encode_all_unique_bytes() {
    assert_eq!(
        encode(b"abcdefg"),
        (vec![RUNA, 1, 2, 3, 4, 5, 6], vec![97, 98, 99, 100, 101, 102, 103])
    );
}

#[test]
fn test_mtf_encode_no_runs() {
    assert_eq!(encode(b"gab"), (vec![2, 1, 2], vec![97, 98, 103]));
}

#[test]
fn test_mtf_encode_repeated_blocks() {
    assert_eq!(
        encode(b"aaaaabbbbbccccc"),
        (vec![RUNA, RUNB, 1, RUNB, RUNA, 2, RUNB, RUNA], vec![97, 98, 99])
    );
}

#[test]
fn test_mtf_encode_repeat_same_byte() {
    assert_eq!(encode(b"aaaaa"), (vec![RUNA, RUNB], vec![97]));
}

#[test]
fn test_mtf_encode_alternate_two_bytes() {
    assert_eq!(encode(b"ababab"), (vec![RUNA, 1, 1, 1, 1, 1], vec![97, 98]));
}

#[test]
fn test_mtf_encode_back_and_forth() {
    assert_eq!(
        encode(b"abccbaabccba"),
        (vec![RUNA, 1, 2, RUNA, 1, 2, RUNA, 1, 2, RUNA, 1, 2], vec![97, 98, 99])
    );
}

#[test]
fn test_mtf_encode_overlapping_patterns() {
    assert_eq!(encode(b"abacaba"), (vec![RUNA, 1, 1, 2, 1, 2, 1], vec![97, 98, 99]));
}

#[test]
fn test_mtf_encode_bbyaeeeeeeafeeeybzzzzzzzzzyz() {
    assert_eq!(
        encode(b"bbyaeeeeeeafeeeybzzzzzzzzzyz"),
        (
            vec![1, RUNA, 4, 2, 3, RUNA, RUNB, 1, 4, 2, RUNB, 3, 4, 5, RUNB, RUNA, RUNA, 2, 1],
            vec![97, 98, 101, 102, 121, 122]
        )
    );
}

#[test]
fn test_mtf_encode_one_runb_at_end() {
    assert_eq!(encode(b"abccc"), (vec![RUNA, 1, 2, RUNB], vec![97, 98, 99]));
}

#[test]
fn test_mtf_encode_runas_at_end() {
    assert_eq!(encode(b"abcccc"), (vec![RUNA, 1, 2, RUNA, RUNA], vec![97, 98, 99]));
}

#[test]
fn test_mtf_decode_empty() {
    assert_eq!(decode(&[], &[]), Vec::<u8>::new());
}

#[test]
fn test_mtf_decode_zero() {
    assert_eq!(decode(&[RUNA], &[0]), vec![0]);
}

#[test]
fn test_mtf_decode_zeroes() {
    assert_eq!(decode(&[RUNB, RUNB], &[0]), vec![0, 0, 0, 0, 0, 0]);
}

#[test]
fn test_mtf_decode_single_byte() {
    assert_eq!(decode(&[RUNA], &[97]), b"a".to_vec());
}

#[test]
fn test_mtf_decode_all_unique_bytes() {
    assert_eq!(
        decode(&[RUNA, 1, 2, 3, 4, 5, 6], &[97, 98, 99, 100, 101, 102, 103]),
        b"abcdefg".to_vec()
    );
}

#[test]
fn test_mtf_decode_no_runs() {
    assert_eq!(decode(&[2, 1, 2], &[97, 98, 103]), b"gab".to_vec());
}

#[test]
fn test_mtf_decode_repeated_blocks() {
    assert_eq!(
        decode(&[RUNA, RUNB, 1, RUNB, RUNA, 2, RUNB, RUNA], &[97, 98, 99]),
        b"aaaaabbbbbccccc".to_vec()
    );
}

#[test]
fn test_mtf_decode_repeat_same_byte() {
    assert_eq!(decode(&[RUNA, RUNB], &[97]), b"aaaaa".to_vec());
}

#[test]
fn test_mtf_decode_alternate_two_bytes() {
    assert_eq!(decode(&[RUNA, 1, 1, 1, 1, 1], &[97, 98]), b"ababab".to_vec());
}

#[test]
fn test_mtf_decode_back_and_forth() {
    assert_eq!(
        decode(&[RUNA, 1, 2, RUNA, 1, 2, RUNA, 1, 2, RUNA, 1, 2], &[97, 98, 99]),
        b"abccbaabccba".to_vec()
    );
}

#[test]
fn test_mtf_decode_overlapping_patterns() {
    assert_eq!(decode(&[RUNA, 1, 1, 2, 1, 2, 1], &[97, 98, 99]), b"abacaba".to_vec());
}

#[test]
fn test_mtf_decode_bbyaeeeeeeafeeeybzzzzzzzzzyz() {
    assert_eq!(
        decode(
            &[1, RUNA, 4, 2, 3, RUNA, RUNB, 1, 4, 2, RUNB, 3, 4, 5, RUNB, RUNA, RUNA, 2, 1],
            &[97, 98, 101, 102, 121, 122]
        ),
        b"bbyaeeeeeeafeeeybzzzzzzzzzyz".to_vec()
    );
}

#[test]
fn test_mtf_decode_one_runb_at_end() {
    assert_eq!(decode(&[RUNA, 1, 2, RUNB], &[97, 98, 99]), b"abccc".to_vec());
}

#[test]
fn test_mtf_decode_runas_at_end() {
    assert_eq!(decode(&[RUNA, 1, 2, RUNA, RUNA], &[97, 98, 99]), b"abcccc".to_vec());
}

#[test]
fn test_mtf_decode_index_out_of_range() {
    let mtf = MtfTransform::from_parts(to_symbols(&[RUNA, 5]), vec![1, 2]);
    assert_eq!(mtf.decode(), Err(MtfError::OutOfRange));
}

#[test]
fn test_mtf_decode_run_on_empty_stack() {
    let mtf = MtfTransform::from_parts(to_symbols(&[RUNA]), vec![]);
    assert_eq!(mtf.decode(), Err(MtfError::OutOfRange));
}

#[test]
fn test_mtf_decode_run_too_long() {
    let mtf = MtfTransform::from_parts(vec![MtfIndex::RunB; 70], vec![1]);
    assert_eq!(mtf.decode(), Err(MtfError::MalformedStream));
}

#[test]
fn test_mtf_round_trip_various_blocks() {
    let blocks: Vec<Vec<u8>> = vec![
        vec![],
        vec![7],
        vec![9; 1000],
        b"aaaaabbbbbccccc".to_vec(),
        (0..=255u8).rev().collect(),
        (0..3000u32).map(|i| ((i * i) % 251) as u8).collect(),
    ];
    for b in blocks {
        assert_eq!(MtfTransform::encode(&b).decode().unwrap(), b);
    }
}

#[test]
fn test_mtf_example_runs_decode_back() {
    let mtf = MtfTransform::encode(b"aaaaabbbbbccccc");
    assert_eq!(mtf.stack(), &vec![b'a', b'b', b'c']);
    assert!(mtf.indices().iter().any(|i| *i == MtfIndex::RunA || *i == MtfIndex::RunB));
    assert_eq!(mtf.decode().unwrap().len(), 15);
    assert_eq!(mtf.decode().unwrap(), b"aaaaabbbbbccccc".to_vec());
}

#[test]
fn test_mtf_stack_sorted_and_unique() {
    let mtf = MtfTransform::encode(b"zyxzyxaaaqqqz\x00\xff\x00");
    assert_eq!(mtf.stack(), &vec![0, b'a', b'q', b'x', b'y', b'z', 0xff]);
    assert_eq!(mtf.num_stack(), 7);
}

#[test]
fn test_emit_run_digits() {
    let mut out = Vec::new();
    emit_run(5, &mut out);
    assert_eq!(out, vec![MtfIndex::RunA, MtfIndex::RunB]);
    let mut out = Vec::new();
    emit_run(6, &mut out);
    assert_eq!(out, vec![MtfIndex::RunB, MtfIndex::RunB]);
    let mut out = Vec::new();
    emit_run(0, &mut out);
    assert!(out.is_empty());
}

#[test]
fn test_mtf_empty_and_len() {
    let mtf = MtfTransform::empty();
    assert!(mtf.is_empty());
    assert_eq!(mtf.len(), 0);
    assert_eq!(MtfTransform::encode(b"ab").len(), 2);
}
