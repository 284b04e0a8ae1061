use bzippr::rle::RleSequence;

fn enc(data: &[u8]) -> Vec<u8> {
    RleSequence::encode(data).sequence().to_vec()
}

fn dec(seq: Vec<u8>) -> Vec<u8> {
    RleSequence::from_vec(seq).decode()
}

#[test]
fn test_rle_encode_empty() {
    assert_eq!(enc(&[]), Vec::<u8>::new());
}

#[test]
fn test_rle_encode_five_same_bytes() {
    assert_eq!(enc(b"aaaaa"), vec![b'a', b'a', b'a', b'a', 1]);
}

#[test]
fn test_rle_encode_one_byte() {
    assert_eq!(enc(b"a"), vec![b'a']);
}

#[test]
fn test_rle_encode_four_same_one_different() {
    assert_eq!(enc(b"aaaab"), vec![b'a', b'a', b'a', b'a', 0, b'b']);
}

#[test]
fn test_rle_encode_shortest_worst_case() {
    assert_eq!(enc(b"aaaa"), vec![b'a', b'a', b'a', b'a', 0]);
}

#[test]
fn test_rle_encode_longer_worst_case() {
    assert_eq!(
        enc(b"aaaabbbbaaaa"),
        vec![b'a', b'a', b'a', b'a', 0, b'b', b'b', b'b', b'b', 0, b'a', b'a', b'a', b'a', 0]
    );
}

#[test]
fn test_rle_encode_repeat_at_beginning() {
    assert_eq!(
        enc(b"aaaabcdefg"),
        vec![b'a', b'a', b'a', b'a', 0, b'b', b'c', b'd', b'e', b'f', b'g']
    );
}

#[test]
fn test_rle_encode_repeat_plus_one_at_beginning() {
    assert_eq!(
        enc(b"aaaaabcdefg"),
        vec![b'a', b'a', b'a', b'a', 1, b'b', b'c', b'd', b'e', b'f', b'g']
    );
}

#[test]
fn test_rle_encode_repeat_in_the_middle() {
    assert_eq!(enc(b"xyzaaaabc"), vec![b'x', b'y', b'z', b'a', b'a', b'a', b'a', 0, b'b', b'c']);
}

#[test]
fn test_rle_encode_repeat_plus_one_in_the_middle() {
    assert_eq!(enc(b"xyzaaaaabc"), vec![b'x', b'y', b'z', b'a', b'a', b'a', b'a', 1, b'b', b'c']);
}

#[test]
fn test_rle_encode_repeat_at_end() {
    assert_eq!(enc(b"abcdddd"), vec![b'a', b'b', b'c', b'd', b'd', b'd', b'd', 0]);
}

#[test]
fn test_rle_encode_repeat_plus_one_at_end() {
    assert_eq!(enc(b"abcddddd"), vec![b'a', b'b', b'c', b'd', b'd', b'd', b'd', 1]);
}

#[test]
fn test_rle_encode_long_run() {
    assert_eq!(enc(&[b'a'; 255]), vec![b'a', b'a', b'a', b'a', 251]);
}

#[test]
fn test_rle_encode_overlong_run() {
    assert_eq!(enc(&[b'a'; 256]), vec![b'a', b'a', b'a', b'a', 251, b'a']);
}

#[test]
fn test_rle_decode_empty() {
    assert_eq!(dec(vec![]), Vec::<u8>::new());
}

#[test]
fn test_rle_decode_five_same_bytes() {
    assert_eq!(dec(vec![b'a', b'a', b'a', b'a', 1]), b"aaaaa".to_vec());
}

#[test]
fn test_rle_decode_one_byte() {
    assert_eq!(dec(vec![b'a']), b"a".to_vec());
}

#[test]
fn test_rle_decode_four_same_one_different() {
    assert_eq!(dec(vec![b'a', b'a', b'a', b'a', 0, b'b']), b"aaaab".to_vec());
}

#[test]
fn test_rle_decode_shortest_worst_case() {
    assert_eq!(dec(vec![b'a', b'a', b'a', b'a', 0]), b"aaaa".to_vec());
}

#[test]
fn test_rle_decode_longer_worst_case() {
    assert_eq!(
        dec(vec![b'a', b'a', b'a', b'a', 0, b'b', b'b', b'b', b'b', 0, b'a', b'a', b'a', b'a', 0]),
        b"aaaabbbbaaaa".to_vec()
    );
}

#[test]
fn test_rle_decode_repeat_at_beginning() {
    assert_eq!(
        dec(vec![b'a', b'a', b'a', b'a', 0, b'b', b'c', b'd', b'e', b'f', b'g']),
        b"aaaabcdefg".to_vec()
    );
}

#[test]
fn test_rle_decode_repeat_plus_one_at_beginning() {
    assert_eq!(
        dec(vec![b'a', b'a', b'a', b'a', 1, b'b', b'c', b'd', b'e', b'f', b'g']),
        b"aaaaabcdefg".to_vec()
    );
}

#[test]
fn test_rle_decode_repeat_in_the_middle() {
    assert_eq!(
        dec(vec![b'x', b'y', b'z', b'a', b'a', b'a', b'a', 0, b'b', b'c']),
        b"xyzaaaabc".to_vec()
    );
}

#[test]
fn test_rle_decode_repeat_plus_one_in_the_middle() {
    assert_eq!(
        dec(vec![b'x', b'y', b'z', b'a', b'a', b'a', b'a', 1, b'b', b'c']),
        b"xyzaaaaabc".to_vec()
    );
}

#[test]
fn test_rle_decode_repeat_at_end() {
    assert_eq!(dec(vec![b'a', b'b', b'c', b'd', b'd', b'd', b'd', 0]), b"abcdddd".to_vec());
}

#[test]
fn test_rle_decode_repeat_plus_one_at_end() {
    assert_eq!(dec(vec![b'a', b'b', b'c', b'd', b'd', b'd', b'd', 1]), b"abcddddd".to_vec());
}

#[test]
fn test_rle_decode_long_run() {
    assert_eq!(dec(vec![b'a', b'a', b'a', b'a', 251]), [b'a'; 255].to_vec());
}

#[test]
fn test_rle_decode_overlong_run() {
    assert_eq!(dec(vec![b'a', b'a', b'a', b'a', 251, b'a']), [b'a'; 256].to_vec());
}

#[test]
fn test_rle_decode_missing_count_at_end() {
    assert_eq!(dec(vec![b'a', b'a', b'a', b'a']), b"aaaa".to_vec());
}

#[test]
fn test_rle_roundtrip_cases() {
    let cases: Vec<Vec<u8>> = vec![
        vec![],
        b"aaaaa".to_vec(),
        b"a".to_vec(),
        b"aaaab".to_vec(),
        b"aaaa".to_vec(),
        b"aaaabbbbaaaa".to_vec(),
        b"aaaabcdefg".to_vec(),
        b"aaaaabcdefg".to_vec(),
        b"xyzaaaabc".to_vec(),
        b"xyzaaaaabc".to_vec(),
        b"abcdddd".to_vec(),
        b"abcddddd".to_vec(),
        [b'a'; 255].to_vec(),
        [b'a'; 256].to_vec(),
        [b'z'; 1000].to_vec(),
    ];
    for data in cases {
        assert_eq!(RleSequence::encode(&data).decode(), data);
    }
}

#[test]
fn test_rle_len_and_empty() {
    assert!(RleSequence::empty().is_empty());
    assert_eq!(RleSequence::encode(b"aaaaa").len(), 5);
}
