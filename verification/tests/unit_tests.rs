use bpe_codec::loader::load_bpe;
use bpe_codec::merge::{_byte_pair_merge, byte_pair_encode};
use bpe_codec::vocab::Vocab;
use bpe_codec::wire::{bytes_to_ranks, ranks_to_bytes};

fn ranks(pairs: &[(&str, u32)]) -> Vocab {
    let v: Vec<(Vec<u8>, u32)> = pairs.iter().map(|(k, r)| (k.as_bytes().to_vec(), *r)).collect();
    Vocab::from_pairs(&v)
}

#[test]
fn test_byte_pair_merge_bounds() {
    let table = ranks(&[
        ("a", 10),
        ("b", 11),
        ("c", 12),
        ("d", 13),
        ("ab", 0),
        ("cd", 1),
        ("abcd", 2),
    ]);
    // "ab" merges first (rank 0), then "cd", then the whole piece.
    let bounds = _byte_pair_merge(b"abcd", &table);
    assert_eq!(bounds, vec![0, 4]);
    let tokens = byte_pair_encode(b"abcd", &table);
    assert_eq!(tokens, vec![2]);
}

#[test]
fn test_byte_pair_merge_leftmost_tie() {
    // Two pairs share the smallest rank: the leftmost merges.
    let table = ranks(&[("a", 10), ("b", 11), ("c", 12), ("ab", 5), ("bc", 5)]);
    let tokens = byte_pair_encode(b"abc", &table);
    assert_eq!(tokens, vec![5, 12]);
}

#[test]
fn test_byte_pair_merge_no_merges() {
    let table = ranks(&[("x", 1), ("y", 2)]);
    let tokens = byte_pair_encode(b"xyx", &table);
    assert_eq!(tokens, vec![1, 2, 1]);
    assert!(tokens.len() <= 3, "token count never exceeds the byte count");
}

#[test]
fn test_byte_pair_merge_priority_order() {
    // Merge priority follows rank order, not position.
    let table = ranks(&[
        ("a", 10),
        ("b", 11),
        ("c", 12),
        ("bc", 0),
        ("ab", 1),
        ("abc", 3),
    ]);
    // "bc" (rank 0) merges before "ab" could, leaving "a"+"bc"; then
    // "abc" (rank 3) joins them.
    let tokens = byte_pair_encode(b"abc", &table);
    assert_eq!(tokens, vec![3]);
}

#[test]
fn test_load_bpe_records() {
    // "QQ==" is "A", "Qg==" is "B".
    let r = load_bpe(b"QQ== 5\n\nQg== 7\n").unwrap();
    assert_eq!(r, vec![(b"A".to_vec(), 5), (b"B".to_vec(), 7)]);
}

#[test]
fn test_load_bpe_rejects_bad_records() {
    assert!(load_bpe(b"QQ==").is_err(), "a record without a space is refused");
    assert!(load_bpe(b"@@ 5\n").is_err(), "a non-base64 token field is refused");
    assert!(load_bpe(b"QQ== five\n").is_err(), "a non-decimal rank is refused");
    assert!(load_bpe(b"QQ== 4294967296\n").is_err(), "a rank beyond 32 bits is refused");
    assert!(load_bpe(b"QQ== 4294967295\n").is_ok(), "the largest rank is accepted");
    assert!(load_bpe(b"").is_ok(), "an empty blob holds no records");
}

#[test]
fn test_wire_round_trip() {
    let rs = vec![1u32, 0, 100257, 4435, u32::MAX];
    let bytes = ranks_to_bytes(&rs);
    assert_eq!(bytes.len(), 4 * rs.len());
    assert_eq!(&bytes[0..4], &[1, 0, 0, 0]);
    assert_eq!(bytes_to_ranks(&bytes), rs);
}

#[test]
fn test_wire_exact_encoding() {
    let bytes = ranks_to_bytes(&[0x01020304]);
    assert_eq!(bytes, vec![0x04, 0x03, 0x02, 0x01]);
}

#[test]
fn test_vocab_lookup() {
    let table = ranks(&[("b", 2), ("a", 1), ("ab", 3)]);
    assert_eq!(table.get(b"a"), Some(1));
    assert_eq!(table.get(b"b"), Some(2));
    assert_eq!(table.get(b"ab"), Some(3));
    assert_eq!(table.get(b"c"), None);
}
