use lut::{decode, encode, from_hex, hash, to_hex, Error, ObjectKind};

#[test]
fn encode_blob_has_header_nul_and_content() {
    let store = encode(ObjectKind::Blob, b"hello");
    assert_eq!(store, b"blob 5\0hello".to_vec());
}

#[test]
fn encode_names_each_kind() {
    assert_eq!(encode(ObjectKind::Tree, b"ab"), b"tree 2\0ab".to_vec());
    assert_eq!(encode(ObjectKind::Commit, b"abc"), b"commit 3\0abc".to_vec());
}

#[test]
fn encode_writes_the_length_in_decimal() {
    let content = vec![7u8; 1203];
    let store = encode(ObjectKind::Blob, &content);
    assert_eq!(&store[..10], b"blob 1203\0");
    assert_eq!(&store[10..], &content[..]);
}

#[test]
fn encode_is_deterministic() {
    let first = encode(ObjectKind::Blob, b"same bytes");
    let second = encode(ObjectKind::Blob, b"same bytes");
    assert_eq!(first, second);
    assert_eq!(hash(&first), hash(&second));
}

#[test]
fn hash_of_empty_blob() {
    let store = encode(ObjectKind::Blob, b"");
    assert_eq!(store, b"blob 0\0".to_vec());
    assert_eq!(
        hash(&store),
        b"473a0f4c3be8a93681a267e3b1e9a7dcda1185436fe141f7749120a303721813".to_vec()
    );
}

#[test]
fn hash_of_no_bytes_is_the_digest_of_nothing() {
    assert_eq!(
        hash(b""),
        b"e3b0c44298fc1c149afbf4c8996fb92427ae41e4649b934ca495991b7852b855".to_vec()
    );
}

#[test]
fn hash_covers_the_header() {
    let blob = encode(ObjectKind::Blob, b"hello");
    assert_eq!(
        hash(&blob),
        b"8aec4e4876f854f688d0ebfc8f37598f38e5fd6903cccc850ca36591175aeb60".to_vec()
    );
    let tree = encode(ObjectKind::Tree, b"hello");
    assert_ne!(hash(&blob), hash(&tree));
}

#[test]
fn hash_is_64_lowercase_hex_digits() {
    let id = hash(b"anything at all");
    assert_eq!(id.len(), 64);
    assert!(id.iter().all(|b| b.is_ascii_digit() || (b'a'..=b'f').contains(b)));
}

#[test]
fn different_content_gives_different_hashes() {
    let one = hash(&encode(ObjectKind::Blob, b"one"));
    let two = hash(&encode(ObjectKind::Blob, b"two"));
    assert_ne!(one, two);
}

#[test]
fn decode_gives_back_header_and_content() {
    let (header, content) = decode(b"blob 5\0hello").unwrap();
    assert_eq!(header, b"blob 5".to_vec());
    assert_eq!(content, b"hello".to_vec());
}

#[test]
fn decode_splits_at_the_first_nul_only() {
    let (header, content) = decode(b"blob 3\0a\0b").unwrap();
    assert_eq!(header, b"blob 3".to_vec());
    assert_eq!(content, b"a\0b".to_vec());
}

#[test]
fn decode_keeps_bytes_that_are_not_text() {
    let content = vec![0xff, 0x00, 0xfe, 0x80, 0x0a];
    let store = encode(ObjectKind::Blob, &content);
    let (header, back) = decode(&store).unwrap();
    assert_eq!(header, b"blob 5".to_vec());
    assert_eq!(back, content);
}

#[test]
fn decode_without_nul_is_corrupt() {
    assert!(matches!(decode(b"blob 5 hello"), Err(Error::CorruptObject)));
    assert!(matches!(decode(b""), Err(Error::CorruptObject)));
}

#[test]
fn decode_of_a_lone_nul_is_empty_header_and_content() {
    let (header, content) = decode(b"\0").unwrap();
    assert!(header.is_empty());
    assert!(content.is_empty());
}

#[test]
fn to_hex_writes_two_lowercase_digits_for_each_byte() {
    assert_eq!(to_hex(&[1, 2, 3, 15, 16]), b"0102030f10".to_vec());
    assert_eq!(to_hex(&[0x00, 0xff, 0xab]), b"00ffab".to_vec());
    assert_eq!(to_hex(&[]), Vec::<u8>::new());
}

#[test]
fn from_hex_reads_both_cases() {
    assert_eq!(from_hex(b"0102030f10").unwrap(), vec![1, 2, 3, 15, 16]);
    assert_eq!(from_hex(b"F9b4Ca").unwrap(), vec![0xf9, 0xb4, 0xca]);
    assert_eq!(from_hex(b"").unwrap(), Vec::<u8>::new());
}

#[test]
fn from_hex_refuses_an_odd_number_of_digits() {
    assert!(matches!(from_hex(b"123"), Err(Error::InvalidHash)));
}

#[test]
fn from_hex_refuses_what_is_no_digit() {
    assert!(matches!(from_hex(b"fo"), Err(Error::InvalidHash)));
    assert!(matches!(from_hex(b"0g"), Err(Error::InvalidHash)));
    assert!(matches!(from_hex(b" 1"), Err(Error::InvalidHash)));
}

#[test]
fn from_hex_undoes_to_hex() {
    let data: Vec<u8> = (0..=255u8).collect();
    assert_eq!(from_hex(&to_hex(&data)).unwrap(), data);
}

#[test]
fn error_has_words_for_each_failure() {
    assert_eq!(Error::IOFailure.message(), "input or output failed");
    assert_eq!(Error::NotFound.message(), "object not found");
    assert_eq!(Error::CorruptObject.message(), "corrupt object");
    assert_eq!(Error::MalformedMetadata.message(), "malformed metadata");
    assert_eq!(Error::InvalidHash.message(), "invalid hash");
}
