//! Tests for the bencode codec: decoding, encoding, the builder, and the
//! decode options.

use metainfo::{BDecodeOpt, Bencode, BencodeKind, BencodeParseError, InfoHash};

fn decode_default(bytes: &[u8]) -> Result<Bencode, BencodeParseError> {
    Bencode::decode(&bytes.to_vec(), BDecodeOpt::default())
}

#[test]
fn decode_simple_dict_and_reencode() {
    let data = b"d12:lucky_numberi7ee";
    let bencode = decode_default(data).unwrap();

    assert_eq!(bencode.kind(), BencodeKind::Dict);
    let val = bencode.dict_lookup(&b"lucky_number".to_vec()).unwrap();
    assert_eq!(val.as_int(), Some(7));

    assert_eq!(bencode.encode(), data.to_vec());
}

#[test]
fn decode_empty_list() {
    let bencode = decode_default(b"le").unwrap();
    assert_eq!(bencode.kind(), BencodeKind::List);
    assert_eq!(bencode.list().unwrap().len(), 0);
}

#[test]
fn decode_unterminated_dict_fails_at_eof() {
    let err = decode_default(b"d").unwrap_err();
    assert!(matches!(err, BencodeParseError::InvalidByte { pos: 1 }));
}

#[test]
fn decode_sorted_keys_in_order() {
    let bencode = decode_default(b"d3:bari1e3:fooi2ee").unwrap();
    let entries = bencode.dict().unwrap();
    assert_eq!(entries.len(), 2);
    assert_eq!(entries[0].0, b"bar".to_vec());
    assert_eq!(entries[1].0, b"foo".to_vec());
    assert_eq!(bencode.encode(), b"d3:bari1e3:fooi2ee".to_vec());
}

#[test]
fn decode_unsorted_keys_rejected() {
    let err = decode_default(b"d3:fooi1e3:bari2ee").unwrap_err();
    assert!(matches!(err, BencodeParseError::InvalidKeyOrdering { .. }));
}

#[test]
fn decode_unsorted_keys_allowed_when_not_enforced() {
    let opts = BDecodeOpt::new(false, 50);
    let bencode = Bencode::decode(&b"d3:fooi1e3:bari2ee".to_vec(), opts).unwrap();
    let entries = bencode.dict().unwrap();
    assert_eq!(entries[0].0, b"foo".to_vec());
    assert_eq!(entries[1].0, b"bar".to_vec());
    // Stored order is preserved, so re-encoding still reproduces the input.
    assert_eq!(bencode.encode(), b"d3:fooi1e3:bari2ee".to_vec());
}

#[test]
fn decode_duplicate_keys_rejected_in_both_modes() {
    let err = decode_default(b"d3:fooi1e3:fooi2ee").unwrap_err();
    assert!(matches!(err, BencodeParseError::InvalidKeyDuplicates { .. }));

    let opts = BDecodeOpt::new(false, 50);
    let err = Bencode::decode(&b"d3:fooi1e3:fooi2ee".to_vec(), opts).unwrap_err();
    assert!(matches!(err, BencodeParseError::InvalidKeyDuplicates { .. }));
}

#[test]
fn decode_negative_zero_rejected() {
    let err = decode_default(b"i-0e").unwrap_err();
    assert!(matches!(err, BencodeParseError::InvalidIntNegativeZero { .. }));
}

#[test]
fn decode_malformed_integers_rejected() {
    assert!(matches!(
        decode_default(b"i00e").unwrap_err(),
        BencodeParseError::InvalidIntZeroPadding { .. }
    ));
    assert!(matches!(
        decode_default(b"i01e").unwrap_err(),
        BencodeParseError::InvalidIntZeroPadding { .. }
    ));
    assert!(matches!(
        decode_default(b"i-0e").unwrap_err(),
        BencodeParseError::InvalidIntNegativeZero { .. }
    ));
    assert!(matches!(
        decode_default(b"i-01e").unwrap_err(),
        BencodeParseError::InvalidIntNegativeZero { .. }
    ));
    assert!(matches!(
        decode_default(b"ie").unwrap_err(),
        BencodeParseError::InvalidIntParseError { .. }
    ));
    assert!(matches!(
        decode_default(b"i-e").unwrap_err(),
        BencodeParseError::InvalidIntParseError { .. }
    ));
    assert!(matches!(
        decode_default(b"i12").unwrap_err(),
        BencodeParseError::InvalidIntNoDelimiter { .. }
    ));
}

#[test]
fn decode_integer_bounds() {
    let max = decode_default(b"i9223372036854775807e").unwrap();
    assert_eq!(max.as_int(), Some(i64::MAX));
    assert_eq!(max.encode(), b"i9223372036854775807e".to_vec());

    let min = decode_default(b"i-9223372036854775808e").unwrap();
    assert_eq!(min.as_int(), Some(i64::MIN));
    assert_eq!(min.encode(), b"i-9223372036854775808e".to_vec());

    assert!(matches!(
        decode_default(b"i9223372036854775808e").unwrap_err(),
        BencodeParseError::InvalidIntParseError { .. }
    ));
    assert!(matches!(
        decode_default(b"i-9223372036854775809e").unwrap_err(),
        BencodeParseError::InvalidIntParseError { .. }
    ));
}

#[test]
fn decode_byte_strings() {
    let b = decode_default(b"4:spam").unwrap();
    assert_eq!(b.bytes(), Some(&b"spam".to_vec()));
    assert_eq!(b.encode(), b"4:spam".to_vec());

    let empty = decode_default(b"0:").unwrap();
    assert_eq!(empty.bytes(), Some(&Vec::new()));
}

#[test]
fn decode_length_beyond_input_rejected() {
    let err = decode_default(b"5:abc").unwrap_err();
    assert!(matches!(err, BencodeParseError::InvalidLengthOverflow { .. }));
}

#[test]
fn decode_zero_padded_length_rejected() {
    assert!(decode_default(b"02:ab").is_err());
}

#[test]
fn decode_empty_input_rejected() {
    let err = decode_default(b"").unwrap_err();
    assert!(matches!(err, BencodeParseError::BytesEmpty { pos: 0 }));
}

#[test]
fn decode_trailing_bytes_rejected() {
    let err = decode_default(b"i1ei2e").unwrap_err();
    assert!(matches!(err, BencodeParseError::BytesEmpty { pos: 3 }));
}

#[test]
fn decode_depth_bound_enforced() {
    let shallow = Bencode::decode(&b"llee".to_vec(), BDecodeOpt::new(true, 2));
    assert!(shallow.is_ok());

    let err = Bencode::decode(&b"llee".to_vec(), BDecodeOpt::new(true, 1)).unwrap_err();
    assert!(matches!(err, BencodeParseError::InvalidRecursionLimitExceeded { .. }));

    let err = Bencode::decode(&b"lllleeee".to_vec(), BDecodeOpt::new(true, 3)).unwrap_err();
    assert!(matches!(err, BencodeParseError::InvalidRecursionLimitExceeded { .. }));
}

#[test]
fn decode_invalid_leading_byte_rejected() {
    let err = decode_default(b"x").unwrap_err();
    assert!(matches!(err, BencodeParseError::InvalidByte { pos: 0 }));
}

#[test]
fn decode_nested_structures_roundtrip() {
    let data = b"d4:infod5:filesld6:lengthi42e4:pathl3:sub4:fileeeeee";
    let bencode = decode_default(data).unwrap();
    assert_eq!(bencode.encode(), data.to_vec());
}

#[test]
fn builder_sorts_keys_on_insert() {
    let tree = Bencode::new_dict()
        .dict_insert(b"zebra".to_vec(), Bencode::new_int(1))
        .dict_insert(b"apple".to_vec(), Bencode::new_int(2))
        .dict_insert(b"mango".to_vec(), Bencode::new_int(3));
    let encoded = tree.encode();
    assert_eq!(encoded, b"d5:applei2e5:mangoi3e5:zebrai1ee".to_vec());

    // The canonical encoding decodes back to the same tree.
    let decoded = decode_default(&encoded).unwrap();
    assert_eq!(decoded.encode(), encoded);
}

#[test]
fn builder_insert_replaces_existing_key() {
    let tree = Bencode::new_dict()
        .dict_insert(b"key".to_vec(), Bencode::new_int(1))
        .dict_insert(b"key".to_vec(), Bencode::new_int(2));
    assert_eq!(tree.encode(), b"d3:keyi2ee".to_vec());
    assert_eq!(tree.dict_lookup(&b"key".to_vec()).unwrap().as_int(), Some(2));
}

#[test]
fn builder_list_push_preserves_order() {
    let tree = Bencode::new_list()
        .list_push(Bencode::new_int(3))
        .list_push(Bencode::new_bytes(b"ab".to_vec()))
        .list_push(Bencode::new_list());
    assert_eq!(tree.encode(), b"li3e2:ablee".to_vec());
}

#[test]
fn accessors_refuse_other_variants() {
    let b = Bencode::new_int(7);
    assert_eq!(b.kind(), BencodeKind::Int);
    assert!(b.bytes().is_none());
    assert!(b.list().is_none());
    assert!(b.dict().is_none());
    assert!(b.dict_lookup(&b"x".to_vec()).is_none());
    assert_eq!(b.as_int(), Some(7));
}

#[test]
fn info_hash_matches_known_digest() {
    // SHA-1 of "abc", a published reference value.
    let expected: [u8; 20] = [
        0xa9, 0x99, 0x3e, 0x36, 0x47, 0x06, 0x81, 0x6a, 0xba, 0x3e, 0x25, 0x71, 0x78, 0x50,
        0xc2, 0x6c, 0x9c, 0xd0, 0xd8, 0x9d,
    ];
    let digest = InfoHash::from_bytes(&b"abc".to_vec());
    assert_eq!(digest.as_bytes(), &expected);
}
