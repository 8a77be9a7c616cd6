//! Tests for metainfo validation: advisory fields, URL checking, path
//! component rules, piece hash length, and info-hash stability.

use metainfo::{Bencode, BDecodeOpt, InfoHash, MetainfoFile, ParseErrorKind};

fn single_file_info(piece_len: i64, pieces: &[u8], name: &str, length: i64) -> Bencode {
    Bencode::new_dict()
        .dict_insert(b"piece length".to_vec(), Bencode::new_int(piece_len))
        .dict_insert(b"pieces".to_vec(), Bencode::new_bytes(pieces.to_vec()))
        .dict_insert(b"name".to_vec(), Bencode::new_bytes(name.as_bytes().to_vec()))
        .dict_insert(b"length".to_vec(), Bencode::new_int(length))
}

fn root_with(info: Bencode) -> Bencode {
    Bencode::new_dict()
        .dict_insert(
            b"announce".to_vec(),
            Bencode::new_bytes(b"udp://dummy_domain.com:8989".to_vec()),
        )
        .dict_insert(b"info".to_vec(), info)
}

#[test]
fn invalid_utf8_comment_treated_as_absent() {
    let root = root_with(single_file_info(1024, &[0u8; 20], "f", 0))
        .dict_insert(b"comment".to_vec(), Bencode::new_bytes(vec![0xff, 0xfe]));
    let metainfo = MetainfoFile::from_bytes(&root.encode()).unwrap();
    assert_eq!(metainfo.comment(), None);
}

#[test]
fn non_ascii_comment_preserved() {
    let root = root_with(single_file_info(1024, &[0u8; 20], "f", 0))
        .dict_insert(b"comment".to_vec(), Bencode::new_bytes("caf\u{e9}".as_bytes().to_vec()));
    let metainfo = MetainfoFile::from_bytes(&root.encode()).unwrap();
    assert_eq!(metainfo.comment(), Some("caf\u{e9}"));
}

#[test]
fn invalid_announce_url_rejected() {
    let root = Bencode::new_dict()
        .dict_insert(b"announce".to_vec(), Bencode::new_bytes(b"not a url at all".to_vec()))
        .dict_insert(b"info".to_vec(), single_file_info(1024, &[0u8; 20], "f", 0));
    let err = MetainfoFile::from_bytes(&root.encode()).unwrap_err();
    assert_eq!(err.kind, ParseErrorKind::MissingData);
}

#[test]
fn root_must_be_a_dictionary() {
    let err = MetainfoFile::from_bytes(&Bencode::new_int(7).encode()).unwrap_err();
    assert_eq!(err.kind, ParseErrorKind::MissingData);
}

#[test]
fn invalid_bencode_reported_as_corrupt() {
    let err = MetainfoFile::from_bytes(&b"i-0e".to_vec()).unwrap_err();
    assert_eq!(err.kind, ParseErrorKind::CorruptData);
}

#[test]
fn pieces_length_not_multiple_of_twenty_rejected() {
    let root = root_with(single_file_info(1024, &[0u8; 21], "f", 0));
    let err = MetainfoFile::from_bytes(&root.encode()).unwrap_err();
    assert_eq!(err.kind, ParseErrorKind::MissingData);
}

#[test]
fn single_file_name_with_separator_rejected() {
    let root = root_with(single_file_info(1024, &[0u8; 20], "a/b", 0));
    let err = MetainfoFile::from_bytes(&root.encode()).unwrap_err();
    assert_eq!(err.kind, ParseErrorKind::CorruptData);
}

fn multi_file_info(piece_len: i64, pieces: &[u8], dir: &str, paths: &[&str]) -> Bencode {
    let mut path_list = Bencode::new_list();
    for p in paths {
        path_list = path_list.list_push(Bencode::new_bytes(p.as_bytes().to_vec()));
    }
    let file_dict = Bencode::new_dict()
        .dict_insert(b"length".to_vec(), Bencode::new_int(0))
        .dict_insert(b"path".to_vec(), path_list);
    Bencode::new_dict()
        .dict_insert(b"piece length".to_vec(), Bencode::new_int(piece_len))
        .dict_insert(b"pieces".to_vec(), Bencode::new_bytes(pieces.to_vec()))
        .dict_insert(b"name".to_vec(), Bencode::new_bytes(dir.as_bytes().to_vec()))
        .dict_insert(b"files".to_vec(), Bencode::new_list().list_push(file_dict))
}

#[test]
fn multi_file_dot_dot_component_rejected() {
    let root = root_with(multi_file_info(1024, &[0u8; 20], "dir", &["..", "f"]));
    let err = MetainfoFile::from_bytes(&root.encode()).unwrap_err();
    assert_eq!(err.kind, ParseErrorKind::CorruptData);
}

#[test]
fn multi_file_empty_component_rejected() {
    let root = root_with(multi_file_info(1024, &[0u8; 20], "dir", &[""]));
    let err = MetainfoFile::from_bytes(&root.encode()).unwrap_err();
    assert_eq!(err.kind, ParseErrorKind::CorruptData);
}

#[test]
fn multi_file_empty_path_list_rejected() {
    let root = root_with(multi_file_info(1024, &[0u8; 20], "dir", &[]));
    let err = MetainfoFile::from_bytes(&root.encode()).unwrap_err();
    assert_eq!(err.kind, ParseErrorKind::MissingData);
}

#[test]
fn multi_file_valid_components_accepted() {
    let root = root_with(multi_file_info(1024, &[0u8; 20], "dir", &["sub", "f"]));
    let metainfo = MetainfoFile::from_bytes(&root.encode()).unwrap();
    assert_eq!(metainfo.info().directory(), Some("dir"));
    let paths: Vec<&str> = metainfo.info().files()[0].paths().iter().map(|p| &p[..]).collect();
    assert_eq!(paths, vec!["sub", "f"]);
}

#[test]
fn info_hash_stable_across_reencoding() {
    let root = root_with(single_file_info(1024, &[7u8; 40], "f", 0));
    let buffer = root.encode();
    let metainfo = MetainfoFile::from_bytes(&buffer).unwrap();

    // Recompute the hash from the decoded tree's info dictionary.
    let decoded = Bencode::decode(&buffer, BDecodeOpt::default()).unwrap();
    let info = decoded.dict_lookup(&b"info".to_vec()).unwrap();
    let recomputed = InfoHash::from_bytes(&info.encode());
    assert_eq!(metainfo.info_hash(), recomputed);
}

#[test]
fn pieces_are_twenty_byte_chunks_in_order() {
    let mut pieces_bytes = Vec::new();
    for chunk in 0..3u8 {
        pieces_bytes.extend(std::iter::repeat(chunk).take(20));
    }
    let root = root_with(single_file_info(1024, &pieces_bytes, "f", 0));
    let metainfo = MetainfoFile::from_bytes(&root.encode()).unwrap();
    let pieces = metainfo.info().pieces();
    assert_eq!(pieces.len(), 3);
    for (i, piece) in pieces.iter().enumerate() {
        assert_eq!(piece.len(), 20);
        assert!(piece.iter().all(|b| *b == i as u8));
    }
}

#[test]
fn zero_piece_length_rejected() {
    let root = root_with(single_file_info(0, &[0u8; 20], "f", 0));
    let err = MetainfoFile::from_bytes(&root.encode()).unwrap_err();
    assert_eq!(err.kind, ParseErrorKind::MissingData);
}

#[test]
fn negative_piece_length_rejected() {
    let root = root_with(single_file_info(-4, &[0u8; 20], "f", 0));
    let err = MetainfoFile::from_bytes(&root.encode()).unwrap_err();
    assert_eq!(err.kind, ParseErrorKind::MissingData);
}

#[test]
fn negative_file_length_rejected() {
    let root = root_with(single_file_info(1024, &[0u8; 20], "f", -1));
    let err = MetainfoFile::from_bytes(&root.encode()).unwrap_err();
    assert_eq!(err.kind, ParseErrorKind::MissingData);
}

#[test]
fn wrong_typed_length_key_is_single_file_and_fails() {
    // A `length` key present with a non-integer value selects the
    // single-file shape, whose length extraction then fails; it is not
    // silently treated as a multi-file torrent.
    let info = Bencode::new_dict()
        .dict_insert(b"piece length".to_vec(), Bencode::new_int(1024))
        .dict_insert(b"pieces".to_vec(), Bencode::new_bytes(vec![0u8; 20]))
        .dict_insert(b"name".to_vec(), Bencode::new_bytes(b"f".to_vec()))
        .dict_insert(b"length".to_vec(), Bencode::new_bytes(b"not a number".to_vec()));
    let err = MetainfoFile::from_bytes(&root_with(info).encode()).unwrap_err();
    assert_eq!(err.kind, ParseErrorKind::MissingData);
}

#[test]
fn backslash_component_rejected() {
    let root = root_with(single_file_info(1024, &[0u8; 20], "a\\b", 0));
    let err = MetainfoFile::from_bytes(&root.encode()).unwrap_err();
    assert_eq!(err.kind, ParseErrorKind::CorruptData);
}

#[test]
fn decode_failure_reported_with_fixed_message() {
    let err = MetainfoFile::from_bytes(&b"d3:fooi1e3:bari2ee".to_vec()).unwrap_err();
    assert_eq!(err.kind, ParseErrorKind::CorruptData);
    assert_eq!(err.desc, "Specified File Is Not Valid Bencode");
}

#[test]
fn missing_announce_reported_as_missing_data() {
    let root = Bencode::new_dict()
        .dict_insert(b"info".to_vec(), single_file_info(1024, &[0u8; 20], "f", 0));
    let err = MetainfoFile::from_bytes(&root.encode()).unwrap_err();
    assert_eq!(err.kind, ParseErrorKind::MissingData);
}
