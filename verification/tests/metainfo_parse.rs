//! Tests for parsing metainfo files built by hand from parameters.

use metainfo::{Bencode, InfoHash, MetainfoFile};

/// Helper function for manually constructing a metainfo file based on the
/// parameters given.
///
/// If the metainfo file builds successfully, assertions will be made about
/// the contents of it based on the parameters given.
fn validate_parse_from_params(
    tracker: Option<&str>,
    create_date: Option<i64>,
    comment: Option<&str>,
    create_by: Option<&str>,
    encoding: Option<&str>,
    piece_length: Option<i64>,
    pieces: Option<&[u8]>,
    private: Option<i64>,
    directory: Option<&str>,
    files: Option<Vec<(Option<i64>, Option<&[u8]>, Option<Vec<String>>)>>,
) {
    let mut root_dict = Bencode::new_dict();

    if let Some(t) = tracker {
        root_dict = root_dict.dict_insert(
            b"announce".to_vec(),
            Bencode::new_bytes(t.as_bytes().to_vec()),
        );
    }
    if let Some(c) = create_date {
        root_dict = root_dict.dict_insert(b"creation date".to_vec(), Bencode::new_int(c));
    }
    if let Some(c) = comment {
        root_dict = root_dict.dict_insert(
            b"comment".to_vec(),
            Bencode::new_bytes(c.as_bytes().to_vec()),
        );
    }
    if let Some(c) = create_by {
        root_dict = root_dict.dict_insert(
            b"created by".to_vec(),
            Bencode::new_bytes(c.as_bytes().to_vec()),
        );
    }
    if let Some(e) = encoding {
        root_dict = root_dict.dict_insert(
            b"encoding".to_vec(),
            Bencode::new_bytes(e.as_bytes().to_vec()),
        );
    }

    let mut info_dict = Bencode::new_dict();

    if let Some(p) = piece_length {
        info_dict = info_dict.dict_insert(b"piece length".to_vec(), Bencode::new_int(p));
    }
    if let Some(p) = pieces {
        info_dict = info_dict.dict_insert(b"pieces".to_vec(), Bencode::new_bytes(p.to_vec()));
    }
    if let Some(p) = private {
        info_dict = info_dict.dict_insert(b"private".to_vec(), Bencode::new_int(p));
    }

    match directory {
        Some(d) => {
            // We intended to build a multi file torrent since we provided a
            // directory.
            info_dict = info_dict.dict_insert(
                b"name".to_vec(),
                Bencode::new_bytes(d.as_bytes().to_vec()),
            );
            if let Some(file_list) = files.as_ref() {
                let mut bencode_files = Bencode::new_list();
                for (opt_len, opt_md5, opt_paths) in file_list.iter() {
                    let mut file_dict = Bencode::new_dict();
                    if let Some(paths) = opt_paths.as_ref() {
                        let mut bencode_paths = Bencode::new_list();
                        for p in paths.iter() {
                            bencode_paths = bencode_paths.list_push(
                                Bencode::new_bytes(p.as_bytes().to_vec()),
                            );
                        }
                        file_dict = file_dict.dict_insert(b"path".to_vec(), bencode_paths);
                    }
                    if let Some(l) = opt_len {
                        file_dict = file_dict.dict_insert(
                            b"length".to_vec(),
                            Bencode::new_int(*l),
                        );
                    }
                    if let Some(m) = opt_md5 {
                        file_dict = file_dict.dict_insert(
                            b"md5sum".to_vec(),
                            Bencode::new_bytes(m.to_vec()),
                        );
                    }
                    bencode_files = bencode_files.list_push(file_dict);
                }
                info_dict = info_dict.dict_insert(b"files".to_vec(), bencode_files);
            }
        },
        None => {
            // We intended to build a single file torrent if a directory was
            // not specified.
            if let Some(file_list) = files.as_ref() {
                let (opt_len, opt_md5, opt_path) = &file_list[0];
                if let Some(p) = opt_path.as_ref() {
                    info_dict = info_dict.dict_insert(
                        b"name".to_vec(),
                        Bencode::new_bytes(p[0].as_bytes().to_vec()),
                    );
                }
                if let Some(l) = opt_len {
                    info_dict = info_dict.dict_insert(b"length".to_vec(), Bencode::new_int(*l));
                }
                if let Some(m) = opt_md5 {
                    info_dict = info_dict.dict_insert(
                        b"md5sum".to_vec(),
                        Bencode::new_bytes(m.to_vec()),
                    );
                }
            }
        },
    }
    let info_hash = InfoHash::from_bytes(&info_dict.encode());

    root_dict = root_dict.dict_insert(b"info".to_vec(), info_dict);

    let metainfo_file = MetainfoFile::from_bytes(&root_dict.encode()).unwrap();

    assert_eq!(metainfo_file.info_hash(), info_hash);
    assert_eq!(metainfo_file.comment(), comment);
    assert_eq!(metainfo_file.created_by(), create_by);
    assert_eq!(metainfo_file.encoding(), encoding);
    assert_eq!(metainfo_file.creation_date, create_date);

    assert_eq!(metainfo_file.info().directory(), directory);
    assert_eq!(metainfo_file.info().piece_length(), piece_length.unwrap());
    assert_eq!(metainfo_file.info().is_private(), private.unwrap_or(0) == 1);

    let pieces = pieces.unwrap();
    assert_eq!(pieces.chunks(20).count(), metainfo_file.info().pieces().len());
    for (piece_chunk, piece_elem) in pieces.chunks(20).zip(metainfo_file.info().pieces().iter()) {
        assert_eq!(piece_chunk, piece_elem.as_slice());
    }

    let num_files = files.as_ref().map(|f| f.len()).unwrap_or(0);
    assert_eq!(metainfo_file.info().files().len(), num_files);

    let mut supp_files = files.as_ref().unwrap().iter();
    let mut meta_files = metainfo_file.info().files().iter();
    for _ in 0..num_files {
        let meta_file = meta_files.next().unwrap();
        let supp_file = supp_files.next().unwrap();

        assert_eq!(meta_file.length(), supp_file.0.unwrap());
        assert_eq!(meta_file.md5sum().map(|m| m.as_slice()), supp_file.1);

        let meta_paths: Vec<&str> = meta_file.paths().iter().map(|p| &p[..]).collect();
        let supp_paths: Vec<&str> = supp_file.2.as_ref().unwrap().iter().map(|p| &p[..]).collect();
        assert_eq!(meta_paths, supp_paths);
    }
}

#[test]
fn positive_parse_from_single_file() {
    let tracker = "udp://dummy_domain.com:8989";
    let piece_len = 1024;
    let pieces = [0u8; 20];

    let file_len = 0;
    let file_paths = vec!["dummy_file_name".to_owned()];

    validate_parse_from_params(Some(tracker), None, None, None, None, Some(piece_len),
        Some(&pieces), None, None, Some(vec![(Some(file_len), None, Some(file_paths))]));
}

#[test]
fn positive_parse_from_multi_file() {
    let tracker = "udp://dummy_domain.com:8989";
    let piece_len = 1024;
    let pieces = [0u8; 20];

    let directory = "dummy_file_directory";
    let files = vec![
        (Some(0), None, Some(vec!["dummy_sub_directory".to_owned(), "dummy_file_name".to_owned()]))
    ];

    validate_parse_from_params(Some(tracker), None, None, None, None, Some(piece_len),
        Some(&pieces), None, Some(directory), Some(files));
}

#[test]
fn positive_parse_from_multi_files() {
    let tracker = "udp://dummy_domain.com:8989";
    let piece_len = 1024;
    let pieces = [0u8; 20];

    let directory = "dummy_file_directory";
    let files = vec![
        (Some(0), None, Some(vec!["dummy_sub_directory".to_owned(), "dummy_file_name".to_owned()])),
        (Some(5), None, Some(vec!["other_dummy_file_name".to_owned()]))
    ];

    validate_parse_from_params(Some(tracker), None, None, None, None, Some(piece_len),
        Some(&pieces), None, Some(directory), Some(files));
}

#[test]
fn positive_parse_from_empty_pieces() {
    let tracker = "udp://dummy_domain.com:8989";
    let piece_len = 1024;
    let pieces = [0u8; 0];

    let file_len = 0;
    let file_paths = vec!["dummy_file_name".to_owned()];

    validate_parse_from_params(Some(tracker), None, None, None, None, Some(piece_len),
        Some(&pieces), None, None, Some(vec![(Some(file_len), None, Some(file_paths))]));
}

#[test]
fn positive_parse_with_creation_date() {
    let tracker = "udp://dummy_domain.com:8989";
    let piece_len = 1024;
    let pieces = [0u8; 20];

    let file_len = 0;
    let file_paths = vec!["dummy_file_name".to_owned()];

    let creation_date = 5050505050;

    validate_parse_from_params(Some(tracker), Some(creation_date), None, None, None,
        Some(piece_len), Some(&pieces), None, None,
        Some(vec![(Some(file_len), None, Some(file_paths))]));
}

#[test]
fn positive_parse_with_comment() {
    let tracker = "udp://dummy_domain.com:8989";
    let piece_len = 1024;
    let pieces = [0u8; 20];

    let file_len = 0;
    let file_paths = vec!["dummy_file_name".to_owned()];

    let comment = "This is my boring test comment...";

    validate_parse_from_params(Some(tracker), None, Some(comment), None, None, Some(piece_len),
        Some(&pieces), None, None, Some(vec![(Some(file_len), None, Some(file_paths))]));
}

#[test]
fn positive_parse_with_created_by() {
    let tracker = "udp://dummy_domain.com:8989";
    let piece_len = 1024;
    let pieces = [0u8; 20];

    let file_len = 0;
    let file_paths = vec!["dummy_file_name".to_owned()];

    let created_by = "Me";

    validate_parse_from_params(Some(tracker), None, None, Some(created_by), None,
        Some(piece_len), Some(&pieces), None, None,
        Some(vec![(Some(file_len), None, Some(file_paths))]));
}

#[test]
fn positive_parse_with_encoding() {
    let tracker = "udp://dummy_domain.com:8989";
    let piece_len = 1024;
    let pieces = [0u8; 20];

    let file_len = 0;
    let file_paths = vec!["dummy_file_name".to_owned()];

    let encoding = "UTF-8";

    validate_parse_from_params(Some(tracker), None, None, None, Some(encoding), Some(piece_len),
        Some(&pieces), None, None, Some(vec![(Some(file_len), None, Some(file_paths))]));
}

#[test]
fn positive_parse_with_private_zero() {
    let tracker = "udp://dummy_domain.com:8989";
    let piece_len = 1024;
    let pieces = [0u8; 20];

    let file_len = 0;
    let file_paths = vec!["dummy_file_name".to_owned()];

    let private = 0;

    validate_parse_from_params(Some(tracker), None, None, None, None, Some(piece_len),
        Some(&pieces), Some(private), None, Some(vec![(Some(file_len), None, Some(file_paths))]));
}

#[test]
fn positive_parse_with_private_one() {
    let tracker = "udp://dummy_domain.com:8989";
    let piece_len = 1024;
    let pieces = [0u8; 20];

    let file_len = 0;
    let file_paths = vec!["dummy_file_name".to_owned()];

    let private = 1;

    validate_parse_from_params(Some(tracker), None, None, None, None, Some(piece_len),
        Some(&pieces), Some(private), None, Some(vec![(Some(file_len), None, Some(file_paths))]));
}

#[test]
fn positive_parse_with_private_non_zero() {
    let tracker = "udp://dummy_domain.com:8989";
    let piece_len = 1024;
    let pieces = [0u8; 20];

    let file_len = 0;
    let file_paths = vec!["dummy_file_name".to_owned()];

    let private = -1;

    validate_parse_from_params(Some(tracker), None, None, None, None, Some(piece_len),
        Some(&pieces), Some(private), None, Some(vec![(Some(file_len), None, Some(file_paths))]));
}

#[test]
#[should_panic]
fn negative_parse_from_empty_bytes() {
    MetainfoFile::from_bytes(&Vec::new()).unwrap();
}

#[test]
#[should_panic]
fn negative_parse_with_no_tracker() {
    let piece_len = 1024;
    let pieces = [0u8; 20];

    let file_len = 0;
    let file_paths = vec!["dummy_file_name".to_owned()];

    validate_parse_from_params(None, None, None, None, None, Some(piece_len),
        Some(&pieces), None, None, Some(vec![(Some(file_len), None, Some(file_paths))]));
}

#[test]
#[should_panic]
fn negative_parse_with_no_piece_length() {
    let tracker = "udp://dummy_domain.com:8989";
    let pieces = [0u8; 20];

    let file_len = 0;
    let file_paths = vec!["dummy_file_name".to_owned()];

    let private = -1;

    validate_parse_from_params(Some(tracker), None, None, None, None, None,
        Some(&pieces), Some(private), None, Some(vec![(Some(file_len), None, Some(file_paths))]));
}

#[test]
#[should_panic]
fn negative_parse_with_no_pieces() {
    let tracker = "udp://dummy_domain.com:8989";
    let piece_len = 1024;

    let file_len = 0;
    let file_paths = vec!["dummy_file_name".to_owned()];

    validate_parse_from_params(Some(tracker), None, None, None, None, Some(piece_len),
        None, None, None, Some(vec![(Some(file_len), None, Some(file_paths))]));
}

#[test]
#[should_panic]
fn negative_parse_from_single_file_with_no_file_length() {
    let tracker = "udp://dummy_domain.com:8989";
    let piece_len = 1024;
    let pieces = [0u8; 20];

    let file_paths = vec!["dummy_file_name".to_owned()];

    validate_parse_from_params(Some(tracker), None, None, None, None, Some(piece_len),
        Some(&pieces), None, None, Some(vec![(None, None, Some(file_paths))]));
}

#[test]
#[should_panic]
fn negative_parse_from_single_file_with_no_file_name() {
    let tracker = "udp://dummy_domain.com:8989";
    let piece_len = 1024;
    let pieces = [0u8; 20];

    let file_len = 0;

    validate_parse_from_params(Some(tracker), None, None, None, None, Some(piece_len),
        Some(&pieces), None, None, Some(vec![(Some(file_len), None, None)]));
}
