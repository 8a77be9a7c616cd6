//! Parsing and validating BitTorrent metainfo (torrent) files on top of the
//! bencode codec: a typed, fully owned model of the torrent, with the
//! info-hash computed from the canonical re-encoding of the info dictionary.

use vstd::prelude::*;
use crate::model::{BenValue, dict_get, spec_encode};
use crate::spec_parse::sp_value;
use crate::tree::Bencode;
use crate::decode::BDecodeOpt;
use crate::hash::{InfoHash, sha1_of};

verus! {

/// Whether the `url` crate accepts a string as a URL: a function of the
/// characters alone.
pub uninterp spec fn url_ok(s: Seq<char>) -> bool;

/// Relies on `url::Url::parse`: returns `Ok` or `Err` depending on the
/// string alone.
#[verifier::external_body]
fn is_valid_url(s: &str) -> (r: bool)
    ensures
        r == url_ok(s@),
{
    url::Url::parse(s).is_ok()
}

/// The characters a byte sequence decodes to under UTF-8, or `None` when it
/// is not valid UTF-8: a function of the bytes alone.
pub uninterp spec fn utf8_of(bytes: Seq<u8>) -> Option<Seq<char>>;

/// Relies on `String::from_utf8`: succeeds or fails depending on the bytes
/// alone, and the characters are a function of the bytes.
#[verifier::external_body]
fn bytes_to_string(bytes: &Vec<u8>) -> (r: Option<String>)
    ensures
        r is Some <==> utf8_of(bytes@) is Some,
        r matches Some(s) ==> utf8_of(bytes@) == Some(s@),
{
    String::from_utf8(bytes.clone()).ok()
}

/// The metainfo key `"announce"`, as raw bytes.
pub open spec fn announce_key() -> Seq<u8> {
    seq![97u8, 110u8, 110u8, 111u8, 117u8, 110u8, 99u8, 101u8]
}

fn announce_key_bytes() -> (r: Vec<u8>)
    ensures
        r@ == announce_key(),
{
    let mut k: Vec<u8> = Vec::new();
    k.push(97);
    k.push(110);
    k.push(110);
    k.push(111);
    k.push(117);
    k.push(110);
    k.push(99);
    k.push(101);
    assert(k@ =~= announce_key());
    k
}

/// The metainfo key `"comment"`, as raw bytes.
pub open spec fn comment_key() -> Seq<u8> {
    seq![99u8, 111u8, 109u8, 109u8, 101u8, 110u8, 116u8]
}

fn comment_key_bytes() -> (r: Vec<u8>)
    ensures
        r@ == comment_key(),
{
    let mut k: Vec<u8> = Vec::new();
    k.push(99);
    k.push(111);
    k.push(109);
    k.push(109);
    k.push(101);
    k.push(110);
    k.push(116);
    assert(k@ =~= comment_key());
    k
}

/// The metainfo key `"created by"`, as raw bytes.
pub open spec fn created_by_key() -> Seq<u8> {
    seq![99u8, 114u8, 101u8, 97u8, 116u8, 101u8, 100u8, 32u8, 98u8, 121u8]
}

fn created_by_key_bytes() -> (r: Vec<u8>)
    ensures
        r@ == created_by_key(),
{
    let mut k: Vec<u8> = Vec::new();
    k.push(99);
    k.push(114);
    k.push(101);
    k.push(97);
    k.push(116);
    k.push(101);
    k.push(100);
    k.push(32);
    k.push(98);
    k.push(121);
    assert(k@ =~= created_by_key());
    k
}

/// The metainfo key `"creation date"`, as raw bytes.
pub open spec fn creation_date_key() -> Seq<u8> {
    seq![99u8, 114u8, 101u8, 97u8, 116u8, 105u8, 111u8, 110u8, 32u8, 100u8, 97u8, 116u8, 101u8]
}

fn creation_date_key_bytes() -> (r: Vec<u8>)
    ensures
        r@ == creation_date_key(),
{
    let mut k: Vec<u8> = Vec::new();
    k.push(99);
    k.push(114);
    k.push(101);
    k.push(97);
    k.push(116);
    k.push(105);
    k.push(111);
    k.push(110);
    k.push(32);
    k.push(100);
    k.push(97);
    k.push(116);
    k.push(101);
    assert(k@ =~= creation_date_key());
    k
}

/// The metainfo key `"encoding"`, as raw bytes.
pub open spec fn encoding_key() -> Seq<u8> {
    seq![101u8, 110u8, 99u8, 111u8, 100u8, 105u8, 110u8, 103u8]
}

fn encoding_key_bytes() -> (r: Vec<u8>)
    ensures
        r@ == encoding_key(),
{
    let mut k: Vec<u8> = Vec::new();
    k.push(101);
    k.push(110);
    k.push(99);
    k.push(111);
    k.push(100);
    k.push(105);
    k.push(110);
    k.push(103);
    assert(k@ =~= encoding_key());
    k
}

/// The metainfo key `"info"`, as raw bytes.
pub open spec fn info_key() -> Seq<u8> {
    seq![105u8, 110u8, 102u8, 111u8]
}

fn info_key_bytes() -> (r: Vec<u8>)
    ensures
        r@ == info_key(),
{
    let mut k: Vec<u8> = Vec::new();
    k.push(105);
    k.push(110);
    k.push(102);
    k.push(111);
    assert(k@ =~= info_key());
    k
}

/// The metainfo key `"piece length"`, as raw bytes.
pub open spec fn piece_length_key() -> Seq<u8> {
    seq![112u8, 105u8, 101u8, 99u8, 101u8, 32u8, 108u8, 101u8, 110u8, 103u8, 116u8, 104u8]
}

fn piece_length_key_bytes() -> (r: Vec<u8>)
    ensures
        r@ == piece_length_key(),
{
    let mut k: Vec<u8> = Vec::new();
    k.push(112);
    k.push(105);
    k.push(101);
    k.push(99);
    k.push(101);
    k.push(32);
    k.push(108);
    k.push(101);
    k.push(110);
    k.push(103);
    k.push(116);
    k.push(104);
    assert(k@ =~= piece_length_key());
    k
}

/// The metainfo key `"pieces"`, as raw bytes.
pub open spec fn pieces_key() -> Seq<u8> {
    seq![112u8, 105u8, 101u8, 99u8, 101u8, 115u8]
}

fn pieces_key_bytes() -> (r: Vec<u8>)
    ensures
        r@ == pieces_key(),
{
    let mut k: Vec<u8> = Vec::new();
    k.push(112);
    k.push(105);
    k.push(101);
    k.push(99);
    k.push(101);
    k.push(115);
    assert(k@ =~= pieces_key());
    k
}

/// The metainfo key `"private"`, as raw bytes.
pub open spec fn private_key() -> Seq<u8> {
    seq![112u8, 114u8, 105u8, 118u8, 97u8, 116u8, 101u8]
}

fn private_key_bytes() -> (r: Vec<u8>)
    ensures
        r@ == private_key(),
{
    let mut k: Vec<u8> = Vec::new();
    k.push(112);
    k.push(114);
    k.push(105);
    k.push(118);
    k.push(97);
    k.push(116);
    k.push(101);
    assert(k@ =~= private_key());
    k
}

/// The metainfo key `"name"`, as raw bytes.
pub open spec fn name_key() -> Seq<u8> {
    seq![110u8, 97u8, 109u8, 101u8]
}

fn name_key_bytes() -> (r: Vec<u8>)
    ensures
        r@ == name_key(),
{
    let mut k: Vec<u8> = Vec::new();
    k.push(110);
    k.push(97);
    k.push(109);
    k.push(101);
    assert(k@ =~= name_key());
    k
}

/// The metainfo key `"length"`, as raw bytes.
pub open spec fn length_key() -> Seq<u8> {
    seq![108u8, 101u8, 110u8, 103u8, 116u8, 104u8]
}

fn length_key_bytes() -> (r: Vec<u8>)
    ensures
        r@ == length_key(),
{
    let mut k: Vec<u8> = Vec::new();
    k.push(108);
    k.push(101);
    k.push(110);
    k.push(103);
    k.push(116);
    k.push(104);
    assert(k@ =~= length_key());
    k
}

/// The metainfo key `"files"`, as raw bytes.
pub open spec fn files_key() -> Seq<u8> {
    seq![102u8, 105u8, 108u8, 101u8, 115u8]
}

fn files_key_bytes() -> (r: Vec<u8>)
    ensures
        r@ == files_key(),
{
    let mut k: Vec<u8> = Vec::new();
    k.push(102);
    k.push(105);
    k.push(108);
    k.push(101);
    k.push(115);
    assert(k@ =~= files_key());
    k
}

/// The metainfo key `"path"`, as raw bytes.
pub open spec fn path_key() -> Seq<u8> {
    seq![112u8, 97u8, 116u8, 104u8]
}

fn path_key_bytes() -> (r: Vec<u8>)
    ensures
        r@ == path_key(),
{
    let mut k: Vec<u8> = Vec::new();
    k.push(112);
    k.push(97);
    k.push(116);
    k.push(104);
    assert(k@ =~= path_key());
    k
}

/// The metainfo key `"md5sum"`, as raw bytes.
pub open spec fn md5sum_key() -> Seq<u8> {
    seq![109u8, 100u8, 53u8, 115u8, 117u8, 109u8]
}

fn md5sum_key_bytes() -> (r: Vec<u8>)
    ensures
        r@ == md5sum_key(),
{
    let mut k: Vec<u8> = Vec::new();
    k.push(109);
    k.push(100);
    k.push(53);
    k.push(115);
    k.push(117);
    k.push(109);
    assert(k@ =~= md5sum_key());
    k
}
/// Abstract value of a parsed torrent file.
pub struct MetaModel {
    pub announce: Seq<char>,
    pub comment: Option<Seq<char>>,
    pub created_by: Option<Seq<char>>,
    pub creation_date: Option<int>,
    pub encoding: Option<Seq<char>>,
    pub info_hash: Seq<u8>,
    pub info: InfoModel,
}

/// Abstract value of a parsed info dictionary.
pub struct InfoModel {
    pub files: Seq<FileModel>,
    pub pieces: Seq<Seq<u8>>,
    pub piece_len: int,
    pub is_private: bool,
    pub file_directory: Option<Seq<char>>,
}

/// Abstract value of one file entry.
pub struct FileModel {
    pub len: int,
    pub path: Seq<Seq<char>>,
    pub md5sum: Option<Seq<u8>>,
}

/// The byte-string payload under a key, if present with that shape.
pub open spec fn get_bytes(ps: Seq<(Seq<u8>, BenValue)>, k: Seq<u8>) -> Option<Seq<u8>> {
    match dict_get(ps, k) {
        Some(BenValue::Bytes(b)) => Some(b),
        _ => None,
    }
}

/// The integer payload under a key, if present with that shape.
pub open spec fn get_int(ps: Seq<(Seq<u8>, BenValue)>, k: Seq<u8>) -> Option<int> {
    match dict_get(ps, k) {
        Some(BenValue::Int(n)) => Some(n),
        _ => None,
    }
}

/// The UTF-8 decoding of the byte string under a key; absent when the key
/// is missing, not a byte string, or not valid UTF-8.
pub open spec fn get_utf8(ps: Seq<(Seq<u8>, BenValue)>, k: Seq<u8>) -> Option<Seq<char>> {
    match get_bytes(ps, k) {
        Some(b) => utf8_of(b),
        None => None,
    }
}

/// A path component must be non-empty, not `.` or `..`, and free of path
/// separators (both `/` and `\` are rejected, so the model is valid on
/// either family of platforms).
pub open spec fn valid_component(b: Seq<u8>) -> bool {
    &&& b.len() > 0
    &&& b != seq![46u8]
    &&& b != seq![46u8, 46u8]
    &&& !b.contains(47u8)
    &&& !b.contains(92u8)
}

/// The file entry of a single-file torrent, read from the top of the info
/// dictionary: required non-negative length, required name (one valid UTF-8
/// path component), optional md5sum. The error kind is `CorruptData` for an
/// invalid path component and `MissingData` otherwise.
pub open spec fn spec_file_single(ips: Seq<(Seq<u8>, BenValue)>) -> Result<
    FileModel,
    ParseErrorKind,
> {
    match get_int(ips, length_key()) {
        None => Err(ParseErrorKind::MissingData),
        Some(len) => if len < 0 {
            Err(ParseErrorKind::MissingData)
        } else {
            match get_bytes(ips, name_key()) {
                None => Err(ParseErrorKind::MissingData),
                Some(nb) => if !valid_component(nb) {
                    Err(ParseErrorKind::CorruptData)
                } else {
                    match utf8_of(nb) {
                        None => Err(ParseErrorKind::MissingData),
                        Some(nm) => Ok(
                            FileModel {
                                len,
                                path: seq![nm],
                                md5sum: get_bytes(ips, md5sum_key()),
                            },
                        ),
                    }
                },
            }
        },
    }
}

/// The path components of one file entry: each element a byte string that
/// is a valid UTF-8 path component.
pub open spec fn spec_paths(l: Seq<BenValue>) -> Result<Seq<Seq<char>>, ParseErrorKind>
    decreases l,
{
    if l.len() == 0 {
        Ok(Seq::empty())
    } else {
        match l.first() {
            BenValue::Bytes(b) => if !valid_component(b) {
                Err(ParseErrorKind::CorruptData)
            } else {
                match utf8_of(b) {
                    None => Err(ParseErrorKind::MissingData),
                    Some(c) => match spec_paths(l.drop_first()) {
                        Err(k) => Err(k),
                        Ok(rest) => Ok(seq![c] + rest),
                    },
                }
            },
            _ => Err(ParseErrorKind::MissingData),
        }
    }
}

/// One file entry of a multi-file torrent: required non-negative length,
/// required non-empty path list, optional md5sum.
pub open spec fn spec_file_multi(fps: Seq<(Seq<u8>, BenValue)>) -> Result<
    FileModel,
    ParseErrorKind,
> {
    match get_int(fps, length_key()) {
        None => Err(ParseErrorKind::MissingData),
        Some(len) => if len < 0 {
            Err(ParseErrorKind::MissingData)
        } else {
            match dict_get(fps, path_key()) {
                Some(BenValue::List(pl)) => match spec_paths(pl) {
                    Err(k) => Err(k),
                    Ok(pp) => if pp.len() == 0 {
                        Err(ParseErrorKind::MissingData)
                    } else {
                        Ok(FileModel { len, path: pp, md5sum: get_bytes(fps, md5sum_key()) })
                    },
                },
                _ => Err(ParseErrorKind::MissingData),
            }
        },
    }
}

/// The file entries of a multi-file torrent, each a dictionary.
pub open spec fn spec_files(l: Seq<BenValue>) -> Result<Seq<FileModel>, ParseErrorKind>
    decreases l,
{
    if l.len() == 0 {
        Ok(Seq::empty())
    } else {
        match l.first() {
            BenValue::Dict(fps) => match spec_file_multi(fps) {
                Err(k) => Err(k),
                Ok(f) => match spec_files(l.drop_first()) {
                    Err(k) => Err(k),
                    Ok(rest) => Ok(seq![f] + rest),
                },
            },
            _ => Err(ParseErrorKind::MissingData),
        }
    }
}

/// The piece hashes: consecutive 20-byte chunks, in order.
pub open spec fn chunks20(pb: Seq<u8>) -> Seq<Seq<u8>> {
    Seq::new((pb.len() / 20) as nat, |i: int| pb.subrange(20 * i, 20 * i + 20))
}

/// The info dictionary: required positive piece length, required pieces
/// (whose length must be a multiple of 20), the private flag derived as
/// `private == 1`, and the single-file or multi-file shape, decided by the
/// bare presence of a `length` key at the top of the dictionary.
pub open spec fn spec_info(ips: Seq<(Seq<u8>, BenValue)>) -> Result<InfoModel, ParseErrorKind> {
    match get_int(ips, piece_length_key()) {
        None => Err(ParseErrorKind::MissingData),
        Some(plen) => if plen <= 0 {
            Err(ParseErrorKind::MissingData)
        } else {
            match get_bytes(ips, pieces_key()) {
                None => Err(ParseErrorKind::MissingData),
                Some(pb) => if pb.len() % 20 != 0 {
                    Err(ParseErrorKind::MissingData)
                } else {
                    let priv_flag = get_int(ips, private_key()) == Some(1int);
                    if dict_get(ips, length_key()) is Some {
                        match spec_file_single(ips) {
                            Err(k) => Err(k),
                            Ok(f) => Ok(
                                InfoModel {
                                    files: seq![f],
                                    pieces: chunks20(pb),
                                    piece_len: plen,
                                    is_private: priv_flag,
                                    file_directory: None,
                                },
                            ),
                        }
                    } else {
                        match get_utf8(ips, name_key()) {
                            None => Err(ParseErrorKind::MissingData),
                            Some(dir) => match dict_get(ips, files_key()) {
                                Some(BenValue::List(fl)) => match spec_files(fl) {
                                    Err(k) => Err(k),
                                    Ok(fs) => Ok(
                                        InfoModel {
                                            files: fs,
                                            pieces: chunks20(pb),
                                            piece_len: plen,
                                            is_private: priv_flag,
                                            file_directory: Some(dir),
                                        },
                                    ),
                                },
                                _ => Err(ParseErrorKind::MissingData),
                            },
                        }
                    }
                },
            }
        },
    }
}

/// Every file entry a parse produces has a non-negative length.
pub proof fn lemma_spec_files_nonneg(l: Seq<BenValue>)
    ensures
        spec_files(l) matches Ok(fs) ==> forall|j: int|
            0 <= j < fs.len() ==> (#[trigger] fs[j]).len >= 0,
    decreases l,
{
    if l.len() > 0 {
        lemma_spec_files_nonneg(l.drop_first());
        if spec_files(l) is Ok {
            let fs = spec_files(l)->Ok_0;
            let rest = spec_files(l.drop_first())->Ok_0;
            assert(forall|j: int| 1 <= j < fs.len() ==> #[trigger] fs[j] == rest[j - 1]);
        }
    }
}

/// Bounds of a parsed info dictionary: the piece length is positive and
/// every file length is non-negative.
pub proof fn lemma_parsed_bounds(ips: Seq<(Seq<u8>, BenValue)>)
    ensures
        spec_info(ips) matches Ok(im) ==> {
            &&& im.piece_len > 0
            &&& forall|j: int| 0 <= j < im.files.len() ==> (#[trigger] im.files[j]).len >= 0
        },
{
    if spec_info(ips) is Ok {
        if dict_get(ips, length_key()) is Some {
        } else {
            match dict_get(ips, files_key()) {
                Some(BenValue::List(fl)) => {
                    lemma_spec_files_nonneg(fl);
                },
                _ => {},
            }
        }
    }
}

/// A whole metainfo file: the root must be a dictionary with a valid
/// `announce` URL and an `info` dictionary; the info-hash is the SHA-1 of
/// the canonical re-encoding of the info dictionary; the advisory string
/// fields are absent when missing, of the wrong shape, or invalid UTF-8.
/// On failure, the error kind the library owes: `CorruptData` for an
/// invalid path component, `MissingData` for every other validation
/// failure (a decode failure, reported as `CorruptData`, never reaches
/// this function's model).
pub open spec fn spec_metainfo(root: BenValue) -> Result<MetaModel, ParseErrorKind> {
    match root {
        BenValue::Dict(ps) => match get_bytes(ps, announce_key()) {
            None => Err(ParseErrorKind::MissingData),
            Some(ab) => match utf8_of(ab) {
                None => Err(ParseErrorKind::MissingData),
                Some(astr) => if !url_ok(astr) {
                    Err(ParseErrorKind::MissingData)
                } else {
                    match dict_get(ps, info_key()) {
                        Some(BenValue::Dict(ips)) => match spec_info(ips) {
                            Err(k) => Err(k),
                            Ok(im) => Ok(
                                MetaModel {
                                    announce: astr,
                                    comment: get_utf8(ps, comment_key()),
                                    created_by: get_utf8(ps, created_by_key()),
                                    creation_date: get_int(ps, creation_date_key()),
                                    encoding: get_utf8(ps, encoding_key()),
                                    info_hash: sha1_of(spec_encode(BenValue::Dict(ips))),
                                    info: im,
                                },
                            ),
                        },
                        _ => Err(ParseErrorKind::MissingData),
                    }
                },
            },
        },
        _ => Err(ParseErrorKind::MissingData),
    }
}

/// Failure kinds of the metainfo layer.
#[derive(Clone, Copy, Debug, PartialEq, Eq, Structural)]
pub enum ParseErrorKind {
    /// The input is not intact bencode, or a value in it is malformed.
    CorruptData,
    /// A required field is missing or has the wrong shape.
    MissingData,
}

/// A metainfo parse failure.
#[derive(Clone, Debug)]
pub struct ParseError {
    pub kind: ParseErrorKind,
    pub desc: String,
}

impl ParseError {
    /// A new error with the given kind and description.
    pub fn new(kind: ParseErrorKind, desc: &str) -> (r: ParseError)
        ensures
            r.kind == kind,
            r.desc@ == desc@,
    {
        ParseError { kind, desc: desc.to_owned() }
    }
}

/// Information about a single file within an info dictionary.
#[derive(Debug)]
pub struct File {
    len: i64,
    path: Vec<String>,
    md5sum: Option<Vec<u8>>,
}

impl View for File {
    type V = FileModel;

    closed spec fn view(&self) -> FileModel {
        FileModel {
            len: self.len as int,
            path: self.path@.map_values(|s: String| s@),
            md5sum: match self.md5sum {
                Some(v) => Some(v@),
                None => None,
            },
        }
    }
}

/// Information about the file(s) referenced by the torrent file.
#[derive(Debug)]
pub struct InfoDictionary {
    files: Vec<File>,
    pieces: Vec<Vec<u8>>,
    piece_len: i64,
    is_private: bool,
    file_directory: Option<String>,
}

impl View for InfoDictionary {
    type V = InfoModel;

    closed spec fn view(&self) -> InfoModel {
        InfoModel {
            files: self.files@.map_values(|f: File| f@),
            pieces: self.pieces@.map_values(|p: Vec<u8>| p@),
            piece_len: self.piece_len as int,
            is_private: self.is_private,
            file_directory: match self.file_directory {
                Some(d) => Some(d@),
                None => None,
            },
        }
    }
}

/// Information about swarms and file(s) referenced by the torrent file.
#[derive(Debug)]
pub struct MetainfoFile {
    comment: Option<String>,
    announce: String,
    encoding: Option<String>,
    info_hash: InfoHash,
    created_by: Option<String>,
    /// Creation date in UNIX epoch seconds, also available as a field.
    pub creation_date: Option<i64>,
    info_dictionary: InfoDictionary,
}

impl View for MetainfoFile {
    type V = MetaModel;

    closed spec fn view(&self) -> MetaModel {
        MetaModel {
            announce: self.announce@,
            comment: match self.comment {
                Some(c) => Some(c@),
                None => None,
            },
            created_by: match self.created_by {
                Some(c) => Some(c@),
                None => None,
            },
            creation_date: match self.creation_date {
                Some(n) => Some(n as int),
                None => None,
            },
            encoding: match self.encoding {
                Some(e) => Some(e@),
                None => None,
            },
            info_hash: self.info_hash@,
            info: self.info_dictionary@,
        }
    }
}

/// The byte-string payload under a key of a dictionary node.
fn lookup_bytes<'a>(d: &'a Bencode, key: &Vec<u8>) -> (r: Option<&'a Vec<u8>>)
    requires
        d@ is Dict,
    ensures
        match d@ {
            BenValue::Dict(ps) => {
                &&& (r matches Some(b) ==> get_bytes(ps, key@) == Some(b@))
                &&& (r is None <==> get_bytes(ps, key@) is None)
            },
            _ => true,
        },
{
    match d.dict_lookup(key) {
        Some(b) => match b.bytes() {
            Some(v) => Some(v),
            None => None,
        },
        None => None,
    }
}

/// The integer payload under a key of a dictionary node.
fn lookup_int(d: &Bencode, key: &Vec<u8>) -> (r: Option<i64>)
    requires
        d@ is Dict,
    ensures
        match d@ {
            BenValue::Dict(ps) => {
                &&& (r matches Some(n) ==> get_int(ps, key@) == Some(n as int))
                &&& (r is None <==> get_int(ps, key@) is None)
            },
            _ => true,
        },
{
    match d.dict_lookup(key) {
        Some(b) => b.as_int(),
        None => None,
    }
}

/// The UTF-8 decoding of the byte string under a key of a dictionary node.
fn lookup_utf8(d: &Bencode, key: &Vec<u8>) -> (r: Option<String>)
    requires
        d@ is Dict,
    ensures
        match d@ {
            BenValue::Dict(ps) => {
                &&& (r matches Some(s) ==> get_utf8(ps, key@) == Some(s@))
                &&& (r is None <==> get_utf8(ps, key@) is None)
            },
            _ => true,
        },
{
    match lookup_bytes(d, key) {
        Some(b) => bytes_to_string(b),
        None => None,
    }
}

/// Whether a byte string is acceptable as a path component.
fn check_component(b: &Vec<u8>) -> (r: bool)
    ensures
        r == valid_component(b@),
{
    if b.len() == 0 {
        return false;
    }
    if b.len() == 1 && b[0] == 46 {
        proof {
            assert(b@ =~= seq![46u8]);
        }
        return false;
    }
    if b.len() == 2 && b[0] == 46 && b[1] == 46 {
        proof {
            assert(b@ =~= seq![46u8, 46u8]);
        }
        return false;
    }
    let n = b.len();
    let mut i: usize = 0;
    while i < n
        invariant
            0 <= i <= n,
            n == b@.len(),
            forall|m: int| 0 <= m < i ==> b@[m] != 47 && b@[m] != 92,
        decreases n - i,
    {
        if b[i] == 47 {
            proof {
                assert(b@.contains(47u8));
            }
            return false;
        }
        if b[i] == 92 {
            proof {
                assert(b@.contains(92u8));
            }
            return false;
        }
        i += 1;
    }
    proof {
        if b@.contains(47u8) {
            let idx = choose|idx: int| 0 <= idx < b@.len() && b@[idx] == 47u8;
            assert(false);
        }
        if b@.contains(92u8) {
            let idx = choose|idx: int| 0 <= idx < b@.len() && b@[idx] == 92u8;
            assert(false);
        }
        if b@ =~= seq![46u8] {
            assert(false);
        }
        if b@ =~= seq![46u8, 46u8] {
            assert(false);
        }
    }
    true
}

/// Validates the piece hashes and splits them into 20-byte buffers.
#[verifier::loop_isolation(false)]
fn allocate_pieces(pieces: &Vec<u8>) -> (r: Result<Vec<Vec<u8>>, ParseError>)
    ensures
        match r {
            Ok(v) => pieces@.len() % 20 == 0 && v@.map_values(|p: Vec<u8>| p@) == chunks20(
                pieces@,
            ),
            Err(e) => pieces@.len() % 20 != 0 && e.kind == ParseErrorKind::MissingData,
        },
{
    if pieces.len() % 20 != 0 {
        return Err(ParseError::new(ParseErrorKind::MissingData, "Piece Hash Length Is Invalid"));
    }
    let cnt = pieces.len() / 20;
    let mut out: Vec<Vec<u8>> = Vec::new();
    let mut i: usize = 0;
    while i < cnt
        invariant
            0 <= i <= cnt,
            cnt == pieces@.len() / 20,
            pieces@.len() % 20 == 0,
            out@.len() == i,
            forall|j: int| 0 <= j < i
                ==> (#[trigger] out@[j])@ == pieces@.subrange(20 * j, 20 * j + 20),
        decreases cnt - i,
    {
        assert(20 * (i + 1) <= 20 * cnt && 20 * cnt == pieces@.len());
        let mut chunk: Vec<u8> = Vec::new();
        let mut k: usize = 0;
        while k < 20
            invariant
                0 <= k <= 20,
                i < cnt,
                cnt == pieces@.len() / 20,
                pieces@.len() % 20 == 0,
                20 * i + 20 <= pieces@.len(),
                chunk@ == pieces@.subrange(20 * i as int, 20 * i + k),
            decreases 20 - k,
        {
            chunk.push(pieces[20 * i + k]);
            assert(chunk@ =~= pieces@.subrange(20 * i as int, 20 * i + (k + 1)));
            k += 1;
        }
        out.push(chunk);
        i += 1;
    }
    proof {
        assert(out@.map_values(|p: Vec<u8>| p@) =~= chunks20(pieces@));
    }
    Ok(out)
}

/// Prefix already-read path components onto a result.
pub open spec fn prepend_strs(pre: Seq<Seq<char>>, r: Result<Seq<Seq<char>>, ParseErrorKind>) -> Result<
    Seq<Seq<char>>,
    ParseErrorKind,
> {
    match r {
        Err(k) => Err(k),
        Ok(t) => Ok(pre + t),
    }
}

/// Prefix already-read file entries onto a result.
pub open spec fn prepend_fmodels(pre: Seq<FileModel>, r: Result<Seq<FileModel>, ParseErrorKind>) -> Result<
    Seq<FileModel>,
    ParseErrorKind,
> {
    match r {
        Err(k) => Err(k),
        Ok(t) => Ok(pre + t),
    }
}

impl File {
    /// Parse the info dictionary of a single-file torrent into its one file.
    #[verifier::loop_isolation(false)]
    fn as_single_file(info: &Bencode) -> (r: Result<File, ParseError>)
        requires
            info@ is Dict,
        ensures
            match info@ {
                BenValue::Dict(ips) => match r {
                    Ok(f) => spec_file_single(ips) == Ok::<FileModel, ParseErrorKind>(f@),
                    Err(e) => spec_file_single(ips) == Err::<FileModel, ParseErrorKind>(e.kind),
                },
                _ => true,
            },
    {
        let length = match lookup_int(info, &length_key_bytes()) {
            Some(n) => n,
            None => {
                return Err(ParseError::new(ParseErrorKind::MissingData, "length"));
            },
        };
        if length < 0 {
            return Err(ParseError::new(ParseErrorKind::MissingData, "length"));
        }
        let name_b = match lookup_bytes(info, &name_key_bytes()) {
            Some(b) => b,
            None => {
                return Err(ParseError::new(ParseErrorKind::MissingData, "name"));
            },
        };
        if !check_component(name_b) {
            return Err(ParseError::new(ParseErrorKind::CorruptData, "Invalid Path Component"));
        }
        let name_s = match bytes_to_string(name_b) {
            Some(s) => s,
            None => {
                return Err(ParseError::new(ParseErrorKind::MissingData, "name"));
            },
        };
        let md5sum = match lookup_bytes(info, &md5sum_key_bytes()) {
            Some(b) => Some(b.clone()),
            None => None,
        };
        let mut path: Vec<String> = Vec::new();
        let ghost name_chars = name_s@;
        path.push(name_s);
        let f = File { len: length, path, md5sum };
        proof {
            assert(f@.path =~= seq![name_chars]);
        }
        Ok(f)
    }

    /// Parse one file dictionary of a multi-file torrent.
    #[verifier::loop_isolation(false)]
    fn as_multi_file(fd: &Bencode) -> (r: Result<File, ParseError>)
        requires
            fd@ is Dict,
        ensures
            match fd@ {
                BenValue::Dict(fps) => match r {
                    Ok(f) => spec_file_multi(fps) == Ok::<FileModel, ParseErrorKind>(f@),
                    Err(e) => spec_file_multi(fps) == Err::<FileModel, ParseErrorKind>(e.kind),
                },
                _ => true,
            },
    {
        let length = match lookup_int(fd, &length_key_bytes()) {
            Some(n) => n,
            None => {
                return Err(ParseError::new(ParseErrorKind::MissingData, "length"));
            },
        };
        if length < 0 {
            return Err(ParseError::new(ParseErrorKind::MissingData, "length"));
        }
        let plist = match fd.dict_lookup(&path_key_bytes()) {
            Some(pb) => match pb.list() {
                Some(l) => l,
                None => {
                    return Err(ParseError::new(ParseErrorKind::MissingData, "path"));
                },
            },
            None => {
                return Err(ParseError::new(ParseErrorKind::MissingData, "path"));
            },
        };
        let ghost pvs = crate::tree::view_items(plist@);
        proof {
            crate::tree::lemma_view_items(plist@);
            assert(pvs.skip(0) =~= pvs);
        }
        let n = plist.len();
        let mut path: Vec<String> = Vec::new();
        let mut i: usize = 0;
        while i < n
            invariant
                0 <= i <= n,
                spec_paths(pvs) == prepend_strs(
                    path@.map_values(|s: String| s@),
                    spec_paths(pvs.skip(i as int)),
                ),
            decreases n - i,
        {
            proof {
                assert(pvs.skip(i as int).first() == pvs[i as int]);
                assert(pvs.skip(i as int).drop_first() =~= pvs.skip(i + 1));
            }
            let comp_b = match plist[i].bytes() {
                Some(b) => b,
                None => {
                    return Err(ParseError::new(ParseErrorKind::MissingData, "path"));
                },
            };
            if !check_component(comp_b) {
                return Err(ParseError::new(ParseErrorKind::CorruptData,
                    "Invalid Path Component"));
            }
            let comp_s = match bytes_to_string(comp_b) {
                Some(s) => s,
                None => {
                    return Err(ParseError::new(ParseErrorKind::MissingData, "path"));
                },
            };
            proof {
                let pre = path@.map_values(|s: String| s@);
                let rest = spec_paths(pvs.skip(i + 1));
                assert(path@.push(comp_s).map_values(|s: String| s@)
                    =~= pre.push(comp_s@));
                if rest is Ok {
                    assert(pre + (seq![comp_s@] + (rest->Ok_0)) =~= pre.push(comp_s@) + (rest->Ok_0));
                }
            }
            path.push(comp_s);
            i += 1;
        }
        proof {
            assert(pvs.skip(n as int) =~= Seq::<BenValue>::empty());
            assert(path@.map_values(|s: String| s@) + Seq::<Seq<char>>::empty()
                =~= path@.map_values(|s: String| s@));
        }
        if path.len() == 0 {
            return Err(ParseError::new(ParseErrorKind::MissingData, "path"));
        }
        let md5sum = match lookup_bytes(fd, &md5sum_key_bytes()) {
            Some(b) => Some(b.clone()),
            None => None,
        };
        Ok(File { len: length, path, md5sum })
    }
}

/// Parses the given info dictionary node and builds an `InfoDictionary`.
#[verifier::loop_isolation(false)]
fn parse_from_info_dictionary(info: &Bencode) -> (r: Result<InfoDictionary, ParseError>)
    requires
        info@ is Dict,
    ensures
        match info@ {
            BenValue::Dict(ips) => match r {
                Ok(d) => spec_info(ips) == Ok::<InfoModel, ParseErrorKind>(d@),
                Err(e) => spec_info(ips) == Err::<InfoModel, ParseErrorKind>(e.kind),
            },
            _ => true,
        },
{
    let piece_len = match lookup_int(info, &piece_length_key_bytes()) {
        Some(n) => n,
        None => {
            return Err(ParseError::new(ParseErrorKind::MissingData, "piece length"));
        },
    };
    if piece_len <= 0 {
        return Err(ParseError::new(ParseErrorKind::MissingData, "piece length"));
    }
    let pieces_b = match lookup_bytes(info, &pieces_key_bytes()) {
        Some(b) => b,
        None => {
            return Err(ParseError::new(ParseErrorKind::MissingData, "pieces"));
        },
    };
    let piece_buffers = match allocate_pieces(pieces_b) {
        Ok(v) => v,
        Err(e) => {
            return Err(e);
        },
    };
    let is_private = match lookup_int(info, &private_key_bytes()) {
        Some(n) => n == 1,
        None => false,
    };
    let single = info.dict_lookup(&length_key_bytes()).is_some();
    if single {
        let f = match File::as_single_file(info) {
            Ok(f) => f,
            Err(e) => {
                return Err(e);
            },
        };
        let ghost fm = f@;
        let mut files: Vec<File> = Vec::new();
        files.push(f);
        let d = InfoDictionary {
            files,
            pieces: piece_buffers,
            piece_len,
            is_private,
            file_directory: None,
        };
        proof {
            assert(d@.files =~= seq![fm]);
        }
        Ok(d)
    } else {
        let dir = match lookup_utf8(info, &name_key_bytes()) {
            Some(s) => s,
            None => {
                return Err(ParseError::new(ParseErrorKind::MissingData, "name"));
            },
        };
        let flist = match info.dict_lookup(&files_key_bytes()) {
            Some(fb) => match fb.list() {
                Some(l) => l,
                None => {
                    return Err(ParseError::new(ParseErrorKind::MissingData, "files"));
                },
            },
            None => {
                return Err(ParseError::new(ParseErrorKind::MissingData, "files"));
            },
        };
        let ghost fvs = crate::tree::view_items(flist@);
        proof {
            crate::tree::lemma_view_items(flist@);
            assert(fvs.skip(0) =~= fvs);
        }
        let n = flist.len();
        let mut files: Vec<File> = Vec::new();
        let mut i: usize = 0;
        while i < n
            invariant
                0 <= i <= n,
                spec_files(fvs) == prepend_fmodels(
                    files@.map_values(|f: File| f@),
                    spec_files(fvs.skip(i as int)),
                ),
            decreases n - i,
        {
            proof {
                assert(fvs.skip(i as int).first() == fvs[i as int]);
                assert(fvs.skip(i as int).drop_first() =~= fvs.skip(i + 1));
            }
            match flist[i].dict() {
                Some(_) => {},
                None => {
                    return Err(ParseError::new(ParseErrorKind::MissingData, "files"));
                },
            }
            let f = match File::as_multi_file(&flist[i]) {
                Ok(f) => f,
                Err(e) => {
                    return Err(e);
                },
            };
            proof {
                let pre = files@.map_values(|f: File| f@);
                let rest = spec_files(fvs.skip(i + 1));
                assert(files@.push(f).map_values(|g: File| g@) =~= pre.push(f@));
                if rest is Ok {
                    assert(pre + (seq![f@] + (rest->Ok_0)) =~= pre.push(f@) + (rest->Ok_0));
                }
            }
            files.push(f);
            i += 1;
        }
        proof {
            assert(fvs.skip(n as int) =~= Seq::<BenValue>::empty());
            assert(files@.map_values(|f: File| f@) + Seq::<FileModel>::empty()
                =~= files@.map_values(|f: File| f@));
        }
        Ok(InfoDictionary {
            files,
            pieces: piece_buffers,
            piece_len,
            is_private,
            file_directory: Some(dir),
        })
    }
}

/// Parses the given bytes and builds a `MetainfoFile` from them.
fn parse_from_bytes(bytes: &Vec<u8>) -> (r: Result<MetainfoFile, ParseError>)
    ensures
        ({
            let sp = sp_value(bytes@, 0, 50, true);
            match r {
                Ok(m) => {
                    &&& sp is Some
                    &&& (sp->0).1 == bytes@.len()
                    &&& spec_metainfo((sp->0).0) == Ok::<MetaModel, ParseErrorKind>(m@)
                },
                Err(e) => {
                    &&& (sp is None || (sp->0).1 != bytes@.len()) ==> (e.kind
                        == ParseErrorKind::CorruptData && e.desc@
                        == "Specified File Is Not Valid Bencode"@)
                    &&& (sp is Some && (sp->0).1 == bytes@.len()) ==> spec_metainfo((sp->0).0)
                        == Err::<MetaModel, ParseErrorKind>(e.kind)
                },
            }
        }),
{
    let root = match Bencode::decode(bytes, BDecodeOpt::default()) {
        Ok(v) => v,
        Err(_) => {
            return Err(ParseError::new(ParseErrorKind::CorruptData,
                "Specified File Is Not Valid Bencode"));
        },
    };
    match root.dict() {
        Some(_) => {},
        None => {
            return Err(ParseError::new(ParseErrorKind::MissingData, "root"));
        },
    }
    let announce_b = match lookup_bytes(&root, &announce_key_bytes()) {
        Some(b) => b,
        None => {
            return Err(ParseError::new(ParseErrorKind::MissingData, "announce"));
        },
    };
    let announce = match bytes_to_string(announce_b) {
        Some(s) => s,
        None => {
            return Err(ParseError::new(ParseErrorKind::MissingData, "announce"));
        },
    };
    if !is_valid_url(announce.as_str()) {
        return Err(ParseError::new(ParseErrorKind::MissingData, "announce"));
    }
    let comment = lookup_utf8(&root, &comment_key_bytes());
    let created_by = lookup_utf8(&root, &created_by_key_bytes());
    let encoding = lookup_utf8(&root, &encoding_key_bytes());
    let creation_date = lookup_int(&root, &creation_date_key_bytes());
    let info = match root.dict_lookup(&info_key_bytes()) {
        Some(b) => b,
        None => {
            return Err(ParseError::new(ParseErrorKind::MissingData, "info"));
        },
    };
    match info.dict() {
        Some(_) => {},
        None => {
            return Err(ParseError::new(ParseErrorKind::MissingData, "info"));
        },
    }
    let info_hash = InfoHash::from_bytes(&info.encode());
    let info_dictionary = match parse_from_info_dictionary(info) {
        Ok(d) => d,
        Err(e) => {
            return Err(e);
        },
    };
    Ok(MetainfoFile {
        comment,
        announce,
        encoding,
        info_hash,
        created_by,
        creation_date,
        info_dictionary,
    })
}

/// Info-hash stability: for a buffer that decodes and validates, the
/// model's info-hash is the SHA-1 of the canonical re-encoding of the
/// decoded tree's info dictionary.
pub proof fn lemma_info_hash_stability(bytes: Seq<u8>, m: MetaModel, root: BenValue, e: int)
    requires
        sp_value(bytes, 0, 50, true) == Some((root, e)),
        e == bytes.len(),
        spec_metainfo(root) == Ok::<MetaModel, ParseErrorKind>(m),
    ensures
        root is Dict,
        dict_get(root->Dict_0, info_key()) matches Some(iv) && iv is Dict && m.info_hash
            == sha1_of(spec_encode(iv)),
{
}

/// Pieces partitioning: the piece hashes are exactly the consecutive
/// 20-byte chunks of the pieces bytes, in order.
pub proof fn lemma_chunks20_shape(pb: Seq<u8>)
    ensures
        chunks20(pb).len() == pb.len() / 20,
        forall|i: int| 0 <= i < chunks20(pb).len() ==> (#[trigger] chunks20(pb)[i]) == pb.subrange(
            20 * i,
            20 * i + 20,
        ) && chunks20(pb)[i].len() == 20,
{
}

impl MetainfoFile {
    /// Read a `MetainfoFile` from the given bytes, decoded with strict key
    /// ordering and the default recursion bound.
    pub fn from_bytes(bytes: &Vec<u8>) -> (r: Result<MetainfoFile, ParseError>)
        ensures
            ({
                let sp = sp_value(bytes@, 0, 50, true);
                match r {
                    Ok(m) => {
                        &&& sp is Some
                        &&& (sp->0).1 == bytes@.len()
                        &&& spec_metainfo((sp->0).0) == Ok::<MetaModel, ParseErrorKind>(m@)
                    },
                    Err(e) => {
                        &&& (sp is None || (sp->0).1 != bytes@.len()) ==> (e.kind
                            == ParseErrorKind::CorruptData && e.desc@
                            == "Specified File Is Not Valid Bencode"@)
                        &&& (sp is Some && (sp->0).1 == bytes@.len()) ==> spec_metainfo(
                            (sp->0).0,
                        ) == Err::<MetaModel, ParseErrorKind>(e.kind)
                    },
                }
            }),
    {
        parse_from_bytes(bytes)
    }

    /// The info-hash identifying this torrent's swarm.
    pub fn info_hash(&self) -> (r: InfoHash)
        ensures
            r@ == self@.info_hash,
    {
        self.info_hash
    }

    /// The announce URL for the main tracker, as validated text.
    pub fn announce_url(&self) -> (r: &str)
        ensures
            r@ == self@.announce,
    {
        self.announce.as_str()
    }

    /// The comment included within the metainfo file.
    pub fn comment(&self) -> (r: Option<&str>)
        ensures
            r matches Some(c) ==> self@.comment == Some(c@),
            r is None <==> self@.comment is None,
    {
        match &self.comment {
            Some(c) => Some(c.as_str()),
            None => None,
        }
    }

    /// The person or group that created the metainfo file.
    pub fn created_by(&self) -> (r: Option<&str>)
        ensures
            r matches Some(c) ==> self@.created_by == Some(c@),
            r is None <==> self@.created_by is None,
    {
        match &self.created_by {
            Some(c) => Some(c.as_str()),
            None => None,
        }
    }

    /// The declared string encoding of the info dictionary.
    pub fn encoding(&self) -> (r: Option<&str>)
        ensures
            r matches Some(e) ==> self@.encoding == Some(e@),
            r is None <==> self@.encoding is None,
    {
        match &self.encoding {
            Some(e) => Some(e.as_str()),
            None => None,
        }
    }

    /// The creation date in UNIX epoch seconds.
    pub fn creation_date(&self) -> (r: Option<i64>)
        ensures
            r matches Some(n) ==> self@.creation_date == Some(n as int),
            r is None <==> self@.creation_date is None,
    {
        self.creation_date
    }

    /// The info dictionary of the metainfo file.
    pub fn info(&self) -> (r: &InfoDictionary)
        ensures
            r@ == self@.info,
    {
        &self.info_dictionary
    }
}

impl InfoDictionary {
    /// The file directory of a multi-file torrent, `None` for a single-file
    /// torrent. Whether this is `Some` is the authoritative multi-file test.
    pub fn directory(&self) -> (r: Option<&str>)
        ensures
            r matches Some(d) ==> self@.file_directory == Some(d@),
            r is None <==> self@.file_directory is None,
    {
        match &self.file_directory {
            Some(d) => Some(d.as_str()),
            None => None,
        }
    }

    /// The length in bytes of each piece.
    pub fn piece_length(&self) -> (r: i64)
        ensures
            r as int == self@.piece_len,
    {
        self.piece_len
    }

    /// Whether the torrent is private.
    pub fn is_private(&self) -> (r: bool)
        ensures
            r == self@.is_private,
    {
        self.is_private
    }

    /// The 20-byte SHA-1 piece hashes, in torrent order.
    pub fn pieces(&self) -> (r: &Vec<Vec<u8>>)
        ensures
            r@.map_values(|p: Vec<u8>| p@) == self@.pieces,
    {
        &self.pieces
    }

    /// The files of the torrent, in torrent order.
    pub fn files(&self) -> (r: &Vec<File>)
        ensures
            r@.map_values(|f: File| f@) == self@.files,
    {
        &self.files
    }
}

impl File {
    /// The length of the file in bytes.
    pub fn length(&self) -> (r: i64)
        ensures
            r as int == self@.len,
    {
        self.len
    }

    /// The optional md5sum of the file; not used by the protocol.
    pub fn md5sum(&self) -> (r: Option<&Vec<u8>>)
        ensures
            r matches Some(m) ==> self@.md5sum == Some(m@),
            r is None <==> self@.md5sum is None,
    {
        match &self.md5sum {
            Some(m) => Some(m),
            None => None,
        }
    }

    /// The path components of the file, the file name last.
    pub fn paths(&self) -> (r: &Vec<String>)
        ensures
            r@.map_values(|s: String| s@) == self@.path,
    {
        &self.path
    }
}

} // verus!
