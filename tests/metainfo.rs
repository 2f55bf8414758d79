use std::collections::HashMap;

use serde_bencode::value::Value;
use sha1::{Digest, Sha1};
use torrent_core::error::TorrentError;
use torrent_core::hashes::Hashes;
use torrent_core::torrent::{Keys, Torrent};

fn bstr(s: &[u8]) -> Vec<u8> {
    let mut out = format!("{}:", s.len()).into_bytes();
    out.extend_from_slice(s);
    out
}

fn bint(n: i64) -> Vec<u8> {
    format!("i{}e", n).into_bytes()
}

fn dict(entries: &[(&str, Vec<u8>)]) -> Vec<u8> {
    let mut out = vec![b'd'];
    for (k, v) in entries {
        out.extend(bstr(k.as_bytes()));
        out.extend_from_slice(v);
    }
    out.push(b'e');
    out
}

fn list(items: &[Vec<u8>]) -> Vec<u8> {
    let mut out = vec![b'l'];
    for i in items {
        out.extend_from_slice(i);
    }
    out.push(b'e');
    out
}

fn pieces(n: usize) -> Vec<u8> {
    (0..n * 20).map(|i| (i % 251) as u8).collect()
}

fn single_file(length: i64, plength: i64, npieces: usize) -> Vec<u8> {
    let info = dict(&[
        ("length", bint(length)),
        ("name", bstr(b"file.bin")),
        ("piece length", bint(plength)),
        ("pieces", bstr(&pieces(npieces))),
    ]);
    dict(&[("announce", bstr(b"http://tracker.example/announce")), ("info", info)])
}

fn file_entry(length: i64, path: &[&str]) -> Vec<u8> {
    let parts: Vec<Vec<u8>> = path.iter().map(|p| bstr(p.as_bytes())).collect();
    dict(&[("length", bint(length)), ("path", list(&parts))])
}

fn multi_file(lengths: &[i64], plength: i64, npieces: usize) -> Vec<u8> {
    let files: Vec<Vec<u8>> = lengths
        .iter()
        .enumerate()
        .map(|(i, l)| file_entry(*l, &["dir", &format!("f{}", i)]))
        .collect();
    let info = dict(&[
        ("files", list(&files)),
        ("name", bstr(b"folder")),
        ("piece length", bint(plength)),
        ("pieces", bstr(&pieces(npieces))),
    ]);
    dict(&[("announce", bstr(b"udp://t.example:80")), ("info", info)])
}

#[test]
fn parses_single_file_torrent() {
    let t = Torrent::parse(&single_file(95, 40, 3)).unwrap();
    assert_eq!(t.announce, b"http://tracker.example/announce".to_vec());
    assert_eq!(t.info.name, b"file.bin".to_vec());
    assert_eq!(t.info.plength, 40);
    assert_eq!(t.info.pieces.0.len(), 3);
    assert_eq!(t.info.pieces.0[1][0], 20);
    assert!(matches!(t.info.keys, Keys::SingleFile { length: 95 }));
    assert_eq!(t.length(), 95);
}

#[test]
fn total_length_sums_files() {
    let t = Torrent::parse(&multi_file(&[10, 20, 30], 16, 4)).unwrap();
    assert_eq!(t.length(), 60);
    match &t.info.keys {
        Keys::MultiFile { files } => {
            assert_eq!(files.len(), 3);
            assert_eq!(files[2].length, 30);
            assert_eq!(files[2].path, vec![b"dir".to_vec(), b"f2".to_vec()]);
        }
        Keys::SingleFile { .. } => panic!("expected a multi-file layout"),
    }
    assert_eq!(
        t.file_list(b"/"),
        vec![b"dir/f0".to_vec(), b"dir/f1".to_vec(), b"dir/f2".to_vec()]
    );
}

#[test]
fn single_file_list_is_the_name() {
    let t = Torrent::parse(&single_file(95, 40, 3)).unwrap();
    assert_eq!(t.file_list(b"/"), vec![b"file.bin".to_vec()]);
}

#[test]
fn unknown_keys_are_skipped() {
    let info = dict(&[
        ("length", bint(5)),
        ("name", bstr(b"a")),
        ("piece length", bint(8)),
        ("pieces", bstr(&pieces(1))),
        ("private", bint(1)),
    ]);
    let doc = dict(&[
        ("announce", bstr(b"x")),
        ("announce-list", list(&[list(&[bstr(b"y")])])),
        ("creation date", bint(-12)),
        ("info", info),
    ]);
    let t = Torrent::parse(&doc).unwrap();
    assert_eq!(t.length(), 5);
}

#[test]
fn both_layouts_conflict() {
    let info = dict(&[
        ("files", list(&[file_entry(3, &["a"])])),
        ("length", bint(3)),
        ("name", bstr(b"n")),
        ("piece length", bint(4)),
        ("pieces", bstr(&pieces(1))),
    ]);
    let doc = dict(&[("announce", bstr(b"x")), ("info", info)]);
    assert_eq!(Torrent::parse(&doc).err(), Some(TorrentError::LayoutConflict));
}

#[test]
fn neither_layout_conflicts() {
    let info = dict(&[
        ("name", bstr(b"n")),
        ("piece length", bint(4)),
        ("pieces", bstr(&pieces(1))),
    ]);
    let doc = dict(&[("announce", bstr(b"x")), ("info", info)]);
    assert_eq!(Torrent::parse(&doc).err(), Some(TorrentError::LayoutConflict));
}

#[test]
fn pieces_of_21_bytes_is_invalid_length() {
    let info = dict(&[
        ("length", bint(3)),
        ("name", bstr(b"n")),
        ("piece length", bint(4)),
        ("pieces", bstr(&[7u8; 21])),
    ]);
    let doc = dict(&[("announce", bstr(b"x")), ("info", info)]);
    assert_eq!(Torrent::parse(&doc).err(), Some(TorrentError::InvalidLength));
    assert_eq!(Hashes::decode(&[7u8; 21]).err(), Some(TorrentError::InvalidLength));
}

#[test]
fn missing_announce_is_missing_field() {
    let info = dict(&[
        ("length", bint(3)),
        ("name", bstr(b"n")),
        ("piece length", bint(4)),
        ("pieces", bstr(&pieces(1))),
    ]);
    let doc = dict(&[("info", info)]);
    assert_eq!(Torrent::parse(&doc).err(), Some(TorrentError::MissingField));
}

#[test]
fn missing_pieces_is_missing_field() {
    let info = dict(&[("length", bint(3)), ("name", bstr(b"n")), ("piece length", bint(4))]);
    let doc = dict(&[("announce", bstr(b"x")), ("info", info)]);
    assert_eq!(Torrent::parse(&doc).err(), Some(TorrentError::MissingField));
}

#[test]
fn malformed_bytes_are_rejected() {
    assert_eq!(Torrent::parse(b"").err(), Some(TorrentError::MalformedEncoding));
    assert_eq!(Torrent::parse(b"d8:announce").err(), Some(TorrentError::MalformedEncoding));
    assert_eq!(Torrent::parse(b"li1ee").err(), Some(TorrentError::MalformedEncoding));
    let mut trailing = single_file(95, 40, 3);
    trailing.push(b'x');
    assert_eq!(Torrent::parse(&trailing).err(), Some(TorrentError::MalformedEncoding));
}

#[test]
fn zero_piece_length_is_malformed() {
    assert_eq!(
        Torrent::parse(&single_file(10, 0, 1)).err(),
        Some(TorrentError::MalformedEncoding)
    );
}

#[test]
fn negative_length_is_malformed() {
    assert_eq!(
        Torrent::parse(&single_file(-1, 4, 1)).err(),
        Some(TorrentError::MalformedEncoding)
    );
}

#[test]
fn info_hash_is_deterministic() {
    let bytes = multi_file(&[10, 20, 30], 16, 4);
    let a = Torrent::parse(&bytes).unwrap();
    let b = Torrent::parse(&bytes).unwrap();
    assert_eq!(a.info_hash(), b.info_hash());
}

#[test]
fn info_bytes_are_canonical_bencode() {
    let t = Torrent::parse(&multi_file(&[10, 20, 30], 16, 4)).unwrap();
    let mut files = Vec::new();
    for i in 0..3 {
        let mut f = HashMap::new();
        f.insert(b"path".to_vec(), Value::List(vec![
            Value::Bytes(b"dir".to_vec()),
            Value::Bytes(format!("f{}", i).into_bytes()),
        ]));
        f.insert(b"length".to_vec(), Value::Int(10 * (i + 1)));
        files.push(Value::Dict(f));
    }
    let mut info = HashMap::new();
    info.insert(b"pieces".to_vec(), Value::Bytes(pieces(4)));
    info.insert(b"name".to_vec(), Value::Bytes(b"folder".to_vec()));
    info.insert(b"piece length".to_vec(), Value::Int(16));
    info.insert(b"files".to_vec(), Value::List(files));
    let expected = serde_bencode::to_bytes(&Value::Dict(info)).unwrap();
    assert_eq!(t.info_bytes(), expected);
}

#[test]
fn info_hash_is_sha1_of_info_bytes() {
    let t = Torrent::parse(&single_file(95, 40, 3)).unwrap();
    let bytes = t.info_bytes();
    let expected: [u8; 20] = Sha1::digest(&bytes).into();
    assert_eq!(t.info_hash(), expected);
    assert_ne!(t.info_hash().to_vec(), bytes[..20].to_vec());
}

#[test]
fn hashes_round_trip() {
    let h = Hashes(vec![[1u8; 20], [2u8; 20]]);
    let bytes = h.encode();
    assert_eq!(bytes.len(), 40);
    assert_eq!(bytes[19], 1);
    assert_eq!(bytes[20], 2);
    assert_eq!(Hashes::decode(&bytes).unwrap(), h);
}

#[test]
fn empty_hashes_round_trip() {
    let h = Hashes(vec![]);
    assert!(h.encode().is_empty());
    assert_eq!(Hashes::decode(&[]).unwrap(), h);
}

#[test]
fn info_key_order_in_file_does_not_change_hash() {
    let sorted = single_file(95, 40, 3);
    let info = dict(&[
        ("pieces", bstr(&pieces(3))),
        ("name", bstr(b"file.bin")),
        ("length", bint(95)),
        ("piece length", bint(40)),
    ]);
    let shuffled = dict(&[("info", info), ("announce", bstr(b"http://tracker.example/announce"))]);
    let a = Torrent::parse(&sorted).unwrap();
    let b = Torrent::parse(&shuffled).unwrap();
    assert_eq!(a.info_bytes(), b.info_bytes());
    assert_eq!(a.info_hash(), b.info_hash());
    let expected = b"d6:lengthi95e4:name8:file.bin12:piece lengthi40e6:pieces60:";
    assert_eq!(&a.info_bytes()[..expected.len()], &expected[..]);
}

#[test]
fn hash_count_must_match_piece_count() {
    assert_eq!(
        Torrent::parse(&single_file(95, 40, 0)).err(),
        Some(TorrentError::IndexMismatch)
    );
    assert_eq!(
        Torrent::parse(&single_file(95, 40, 2)).err(),
        Some(TorrentError::IndexMismatch)
    );
    assert_eq!(
        Torrent::parse(&multi_file(&[10, 20, 30], 16, 3)).err(),
        Some(TorrentError::IndexMismatch)
    );
    assert!(Torrent::parse(&single_file(80, 40, 2)).is_ok());
}

#[test]
fn parsed_torrent_always_builds_a_catalog() {
    let t = Torrent::parse(&multi_file(&[10, 20, 30], 16, 4)).unwrap();
    assert_eq!(t.num_pieces(), 4);
    let pieces = torrent_core::piece::build(&t, &[vec![true; 4]]).unwrap();
    assert_eq!(pieces.len(), 4);
    assert_eq!(pieces[3].length(), 12);
    assert_eq!(pieces[3].hash().len(), 20);
}
