use std::cmp::Ordering;

use torrent_core::error::TorrentError;
use torrent_core::hashes::Hashes;
use torrent_core::piece::{build, Piece};
use torrent_core::torrent::{File, Info, Keys, Torrent};

fn torrent(total: usize, plength: usize, hashes: Vec<[u8; 20]>) -> Torrent {
    Torrent {
        announce: b"http://t".to_vec(),
        info: Info {
            name: b"n".to_vec(),
            plength,
            pieces: Hashes(hashes),
            keys: Keys::SingleFile { length: total },
        },
    }
}

fn order(pieces: &[Piece]) -> Vec<usize> {
    let mut refs: Vec<&Piece> = pieces.iter().collect();
    refs.sort_by(|a, b| a.cmp(b));
    refs.iter().map(|p| p.index()).collect()
}

#[test]
fn piece_sizes_follow_total_length() {
    let t = torrent(95, 40, vec![[1; 20], [2; 20], [3; 20]]);
    let pieces = build(&t, &[]).unwrap();
    assert_eq!(pieces.len(), 3);
    let lengths: Vec<usize> = pieces.iter().map(|p| p.length()).collect();
    assert_eq!(lengths, vec![40, 40, 15]);
    assert_eq!(pieces[2].hash(), &[3u8; 20][..]);
    assert_eq!(pieces[1].index(), 1);
}

#[test]
fn exact_multiple_has_no_short_piece() {
    let t = torrent(80, 40, vec![[1; 20], [2; 20]]);
    let lengths: Vec<usize> = build(&t, &[]).unwrap().iter().map(|p| p.length()).collect();
    assert_eq!(lengths, vec![40, 40]);
}

#[test]
fn hash_count_mismatch_is_rejected() {
    let t = torrent(95, 40, vec![[1; 20], [2; 20]]);
    assert_eq!(build(&t, &[]).err(), Some(TorrentError::IndexMismatch));
}

#[test]
fn empty_content_has_no_pieces() {
    let t = torrent(0, 40, vec![]);
    assert!(build(&t, &[]).unwrap().is_empty());
}

#[test]
fn peers_are_the_holders_in_ascending_order() {
    let t = torrent(95, 40, vec![[1; 20], [2; 20], [3; 20]]);
    let avail = vec![vec![true, false], vec![false], vec![true, true, true]];
    let pieces = build(&t, &avail).unwrap();
    assert_eq!(pieces[0].peers(), &vec![0, 2]);
    assert_eq!(pieces[1].peers(), &vec![2]);
    assert_eq!(pieces[2].peers(), &vec![2]);
}

#[test]
fn rarest_piece_comes_first() {
    // P0 held by A, B, C; P1 by A; P2 by B, C.
    let t = torrent(95, 40, vec![[1; 20], [2; 20], [3; 20]]);
    let avail = vec![vec![true, true, false], vec![true, false, true], vec![true, false, true]];
    let pieces = build(&t, &avail).unwrap();
    assert_eq!(order(&pieces), vec![1, 2, 0]);
    assert_eq!(pieces[1].cmp(&pieces[2]), Ordering::Less);
    assert_eq!(pieces[0].cmp(&pieces[2]), Ordering::Greater);
}

#[test]
fn equal_peers_order_by_hash_bytes() {
    let t = torrent(120, 40, vec![[9; 20], [3; 20], [5; 20]]);
    let avail = vec![vec![true, true, true]];
    let pieces = build(&t, &avail).unwrap();
    assert_eq!(order(&pieces), vec![1, 2, 0]);
    assert_eq!(order(&pieces), order(&pieces));
}

#[test]
fn equal_peers_and_hash_order_by_length_then_index() {
    let t = torrent(100, 40, vec![[4; 20], [4; 20], [4; 20]]);
    let pieces = build(&t, &[]).unwrap();
    // The last piece is shorter (20 bytes), so it comes first.
    assert_eq!(order(&pieces), vec![2, 0, 1]);
    assert_eq!(pieces[0].cmp(&pieces[1]), Ordering::Less);
    assert_eq!(pieces[1].cmp(&pieces[1]), Ordering::Equal);
}

#[test]
fn fewer_peers_win_before_peer_identity() {
    let t = torrent(80, 40, vec![[1; 20], [1; 20]]);
    let avail = vec![vec![false, true], vec![true, true], vec![true, false]];
    let pieces = build(&t, &avail).unwrap();
    // Both have two holders: {1, 2} against {0, 1}; {0, 1} is smaller.
    assert_eq!(pieces[0].peers(), &vec![1, 2]);
    assert_eq!(pieces[1].peers(), &vec![0, 1]);
    assert_eq!(order(&pieces), vec![1, 0]);
}

#[test]
fn piece_new_matches_catalog() {
    let t = torrent(95, 40, vec![[1; 20], [2; 20], [3; 20]]);
    let p = Piece::new(2, &t, &[vec![false, false, true]]);
    assert_eq!(p.length(), 15);
    assert_eq!(p.peers(), &vec![0]);
}

#[test]
fn multi_file_catalog_uses_sum() {
    let t = Torrent {
        announce: b"a".to_vec(),
        info: Info {
            name: b"n".to_vec(),
            plength: 25,
            pieces: Hashes(vec![[1; 20], [2; 20], [3; 20]]),
            keys: Keys::MultiFile {
                files: vec![
                    File { length: 10, path: vec![b"a".to_vec()] },
                    File { length: 20, path: vec![b"b".to_vec()] },
                    File { length: 30, path: vec![b"c".to_vec()] },
                ],
            },
        },
    };
    let lengths: Vec<usize> = build(&t, &[]).unwrap().iter().map(|p| p.length()).collect();
    assert_eq!(lengths, vec![25, 25, 10]);
}

#[test]
fn pieces_compare_with_operators() {
    let t = torrent(95, 40, vec![[1; 20], [2; 20], [3; 20]]);
    let avail = vec![vec![true, true, false], vec![true, false, true], vec![true, false, true]];
    let pieces = build(&t, &avail).unwrap();
    let again = build(&t, &avail).unwrap();
    assert!(pieces[1] < pieces[2]);
    assert!(pieces[2] < pieces[0]);
    assert!(pieces[0] == again[0]);
    assert!(pieces[0] != pieces[1]);
    assert_eq!(pieces[1].partial_cmp(&pieces[0]), Some(Ordering::Less));
}
