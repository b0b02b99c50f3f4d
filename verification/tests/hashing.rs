use torrent_meta::hashing::{
    hash_piece, hash_piece_file, hash_tr_files, join_digests, read_piece, split_hash_pieces,
};
use torrent_meta::planner::{plan_pieces, FileHashInfo};
use torrent_meta::utils::TrError;

fn from_hex(text: &str) -> Vec<u8> {
    (0..text.len() / 2).map(|i| u8::from_str_radix(&text[2 * i..2 * i + 2], 16).unwrap()).collect()
}

#[test]
fn the_digest_is_sha1() {
    assert_eq!(hash_piece(&[]), from_hex("da39a3ee5e6b4b0d3255bfef95601890afd80709"));
    assert_eq!(hash_piece(&[b"abc".to_vec()]), from_hex("a9993e364706816aba3e25717850c26c9cd0d89d"));
    assert_eq!(hash_piece(&[b"a".to_vec(), b"bc".to_vec()]), from_hex("a9993e364706816aba3e25717850c26c9cd0d89d"));
}

#[test]
fn an_empty_target_has_no_pieces() {
    assert!(hash_tr_files(&[Vec::new()], 16384).is_empty());
    assert!(hash_tr_files(&[], 16384).is_empty());
}

#[test]
fn one_piece_of_the_whole_file() {
    let content: Vec<u8> = (0..65536u32).map(|i| (i % 251) as u8).collect();
    let pieces = hash_tr_files(&[content.clone()], 65536);
    assert_eq!(pieces.len(), 20);
    assert_eq!(pieces, hash_piece(&[content]));
}

#[test]
fn pieces_go_by_the_bytes_and_not_by_the_files() {
    let content: Vec<u8> = (0..3000u32).map(|i| (i * 7 % 256) as u8).collect();
    let whole = hash_tr_files(&[content.clone()], 1024);
    let split = hash_tr_files(&[content[..1000].to_vec(), Vec::new(), content[1000..].to_vec()], 1024);
    assert_eq!(whole.len(), 60);
    assert_eq!(whole, split);
    let expected = join_digests(&[
        hash_piece(&[content[..1024].to_vec()]),
        hash_piece(&[content[1024..2048].to_vec()]),
        hash_piece(&[content[2048..].to_vec()]),
    ]);
    assert_eq!(whole, expected);
}

#[test]
fn split_undoes_join() {
    let digests = vec![vec![1u8; 20], vec![2u8; 20], vec![3u8; 20]];
    let joined = join_digests(&digests);
    assert_eq!(joined.len(), 60);
    assert_eq!(split_hash_pieces(&joined), digests);
    let mut ragged = joined.clone();
    ragged.extend_from_slice(&[9, 9, 9]);
    assert_eq!(split_hash_pieces(&ragged), digests);
}

#[test]
fn a_region_is_cut_at_the_end_of_its_file() {
    let contents = vec![b"hello".to_vec(), b"world".to_vec()];
    let regions = vec![
        FileHashInfo { file_index: 0, file_offset: 3, length: 10 },
        FileHashInfo { file_index: 1, file_offset: 0, length: 2 },
        FileHashInfo { file_index: 1, file_offset: 9, length: 2 },
    ];
    assert_eq!(read_piece(&contents, &regions), Ok(b"lowo".to_vec()));
}

#[test]
fn a_region_of_an_unknown_file_is_an_error() {
    let contents = vec![b"hello".to_vec()];
    let plan = vec![vec![FileHashInfo { file_index: 1, file_offset: 0, length: 1 }]];
    assert_eq!(
        hash_piece_file(&plan, &contents),
        Err(TrError::IO("file index out of range".to_string()))
    );
    let good = plan_pieces(&[5], 2);
    assert_eq!(hash_piece_file(&good, &contents).unwrap().len(), 3);
}
