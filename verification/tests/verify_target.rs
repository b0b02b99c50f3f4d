use std::collections::HashSet;
use torrent_meta::hashing::{hash_piece_file, hash_tr_files};
use torrent_meta::planner::calc_piece_file_info;
use torrent_meta::tr_file::TrFile;
use torrent_meta::tr_info::TrInfo;
use torrent_meta::utils::TrError;
use torrent_meta::verify::{is_file_ok, pieces_to_check, verify_tr_files, FailedInfo};

fn file(length: u64, name: &str) -> TrFile {
    TrFile { length, path: vec![name.to_string()] }
}

fn target() -> (TrInfo, Vec<Vec<u8>>) {
    let contents: Vec<Vec<u8>> = vec![
        (0..1000u32).map(|i| (i % 251) as u8).collect(),
        (0..2000u32).map(|i| (i % 241) as u8).collect(),
        Vec::new(),
        (0..1500u32).map(|i| (i % 239) as u8).collect(),
    ];
    let files = vec![file(1000, "a"), file(2000, "b"), file(0, "c"), file(1500, "d")];
    let pieces = hash_tr_files(&contents, 1024);
    (TrInfo::new("t".to_string(), files, false, 1024, false, pieces).unwrap(), contents)
}

fn check(info: &TrInfo, on_disk: &[Option<u64>], contents: &[Vec<u8>]) -> FailedInfo {
    let files = info.file_list().unwrap();
    let plan = calc_piece_file_info(&files, info.piece_length);
    let wanted = pieces_to_check(&plan, &files, on_disk);
    let part: Vec<_> = wanted.iter().map(|&k| plan[k].clone()).collect();
    let digests = hash_piece_file(&part, contents).unwrap();
    info.verify(on_disk, &digests).unwrap()
}

fn set(items: &[usize]) -> HashSet<usize> {
    items.iter().cloned().collect()
}

#[test]
fn an_untouched_target_passes() {
    let (info, contents) = target();
    let failed = check(&info, &[Some(1000), Some(2000), Some(0), Some(1500)], &contents);
    assert!(failed.pieces.is_empty());
    assert!(failed.files.is_empty());
    assert!(failed.files_known.is_empty());
    let files = info.file_list().unwrap();
    assert_eq!(
        info.verify_report(&files, &failed).unwrap(),
        "Verification Result:\nPieces:        5 total =        5 passed +        0 failed\nFiles:         4 total =        4 passed +        0 failed\nAll files are OK.\n"
    );
}

#[test]
fn a_missing_file_fails_its_pieces_and_their_files() {
    let (info, contents) = target();
    let failed = check(&info, &[Some(1000), None, Some(0), Some(1500)], &contents);
    assert_eq!(failed.files_known, set(&[1]));
    assert_eq!(failed.pieces, set(&[0, 1, 2]));
    assert_eq!(failed.files, set(&[0, 1, 3]));
    let files = info.file_list().unwrap();
    assert_eq!(
        info.verify_report(&files, &failed).unwrap(),
        "Verification Result:\nPieces:        5 total =        2 passed +        3 failed\nFiles:         4 total =        1 passed +        3 failed\n\nSome files failed verification:\n- a (1000 [1000 B])\n- b (2000 [1.95 KiB]) [missing or size mismatch]\n- d (1500 [1.46 KiB])\n"
    );
}

#[test]
fn a_file_of_another_length_is_known_to_be_bad() {
    let (info, contents) = target();
    let failed = check(&info, &[Some(1000), Some(2000), Some(0), Some(1499)], &contents);
    assert_eq!(failed.files_known, set(&[3]));
    assert_eq!(failed.pieces, set(&[2, 3, 4]));
    assert_eq!(failed.files, set(&[1, 3]));
}

#[test]
fn a_missing_empty_file_is_not_looked_at() {
    let (info, contents) = target();
    let failed = check(&info, &[Some(1000), Some(2000), None, Some(1500)], &contents);
    assert!(failed.pieces.is_empty());
    assert!(failed.files.is_empty());
    assert!(failed.files_known.is_empty());
}

#[test]
fn a_changed_byte_fails_the_piece_that_holds_it() {
    let (info, mut contents) = target();
    contents[1][1500] ^= 0x01;
    let failed = check(&info, &[Some(1000), Some(2000), Some(0), Some(1500)], &contents);
    assert_eq!(failed.pieces, set(&[2]));
    assert_eq!(failed.files, set(&[1, 3]));
    assert!(failed.files_known.is_empty());
    contents[1][1500] ^= 0x01;
    contents[0][999] ^= 0x80;
    let failed = check(&info, &[Some(1000), Some(2000), Some(0), Some(1500)], &contents);
    assert_eq!(failed.pieces, set(&[0]));
    assert_eq!(failed.files, set(&[0, 1]));
}

#[test]
fn digests_that_are_not_there_fail() {
    let (info, _) = target();
    let failed = info.verify(&[Some(1000), Some(2000), Some(0), Some(1500)], &[]).unwrap();
    assert_eq!(failed.pieces, set(&[0, 1, 2, 3, 4]));
    assert_eq!(failed.files, set(&[0, 1, 3]));
    assert!(failed.files_known.is_empty());
    let files = info.file_list().unwrap();
    let plan = calc_piece_file_info(&files, 1024);
    let failed = verify_tr_files(&[], &files, &plan, &[], &[]);
    assert_eq!(failed.pieces, set(&[0, 1, 2, 3, 4]));
    assert_eq!(failed.files_known, set(&[0, 1, 3]));
    assert!(!is_file_ok(&files, &[Some(1000)], 1));
    assert!(is_file_ok(&files, &[Some(1000)], 0));
}

#[test]
fn a_single_file_goes_by_the_name_of_the_torrent() {
    let content = vec![7u8; 100];
    let pieces = hash_tr_files(&[content.clone()], 64);
    let info = TrInfo::new("one.bin".to_string(), vec![TrFile { length: 100, path: vec![] }], true, 64, false, pieces).unwrap();
    let files = info.file_list().unwrap();
    assert_eq!(files, vec![TrFile { length: 100, path: vec![] }]);
    let failed = check(&info, &[None], &[content]);
    assert_eq!(failed.pieces, set(&[0, 1]));
    assert_eq!(
        info.verify_report(&files, &failed).unwrap(),
        "Verification Result:\nPieces:        2 total =        0 passed +        2 failed\nFiles:         1 total =        0 passed +        1 failed\n\nSome files failed verification:\n- one.bin (100 [100 B]) [missing or size mismatch]\n"
    );
    let mut nameless = info.clone();
    nameless.name = None;
    assert_eq!(nameless.verify_report(&files, &failed), Err(TrError::MissingField("name".to_string())));
}

#[test]
fn an_info_without_files_and_length_cannot_be_verified() {
    let info = TrInfo { files: None, length: None, name: None, piece_length: 4, pieces: vec![], private: false };
    assert_eq!(info.file_list(), Err(TrError::MissingField("length".to_string())));
    assert_eq!(info.verify(&[], &[]).err(), Some(TrError::MissingField("length".to_string())));
    let info = TrInfo { files: None, length: Some(3), name: None, piece_length: 0, pieces: vec![], private: false };
    assert_eq!(info.verify(&[], &[]).err(), Some(TrError::InvalidTorrent("piece length invalid".to_string())));
}
