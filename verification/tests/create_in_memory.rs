use torrent_meta::hashing::{hash_piece, hash_piece_file, hash_tr_files};
use torrent_meta::planner::calc_piece_file_info;
use torrent_meta::torrent::{Torrent, WalkMode};
use torrent_meta::tr_info::TrInfo;
use torrent_meta::utils::TrError;
use torrent_meta::verify::pieces_to_check;

fn path(segments: &[&str]) -> Vec<String> {
    segments.iter().map(|s| s.to_string()).collect()
}

#[test]
fn the_files_are_hashed_in_the_order_of_the_walk_mode() {
    let paths = vec![path(&["a", "10.txt"]), path(&["a", "2.txt"]), path(&["a", "1.txt"])];
    let contents = vec![b"ten".to_vec(), b"two".to_vec(), b"one".to_vec()];
    let (info, order) = TrInfo::from_contents(
        "t".to_string(),
        paths.clone(),
        &contents,
        false,
        16384,
        false,
        WalkMode::BreadthFirstAlphabetical,
    )
    .unwrap();
    assert_eq!(order, vec![2, 1, 0]);
    let names: Vec<String> = info.files.as_ref().unwrap().iter().map(|f| f.path.join("/")).collect();
    assert_eq!(names, vec!["a/1.txt", "a/2.txt", "a/10.txt"]);
    assert_eq!(info.pieces, hash_piece(&[b"onetwoten".to_vec()]));
    let (info, order) =
        TrInfo::from_contents("t".to_string(), paths, &contents, false, 16384, true, WalkMode::Alphabetical)
            .unwrap();
    assert_eq!(order, vec![2, 0, 1]);
    assert_eq!(info.pieces, hash_piece(&[b"onetentwo".to_vec()]));
    assert!(info.private);
    assert_eq!(info.length, None);
}

#[test]
fn a_single_file_and_a_directory_with_it_differ_in_name_only() {
    let content: Vec<u8> = (0..70000u32).map(|i| (i % 233) as u8).collect();
    let (alone, _) =
        TrInfo::from_contents("f".to_string(), vec![vec![]], &[content.clone()], true, 16384, false, WalkMode::Default)
            .unwrap();
    let (inside, _) = TrInfo::from_contents(
        "d".to_string(),
        vec![path(&["f"])],
        &[content.clone()],
        false,
        16384,
        false,
        WalkMode::Default,
    )
    .unwrap();
    assert_eq!(alone.pieces, inside.pieces);
    assert_eq!(alone.pieces.len(), 100);
    assert_eq!(alone.name, Some("f".to_string()));
    assert_eq!(inside.name, Some("d".to_string()));
    assert_eq!(alone.length, Some(70000));
    assert_eq!(alone.files, None);
    assert_eq!(inside.files.as_ref().unwrap().len(), 1);
}

#[test]
fn a_fresh_torrent_of_one_piece_verifies() {
    let content: Vec<u8> = (0..65536u32).map(|i| (i % 211) as u8).collect();
    let (info, _) =
        TrInfo::from_contents("f".to_string(), vec![vec![]], &[content.clone()], true, 65536, false, WalkMode::Default)
            .unwrap();
    assert_eq!(info.pieces.len(), 20);
    assert_eq!(info.pieces, hash_tr_files(&[content.clone()], 65536));
    let mut torrent = Torrent::new(None, None, None, None, None, None);
    torrent.create_torrent(info);
    let read = Torrent::read_torrent(&torrent.bencode()).unwrap();
    let info = read.get_info().unwrap();
    let files = info.file_list().unwrap();
    let on_disk = vec![Some(65536u64)];
    let plan = calc_piece_file_info(&files, info.piece_length);
    assert_eq!(pieces_to_check(&plan, &files, &on_disk), vec![0]);
    let digests = hash_piece_file(&plan, &[content]).unwrap();
    let failed = info.verify(&on_disk, &digests).unwrap();
    assert!(failed.pieces.is_empty() && failed.files.is_empty() && failed.files_known.is_empty());
}

#[test]
fn what_cannot_be_made_is_refused() {
    let made = TrInfo::from_contents("t".to_string(), vec![vec![]], &[vec![1]], true, 0, false, WalkMode::Default);
    assert_eq!(made.err(), Some(TrError::InvalidTorrent("piece length invalid".to_string())));
    let made = TrInfo::from_contents("t".to_string(), vec![vec![]], &[], false, 4, false, WalkMode::Default);
    assert_eq!(made.err(), Some(TrError::InvalidPath("each file needs its bytes".to_string())));
    let made =
        TrInfo::from_contents("t".to_string(), vec![path(&["x"])], &[vec![1]], true, 4, false, WalkMode::Default);
    assert_eq!(made.err(), Some(TrError::InvalidPath("a single file is one entry without a path".to_string())));
    let made = TrInfo::from_contents("t".to_string(), vec![], &[], true, 4, false, WalkMode::Default);
    assert_eq!(made.err(), Some(TrError::InvalidPath("a single file is one entry without a path".to_string())));
    let (empty, order) =
        TrInfo::from_contents("t".to_string(), vec![], &[], false, 4, false, WalkMode::FileSize).unwrap();
    assert!(order.is_empty());
    assert_eq!(empty.files, Some(vec![]));
    assert!(empty.pieces.is_empty());
}
