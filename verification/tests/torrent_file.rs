use torrent_meta::bencode::Bencode;
use torrent_meta::hashing::{hash_piece, hash_tr_files};
use torrent_meta::torrent::{Torrent, WalkMode};
use torrent_meta::tr_file::{bencode_file_list, TrFile};
use torrent_meta::tr_info::TrInfo;
use torrent_meta::utils::{def_piece_size, piece_length_of, TrError};

fn digest_of(bytes: &[u8]) -> Vec<u8> {
    hash_piece(&[bytes.to_vec()])
}

fn hex(bytes: &[u8]) -> String {
    bytes.iter().map(|b| format!("{:02x}", b)).collect()
}

fn file(length: u64, path: &[&str]) -> TrFile {
    TrFile { length, path: path.iter().map(|s| s.to_string()).collect() }
}

fn single(name: &str, content: &[u8], piece_length: u64, private: bool) -> TrInfo {
    let pieces = hash_tr_files(&[content.to_vec()], piece_length);
    TrInfo::new(name.to_string(), vec![file(content.len() as u64, &[])], true, piece_length, private, pieces)
        .unwrap()
}

fn torrent_of(info: TrInfo) -> Torrent {
    let mut torrent = Torrent::new(
        None,
        Some(vec![vec!["http://a/announce".to_string()], vec!["http://b/announce".to_string()]]),
        Some("a comment".to_string()),
        Some("maker 1.0".to_string()),
        Some(1700000000),
        Some("UTF-8".to_string()),
    );
    torrent.create_torrent(info);
    torrent
}

fn invalid(bytes: &[u8]) -> String {
    match Torrent::read_torrent(bytes) {
        Err(TrError::InvalidTorrent(message)) => message,
        other => panic!("not an invalid torrent: {:?}", other),
    }
}

#[test]
fn an_empty_file_round_trips() {
    let info = single("empty.bin", b"", 16384, false);
    assert_eq!(info.length, Some(0));
    assert!(info.pieces.is_empty());
    assert_eq!(info.bencode(), b"d6:lengthi0e4:name9:empty.bin12:piece lengthi16384e6:pieces0:e".to_vec());
    let written = torrent_of(info).bencode();
    let read = Torrent::read_torrent(&written).unwrap();
    assert_eq!(read.bencode(), written);
    assert_eq!(read.get_info().unwrap().length, Some(0));
}

#[test]
fn a_file_of_exactly_one_piece() {
    let content: Vec<u8> = (0..65536u32).map(|i| (i % 253) as u8).collect();
    let info = single("f", &content, 65536, false);
    assert_eq!(info.pieces.len(), 20);
    assert_eq!(info.pieces, digest_of(&content));
}

#[test]
fn what_is_written_is_read() {
    let content: Vec<u8> = (0..3000u32).map(|i| (i % 7) as u8).collect();
    let files = vec![file(1000, &["a", "x.bin"]), file(2000, &["b.bin"])];
    let pieces = hash_tr_files(&[content[..1000].to_vec(), content[1000..].to_vec()], 1024);
    let info = TrInfo::new("dir".to_string(), files, false, 1024, true, pieces).unwrap();
    let torrent = torrent_of(info);
    let written = torrent.bencode();
    let read = Torrent::read_torrent(&written).unwrap();
    assert_eq!(read, torrent);
    assert_eq!(read.announce, Some("http://a/announce".to_string()));
    assert_eq!(read.info_hash, torrent.info_hash);
    assert_eq!(read.info_hash, Some(digest_of(&torrent.info.as_ref().unwrap().bencode())));
    assert_eq!(torrent.info.as_ref().unwrap().hash(), hex(&digest_of(&read.info.as_ref().unwrap().bencode())));
    assert_eq!(torrent.info.as_ref().unwrap().hash().len(), 40);
    assert!(Bencode::decode(&written).unwrap().is_canonical());
}

#[test]
fn the_encoding_is_as_the_format_says() {
    let info = TrInfo {
        files: Some(vec![file(3, &["a", "b"]), file(0, &["c"])]),
        length: None,
        name: Some("n".to_string()),
        piece_length: 16384,
        pieces: vec![0x41; 20],
        private: true,
    };
    let expected = b"d5:filesld6:lengthi3e4:pathl1:a1:beed6:lengthi0e4:pathl1:ceee4:name1:n12:piece lengthi16384e6:pieces20:AAAAAAAAAAAAAAAAAAAA7:privatei1ee";
    assert_eq!(info.bencode(), expected.to_vec());
    assert_eq!(bencode_file_list(info.files.as_ref().unwrap()), b"ld6:lengthi3e4:pathl1:a1:beed6:lengthi0e4:pathl1:ceee".to_vec());
    let mut torrent = Torrent::new(Some("u".to_string()), None, None, None, Some(-5), None);
    torrent.info = Some(info);
    torrent.hash = Some("h".to_string());
    let mut whole = b"d8:announce1:u13:creation datei-5e4:info".to_vec();
    whole.extend_from_slice(expected);
    whole.extend_from_slice(b"4:hash1:he");
    assert_eq!(torrent.bencode(), whole);
}

#[test]
fn the_private_flag_is_hashed() {
    let open = single("f", b"some bytes", 16384, false);
    let closed = single("f", b"some bytes", 16384, true);
    assert_eq!(open.pieces, closed.pieces);
    assert_ne!(open.hash(), closed.hash());
    let read = Torrent::read_torrent(&torrent_of(closed).bencode()).unwrap();
    assert!(read.get_info().unwrap().private);
    let read = Torrent::read_torrent(&torrent_of(open).bencode()).unwrap();
    assert!(!read.get_info().unwrap().private);
}

#[test]
fn a_file_and_a_directory_of_that_file_have_the_same_pieces() {
    let content: Vec<u8> = (0..50000u32).map(|i| (i % 199) as u8).collect();
    let alone = single("f", &content, 16384, false);
    let pieces = hash_tr_files(&[content.clone()], 16384);
    let inside = TrInfo::new("d".to_string(), vec![file(50000, &["f"])], false, 16384, false, pieces).unwrap();
    assert_eq!(alone.pieces, inside.pieces);
    assert_eq!(alone.get_name().unwrap(), "f");
    assert_eq!(inside.get_name().unwrap(), "d");
    assert_eq!(alone.files, None);
    assert_eq!(inside.length, None);
}

#[test]
fn the_info_hash_is_taken_over_the_bytes_as_they_stand() {
    let info_bytes: &[u8] = b"d6:pieces0:12:piece lengthi16384e4:name1:f6:lengthi0ee";
    let mut bytes = b"d4:info".to_vec();
    bytes.extend_from_slice(info_bytes);
    bytes.extend_from_slice(b"7:comment1:ce");
    let read = Torrent::read_torrent(&bytes).unwrap();
    assert_eq!(read.info_hash, Some(digest_of(info_bytes)));
    assert_ne!(read.info_hash, Some(digest_of(&read.get_info().unwrap().bencode())));
    assert_eq!(read.comment, Some("c".to_string()));
    assert_eq!(read.get_info().unwrap().get_name().unwrap(), "f");
}

#[test]
fn the_last_of_two_equal_keys_counts() {
    let read = Torrent::read_torrent(b"d7:comment1:a7:comment1:b4:infod6:lengthi1e12:piece lengthi4e6:pieces0:ee").unwrap();
    assert_eq!(read.comment, Some("b".to_string()));
}

#[test]
fn bytes_that_are_no_bencode_are_a_parse_error() {
    assert_eq!(Torrent::read_torrent(b""), Err(TrError::ParseError("unexpected end of input".to_string())));
    assert_eq!(Torrent::read_torrent(b"d4:infoi01ee"), Err(TrError::ParseError("invalid integer".to_string())));
    assert_eq!(Torrent::read_torrent(b"d4x"), Err(TrError::ParseError("invalid string length".to_string())));
    assert_eq!(Torrent::read_torrent(b"di1ei2ee"), Err(TrError::ParseError("unknown token".to_string())));
    assert_eq!(TrError::parse(torrent_meta::bencode::BencodeError::UnorderedKeys).to_text(), "Parse error: dictionary keys are not in order");
}

#[test]
fn a_torrent_of_the_wrong_shape_is_invalid() {
    assert_eq!(invalid(b"le"), "torrent root is not a dictionary");
    assert_eq!(invalid(b"de"), "missing info dict");
    assert_eq!(invalid(b"d4:infoi1ee"), "missing info dict");
    assert_eq!(invalid(b"d4:infod6:lengthi1e6:pieces0:ee"), "piece length missing");
    assert_eq!(invalid(b"d4:infod6:lengthi1e12:piece lengthi0e6:pieces0:ee"), "piece length invalid");
    assert_eq!(invalid(b"d4:infod6:lengthi1e12:piece lengthi4eee"), "pieces missing");
    assert_eq!(invalid(b"d4:infod6:lengthi1e12:piece lengthi4e6:pieces3:abcee"), "pieces length is not a multiple of 20");
    assert_eq!(invalid(b"d4:infod12:piece lengthi4e6:pieces0:ee"), "info must hold exactly one of files and length");
    assert_eq!(invalid(b"d4:infod5:filesle6:lengthi1e12:piece lengthi4e6:pieces0:ee"), "info must hold exactly one of files and length");
    assert_eq!(invalid(b"d4:infod5:filesli1ee12:piece lengthi4e6:pieces0:ee"), "file entry is not a dictionary");
    assert_eq!(invalid(b"d4:infod5:filesld4:pathl1:aeee12:piece lengthi4e6:pieces0:ee"), "file length invalid");
    assert_eq!(invalid(b"d4:infod5:filesld6:lengthi-1e4:pathl1:aeee12:piece lengthi4e6:pieces0:ee"), "file length invalid");
    assert_eq!(invalid(b"d4:infod5:filesld6:lengthi1eee12:piece lengthi4e6:pieces0:ee"), "file path invalid");
    assert_eq!(invalid(b"d4:infod5:filesld6:lengthi1e4:pathl0:eee12:piece lengthi4e6:pieces0:ee"), "file path invalid");
    assert_eq!(invalid(b"d4:infod5:filesld6:lengthi1e4:pathli1eeee12:piece lengthi4e6:pieces0:ee"), "file path invalid");
    assert_eq!(invalid(b"d13:announce-listli1ee4:infod6:lengthi1e12:piece lengthi4e6:pieces0:ee"), "Announce tier is not a list");
    assert_eq!(invalid(b"d13:announce-listlli1eee4:infod6:lengthi1e12:piece lengthi4e6:pieces0:ee"), "Announce URL is not a string");
}

#[test]
fn text_that_is_no_utf8_is_an_encoding_error() {
    let mut bytes = b"d4:infod6:lengthi1e4:name2:".to_vec();
    bytes.extend_from_slice(&[0xff, 0xfe]);
    bytes.extend_from_slice(b"12:piece lengthi4e6:pieces0:ee");
    assert_eq!(Torrent::read_torrent(&bytes), Err(TrError::EncodingError("invalid UTF-8".to_string())));
}

#[test]
fn fields_of_another_kind_are_passed_over() {
    let read = Torrent::read_torrent(b"d8:announcei1e7:commentle13:creation date1:x4:infod6:lengthi1e4:namei2e12:piece lengthi4e6:pieces0:7:private1:yee").unwrap();
    assert_eq!(read.announce, None);
    assert_eq!(read.comment, None);
    assert_eq!(read.creation_date, None);
    let info = read.get_info().unwrap();
    assert_eq!(info.name, None);
    assert!(!info.private);
    assert_eq!(info.get_name(), Err(TrError::MissingField("name".to_string())));
}

#[test]
fn a_file_that_exists_is_only_written_over_with_force() {
    let torrent = torrent_of(single("f", b"x", 16384, false));
    assert_eq!(
        torrent.write_to_file(true, false),
        Err(TrError::AlreadyExists("File already exists, use -f to overwrite".to_string()))
    );
    assert_eq!(torrent.write_to_file(true, true), Ok(torrent.bencode()));
    assert_eq!(torrent.write_to_file(false, false), Ok(torrent.bencode()));
}

#[test]
fn the_first_tracker_stands_in_for_announce() {
    let tiers = vec![vec!["u1".to_string(), "u2".to_string()], vec!["u3".to_string()]];
    let torrent = Torrent::new(None, Some(tiers.clone()), None, None, None, None);
    assert_eq!(torrent.announce, Some("u1".to_string()));
    let torrent = Torrent::new(Some("u0".to_string()), Some(tiers), None, None, None, None);
    assert_eq!(torrent.announce, Some("u0".to_string()));
    let torrent = Torrent::new(None, Some(vec![]), None, None, None, None);
    assert_eq!(torrent.announce, None);
    assert_eq!(torrent.bencode(), b"de".to_vec());
    assert_eq!(torrent.get_info(), None);
}

#[test]
fn a_single_file_is_one_entry() {
    let made = TrInfo::new("f".to_string(), vec![], true, 16384, false, vec![]);
    assert_eq!(made, Err(TrError::InvalidPath("a single file is one entry".to_string())));
}

#[test]
fn piece_lengths_and_walk_modes_have_their_ranges() {
    assert_eq!(def_piece_size(), 20);
    assert_eq!(piece_length_of(13), None);
    assert_eq!(piece_length_of(14), Some(16384));
    assert_eq!(piece_length_of(20), Some(1048576));
    assert_eq!(piece_length_of(27), Some(134217728));
    assert_eq!(piece_length_of(28), None);
    assert_eq!(WalkMode::from_number(0), Some(WalkMode::Default));
    assert_eq!(WalkMode::from_number(1), Some(WalkMode::Alphabetical));
    assert_eq!(WalkMode::from_number(2), Some(WalkMode::BreadthFirstAlphabetical));
    assert_eq!(WalkMode::from_number(3), Some(WalkMode::BreadthFirstLevel));
    assert_eq!(WalkMode::from_number(4), Some(WalkMode::FileSize));
    assert_eq!(WalkMode::from_number(5), None);
}

#[test]
fn errors_are_shown_by_their_kind() {
    assert_eq!(TrError::IO("gone".to_string()).to_text(), "IO error: gone");
    assert_eq!(TrError::InvalidPath("p".to_string()).to_text(), "Invalid path: p");
    assert_eq!(TrError::invalid("m").to_text(), "Invalid torrent: m");
    assert_eq!(TrError::MissingField("name".to_string()).to_text(), "Missing field: name");
    assert_eq!(TrError::EncodingError("e".to_string()).to_text(), "Encoding error: e");
    assert_eq!(TrError::AlreadyExists("there".to_string()).to_text(), "there");
}
