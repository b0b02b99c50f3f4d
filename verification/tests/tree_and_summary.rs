use torrent_meta::report::{join_path, padded_number, signed_number_text};
use torrent_meta::torrent::Torrent;
use torrent_meta::tr_file::{Node, TrFile};
use torrent_meta::tr_info::TrInfo;

fn file(length: u64, path: &[&str]) -> TrFile {
    TrFile { length, path: path.iter().map(|s| s.to_string()).collect() }
}

#[test]
fn the_tree_has_a_node_for_each_segment() {
    let root = Node::build_tree(&[
        file(1, &["a", "x"]),
        file(2, &["b"]),
        file(3, &["a", "y", "z"]),
        file(4, &["a", "x"]),
        file(5, &[]),
    ]);
    assert_eq!(root.name, "");
    assert_eq!(root.length, None);
    assert_eq!(root.children.len(), 2);
    let a = &root.children[0];
    assert_eq!((a.name.as_str(), a.length, a.children.len()), ("a", None, 2));
    assert_eq!((a.children[0].name.as_str(), a.children[0].length), ("x", Some(4)));
    assert_eq!((a.children[1].name.as_str(), a.children[1].length), ("y", None));
    assert_eq!((a.children[1].children[0].name.as_str(), a.children[1].children[0].length), ("z", Some(3)));
    let b = &root.children[1];
    assert_eq!((b.name.as_str(), b.length, b.children.len()), ("b", Some(2), 0));
}

#[test]
fn a_directory_that_becomes_a_file_keeps_its_children() {
    let mut root = Node::new_dir("");
    root.insert_path(&["d".to_string(), "f".to_string()], 1);
    root.insert_path(&["d".to_string()], 9);
    assert_eq!(root.children.len(), 1);
    assert_eq!(root.children[0].length, Some(9));
    assert_eq!(root.children[0].children.len(), 1);
    let leaf = Node::new_file("f", 3);
    assert_eq!((leaf.name.as_str(), leaf.length, leaf.children.len()), ("f", Some(3), 0));
}

#[test]
fn numbers_and_paths_as_text() {
    assert_eq!(padded_number(42, 8), "      42");
    assert_eq!(padded_number(123456789, 8), "123456789");
    assert_eq!(padded_number(0, 0), "0");
    assert_eq!(signed_number_text(-5), "-5");
    assert_eq!(signed_number_text(i64::MIN), "-9223372036854775808");
    assert_eq!(signed_number_text(i64::MAX), "9223372036854775807");
    assert_eq!(join_path(&vec![]), "");
    assert_eq!(join_path(&vec!["a".to_string()]), "a");
    assert_eq!(join_path(&vec!["a".to_string(), "b".to_string(), "c".to_string()]), "a/b/c");
}

#[test]
fn the_summary_of_a_torrent() {
    let info = TrInfo {
        files: Some(vec![file(1536, &["a", "b.txt"]), file(0, &["c"])]),
        length: None,
        name: Some("n".to_string()),
        piece_length: 16384,
        pieces: vec![0; 20],
        private: true,
    };
    let mut torrent = Torrent::new(
        None,
        Some(vec![vec!["u1".to_string(), "u2".to_string()], vec![], vec!["u3".to_string()]]),
        Some("hello".to_string()),
        Some("maker".to_string()),
        Some(-1),
        Some("UTF-8".to_string()),
    );
    torrent.info = Some(info);
    torrent.info_hash = Some(vec![0x0a, 0xff]);
    let text = torrent.summary_with(&Some("1969-12-31 23:59:59".to_string()));
    assert_eq!(
        text,
        "Torrent Info:\n  Name: n\n  Announce List:\n    Tier 0: u1\n    Tier 0: u2\n    Tier 2: u3\n  Comment: hello\n  Created by: maker\n  Creation date: -1 [1969-12-31 23:59:59]\n  Encoding: UTF-8\n  Hash: 0aff\n  Piece length: 16384 [16 KiB]\n  Private: true\n  Files (RelPath [Length]):\n    - a/b.txt [1536 bytes (1.50 KiB)]\n    - c [0 bytes (0 B)]\n"
    );
    assert!(torrent.summary().starts_with("Torrent Info:\n  Name: n\n"));
    assert!(torrent.summary().contains("  Creation date: -1"));
}

#[test]
fn a_long_summary_is_cut() {
    let tiers: Vec<Vec<String>> = (0..12).map(|t| vec![format!("a{}", t), format!("b{}", t)]).collect();
    let files: Vec<TrFile> = (0..101).map(|i| TrFile { length: i, path: vec![format!("f{}", i)] }).collect();
    let mut torrent = Torrent::new(None, Some(tiers), None, None, None, None);
    torrent.info = Some(TrInfo { files: Some(files), length: None, name: None, piece_length: 1, pieces: vec![], private: false });
    let text = torrent.summary_with(&None);
    let lines: Vec<&str> = text.lines().collect();
    assert_eq!(lines[1], "  Announce List:");
    assert_eq!(lines[2], "    Tier 00: a0");
    assert_eq!(lines[21], "    Tier 09: b9");
    assert_eq!(lines[22], "    Truncated at 20 announces...");
    assert_eq!(lines[23], "  Piece length: 1 [1 B]");
    assert_eq!(lines[24], "  Private: false");
    assert_eq!(lines[25], "  Files (RelPath [Length]):");
    assert_eq!(lines[26], "    - f0 [0 bytes (0 B)]");
    assert_eq!(lines[125], "    - f99 [99 bytes (99 B)]");
    assert_eq!(lines[126], "    Truncated at 100 files...");
    assert_eq!(lines.len(), 127);
}

#[test]
fn a_summary_without_info() {
    let torrent = Torrent::new(None, None, Some("c".to_string()), None, None, None);
    assert_eq!(torrent.summary(), "Torrent Info:\n  [No torrent info available]\n");
    let mut torrent = Torrent::new(None, None, None, None, Some(7), None);
    torrent.info = Some(TrInfo { files: None, length: Some(7), name: None, piece_length: 2048, pieces: vec![], private: false });
    assert_eq!(
        torrent.summary_with(&None),
        "Torrent Info:\n  Creation date: 7\n  Piece length: 2048 [2 KiB]\n  Private: false\n  Length: 7\n"
    );
}

#[test]
fn the_tree_is_shown_in_natural_order() {
    let root = Node::build_tree(&[
        file(1, &["file10"]),
        file(2048, &["dir", "b"]),
        file(3, &["file2"]),
        file(4, &["dir", "A"]),
    ]);
    assert_eq!(root.shown_order(), vec![1, 2, 0]);
    assert_eq!(
        root.print_tree(),
        vec![
            "├── dir",
            "│   ├── A (4 [4 B])",
            "│   └── b (2048 [2 KiB])",
            "├── file2 (3 [3 B])",
            "└── file10 (1 [1 B])",
        ]
    );
    assert_eq!(root.children[1].print_branch("> ", true), vec!["> └── dir", ">     ├── A (4 [4 B])", ">     └── b (2048 [2 KiB])"]);
    assert!(Node::new_dir("").print_tree().is_empty());
}

#[test]
fn the_files_of_a_torrent_are_shown_as_a_tree() {
    let mut torrent = Torrent::new(None, None, None, None, None, None);
    assert_eq!(torrent.print_file_tree(), vec!["[No torrent info available]"]);
    torrent.info = Some(TrInfo { files: None, length: Some(1536), name: Some("one".to_string()), piece_length: 4, pieces: vec![], private: false });
    assert_eq!(torrent.print_file_tree(), vec!["one", "  [Single file, 1536 bytes (1.50 KiB)]"]);
    torrent.info = Some(TrInfo { files: None, length: None, name: None, piece_length: 4, pieces: vec![], private: false });
    assert_eq!(torrent.print_file_tree(), vec!["  [No files information available]"]);
    torrent.info = Some(TrInfo {
        files: Some(vec![file(1, &["b"]), file(2, &["a", "c"])]),
        length: None,
        name: Some("many".to_string()),
        piece_length: 4,
        pieces: vec![],
        private: false,
    });
    assert_eq!(torrent.print_file_tree(), vec!["many", "├── a", "│   └── c (2 [2 B])", "└── b (1 [1 B])"]);
}
