use torrent_meta::torrent::WalkMode;
use torrent_meta::tr_file::TrFile;
use torrent_meta::walk::{compare_files, sort_files, sorted_order};

fn file(length: u64, path: &[&str]) -> TrFile {
    TrFile { length, path: path.iter().map(|s| s.to_string()).collect() }
}

fn names(files: &[TrFile]) -> Vec<String> {
    files.iter().map(|f| f.path.join("/")).collect()
}

#[test]
fn alphabetical_goes_by_bytes_and_natural_by_numbers() {
    let given = vec![file(1, &["a", "10.txt"]), file(2, &["a", "2.txt"]), file(3, &["a", "1.txt"])];
    let mut files = given.clone();
    sort_files(&mut files, WalkMode::Alphabetical);
    assert_eq!(names(&files), vec!["a/1.txt", "a/10.txt", "a/2.txt"]);
    let mut files = given.clone();
    sort_files(&mut files, WalkMode::BreadthFirstAlphabetical);
    assert_eq!(names(&files), vec!["a/1.txt", "a/2.txt", "a/10.txt"]);
    let mut files = given.clone();
    let order = sort_files(&mut files, WalkMode::Default);
    assert_eq!(files, given);
    assert_eq!(order, vec![0, 1, 2]);
}

#[test]
fn the_longest_file_comes_first_by_size() {
    let mut files = vec![file(5, &["a"]), file(9, &["b"]), file(5, &["c"]), file(7, &["d"])];
    let order = sort_files(&mut files, WalkMode::FileSize);
    assert_eq!(names(&files), vec!["b", "d", "a", "c"]);
    assert_eq!(order, vec![1, 3, 0, 2]);
}

#[test]
fn files_come_before_directories_at_their_level() {
    let given = vec![
        file(1, &["b", "x.txt"]),
        file(1, &["z.txt"]),
        file(1, &["a", "deep", "y.txt"]),
        file(1, &["a", "File2"]),
        file(1, &["a", "file10"]),
    ];
    let mut files = given.clone();
    sort_files(&mut files, WalkMode::BreadthFirstLevel);
    assert_eq!(names(&files), vec!["z.txt", "a/File2", "a/file10", "a/deep/y.txt", "b/x.txt"]);
    let mut files = given.clone();
    sort_files(&mut files, WalkMode::BreadthFirstAlphabetical);
    assert_eq!(names(&files), vec!["a/deep/y.txt", "a/File2", "a/file10", "b/x.txt", "z.txt"]);
}

#[test]
fn a_path_that_starts_another_comes_first() {
    let short = file(1, &["a"]);
    let long = file(1, &["a", "b"]);
    for mode in [WalkMode::Alphabetical, WalkMode::BreadthFirstAlphabetical, WalkMode::BreadthFirstLevel] {
        assert_eq!(compare_files(mode, &short, &long), -1);
        assert_eq!(compare_files(mode, &long, &short), 1);
        assert_eq!(compare_files(mode, &long, &long), 0);
    }
    assert_eq!(compare_files(WalkMode::Default, &short, &long), 0);
    assert_eq!(compare_files(WalkMode::Alphabetical, &file(1, &["B"]), &file(1, &["a"])), -1);
    assert_eq!(compare_files(WalkMode::BreadthFirstAlphabetical, &file(1, &["B"]), &file(1, &["a"])), 1);
}

#[test]
fn sorting_agrees_with_the_stable_sort_of_std() {
    let mut seed: u32 = 12345;
    let mut given: Vec<TrFile> = Vec::new();
    for _ in 0..200 {
        seed = seed.wrapping_mul(1103515245).wrapping_add(12345);
        let a = format!("d{}", (seed >> 16) % 4);
        seed = seed.wrapping_mul(1103515245).wrapping_add(12345);
        let b = format!("f{}", (seed >> 16) % 30);
        seed = seed.wrapping_mul(1103515245).wrapping_add(12345);
        given.push(TrFile { length: ((seed >> 16) % 8) as u64, path: vec![a, b] });
    }
    for mode in [
        WalkMode::Default,
        WalkMode::Alphabetical,
        WalkMode::BreadthFirstAlphabetical,
        WalkMode::BreadthFirstLevel,
        WalkMode::FileSize,
    ] {
        let mut expected = given.clone();
        expected.sort_by(|a, b| compare_files(mode, a, b).cmp(&0));
        let mut files = given.clone();
        let order = sort_files(&mut files, mode);
        assert_eq!(files, expected);
        assert_eq!(order, sorted_order(&given, mode));
        let mut seen = order.clone();
        seen.sort();
        assert_eq!(seen, (0..given.len()).collect::<Vec<usize>>());
        for (i, &from) in order.iter().enumerate() {
            assert_eq!(files[i], given[from]);
        }
    }
}
