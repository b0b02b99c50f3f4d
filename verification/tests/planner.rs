use torrent_meta::planner::{calc_piece_file_info, plan_pieces, FileHashInfo};
use torrent_meta::tr_file::TrFile;

fn file(length: u64, name: &str) -> TrFile {
    TrFile { length, path: vec![name.to_string()] }
}

fn region(file_index: usize, file_offset: u64, length: u64) -> FileHashInfo {
    FileHashInfo { file_index, file_offset, length }
}

#[test]
fn a_piece_may_cross_files() {
    let files = vec![file(1000, "a"), file(2000, "b")];
    let plan = calc_piece_file_info(&files, 1024);
    assert_eq!(plan.len(), 3);
    assert_eq!(plan[0], vec![region(0, 0, 1000), region(1, 0, 24)]);
    assert_eq!(plan[1], vec![region(1, 24, 1024)]);
    assert_eq!(plan[2], vec![region(1, 1048, 952)]);
}

#[test]
fn a_file_of_one_piece_is_one_region() {
    let plan = calc_piece_file_info(&[file(65536, "f")], 65536);
    assert_eq!(plan, vec![vec![region(0, 0, 65536)]]);
}

#[test]
fn empty_files_take_no_region() {
    let plan = plan_pieces(&[0, 5, 0, 0, 5, 0], 4);
    assert_eq!(
        plan,
        vec![
            vec![region(1, 0, 4)],
            vec![region(1, 4, 1), region(4, 0, 3)],
            vec![region(4, 3, 2)],
        ]
    );
    assert!(plan_pieces(&[], 4).is_empty());
    assert!(plan_pieces(&[0, 0], 4).is_empty());
}

#[test]
fn the_plan_covers_every_byte_once() {
    let sizes: Vec<u64> = vec![7, 0, 13, 1, 64, 3, 29];
    for p in 1..40u64 {
        let plan = plan_pieces(&sizes, p);
        let total: u64 = sizes.iter().sum();
        assert_eq!(plan.len() as u64, (total + p - 1) / p);
        let mut seen: u64 = 0;
        for (k, piece) in plan.iter().enumerate() {
            let size: u64 = piece.iter().map(|r| r.length).sum();
            if k + 1 < plan.len() {
                assert_eq!(size, p);
            } else if total % p != 0 {
                assert_eq!(size, total % p);
            } else {
                assert_eq!(size, p);
            }
            seen += size;
        }
        assert_eq!(seen, total);
    }
}
