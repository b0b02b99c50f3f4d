use torrent_meta::cli::{has_torrent_suffix, select_mode, tiers_of, tracker_list, Mode, UsageError};

fn texts(items: &[&str]) -> Vec<String> {
    items.iter().map(|s| s.to_string()).collect()
}

#[test]
fn the_count_of_arguments_selects_the_mode() {
    assert_eq!(select_mode(&texts(&["dir"])), Ok(Mode::Create { target: 0 }));
    assert_eq!(select_mode(&texts(&["a.torrent"])), Ok(Mode::Inspect { torrent: 0 }));
    assert_eq!(select_mode(&texts(&["a.torrent", "a"])), Ok(Mode::Verify { torrent: 0, target: 1 }));
    assert_eq!(select_mode(&texts(&["a", "a.torrent"])), Ok(Mode::Verify { torrent: 1, target: 0 }));
    assert_eq!(select_mode(&texts(&["a.torrent", "b.torrent"])), Ok(Mode::Verify { torrent: 0, target: 1 }));
    assert_eq!(select_mode(&texts(&["a", "b"])), Err(UsageError::NoTorrent));
    assert_eq!(select_mode(&texts(&[])), Err(UsageError::WrongCount));
    assert_eq!(select_mode(&texts(&["a", "b", "c.torrent"])), Err(UsageError::WrongCount));
}

#[test]
fn a_metainfo_file_ends_with_torrent() {
    assert!(has_torrent_suffix(".torrent"));
    assert!(has_torrent_suffix("dir/x.torrent"));
    assert!(!has_torrent_suffix("torrent"));
    assert!(!has_torrent_suffix("x.torrent "));
    assert!(!has_torrent_suffix("x.Torrent"));
    assert!(!has_torrent_suffix(""));
}

#[test]
fn the_arguments_override_the_configured_trackers() {
    assert_eq!(tracker_list(texts(&[]), texts(&["c1", "c2"])), texts(&["c1", "c2"]));
    assert_eq!(tracker_list(texts(&["a1"]), texts(&["c1", "c2"])), texts(&["a1"]));
    assert_eq!(tracker_list(texts(&["a1", ""]), texts(&["c1"])), texts(&[]));
    assert_eq!(tracker_list(texts(&[""]), texts(&["c1"])), texts(&[]));
    assert_eq!(tiers_of(&texts(&["a", "b"])), vec![texts(&["a"]), texts(&["b"])]);
    assert!(tiers_of(&texts(&[])).is_empty());
}
