use std::path::PathBuf;

use wenv::backup::{
    backup_file_name, backup_id, backup_stamp, backup_timestamp, cleanup_after_backup, cleanup_count,
    find_backup, newest_first_order, BackupEntry,
};

#[test]
fn timestamp_is_zero_padded() {
    assert_eq!(backup_timestamp(2024, 3, 7, 9, 5, 0), "2024-03-07_090500");
    assert_eq!(backup_timestamp(987, 12, 31, 23, 59, 59), "0987-12-31_235959");
    assert_eq!(backup_timestamp(-5, 1, 1, 0, 0, 0), "-005-01-01_000000");
    assert_eq!(backup_timestamp(12345, 1, 1, 0, 0, 0), "12345-01-01_000000");
}

#[test]
fn backup_name_holds_stamp_and_file() {
    assert_eq!(backup_file_name("2024-03-07_090500", Some(".bashrc")), "2024-03-07_090500_.bashrc.bak");
    assert_eq!(backup_file_name("2024-03-07_090500", None), "2024-03-07_090500_config.bak");
}

#[test]
fn name_gives_stamp_and_id() {
    let f = "2024-03-07_090500_.bashrc.bak";
    assert_eq!(backup_stamp(f), "2024-03-07_090500");
    assert_eq!(backup_id(f), "2024-03-07_090500_.bashrc");
    assert_eq!(backup_stamp("plain.bak"), "plain.bak");
    assert_eq!(backup_stamp("a_b"), "a_b");
    assert_eq!(backup_id("x.bak.bak"), "x");
    assert_eq!(backup_id(".bak"), "");
}

#[test]
fn newest_first_is_stable() {
    let stamps: Vec<String> =
        ["2024-01-01_000000", "2025-01-01_000000", "2024-01-01_000000", "2023-06-01_120000"]
            .iter()
            .map(|s| s.to_string())
            .collect();
    assert_eq!(newest_first_order(&stamps), vec![1, 0, 2, 3]);
    assert!(newest_first_order(&Vec::new()).is_empty());
}

#[test]
fn cleanup_rules() {
    assert_eq!(cleanup_count(3, 5), 0);
    assert_eq!(cleanup_count(7, 5), 2);
    assert_eq!(cleanup_after_backup(0, None), (true, 0));
    assert_eq!(cleanup_after_backup(3, Some(0)), (false, 4));
    assert_eq!(cleanup_after_backup(3, Some(2)), (true, 0));
    assert_eq!(cleanup_after_backup(10, Some(0)), (true, 0));
}

#[test]
fn find_by_id_or_part_of_name() {
    let b = |id: &str| BackupEntry {
        id: id.to_string(),
        path: PathBuf::from(format!("{}.bak", id)),
        timestamp: String::new(),
        filename: format!("{}.bak", id),
        size: 0,
    };
    let list = vec![b("2024-01-01_000000_.bashrc"), b("2025-01-01_000000_.profile")];
    assert_eq!(find_backup(&list, "2025-01-01_000000_.profile"), Some(1));
    assert_eq!(find_backup(&list, ".bashrc"), Some(0));
    assert_eq!(find_backup(&list, "zsh"), None);
}

#[test]
fn stamp_read_back_from_a_name() {
    let ts = backup_timestamp(2024, 11, 2, 7, 8, 9);
    let name = backup_file_name(&ts, Some(".bash_profile"));
    assert_eq!(backup_stamp(&name), ts);
    assert_eq!(backup_id(&name), "2024-11-02_070809_.bash_profile");
}
