use rle_bitmap_compare::file_path;
use rle_bitmap_compare::paths::{file_id, file_name};
use std::path::PathBuf;

#[test]
fn files_are_numbered_in_four_digits() {
    assert_eq!(file_name(0), "part-0000.parquet");
    assert_eq!(file_name(39), "part-0039.parquet");
    assert_eq!(file_name(9999), "part-9999.parquet");
    assert_eq!(file_name(10000), "part-10000.parquet");
}

#[test]
fn files_lie_in_the_data_directory() {
    assert_eq!(file_path(0), PathBuf::from("data-fts/part-0000.parquet"));
    assert_eq!(file_path(7), PathBuf::from("data-fts/part-0007.parquet"));
    assert_eq!(file_path(123456), PathBuf::from("data-fts/part-123456.parquet"));
    assert_eq!(file_path(1).file_name().unwrap(), "part-0001.parquet");
    assert_eq!(file_path(1).parent().unwrap(), PathBuf::from("data-fts"));
}

#[test]
fn numbers_are_read_back_from_names() {
    for f in [0usize, 1, 39, 999, 10000, usize::MAX] {
        assert_eq!(file_id(&file_name(f)), Some(f));
        assert_eq!(file_id(&format!("home/me/data-fts/{}", file_name(f))), Some(f));
        assert_eq!(file_id(file_path(f).to_str().unwrap()), Some(f));
    }
}

#[test]
fn different_files_have_different_names() {
    assert_ne!(file_name(1), file_name(10));
    assert_ne!(file_name(1000), file_name(10000));
}

#[test]
fn prefix_and_suffix_may_repeat_or_lack() {
    assert_eq!(file_id("12"), Some(12));
    assert_eq!(file_id("+12"), Some(12));
    assert_eq!(file_id("part-part-0012.parquet.parquet"), Some(12));
    assert_eq!(file_id("part-9/0012"), Some(12));
    assert_eq!(file_id("/part-0012.parquet"), Some(12));
    assert_eq!(file_id("part-00000000000000000000000012.parquet"), Some(12));
}

#[test]
fn other_names_have_no_number() {
    assert_eq!(file_id(""), None);
    assert_eq!(file_id("part-0012.parquet/"), None);
    assert_eq!(file_id("part-.parquet"), None);
    assert_eq!(file_id("part-12.csv"), None);
    assert_eq!(file_id("part--12.parquet"), None);
    assert_eq!(file_id("part-+.parquet"), None);
    assert_eq!(file_id("part-1 2.parquet"), None);
    assert_eq!(file_id("part-١.parquet"), None);
    assert_eq!(file_id("part-18446744073709551616.parquet"), None);
    assert_eq!(file_id("PART-0012.parquet"), None);
}
