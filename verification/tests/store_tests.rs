use canvas_scan::store::{
    format_u64_decimal, parse_u64_decimal, plan_retention, sort_stamps, RETAIN_FILES,
};

#[test]
fn formats_decimal_stamps() {
    assert_eq!(format_u64_decimal(0), b"0".to_vec());
    assert_eq!(format_u64_decimal(7), b"7".to_vec());
    assert_eq!(format_u64_decimal(1700000005), b"1700000005".to_vec());
    assert_eq!(format_u64_decimal(u64::MAX), b"18446744073709551615".to_vec());
    assert_eq!(parse_u64_decimal(&format_u64_decimal(987654321)), Some(987654321));
}

#[test]
fn five_files_keep_the_three_newest() {
    let stamps = vec![1700000005u64, 1700000001, 1700000004, 1700000002, 1700000003];
    let plan = plan_retention(&stamps);
    assert_eq!(plan.keep, vec![1700000003, 1700000004, 1700000005]);
    assert_eq!(plan.delete, vec![1700000001, 1700000002]);
    // The most recent one is what gets loaded.
    assert_eq!(plan.keep.last().copied(), Some(1700000005));
}

#[test]
fn few_files_delete_nothing() {
    let stamps = vec![7u64, 3];
    let plan = plan_retention(&stamps);
    assert_eq!(plan.delete, Vec::<u64>::new());
    assert_eq!(plan.keep, vec![3, 7]);
    assert_eq!(plan.keep.len().min(RETAIN_FILES), plan.keep.len());
}

#[test]
fn empty_directory_is_fine() {
    let plan = plan_retention(&Vec::new());
    assert!(plan.delete.is_empty());
    assert!(plan.keep.is_empty());
    assert_eq!(plan.keep.last(), None);
}

#[test]
fn equal_stamps_are_all_accounted_for() {
    let stamps = vec![5u64, 5, 5, 5];
    let plan = plan_retention(&stamps);
    assert_eq!(plan.keep, vec![5, 5, 5]);
    assert_eq!(plan.delete, vec![5]);
}

#[test]
fn parses_checkpoint_file_stems() {
    assert_eq!(parse_u64_decimal(&b"1700000005".to_vec()), Some(1700000005));
    assert_eq!(parse_u64_decimal(&b"0".to_vec()), Some(0));
    assert_eq!(parse_u64_decimal(&b"18446744073709551615".to_vec()), Some(u64::MAX));
    assert_eq!(parse_u64_decimal(&b"18446744073709551616".to_vec()), None);
    assert_eq!(parse_u64_decimal(&b"".to_vec()), None);
    assert_eq!(parse_u64_decimal(&b"12a3".to_vec()), None);
}

#[test]
fn sort_is_ascending_permutation() {
    let stamps = vec![9u64, 1, 8, 1, 7];
    let sorted = sort_stamps(&stamps);
    assert_eq!(sorted, vec![1, 1, 7, 8, 9]);
}
