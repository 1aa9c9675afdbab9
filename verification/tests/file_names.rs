use rusty_vessel::storage::bucket::Bucket;
use rusty_vessel::storage::file_handle::{
    file_name, join_path, page_of_name, parse_file_name, FileHandle,
};

#[test]
fn a_file_is_named_by_its_start() {
    assert_eq!(file_name(0), "0");
    assert_eq!(file_name(7), "7");
    assert_eq!(file_name(10), "10");
    assert_eq!(file_name(60_000), "60000");
    assert_eq!(file_name(-60_000), "-60000");
    assert_eq!(file_name(i64::MAX), "9223372036854775807");
    assert_eq!(file_name(i64::MIN), "-9223372036854775808");
}

#[test]
fn names_agree_with_std() {
    for start in [0_i64, 1, -1, 9, 10, 99, 100, 101, 1_655_000_000_000, -42] {
        assert_eq!(file_name(start), start.to_string());
    }
}

#[test]
fn a_name_is_read_back_as_its_start() {
    for start in [0_i64, 5, -5, 60_000, i64::MAX, i64::MIN, 1_655_000_000_000] {
        assert_eq!(parse_file_name(&file_name(start)), Some(start));
    }
}

#[test]
fn signs_and_leading_zeros_are_read() {
    assert_eq!(parse_file_name("+15"), Some(15));
    assert_eq!(parse_file_name("-15"), Some(-15));
    assert_eq!(parse_file_name("007"), Some(7));
    assert_eq!(parse_file_name("-0"), Some(0));
}

#[test]
fn other_names_are_refused() {
    for name in [
        "", "-", "+", "12a", "a12", " 12", "12 ", "1.5", "--1", "+-1", "1_000", "0x10", "١٢",
        "9223372036854775808", "-9223372036854775809", "99999999999999999999999",
    ] {
        assert_eq!(parse_file_name(name), None, "{name:?}");
    }
}

#[test]
fn parsing_agrees_with_std() {
    for name in [
        "0", "-0", "+0", "42", "-42", "0042", "9223372036854775807", "9223372036854775808",
        "-9223372036854775808", "-9223372036854775809", "", "-", "x", "4 2", "18446744073709551616",
    ] {
        assert_eq!(parse_file_name(name), name.parse::<i64>().ok(), "{name:?}");
    }
}

#[test]
fn a_file_lies_in_its_directory() {
    assert_eq!(join_path("db/BTC/1min", "60000"), "db/BTC/1min/60000");
    assert_eq!(join_path("", "0"), "/0");
}

#[test]
fn a_handle_keeps_path_and_bucket() {
    let handle = FileHandle::new("db/s/60000".to_string(), Bucket::new(60_000, 60_000));
    assert_eq!(handle.path, "db/s/60000");
    assert_eq!(handle.bucket, Bucket::new(60_000, 60_000));
    let second = handle.share();
    assert_eq!(second.path, handle.path);
    assert_eq!(second.bucket, handle.bucket);
}

#[test]
fn a_page_file_bears_the_name_that_is_printed_for_its_start() {
    for start in [0_i64, 5, -5, 60_000, i64::MAX, i64::MIN] {
        assert_eq!(page_of_name(&file_name(start)), Some(start));
    }
    for name in ["05", "+5", "-0", "007", "+0", "", "x", "5 ", "9223372036854775808"] {
        assert_eq!(page_of_name(&name.to_string()), None, "{name:?}");
    }
}
