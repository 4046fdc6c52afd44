use syncplan::listing::{parse_ls_line, parse_ls_output, parse_stat_output, FormatError};
use syncplan::{FileKind, FileList};

#[test]
fn test_parse_ls_line() {
    let line = "-rw-r--r-- 1 user group 1024 Jan 1 12:00 test.txt";
    let file_info = parse_ls_line(line).unwrap();

    assert_eq!(file_info.name, "test.txt");
    assert_eq!(file_info.size, 1024);
    assert!(!file_info.is_directory());
    assert!(!file_info.is_symlink());
}

#[test]
fn test_parse_ls_line_directory() {
    let line = "drwxr-xr-x 2 user group 4096 Jan 1 12:00 mydir";
    let file_info = parse_ls_line(line).unwrap();

    assert_eq!(file_info.name, "mydir");
    assert!(file_info.is_directory());
}

#[test]
fn test_parse_stat_output() {
    let output = "regular file|1024|1640995200|test.txt";
    let file_info = parse_stat_output(output).unwrap();

    assert_eq!(file_info.name, "test.txt");
    assert_eq!(file_info.size, 1024);
    assert!(!file_info.is_directory());
}

#[test]
fn listing_line_regular_file_fields() {
    let e = parse_ls_line("-rw-r--r-- 1 user group 1024 Jan 1 12:00 test.txt").unwrap();
    assert_eq!(e.path, "test.txt");
    assert_eq!(e.size, 1024);
    assert_eq!(e.kind, FileKind::RegularFile);
    assert_eq!(e.modified_time, None);
    assert_eq!(e.permissions, Some("-rw-r--r--".to_string()));
}

#[test]
fn listing_line_directory_size() {
    let e = parse_ls_line("drwxr-xr-x 2 user group 4096 Jan 1 12:00 mydir").unwrap();
    assert_eq!(e.kind, FileKind::Directory);
    assert_eq!(e.size, 4096);
}

#[test]
fn listing_line_symlink() {
    let e = parse_ls_line("lrwxrwxrwx 1 user group 7 Jan 1 12:00 link -> target").unwrap();
    assert_eq!(e.kind, FileKind::Symlink);
    assert!(e.is_symlink());
    assert_eq!(e.name, "link -> target");
}

#[test]
fn listing_line_name_with_spaces_is_rejoined() {
    let e = parse_ls_line("-rw-r--r--  1 user  group   5 Jan  1 12:00 my   big\tfile.txt").unwrap();
    assert_eq!(e.name, "my big file.txt");
    assert_eq!(e.size, 5);
}

#[test]
fn listing_line_short_is_skipped() {
    assert!(parse_ls_line("total 48").is_none());
    assert!(parse_ls_line("").is_none());
    assert!(parse_ls_line("-rw-r--r-- 1 user group 1024 Jan 1 12:00").is_none());
}

#[test]
fn listing_line_dot_entries_are_skipped() {
    assert!(parse_ls_line("drwxr-xr-x 2 user group 4096 Jan 1 12:00 .").is_none());
    assert!(parse_ls_line("drwxr-xr-x 2 user group 4096 Jan 1 12:00 ..").is_none());
    assert!(parse_ls_line("-rw-r--r-- 1 user group 3 Jan 1 12:00 ...").is_some());
}

#[test]
fn listing_line_bad_size_counts_as_zero() {
    let e = parse_ls_line("-rw-r--r-- 1 user group 1,5K Jan 1 12:00 a").unwrap();
    assert_eq!(e.size, 0);
    let e = parse_ls_line("-rw-r--r-- 1 user group 18446744073709551616 Jan 1 12:00 a").unwrap();
    assert_eq!(e.size, 0);
    let e = parse_ls_line("-rw-r--r-- 1 user group 18446744073709551615 Jan 1 12:00 a").unwrap();
    assert_eq!(e.size, u64::MAX);
    let e = parse_ls_line("-rw-r--r-- 1 user group +12 Jan 1 12:00 a").unwrap();
    assert_eq!(e.size, 12);
}

#[test]
fn listing_output_keeps_entry_lines_in_order() {
    let text = "total 8\n\
                drwxr-xr-x 2 user group 4096 Jan 1 12:00 .\n\
                drwxr-xr-x 9 user group 4096 Jan 1 12:00 ..\n\
                -rw-r--r-- 1 user group 10 Jan 1 12:00 b.txt\r\n\
                drwxr-xr-x 2 user group 4096 Jan 1 12:00 a dir\n";
    let v = parse_ls_output(text);
    assert_eq!(v.len(), 2);
    assert_eq!(v[0].name, "b.txt");
    assert_eq!(v[0].size, 10);
    assert_eq!(v[1].name, "a dir");
    assert_eq!(v[1].kind, FileKind::Directory);
}

#[test]
fn listing_output_empty_text() {
    assert!(parse_ls_output("").is_empty());
}

#[test]
fn listing_parse_twice_is_identical() {
    let text = "-rw-r--r-- 1 u g 3 Jan 1 12:00 x\ndrwxr-xr-x 2 u g 4096 Jan 1 12:00 y\n";
    let a = FileList::from_listing(text);
    let b = FileList::from_listing(text);
    assert_eq!(format!("{:?}", a), format!("{:?}", b));
    assert_eq!(a.total_size, 4099);
    assert_eq!(a.files.len(), 2);
}

#[test]
fn stat_fields() {
    let e = parse_stat_output("regular file|1024|1640995200|test.txt").unwrap();
    assert_eq!(e.name, "test.txt");
    assert_eq!(e.path, "test.txt");
    assert_eq!(e.size, 1024);
    assert_eq!(e.kind, FileKind::RegularFile);
    assert_eq!(e.modified_time, Some(1640995200));
    assert_eq!(e.permissions, None);
}

#[test]
fn stat_kinds() {
    let d = parse_stat_output("directory|4096|1|d").unwrap();
    assert_eq!(d.kind, FileKind::Directory);
    let l = parse_stat_output("symbolic link|7|1|l").unwrap();
    assert_eq!(l.kind, FileKind::Symlink);
    let e = parse_stat_output("regular empty file|0|1|e").unwrap();
    assert_eq!(e.kind, FileKind::RegularFile);
}

#[test]
fn stat_three_fields_is_format_error() {
    assert_eq!(parse_stat_output("regular file|1024|test.txt").unwrap_err(), FormatError::FieldCount);
    assert_eq!(parse_stat_output("a|1|2|b|c").unwrap_err(), FormatError::FieldCount);
    assert_eq!(parse_stat_output("").unwrap_err(), FormatError::FieldCount);
}

#[test]
fn stat_bad_numbers() {
    assert_eq!(parse_stat_output("regular file|x|1|a").unwrap_err(), FormatError::Size);
    assert_eq!(parse_stat_output("regular file||1|a").unwrap_err(), FormatError::Size);
    assert_eq!(parse_stat_output("regular file|1|1.5|a").unwrap_err(), FormatError::ModifiedTime);
    assert_eq!(parse_stat_output("regular file|1|-|a").unwrap_err(), FormatError::ModifiedTime);
    assert_eq!(
        parse_stat_output("regular file|1|9223372036854775808|a").unwrap_err(),
        FormatError::ModifiedTime
    );
    assert_eq!(parse_stat_output("regular file|-1|5|a").unwrap_err(), FormatError::Size);
}

#[test]
fn listing_line_unicode_whitespace_separates_fields() {
    let e = parse_ls_line("-rw-r--r--\u{3000}1 user\u{A0}group 5 Jan 1 12:00\u{2003}f").unwrap();
    assert_eq!(e.name, "f");
    assert_eq!(e.size, 5);
    assert_eq!(e.permissions, Some("-rw-r--r--".to_string()));
}

#[test]
fn stat_signed_modification_time() {
    let e = parse_stat_output("a|1|-5|b").unwrap();
    assert_eq!(e.modified_time, Some(-5));
    let e = parse_stat_output("a|1|-9223372036854775808|b").unwrap();
    assert_eq!(e.modified_time, Some(i64::MIN));
    let e = parse_stat_output("a|1|+9223372036854775807|b").unwrap();
    assert_eq!(e.modified_time, Some(i64::MAX));
    assert_eq!(parse_stat_output("a|1|-+5|b").unwrap_err(), FormatError::ModifiedTime);
}
