use syncplan::remote::{
    dry_run_result, list_command, listing_result, program_found, rsync_dry_run_command,
    stat_command, stat_result, timeout_millis, RemoteError,
};
use syncplan::FormatError;

#[test]
fn list_command_quotes_path() {
    assert_eq!(list_command("/home/user"), "ls -lA '/home/user'");
    assert_eq!(list_command("it's"), "ls -lA 'it'\"'\"'s'");
}

#[test]
fn stat_command_format() {
    assert_eq!(stat_command("a b"), "stat -c '%F|%s|%Y|%n' 'a b'");
}

#[test]
fn rsync_command_format() {
    assert_eq!(
        rsync_dry_run_command("/remote/source/", "/local/dest/"),
        "rsync -avun --itemize-changes '/remote/source/' '/local/dest/'"
    );
}

#[test]
fn timeouts() {
    assert_eq!(timeout_millis(30), Some(30_000));
    assert_eq!(timeout_millis(300), Some(300_000));
    assert_eq!(timeout_millis(u32::MAX), None);
}

#[test]
fn listing_result_exit_status() {
    let ok = listing_result("-rw-r--r-- 1 u g 1 Jan 1 12:00 f\n", String::new(), 0).unwrap();
    assert_eq!(ok.len(), 1);
    match listing_result("", "no such dir".to_string(), 2) {
        Err(RemoteError::CommandFailed { exit_code, stderr }) => {
            assert_eq!(exit_code, 2);
            assert_eq!(stderr, "no such dir");
        }
        _ => panic!("a failed command must be reported"),
    }
}

#[test]
fn stat_result_cases() {
    let e = stat_result("directory|4096|5|d", String::new(), 0).unwrap();
    assert_eq!(e.modified_time, Some(5));
    match stat_result("directory|4096|d", String::new(), 0) {
        Err(RemoteError::Format(f)) => assert_eq!(f, FormatError::FieldCount),
        _ => panic!("a malformed stat line must be reported"),
    }
    assert!(matches!(stat_result("", "e".to_string(), 1), Err(RemoteError::CommandFailed { .. })));
}

#[test]
fn dry_run_and_probe() {
    assert_eq!(dry_run_result("out".to_string(), String::new(), 0).unwrap(), "out");
    assert!(dry_run_result(String::new(), "x".to_string(), 23).is_err());
    assert!(program_found(0));
    assert!(!program_found(1));
}
