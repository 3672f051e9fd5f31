use std::path::PathBuf;

use mq_mount::daemon::{background_args, parse_mountpoint, parse_pid, pid_file_text, state_file, state_file_name};

#[test]
fn state_files_are_named_by_a_hash_in_sixteen_digits() {
    assert_eq!(state_file_name(0, "pid"), "0000000000000000.pid");
    assert_eq!(state_file_name(0x1234_abcd_0000_00ff, "log"), "1234abcd000000ff.log");
    assert_eq!(state_file_name(u64::MAX, ""), "ffffffffffffffff.");
}

#[test]
fn a_mount_directory_has_one_state_file_of_its_own() {
    let a = PathBuf::from("/mnt/a");
    let b = PathBuf::from("/mnt/b");
    assert_eq!(state_file(&a, "pid"), state_file(&PathBuf::from("/mnt/a"), "pid"));
    assert_ne!(state_file(&a, "pid"), state_file(&b, "pid"));
    assert_eq!(state_file(&a, "pid").len(), 20);
    assert!(state_file(&a, "log").ends_with(".log"));
    assert_eq!(state_file(&a, "pid")[..17], state_file(&a, "log")[..17]);
}

#[test]
fn the_process_of_a_mount_is_read_back() {
    let text = pid_file_text(4321, "/mnt/a");
    assert_eq!(text, "4321\n/mnt/a\n");
    assert_eq!(parse_pid(&text), Some(4321));
    assert_eq!(parse_mountpoint(&text), Some("/mnt/a".to_string()));
}

#[test]
fn the_second_line_is_the_mount_directory() {
    assert_eq!(parse_mountpoint("1\n/a b\r\nmore\n"), Some("/a b".to_string()));
    assert_eq!(parse_mountpoint("1\n/a"), Some("/a".to_string()));
    assert_eq!(parse_mountpoint("1\n\n"), Some(String::new()));
    assert_eq!(parse_mountpoint("1\n"), None);
    assert_eq!(parse_mountpoint("1"), None);
    assert_eq!(parse_mountpoint(""), None);
}

#[test]
fn only_the_first_line_is_the_process() {
    assert_eq!(parse_pid("12"), Some(12));
    assert_eq!(parse_pid("+12\r\nx"), Some(12));
    assert_eq!(parse_pid("-7\n"), Some(-7));
    assert_eq!(parse_pid("2147483647\n"), Some(i32::MAX));
    assert_eq!(parse_pid("-2147483648\n"), Some(i32::MIN));
    assert_eq!(parse_pid("2147483648\n"), None);
    assert_eq!(parse_pid("-2147483649\n"), None);
    assert_eq!(parse_pid(""), None);
    assert_eq!(parse_pid("\n12\n"), None);
    assert_eq!(parse_pid("-\n"), None);
    assert_eq!(parse_pid("+\n"), None);
    assert_eq!(parse_pid("12 \n"), None);
    assert_eq!(parse_pid("1x\n"), None);
}

#[test]
fn a_background_process_runs_in_the_foreground() {
    let args: Vec<String> = ["a.md", "-d", "/mnt", "--background", "--write", "-dx"]
        .iter()
        .map(|a| a.to_string())
        .collect();
    assert_eq!(background_args(&args), vec!["a.md", "/mnt", "--write", "-dx"]);
}
