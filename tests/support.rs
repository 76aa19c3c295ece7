use keybinder::backup::{
    age_from, check_restore, is_backup_file_name, listed_backup, plan_backup, sort_newest_first,
    Backup, BackupError,
};
use keybinder::logs::{sanitize_username, LogLevel};
use keybinder::paths::{expand_path, get_backup_dir, get_config_dir, is_valid_config_path};
use keybinder::shell::{detect_interpreter, escape_shell_path, shell_escape, truncate_output};

const HOME: &str = "/Users/tester";

#[test]
fn test_new_backup() {
    let backup = Backup::new(
        "/tmp/backup.skhdrc".to_string(),
        "/home/user/.config/skhd/skhdrc".to_string(),
        "abc123".to_string(),
        1024,
    );

    assert_eq!(backup.file_path, "/tmp/backup.skhdrc");
    assert_eq!(backup.original_path, "/home/user/.config/skhd/skhdrc");
    assert_eq!(backup.checksum, "abc123");
    assert_eq!(backup.size_bytes, 1024);
    assert!(backup.description.is_none());
    assert!(!backup.created_at.is_empty());
}

#[test]
fn test_backup_with_description() {
    let backup = Backup::with_description(
        "/tmp/backup.skhdrc".to_string(),
        "/home/user/.config/skhd/skhdrc".to_string(),
        "abc123".to_string(),
        1024,
        "Before editing shortcuts".to_string(),
    );

    assert_eq!(backup.description, Some("Before editing shortcuts".to_string()));
}

#[test]
fn test_verify_checksum() {
    let backup = Backup::new(
        "/tmp/backup.skhdrc".to_string(),
        "/home/user/.config/skhd/skhdrc".to_string(),
        "abc123".to_string(),
        1024,
    );

    assert!(backup.verify_checksum("abc123"));
    assert!(!backup.verify_checksum("xyz789"));
}

#[test]
fn test_age_seconds() {
    let backup = Backup::new(
        "/tmp/backup.skhdrc".to_string(),
        "/home/user/.config/skhd/skhdrc".to_string(),
        "abc123".to_string(),
        1024,
    );

    let age = backup.age_seconds();
    assert!(age >= 0 && age < 2);
}

#[test]
fn age_arithmetic() {
    assert_eq!(age_from(None, Some(100)), 0);
    assert_eq!(age_from(Some(100), None), 0);
    assert_eq!(age_from(Some(40), Some(100)), 60);
    assert_eq!(age_from(Some(100), Some(40)), 60);
    assert_eq!(age_from(Some(i64::MIN), Some(i64::MAX)), i64::MAX);
    let mut b = Backup::new("/b".to_string(), "/o".to_string(), "c".to_string(), 0);
    b.created_at = "not a time".to_string();
    assert_eq!(b.age_seconds(), 0);
}

#[test]
fn backup_record_names_and_checksums() {
    let content = b"# Original\n".to_vec();
    let b = plan_backup("/home/u/.config/skhd/skhdrc", &content, "/home/u/.config/skhd/backups", "20240102_030405", None);
    assert_eq!(b.file_path, "/home/u/.config/skhd/backups/skhdrc_20240102_030405.backup");
    assert_eq!(b.original_path, "/home/u/.config/skhd/skhdrc");
    assert_eq!(b.size_bytes, 11);
    assert_eq!(b.checksum.len(), 64);
    let empty = plan_backup("/x/", &vec![], "/d/", "s", Some("why".to_string()));
    assert_eq!(empty.file_path, "/d/config_s.backup");
    assert_eq!(empty.checksum, "e3b0c44298fc1c149afbf4c8996fb92427ae41e4649b934ca495991b7852b855");
    assert_eq!(empty.description, Some("why".to_string()));
}

#[test]
fn test_backup_checksum_verification() {
    let content = b"# Original\n".to_vec();
    let mut backup = plan_backup("/tmp/test.conf", &content, "/tmp/backups", "20240101_000000", None);
    backup.checksum = "invalid_checksum".to_string();
    let result = check_restore(&backup, &content, Some("/tmp/test.conf".to_string()));
    assert!(result.is_err());
}

#[test]
fn fresh_backup_restores_and_corruption_is_refused() {
    let content = b"# Test config\ncmd - return : open -a Terminal\n".to_vec();
    let backup = plan_backup("/cfg/skhdrc", &content, "/bk", "20240101_000000", None);
    assert_eq!(check_restore(&backup, &content, None), Ok("/cfg/skhdrc".to_string()));
    assert_eq!(
        check_restore(&backup, &content, Some("/elsewhere".to_string())),
        Ok("/elsewhere".to_string())
    );
    let mut altered = content.clone();
    altered[0] = b'!';
    assert_eq!(check_restore(&backup, &altered, None), Err(BackupError::ChecksumMismatch));
    assert_eq!(
        BackupError::ChecksumMismatch.message(),
        "Backup checksum mismatch - file may be corrupted"
    );
}

#[test]
fn listing_helpers() {
    assert!(is_backup_file_name("skhdrc_20240101_000000.backup"));
    assert!(!is_backup_file_name("skhdrc"));
    assert!(!is_backup_file_name(".backup"));
    let b = listed_backup("/bk/skhdrc_20240101_000000.backup".to_string(), &vec![1, 2, 3], Some(HOME));
    assert_eq!(b.original_path, "/Users/tester/.config/skhd/skhdrc");
    assert_eq!(b.size_bytes, 3);
    let mut x = Backup::new("/1".to_string(), "/o".to_string(), "c".to_string(), 0);
    x.created_at = "2024-01-01T00:00:00+00:00".to_string();
    let mut y = x.clone();
    y.file_path = "/2".to_string();
    y.created_at = "2024-06-01T00:00:00+00:00".to_string();
    let mut z = x.clone();
    z.file_path = "/3".to_string();
    let sorted = sort_newest_first(vec![x, y, z]);
    let order: Vec<&str> = sorted.iter().map(|b| b.file_path.as_str()).collect();
    assert_eq!(order, vec!["/2", "/1", "/3"]);
}

#[test]
fn test_expand_tilde() {
    let expanded = expand_path("~/test/path", Some(HOME));
    assert_eq!(expanded, "/Users/tester/test/path");
}

#[test]
fn test_expand_tilde_only() {
    let expanded = expand_path("~", Some(HOME));
    assert_eq!(expanded, HOME);
}

#[test]
fn test_no_expansion_needed() {
    let path = "/absolute/path";
    let expanded = expand_path(path, Some(HOME));
    assert_eq!(expanded, path);
    assert_eq!(expand_path("~/x", None), "~/x");
}

#[test]
fn test_get_config_dir() {
    assert_eq!(get_config_dir(Some(HOME)), "/Users/tester/.config/skhd");
    assert_eq!(get_backup_dir(Some("/root/")), "/root/.config/skhd/backups");
}

#[test]
fn test_is_valid_config_path() {
    assert!(is_valid_config_path("~/.config/skhd/skhdrc", Some(HOME)));
    assert!(is_valid_config_path("~/.config/skhd/custom.conf", Some(HOME)));

    assert!(!is_valid_config_path("~/Documents/file.txt", Some(HOME)));
    assert!(!is_valid_config_path("/etc/passwd", Some(HOME)));
    assert!(!is_valid_config_path("~/.config/skhdother", Some(HOME)));
}

#[test]
fn test_escape_shell_path() {
    assert_eq!(escape_shell_path("/tmp/normal.sh"), "'/tmp/normal.sh'");
    assert_eq!(escape_shell_path("/tmp/with spaces.sh"), "'/tmp/with spaces.sh'");
    assert_eq!(escape_shell_path("/tmp/quote's.sh"), r"'/tmp/quote'\''s.sh'");
    assert_eq!(
        escape_shell_path(r#"/tmp/$special`chars".sh"#),
        r#"'/tmp/$special`chars".sh'"#
    );
    assert_eq!(shell_escape("a'b"), r"a'\''b");
}

#[test]
fn test_detect_interpreter() {
    assert_eq!(detect_interpreter("script.sh"), Some("bash".to_string()));
    assert_eq!(detect_interpreter("script.py"), Some("python3".to_string()));
    assert_eq!(detect_interpreter("script.rb"), Some("ruby".to_string()));
    assert_eq!(detect_interpreter("script.js"), Some("node".to_string()));
    assert_eq!(detect_interpreter("unknown.txt"), None);
    assert_eq!(detect_interpreter("/a.b/run.zsh"), Some("zsh".to_string()));
    assert_eq!(detect_interpreter("/a.sh/run"), None);
}

#[test]
fn test_truncate_output_within_limit() {
    let output = "Hello World".to_string();
    let (truncated, was_truncated) = truncate_output(output.clone(), 100);

    assert_eq!(truncated, output);
    assert!(!was_truncated);
}

#[test]
fn test_truncate_output_exceeds_limit() {
    let output = "a".repeat(15000);
    let (truncated, was_truncated) = truncate_output(output, 10000);

    assert_eq!(truncated.len(), 10000);
    assert!(was_truncated);
}

#[test]
fn test_truncate_output_exactly_at_limit() {
    let output = "a".repeat(10000);
    let (truncated, was_truncated) = truncate_output(output.clone(), 10000);

    assert_eq!(truncated.len(), 10000);
    assert!(!was_truncated);
}

#[test]
fn test_log_level_from_str() {
    assert_eq!(LogLevel::parse_opt("ERROR"), Some(LogLevel::Error));
    assert_eq!(LogLevel::parse_opt("error"), Some(LogLevel::Error));
    assert_eq!(LogLevel::parse_opt("WARN"), Some(LogLevel::Warn));
    assert_eq!(LogLevel::parse_opt("INFO"), Some(LogLevel::Info));
    assert_eq!(LogLevel::parse_opt("DEBUG"), Some(LogLevel::Debug));
    assert_eq!(LogLevel::parse_opt("INVALID"), None);
    assert_eq!(LogLevel::parse_opt("warning"), Some(LogLevel::Warn));
    assert_eq!(LogLevel::from_upper("dbg"), None);
    assert_eq!(LogLevel::from_upper("DBG"), Some(LogLevel::Debug));
    assert_eq!("Err".parse::<LogLevel>(), Ok(LogLevel::Error));
    assert_eq!("nope".parse::<LogLevel>(), Err(()));
}

#[test]
fn test_sanitize_username_valid() {
    assert_eq!(sanitize_username("john_doe"), "john_doe");
    assert_eq!(sanitize_username("user-123"), "user-123");
    assert_eq!(sanitize_username("TestUser"), "TestUser");
}

#[test]
fn test_sanitize_username_path_traversal() {
    assert_eq!(sanitize_username("user/../root"), "userroot");
    assert_eq!(sanitize_username("../../../etc/passwd"), "etcpasswd");
    assert_eq!(sanitize_username("user/../../tmp"), "usertmp");
}

#[test]
fn test_sanitize_username_special_chars() {
    assert_eq!(sanitize_username("user@host.com"), "userhostcom");
    assert_eq!(sanitize_username("user$name"), "username");
    assert_eq!(sanitize_username("user;name"), "username");
    assert_eq!(sanitize_username("user|name"), "username");
}
