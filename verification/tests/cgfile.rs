use cgroup_stats_cli::utils::cgfile::{
    answers_of, check_files, check_present, first_missing, join_path, normalize_path, require,
    require_checked,
    sys_dev_block, FileCheck,
};
use cgroup_stats_cli::utils::parse::{max_value_to_option, MaxValue};
use std::path::PathBuf;

#[test]
fn max_value_max_and_negative_are_unlimited() {
    assert_eq!(max_value_to_option(Some(MaxValue::Max)), None);
    assert_eq!(max_value_to_option(Some(MaxValue::Value(-1))), None);
    assert_eq!(max_value_to_option(None), None);
    assert_eq!(max_value_to_option(Some(MaxValue::Value(4096))), Some(4096));
}

#[test]
fn absolute_and_relative_paths_normalize_the_same() {
    let root = "/sys/fs/cgroup";
    assert_eq!(normalize_path("/sys/fs/cgroup/a/b", root), "a/b");
    assert_eq!(normalize_path("a/b", root), "a/b");
}

#[test]
fn normalize_handles_trailing_and_leading_slashes() {
    let root = "/sys/fs/cgroup";
    assert_eq!(normalize_path("/sys/fs/cgroup/a/b/", root), "a/b");
    assert_eq!(normalize_path("/a/b", root), "a/b");
    assert_eq!(normalize_path("/sys/fs/cgroup", root), "");
    assert_eq!(normalize_path("/sys/fs/cgroup/", root), "");
}

#[test]
fn normalize_respects_a_non_standard_mount_point() {
    let root = "/mnt/cg2";
    assert_eq!(normalize_path("/mnt/cg2/svc.slice", root), "svc.slice");
}

#[test]
fn normalize_does_not_strip_a_sibling_that_merely_shares_a_prefix() {
    let root = "/sys/fs/cgroup";
    assert_eq!(
        normalize_path("/sys/fs/cgroup-old/svc.slice", root),
        "sys/fs/cgroup-old/svc.slice"
    );
    assert_eq!(
        normalize_path("/sys/fs/cgroup2/foo", root),
        "sys/fs/cgroup2/foo"
    );
}

#[test]
fn normalize_collapses_repeated_separators_after_the_root() {
    assert_eq!(normalize_path("/sys/fs/cgroup//a//b//", "/sys/fs/cgroup"), "a//b");
    assert_eq!(normalize_path("///", "/sys/fs/cgroup"), "");
}

#[test]
fn require_with_no_files_is_ok() {
    assert!(require("/definitely/not/a/dir", &[]).is_ok());
}

#[test]
fn require_names_the_first_missing_file() {
    let err = require("/definitely/not/a/dir", &["cpu.stat", "cpu.max"]).unwrap_err();
    assert_eq!(err, "cpu.stat not present");
}

#[test]
fn require_passes_for_a_present_entry() {
    assert!(require("/", &["."]).is_ok());
}

#[test]
fn check_present_gives_the_verdict_for_one_file() {
    assert_eq!(check_present("memory.max", true), Ok(()));
    assert_eq!(
        check_present("memory.max", false),
        Err("memory.max not present".to_string())
    );
}

#[test]
fn sys_dev_block_is_the_kernel_device_directory() {
    assert_eq!(sys_dev_block(), PathBuf::from("/sys/dev/block"));
}

#[test]
fn require_looks_inside_the_directory() {
    let err = require("/", &["definitely-not-an-entry-of-the-root"]).unwrap_err();
    assert_eq!(err, "definitely-not-an-entry-of-the-root not present");
}

#[test]
fn first_missing_names_the_first_absent_file_in_order() {
    assert_eq!(first_missing(&["a", "b"], &[true, false]), Err("b not present".to_string()));
    assert_eq!(first_missing(&["a", "b", "c"], &[true, false, false]), Err("b not present".to_string()));
    assert_eq!(first_missing(&["a", "b"], &[false, true]), Err("a not present".to_string()));
    assert_eq!(first_missing(&["a", "b"], &[true, true]), Ok(()));
    assert_eq!(first_missing(&[], &[]), Ok(()));
}

#[test]
fn join_path_joins_as_path_join_does() {
    assert_eq!(join_path("/a", "b"), "/a/b");
    assert_eq!(join_path("/a/", "b"), "/a/b");
    assert_eq!(join_path("", "b"), "b");
    assert_eq!(join_path("/a", "/abs"), "/abs");
    assert_eq!(join_path("/sys/fs/cgroup/x", "memory.max"), "/sys/fs/cgroup/x/memory.max");
}

#[test]
fn check_files_asks_of_each_file_inside_the_directory() {
    let checks = check_files("/", &[".", "definitely-not-an-entry-of-the-root"]);
    assert_eq!(
        checks,
        vec![
            FileCheck { path: "/.".to_string(), exists: true },
            FileCheck { path: "/definitely-not-an-entry-of-the-root".to_string(), exists: false },
        ]
    );
    assert_eq!(answers_of(&checks), vec![true, false]);
}

#[test]
fn require_checked_reports_the_checks_beside_the_verdict() {
    let (checks, verdict) = require_checked("/", &[".", "definitely-not-an-entry-of-the-root", "also-missing"]);
    assert_eq!(
        checks.iter().map(|c| (c.path.as_str(), c.exists)).collect::<Vec<_>>(),
        vec![
            ("/.", true),
            ("/definitely-not-an-entry-of-the-root", false),
            ("/also-missing", false),
        ]
    );
    assert_eq!(verdict, Err("definitely-not-an-entry-of-the-root not present".to_string()));
    let (checks, verdict) = require_checked("/", &["."]);
    assert_eq!(checks.len(), 1);
    assert_eq!(verdict, Ok(()));
}

#[test]
fn require_passes_when_every_file_is_present() {
    assert!(require("/", &[".", ".."]).is_ok());
}

#[test]
fn require_names_the_missing_file() {
    let err = require("/", &[".", "definitely-not-an-entry-b"]).unwrap_err();
    assert!(
        err.contains("definitely-not-an-entry-b"),
        "error should name the missing file, got: {err}"
    );
    assert_eq!(err, "definitely-not-an-entry-b not present");
}
