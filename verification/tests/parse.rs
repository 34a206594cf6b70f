use cgroup_stats_cli::utils::parse::{parse_cpu_max, parse_flat_key, parse_io_stat};

/// Real content from /sys/fs/cgroup/cpu.stat on a 6.x kernel.
const CPU_STAT: &str = "\
usage_usec 38354643000
user_usec 29454747000
system_usec 8899896000
nice_usec 47780000
core_sched.force_idle_usec 0
";

#[test]
fn reads_a_key_that_is_first() {
    assert_eq!(parse_flat_key(CPU_STAT, "usage_usec"), Some(38354643000));
}

#[test]
fn reads_a_key_that_is_not_first() {
    assert_eq!(parse_flat_key(CPU_STAT, "system_usec"), Some(8899896000));
    assert_eq!(parse_flat_key(CPU_STAT, "nice_usec"), Some(47780000));
}

#[test]
fn missing_key_is_none_not_a_panic() {
    assert_eq!(parse_flat_key(CPU_STAT, "nope"), None);
    assert_eq!(parse_flat_key("", "usage_usec"), None);
}

#[test]
fn key_match_is_exact_not_a_prefix() {
    assert_eq!(parse_flat_key(CPU_STAT, "usage"), None);
    assert_eq!(parse_flat_key(CPU_STAT, "usec"), None);
}

#[test]
fn cpu_max_with_a_quota_gives_quota_and_period() {
    assert_eq!(parse_cpu_max("200000 100000\n"), Some((200000, 100000)));
}

#[test]
fn cpu_max_unlimited_is_none() {
    assert_eq!(parse_cpu_max("max 100000\n"), None);
}

#[test]
fn cpu_max_malformed_is_none() {
    assert_eq!(parse_cpu_max(""), None);
    assert_eq!(parse_cpu_max("200000"), None);
    assert_eq!(parse_cpu_max("abc def"), None);
}

#[test]
fn cpu_max_with_a_zero_period_is_none() {
    assert_eq!(parse_cpu_max("200000 0\n"), None);
}

#[test]
fn io_stat_parses_multiple_devices() {
    let text = "\
7:55 rbytes=14336 wbytes=0 rios=11 wios=0 dbytes=0 dios=0
259:0 rbytes=966656 wbytes=512 rios=17 wios=3 dbytes=0 dios=0
";
    let devices = parse_io_stat(text);
    assert_eq!(devices.len(), 2);
    assert_eq!(devices[0].device, "7:55");
    assert_eq!(devices[0].rbytes, 14336);
    assert_eq!(devices[1].device, "259:0");
    assert_eq!(devices[1].wbytes, 512);
}

#[test]
fn io_stat_keeps_lines_carrying_extra_iocost_keys() {
    let text = "8:0 rbytes=180224 wbytes=0 rios=3 wios=0 dbytes=0 dios=0 \
cost.usage=123 cost.wait=0 cost.indebt=0 cost.indelay=0\n";
    let devices = parse_io_stat(text);
    assert_eq!(devices.len(), 1);
    assert_eq!(devices[0].rbytes, 180224);
}

#[test]
fn io_stat_handles_a_large_minor() {
    let text = "253:1048575 rbytes=1 wbytes=2 rios=0 wios=0 dbytes=0 dios=0\n";
    let devices = parse_io_stat(text);
    assert_eq!(devices.len(), 1);
    assert_eq!(devices[0].device, "253:1048575");
}

#[test]
fn io_stat_empty_is_an_empty_list_not_an_error() {
    assert!(parse_io_stat("").is_empty());
    assert!(parse_io_stat("\n\n").is_empty());
}

#[test]
fn io_stat_skips_junk_lines_without_panicking() {
    let text = "garbage\n8:0 rbytes=5 wbytes=6\nalso junk\n";
    let devices = parse_io_stat(text);
    assert_eq!(devices.len(), 1);
    assert_eq!(devices[0].rbytes, 5);
}

#[test]
fn flat_key_takes_the_first_line_with_a_number() {
    assert_eq!(parse_flat_key("a x\na 7\na 9\n", "a"), Some(7));
    assert_eq!(parse_flat_key("a +7\r\n", "a"), Some(7));
    assert_eq!(parse_flat_key("a -7\n", "a"), None);
    assert_eq!(parse_flat_key("a 18446744073709551616\n", "a"), None);
    assert_eq!(parse_flat_key("a 18446744073709551615\n", "a"), Some(u64::MAX));
}

#[test]
fn io_stat_last_field_wins_and_needs_both_counters() {
    let devices = parse_io_stat("8:0 rbytes=1 rbytes=2 wbytes=3\n8:1 rbytes=1\n8:2 rbytes=x wbytes=1\n");
    assert_eq!(devices.len(), 1);
    assert_eq!(devices[0].rbytes, 2);
    assert_eq!(devices[0].wbytes, 3);
}

#[test]
fn io_stat_skips_lines_without_a_major_minor() {
    assert!(parse_io_stat("sda rbytes=1 wbytes=2\n").is_empty());
}

#[test]
fn printed_numbers_read_back() {
    for n in [0u64, 7, 10, 99, 100, 38354643000, u64::MAX] {
        let text = format!("k {n}\n");
        assert_eq!(parse_flat_key(&text, "k"), Some(n));
    }
}
