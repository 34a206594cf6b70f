use cgroup_stats_cli::task::metrics::{
    cpu_limit, memory_of, memory_reading, pair_io_samples, pids_of, pids_reading, read_cpu_usage,
    read_io, usage_delta, CpuLimit, Memory, Pids,
};
use cgroup_stats_cli::task::{cgroup_found, stats_path, unsupported_host};
use cgroup_stats_cli::utils::parse::{parse_io_stat, MaxValue};

const CPU_STAT: &str = "\
usage_usec 38354643000
user_usec 29454747000
system_usec 8899896000
nice_usec 47780000
core_sched.force_idle_usec 0
";

#[test]
fn cpu_usage_comes_from_the_stat_text() {
    assert_eq!(read_cpu_usage(Ok(CPU_STAT.to_string())).unwrap(), 38354643000);
}

#[test]
fn cpu_usage_read_error_passes_through() {
    let err = read_cpu_usage(Err("cpu.stat: No such file or directory".into())).unwrap_err();
    assert_eq!(err, "cpu.stat: No such file or directory");
}

#[test]
fn cpu_usage_without_the_key_is_an_error() {
    let err = read_cpu_usage(Ok("user_usec 5\n".into())).unwrap_err();
    assert_eq!(err, "cpu.stat has no usage_usec");
}

#[test]
fn io_read_parses_or_passes_the_error() {
    let devs = read_io(Some(Ok("8:0 rbytes=1 wbytes=2\n".into()))).unwrap();
    assert_eq!(devs.len(), 1);
    assert_eq!(read_io(Some(Err("io.stat: denied".into()))).unwrap_err(), "io.stat: denied");
    assert_eq!(read_io(None).unwrap_err(), "io.stat not present");
}

#[test]
fn cpu_limit_reads_quota_unlimited_and_junk() {
    assert_eq!(cpu_limit("200000 100000\n"), CpuLimit::Quota(200000, 100000));
    assert_eq!(cpu_limit("max 100000\n"), CpuLimit::Unlimited);
    assert_eq!(cpu_limit("garbage\n"), CpuLimit::Unparseable);
    assert_eq!(cpu_limit("100 0\n"), CpuLimit::Unparseable);
    assert_eq!(cpu_limit(""), CpuLimit::Unparseable);
}

#[test]
fn io_samples_pair_devices_across_samples() {
    let before = parse_io_stat("8:0 rbytes=1000 wbytes=2000 rios=0 wios=0 dbytes=0 dios=0\n");
    let after = parse_io_stat("8:0 rbytes=3000 wbytes=2500 rios=0 wios=0 dbytes=0 dios=0\n");
    let d = pair_io_samples(&before, &after);
    assert_eq!(d.len(), 1);
    assert_eq!(d[0].device, "8:0");
    assert_eq!(d[0].read_bytes, 2000);
    assert_eq!(d[0].write_bytes, 500);
}

#[test]
fn io_device_new_in_the_second_sample_starts_at_zero() {
    let before = parse_io_stat("");
    let after = parse_io_stat("8:0 rbytes=500 wbytes=0 rios=0 wios=0 dbytes=0 dios=0\n");
    let d = pair_io_samples(&before, &after);
    assert_eq!(d.len(), 1);
    assert_eq!(d[0].read_bytes, 500);
    assert_eq!(d[0].write_bytes, 0);
}

#[test]
fn io_counter_reset_saturates_at_zero() {
    let before = parse_io_stat("8:0 rbytes=5000 wbytes=7\n259:0 rbytes=1 wbytes=1\n");
    let after = parse_io_stat("259:0 rbytes=11 wbytes=1\n8:0 rbytes=10 wbytes=9\n");
    let d = pair_io_samples(&before, &after);
    assert_eq!(d.len(), 2);
    assert_eq!((d[0].device.as_str(), d[0].read_bytes, d[0].write_bytes), ("259:0", 10, 0));
    assert_eq!((d[1].device.as_str(), d[1].read_bytes, d[1].write_bytes), ("8:0", 0, 2));
}

#[test]
fn memory_and_pids_readings_map_limits() {
    assert_eq!(
        memory_of(100, Some(MaxValue::Value(2048)), Some(MaxValue::Max)),
        Memory { current: 100, high: Some(2048), max: None }
    );
    assert_eq!(
        memory_of(7, None, Some(MaxValue::Value(-5))),
        Memory { current: 7, high: None, max: None }
    );
    assert_eq!(pids_of(42, MaxValue::Value(512)), Pids { current: 42, max: Some(512) });
    assert_eq!(pids_of(42, MaxValue::Max), Pids { current: 42, max: None });
}

#[test]
fn root_path_is_shown_as_slash() {
    assert_eq!(stats_path(String::new()), "/");
    assert_eq!(stats_path("system.slice".into()), "system.slice");
}

#[test]
fn unsupported_host_tells_v1_from_no_cgroupfs() {
    assert_eq!(unsupported_host(true), "cgroup v1 not supported (unified/v2 only)");
    assert_eq!(unsupported_host(false), "no cgroup filesystem mounted at /sys/fs/cgroup");
}

#[test]
fn a_missing_memory_file_is_the_error_whatever_the_controller_says() {
    let missing = Err("memory.high not present".to_string());
    let reading = Some(Ok((0, Some(MaxValue::Max), Some(MaxValue::Max))));
    assert_eq!(memory_reading(missing.clone(), reading), Err("memory.high not present".to_string()));
    assert_eq!(memory_reading(missing, None), Err("memory.high not present".to_string()));
}

#[test]
fn memory_reading_with_its_files_present() {
    assert_eq!(
        memory_reading(Ok(()), None),
        Err("memory controller unavailable".to_string())
    );
    assert_eq!(
        memory_reading(Ok(()), Some(Err("denied".to_string()))),
        Err("denied".to_string())
    );
    assert_eq!(
        memory_reading(Ok(()), Some(Ok((4096, Some(MaxValue::Value(1 << 30)), Some(MaxValue::Max))))),
        Ok(Memory { current: 4096, high: Some(1 << 30), max: None })
    );
}

#[test]
fn pids_reading_decides_in_the_same_order() {
    assert_eq!(
        pids_reading(Err("pids.max not present".to_string()), Some(Ok((3, MaxValue::Max)))),
        Err("pids.max not present".to_string())
    );
    assert_eq!(pids_reading(Ok(()), None), Err("pids controller unavailable".to_string()));
    assert_eq!(
        pids_reading(Ok(()), Some(Err("pids.current: denied".to_string()))),
        Err("pids.current: denied".to_string())
    );
    assert_eq!(
        pids_reading(Ok(()), Some(Ok((7, MaxValue::Value(100))))),
        Ok(Pids { current: 7, max: Some(100) })
    );
    assert_eq!(
        pids_reading(Ok(()), Some(Ok((7, MaxValue::Max)))),
        Ok(Pids { current: 7, max: None })
    );
}

#[test]
fn usage_delta_saturates_when_the_counter_resets() {
    assert_eq!(usage_delta(1000, 3000), 2000);
    assert_eq!(usage_delta(5000, 10), 0);
    assert_eq!(usage_delta(7, 7), 0);
}

#[test]
fn a_cgroup_needs_a_directory_with_its_controllers_file() {
    assert_eq!(cgroup_found("/sys/fs/cgroup/a", true, true), Ok(()));
    assert_eq!(
        cgroup_found("/sys/fs/cgroup/a", true, false),
        Err("cgroup not found: /sys/fs/cgroup/a".to_string())
    );
    assert_eq!(
        cgroup_found("/sys/fs/cgroup/a", false, false),
        Err("cgroup not found: /sys/fs/cgroup/a".to_string())
    );
}
