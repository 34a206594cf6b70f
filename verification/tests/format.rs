use cgroup_stats_cli::task::format::{human, table};
use cgroup_stats_cli::task::metrics::{Cpu, Io, IoDevice, Memory, Pids};
use cgroup_stats_cli::task::Stats;
use cgroup_stats_cli::utils::float::F64Bits;

fn f(x: f64) -> F64Bits {
    F64Bits { bits: x.to_bits() }
}

fn stats() -> Stats {
    Stats {
        path: "system.slice/foo.service".into(),
        cpu: Some(Ok(Cpu {
            used_cores: f(0.53),
            max_cores: Some(f(2.0)),
        })),
        memory: Some(Ok(Memory {
            high: None,
            current: 1_288_490_188,
            max: Some(4_294_967_296),
        })),
        pids: Some(Ok(Pids {
            current: 42,
            max: Some(512),
        })),
        io: Some(Ok(Io {
            devices: vec![IoDevice {
                device: "sda".into(),
                read_bytes_per_sec: f(1_258_291.0),
                write_bytes_per_sec: f(348_160.0),
            }],
        })),
    }
}

#[test]
fn human_renders_every_metric() {
    let out = human(&stats());
    assert!(out.contains("RAM:  1.2G / 4.0G"), "{out}");
    assert!(out.contains("CPU:  0.53 / 2.00 cores"), "{out}");
    assert!(out.contains("PIDs: 42 / 512"), "{out}");
    assert!(out.contains("sda  r 1.2M/s  w 340.0K/s"), "{out}");
}

#[test]
fn human_output_is_exactly_one_line_per_metric() {
    assert_eq!(
        human(&stats()),
        "RAM:  1.2G / 4.0G\nCPU:  0.53 / 2.00 cores\nPIDs: 42 / 512\nIO:   sda  r 1.2M/s  w 340.0K/s\n"
    );
}

#[test]
fn unlimited_renders_as_the_word_unlimited() {
    let mut s = stats();
    s.memory = Some(Ok(Memory {
        high: None,
        current: 8192,
        max: None,
    }));
    s.cpu = Some(Ok(Cpu {
        used_cores: f(0.1),
        max_cores: None,
    }));
    let out = human(&s);
    assert!(out.contains("8.0K / unlimited"), "{out}");
    assert!(out.contains("0.10 / unlimited cores"), "{out}");
}

#[test]
fn unavailable_metrics_say_why() {
    let mut s = stats();
    s.memory = Some(Err("memory.current not present".into()));
    let out = human(&s);
    assert!(out.contains("n/a"), "{out}");
    assert!(out.contains("memory.current not present"), "{out}");
}

#[test]
fn unrequested_metrics_are_absent_entirely() {
    let mut s = stats();
    s.pids = None;
    s.io = None;
    let out = human(&s);
    assert!(!out.contains("PIDs"), "{out}");
    assert!(!out.contains("IO"), "{out}");
}

#[test]
fn io_with_no_devices_says_so_rather_than_printing_nothing() {
    let mut s = stats();
    s.io = Some(Ok(Io { devices: vec![] }));
    let out = human(&s);
    assert!(out.contains("IO:"), "{out}");
    assert!(out.contains("no activity"), "{out}");
}

#[test]
fn table_contains_the_values() {
    let out = table(&stats());
    assert!(out.contains("RAM"), "{out}");
    assert!(out.contains("1.2G"), "{out}");
    assert!(out.contains("sda"), "{out}");
}

#[test]
fn table_marks_an_unavailable_metric_and_says_why() {
    let mut s = stats();
    s.memory = Some(Err("memory.current not present".into()));
    let out = table(&s);
    assert!(out.contains("n/a"), "{out}");
    assert!(out.contains("memory.current not present"), "{out}");
}

#[test]
fn table_omits_unrequested_metrics_entirely() {
    let mut s = stats();
    s.pids = None;
    s.io = None;
    let out = table(&s);
    assert!(!out.contains("PIDs"), "{out}");
    assert!(!out.contains("IO"), "{out}");
}

#[test]
fn both_renderers_hide_idle_devices() {
    let mut s = stats();
    s.io = Some(Ok(Io {
        devices: vec![
            IoDevice {
                device: "loop0".into(),
                read_bytes_per_sec: f(0.0),
                write_bytes_per_sec: f(0.0),
            },
            IoDevice {
                device: "nvme0n1".into(),
                read_bytes_per_sec: f(2048.0),
                write_bytes_per_sec: f(0.0),
            },
        ],
    }));
    let h = human(&s);
    assert!(h.contains("nvme0n1"), "{h}");
    assert!(
        !h.contains("loop0"),
        "idle device must not appear in human output: {h}"
    );

    let t = table(&s);
    assert!(t.contains("nvme0n1"), "{t}");
    assert!(
        !t.contains("loop0"),
        "idle device must not appear in table output: {t}"
    );
}

#[test]
fn all_devices_idle_renders_as_no_activity() {
    let mut s = stats();
    s.io = Some(Ok(Io {
        devices: vec![IoDevice {
            device: "loop0".into(),
            read_bytes_per_sec: f(0.0),
            write_bytes_per_sec: f(0.0),
        }],
    }));
    assert!(human(&s).contains("no activity"), "{}", human(&s));
    assert!(table(&s).contains("no activity"), "{}", table(&s));
}

#[test]
fn a_device_moving_less_than_a_byte_per_second_is_still_active() {
    let mut s = stats();
    s.io = Some(Ok(Io {
        devices: vec![IoDevice {
            device: "sdb".into(),
            read_bytes_per_sec: f(0.5),
            write_bytes_per_sec: f(0.0),
        }],
    }));
    assert!(human(&s).contains("IO:   sdb  r 0B/s  w 0B/s\n"), "{}", human(&s));
}

#[test]
fn memory_high_is_labelled_and_shown_beside_max() {
    let mut s = stats();
    s.memory = Some(Ok(Memory {
        current: 1_288_490_188,
        high: Some(2_147_483_648),
        max: Some(4_294_967_296),
    }));
    assert!(
        human(&s).contains("RAM:  1.2G / 2.0G high / 4.0G max"),
        "{}",
        human(&s)
    );
    assert!(table(&s).contains("2.0G high / 4.0G max"), "{}", table(&s));
}

#[test]
fn memory_high_alone_does_not_render_as_unlimited() {
    let mut s = stats();
    s.memory = Some(Ok(Memory {
        current: 1_932_735_283,
        high: Some(2_147_483_648),
        max: None,
    }));
    let h = human(&s);
    assert!(h.contains("RAM:  1.8G / 2.0G high"), "{h}");
    assert!(
        !h.contains("unlimited"),
        "a cgroup capped by memory.high is not unlimited: {h}"
    );
}

#[test]
fn output_is_unchanged_when_memory_high_is_unset() {
    let mut s = stats();
    s.memory = Some(Ok(Memory {
        current: 1_288_490_188,
        high: None,
        max: Some(4_294_967_296),
    }));
    assert!(human(&s).contains("RAM:  1.2G / 4.0G"), "{}", human(&s));

    s.memory = Some(Ok(Memory {
        current: 8192,
        high: None,
        max: None,
    }));
    assert!(
        human(&s).contains("RAM:  8.0K / unlimited"),
        "{}",
        human(&s)
    );
}

#[test]
fn table_is_the_utf8_full_grid() {
    let mut s = stats();
    s.cpu = None;
    s.pids = None;
    s.io = None;
    let expected = "\
┌────────┬─────────┬───────┐
│ Metric ┆ Current ┆ Limit │
╞════════╪═════════╪═══════╡
│ RAM    ┆ 1.2G    ┆ 4.0G  │
└────────┴─────────┴───────┘";
    assert_eq!(table(&s), expected);
}

fn has_line_starting(text: &str, label: &str) -> bool {
    text.lines().any(|l| l.starts_with(label))
}

#[test]
fn each_requested_metric_has_its_labelled_line() {
    let labels = ["RAM:", "CPU:", "PIDs:", "IO:"];
    for mask in 0u8..16 {
        let mut s = stats();
        if mask & 1 == 0 {
            s.memory = None;
        }
        if mask & 2 == 0 {
            s.cpu = None;
        }
        if mask & 4 == 0 {
            s.pids = None;
        }
        if mask & 8 == 0 {
            s.io = None;
        }
        let out = human(&s);
        for (bit, label) in labels.iter().enumerate() {
            assert_eq!(has_line_starting(&out, label), mask & (1 << bit) != 0, "{mask} {label}\n{out}");
        }
    }
}

#[test]
fn an_unavailable_metric_keeps_its_labelled_line() {
    let mut s = stats();
    s.memory = Some(Err("memory.current not present".to_string()));
    s.cpu = Some(Err("cpu.stat not present".to_string()));
    s.pids = Some(Err("pids.max not present".to_string()));
    s.io = Some(Err("io.stat not present".to_string()));
    let out = human(&s);
    for label in ["RAM:", "CPU:", "PIDs:", "IO:"] {
        assert!(has_line_starting(&out, label), "{label}\n{out}");
    }
    assert_eq!(out.lines().count(), 4);
}
