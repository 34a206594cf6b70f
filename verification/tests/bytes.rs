use cgroup_stats_cli::utils::bytes::iec;

#[test]
fn iec_boundaries() {
    assert_eq!(iec(0), "0B");
    assert_eq!(iec(1023), "1023B");
    assert_eq!(iec(1024), "1.0K");
    assert_eq!(iec(1025), "1.0K");
    assert_eq!(iec(1536), "1.5K");
    assert_eq!(iec(1024 * 1024), "1.0M");
    assert_eq!(iec(4 * 1024 * 1024 * 1024), "4.0G");
    assert_eq!(iec(2 * 1024_u64.pow(4)), "2.0T");
    // A value one byte below a unit boundary must not round up into a
    // "1024.0" mantissa of the smaller unit.
    assert_eq!(iec(1_048_575), "1.0M");
    assert_eq!(iec(1_073_741_823), "1.0G");
    assert_eq!(iec(1_099_511_627_775), "1.0T");
    // The ladder stops at the last unit rather than indexing past it.
    assert_eq!(iec(u64::MAX), "16384.0P");
}

/// The same formatting done with doubles, for comparison.
fn iec_by_doubles(bytes: u64) -> String {
    const UNITS: [&str; 6] = ["B", "K", "M", "G", "T", "P"];
    let mut v = bytes as f64;
    let mut i = 0;
    while v >= 1024.0 && i < UNITS.len() - 1 {
        v /= 1024.0;
        i += 1;
    }
    if i < UNITS.len() - 1 && (v * 10.0).round() / 10.0 >= 1024.0 {
        v /= 1024.0;
        i += 1;
    }
    if i == 0 {
        format!("{bytes}B")
    } else {
        format!("{v:.1}{}", UNITS[i])
    }
}

#[test]
fn iec_agrees_with_double_arithmetic() {
    let mut samples: Vec<u64> = vec![0, 1, 9, 10, 99, 1000, 1023, 1024, 1025, 1280, 1331, 1536];
    // Exact ties in tenths (x.x5) and values next to them.
    for unit in 1..6u32 {
        let p = 1024u64.pow(unit);
        for tenths in [5u64, 15, 25, 35, 45, 125, 10235, 10239, 10240] {
            let tie = (tenths as u128 * p as u128 / 10) as u64;
            for delta in [0u64, 1, 2] {
                samples.push(tie.saturating_sub(delta));
                samples.push(tie.saturating_add(delta));
            }
        }
        samples.push(p - 1);
        samples.push(p);
        samples.push(p + 1);
        samples.push(1023 * p + p / 2);
    }
    // Large values that a double cannot hold exactly.
    let mut x: u64 = 0x20_0000_0000_0000;
    while x < u64::MAX / 3 {
        samples.push(x - 1);
        samples.push(x + 1);
        samples.push(x + 0x400);
        samples.push(x * 3 + 0x401);
        x = x.saturating_mul(2);
    }
    samples.push(u64::MAX);
    samples.push(u64::MAX - 1024);
    let mut seed: u64 = 0x9e37_79b9_7f4a_7c15;
    for _ in 0..20000 {
        seed ^= seed << 13;
        seed ^= seed >> 7;
        seed ^= seed << 17;
        samples.push(seed >> (seed % 64));
    }
    for b in samples {
        assert_eq!(iec(b), iec_by_doubles(b), "bytes = {b}");
    }
}
