//! The data model of a reading, and the decisions of the collectors that do
//! not touch the file system.
use crate::utils::cgfile::missing_message;
use crate::utils::float::F64Bits;
use crate::utils::parse::{
    first_flat_value, io_devices, limit_of, max_value_to_option, parse_cpu_max, parse_flat_key,
    parse_io_stat, MaxValue, RawIo,
};
use crate::utils::text::{
    chars_of, decimal, is_digit, is_ws, lemma_decimal_digits, lemma_words_append_word,
    lemma_words_push_ws, line_words, same_chars, split_words, words,
};
use vstd::prelude::*;

verus! {

/// CPU usage and limit, in cores. The limit is `None` when unlimited.
#[derive(Debug, Clone, Copy, PartialEq)]
pub struct Cpu {
    pub used_cores: F64Bits,
    pub max_cores: Option<F64Bits>,
}

/// Memory usage and limits, in bytes. A limit is `None` when unlimited.
#[derive(Debug, Clone, Copy, PartialEq, Eq)]
pub struct Memory {
    pub current: u64,
    /// `memory.high`: the kernel reclaims aggressively and stalls the cgroup
    /// above this, but does not OOM-kill. Distinct from `max`, and commonly the
    /// only limit systemd sets.
    pub high: Option<u64>,
    pub max: Option<u64>,
}

/// Process count and limit. The limit is `None` when unlimited.
#[derive(Debug, Clone, Copy, PartialEq, Eq)]
pub struct Pids {
    pub current: u64,
    pub max: Option<u64>,
}

/// A memory reading from the usage and the `memory.high` and `memory.max`
/// readings, with `max` and negative values meaning unlimited.
pub fn memory_of(current: u64, high: Option<MaxValue>, max: Option<MaxValue>) -> (m: Memory)
    ensures
        m == (Memory { current, high: limit_of(high), max: limit_of(max) }),
{
    Memory { current, high: max_value_to_option(high), max: max_value_to_option(max) }
}

/// A PID reading from `pids.current` and `pids.max`.
pub fn pids_of(current: u64, max: MaxValue) -> (p: Pids)
    ensures
        p == (Pids { current, max: limit_of(Some(max)) }),
{
    Pids { current, max: max_value_to_option(Some(max)) }
}

/// The error when a controller is not enabled on the cgroup.
pub open spec fn unavailable_message(controller: Seq<char>) -> Seq<char> {
    controller + " controller unavailable"@
}

/// A memory reading, decided from the verdict on its files and from what the
/// memory controller gave. A missing file is the error that names it, whatever
/// the controller would say: no reading, and so no zero usage or absent
/// limit, stands in for a file that is not there. With the files present,
/// `None` from the controller means it is not enabled, a failed read passes
/// through, and the usage with the `memory.high` and `memory.max` readings
/// makes the reading.
pub fn memory_reading(
    files: Result<(), String>,
    controller: Option<Result<(u64, Option<MaxValue>, Option<MaxValue>), String>>,
) -> (r: Result<Memory, String>)
    ensures
        match files {
            Err(e) => r matches Err(e2) && e2@ == e@,
            Ok(_) => match controller {
                None => r matches Err(e2) && e2@ == unavailable_message("memory"@),
                Some(Err(e)) => r matches Err(e2) && e2@ == e@,
                Some(Ok((current, high, max))) => r == Ok::<Memory, String>(
                    Memory { current, high: limit_of(high), max: limit_of(max) },
                ),
            },
        },
{
    match files {
        Err(e) => Err(e),
        Ok(_) => match controller {
            None => {
                let mut e = String::from_str("memory");
                e.append(" controller unavailable");
                Err(e)
            },
            Some(Err(e)) => Err(e),
            Some(Ok((current, high, max))) => Ok(memory_of(current, high, max)),
        },
    }
}

/// A PID reading, decided as `memory_reading` decides: a missing file is the
/// error that names it, then an absent controller, then a failed read, and
/// otherwise `pids.current` with the `pids.max` limit.
pub fn pids_reading(files: Result<(), String>, controller: Option<Result<(u64, MaxValue), String>>) -> (r:
    Result<Pids, String>)
    ensures
        match files {
            Err(e) => r matches Err(e2) && e2@ == e@,
            Ok(_) => match controller {
                None => r matches Err(e2) && e2@ == unavailable_message("pids"@),
                Some(Err(e)) => r matches Err(e2) && e2@ == e@,
                Some(Ok((current, max))) => r == Ok::<Pids, String>(
                    Pids { current, max: limit_of(Some(max)) },
                ),
            },
        },
{
    match files {
        Err(e) => Err(e),
        Ok(_) => match controller {
            None => {
                let mut e = String::from_str("pids");
                e.append(" controller unavailable");
                Err(e)
            },
            Some(Err(e)) => Err(e),
            Some(Ok((current, max))) => Ok(pids_of(current, max)),
        },
    }
}

/// One device's throughput over the sampling window, in bytes per second.
#[derive(Debug, Clone, PartialEq)]
pub struct IoDevice {
    pub device: String,
    pub read_bytes_per_sec: F64Bits,
    pub write_bytes_per_sec: F64Bits,
}

/// Block IO throughput of every device in `io.stat`.
#[derive(Debug, Clone, PartialEq)]
pub struct Io {
    pub devices: Vec<IoDevice>,
}

/// The error when `cpu.stat` has no `usage_usec` line.
pub open spec fn no_usage_message() -> Seq<char> {
    "cpu.stat has no usage_usec"@
}

/// One `usage_usec` sample, from what reading `cpu.stat` gave: the read
/// error passes through, and a file without a `usage_usec` value is an
/// error.
pub fn read_cpu_usage(cpu_stat: Result<String, String>) -> (r: Result<u64, String>)
    ensures
        match cpu_stat {
            Err(e) => r matches Err(e2) && e2@ == e@,
            Ok(text) => match first_flat_value(line_words(text@), "usage_usec"@) {
                Some(v) => r == Ok::<u64, String>(v),
                None => r matches Err(e2) && e2@ == no_usage_message(),
            },
        },
{
    match cpu_stat {
        Err(e) => Err(e),
        Ok(text) => match parse_flat_key(text.as_str(), "usage_usec") {
            Some(v) => Ok(v),
            None => Err(String::from_str("cpu.stat has no usage_usec")),
        },
    }
}

/// The devices of `io.stat`, from what reading it gave: `None` when the
/// file is absent, which is the error `io.stat not present`; a read error
/// passes through.
pub fn read_io(io_stat: Option<Result<String, String>>) -> (r: Result<Vec<RawIo>, String>)
    ensures
        match io_stat {
            None => r matches Err(e2) && e2@ == missing_message("io.stat"@),
            Some(read) => match read_text(read) {
                Err(e) => r matches Err(e2) && e2@ == e,
                Ok(text) => r matches Ok(devs) && devs@.map_values(|d: RawIo| d@) == io_devices(
                    line_words(text),
                ),
            },
        },
{
    match io_stat {
        None => {
            let mut e = String::from_str("io.stat");
            e.append(" not present");
            Err(e)
        },
        Some(Err(e)) => Err(e),
        Some(Ok(text)) => Ok(parse_io_stat(text.as_str())),
    }
}

/// The text of a read result.
pub open spec fn read_text(r: Result<String, String>) -> Result<Seq<char>, Seq<char>> {
    match r {
        Ok(t) => Ok(t@),
        Err(e) => Err(e@),
    }
}

/// What `cpu.max` says of the CPU limit.
#[derive(Debug, Clone, Copy, PartialEq, Eq)]
pub enum CpuLimit {
    /// `<quota> <period>`: `quota / period` cores.
    Quota(u64, u64),
    /// The quota is the literal `max`.
    Unlimited,
    /// Anything else.
    Unparseable,
}

/// The reading of `cpu.max` that `collect_cpu` acts on: a quota when
/// `parse_cpu_max` gives one, unlimited when the first word is `max`, and
/// unparseable otherwise.
pub open spec fn cpu_limit_of(text: Seq<char>) -> CpuLimit {
    match crate::utils::parse::cpu_max_value(text) {
        Some((q, p)) => CpuLimit::Quota(q, p),
        None => if words(text).len() > 0 && words(text)[0] == "max"@ {
            CpuLimit::Unlimited
        } else {
            CpuLimit::Unparseable
        },
    }
}

/// A quota and a non-zero period in `cpu.max` are a quota of `quota /
/// period` cores, whatever their ratio; the literal `max` before a period is
/// no limit.
pub proof fn lemma_cpu_limit_of_kernel_text(quota: u64, period: u64)
    requires
        period != 0,
    ensures
        cpu_limit_of(decimal(quota as nat) + " "@ + decimal(period as nat) + "\n"@)
            == CpuLimit::Quota(quota, period),
        cpu_limit_of("max "@ + decimal(period as nat) + "\n"@) == CpuLimit::Unlimited,
{
    crate::utils::parse::lemma_cpu_max_reads_quota_and_period(quota, period);
    reveal_strlit("max ");
    reveal_strlit("max");
    reveal_strlit("\n");
    let m = seq!['m', 'a', 'x'];
    let p = decimal(period as nat);
    lemma_decimal_digits(period as nat);
    assert forall|i: int| 0 <= i < p.len() implies !is_ws(#[trigger] p[i]) by {
        assert(is_digit(p[i]));
    }
    assert forall|i: int| 0 <= i < m.len() implies !is_ws(#[trigger] m[i]) by {}
    lemma_words_append_word(Seq::<char>::empty(), m);
    assert(Seq::<char>::empty() + m =~= m);
    lemma_words_push_ws(m, ' ');
    assert("max "@ =~= m.push(' '));
    lemma_words_append_word("max "@, p);
    let t = "max "@ + p + "\n"@;
    assert(t =~= ("max "@ + p).push('\n'));
    lemma_words_push_ws("max "@ + p, '\n');
    assert(words(t) =~= seq![m, p]);
    assert(m == "max"@);
    assert(!is_digit(m[0]));
    assert(crate::utils::text::unsigned_body(m) == m);
}

/// Classifies the content of `cpu.max`.
pub fn cpu_limit(text: &str) -> (r: CpuLimit)
    ensures
        r == cpu_limit_of(text@),
        r matches CpuLimit::Quota(_, period) ==> period != 0,
{
    match parse_cpu_max(text) {
        Some((q, p)) => CpuLimit::Quota(q, p),
        None => {
            let chars = chars_of(text);
            let ws = split_words(&chars);
            if ws.len() > 0 && same_chars(&ws[0], "max") {
                proof {
                    assert(ws@[0]@ == crate::utils::text::char_rows(ws@)[0]);
                }
                CpuLimit::Unlimited
            } else {
                proof {
                    if ws.len() > 0 {
                        assert(ws@[0]@ == crate::utils::text::char_rows(ws@)[0]);
                    }
                }
                CpuLimit::Unparseable
            }
        },
    }
}

/// The first counters of `device` among `before`, or zeros.
pub open spec fn baseline(before: Seq<(Seq<char>, u64, u64)>, device: Seq<char>) -> (u64, u64)
    decreases before.len(),
{
    if before.len() == 0 {
        (0, 0)
    } else if before[0].0 == device {
        (before[0].1, before[0].2)
    } else {
        baseline(before.drop_first(), device)
    }
}

/// A device that is new in the second sample counts from zero.
pub proof fn lemma_new_device_starts_at_zero(before: Seq<(Seq<char>, u64, u64)>, device: Seq<char>)
    requires
        forall|i: int| 0 <= i < before.len() ==> (#[trigger] before[i]).0 != device,
    ensures
        baseline(before, device) == (0u64, 0u64),
    decreases before.len(),
{
    if before.len() > 0 {
        assert(before[0].0 != device);
        assert forall|i: int| 0 <= i < before.drop_first().len() implies (
        #[trigger] before.drop_first()[i]).0 != device by {
            assert(before.drop_first()[i] == before[i + 1]);
        }
        lemma_new_device_starts_at_zero(before.drop_first(), device);
    }
}

/// `a - b`, or zero when the counter went backwards (a cgroup recreated
/// between samples resets its counters).
pub open spec fn counter_delta(b: u64, a: u64) -> u64 {
    if a >= b {
        (a - b) as u64
    } else {
        0
    }
}

/// How far a counter moved from `before` to `after`, saturating at zero when
/// it went backwards.
pub fn usage_delta(before: u64, after: u64) -> (r: u64)
    ensures
        r == counter_delta(before, after),
{
    if after >= before {
        after - before
    } else {
        0
    }
}

/// The bytes one device moved between two samples.
#[derive(Debug, Clone, PartialEq, Eq)]
pub struct IoDelta {
    /// The device as `io.stat` names it (`major:minor`).
    pub device: String,
    pub read_bytes: u64,
    pub write_bytes: u64,
}

/// The counters of the first entry for `device`, or zeros.
fn baseline_of(before: &Vec<RawIo>, device: &String) -> (r: (u64, u64))
    ensures
        r == baseline(before@.map_values(|d: RawIo| d@), device@),
{
    let ghost bs = before@.map_values(|d: RawIo| d@);
    let mut j: usize = 0;
    proof {
        assert(bs.skip(0) =~= bs);
    }
    while j < before.len()
        invariant
            j <= before@.len(),
            bs == before@.map_values(|d: RawIo| d@),
            baseline(bs.skip(j as int), device@) == baseline(bs, device@),
        decreases before@.len() - j,
    {
        proof {
            assert(bs.skip(j as int)[0] == before@[j as int]@);
            assert(bs.skip(j as int).drop_first() =~= bs.skip(j + 1));
        }
        if before[j].device == *device {
            return (before[j].rbytes, before[j].wbytes);
        }
        j += 1;
    }
    proof {
        assert(bs.skip(j as int).len() == 0);
    }
    (0, 0)
}

/// Pairs every device of the second sample with the first entry of the same
/// device in the first sample (a device new in the second sample starts at
/// zero), and gives the bytes moved, saturating at zero.
pub fn pair_io_samples(before: &Vec<RawIo>, after: &Vec<RawIo>) -> (r: Vec<IoDelta>)
    ensures
        r@.len() == after@.len(),
        forall|i: int|
            0 <= i < after@.len() ==> {
                let a = #[trigger] after@[i]@;
                let base = baseline(before@.map_values(|d: RawIo| d@), a.0);
                &&& r@[i].device@ == a.0
                &&& r@[i].read_bytes == counter_delta(base.0, a.1)
                &&& r@[i].write_bytes == counter_delta(base.1, a.2)
            },
{
    let ghost bs = before@.map_values(|d: RawIo| d@);
    let mut out: Vec<IoDelta> = Vec::new();
    let mut i: usize = 0;
    while i < after.len()
        invariant
            i <= after@.len(),
            bs == before@.map_values(|d: RawIo| d@),
            out@.len() == i,
            forall|k: int|
                0 <= k < i ==> {
                    let a = #[trigger] after@[k]@;
                    let base = baseline(bs, a.0);
                    &&& out@[k].device@ == a.0
                    &&& out@[k].read_bytes == counter_delta(base.0, a.1)
                    &&& out@[k].write_bytes == counter_delta(base.1, a.2)
                },
        decreases after@.len() - i,
    {
        let a = &after[i];
        let (br, bw) = baseline_of(before, &a.device);
        let read_bytes = usage_delta(br, a.rbytes);
        let write_bytes = usage_delta(bw, a.wbytes);
        let ghost prev = out@;
        out.push(IoDelta { device: a.device.clone(), read_bytes, write_bytes });
        proof {
            assert forall|k: int| 0 <= k < i + 1 implies {
                let a = #[trigger] after@[k]@;
                let base = baseline(bs, a.0);
                &&& out@[k].device@ == a.0
                &&& out@[k].read_bytes == counter_delta(base.0, a.1)
                &&& out@[k].write_bytes == counter_delta(base.1, a.2)
            } by {
                if k < i {
                    assert(out@[k] == prev[k]);
                }
            }
        }
        i += 1;
    }
    out
}

} // verus!
