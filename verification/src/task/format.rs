//! The human and table renderers.
use crate::task::metrics::{Cpu, Io, IoDevice, Memory, Pids};
use crate::task::grid::{
    add_row, load_utf8_full, new_table, render, rendered_table, set_header, table_header,
    table_is_plain, table_rows, table_style, utf8_full, cell_texts,
};
use crate::task::Stats;
use crate::utils::bytes::{iec, iec_text};
use crate::utils::float::{
    fixed2_text, format_fixed2, is_positive, is_positive_value, saturating_to_u64, saturating_u64,
    F64Bits,
};
use crate::utils::bytes::{iec_tenths, iec_unit, unit_char};
use crate::utils::text::{decimal, decimal_string, is_digit, lemma_decimal_digits};
use vstd::prelude::*;

verus! {

/// A limit in bytes: `unlimited`, or the size.
pub open spec fn limit_text(v: Option<u64>) -> Seq<char> {
    match v {
        None => "unlimited"@,
        Some(b) => iec_text(b as nat),
    }
}

/// The memory limits: `memory.high` labelled and shown beside `max` when
/// it is set, so a cgroup capped by `high` alone is not shown as unlimited.
pub open spec fn memory_limits_text(m: Memory) -> Seq<char> {
    match (m.high, m.max) {
        (None, max) => limit_text(max),
        (Some(high), None) => iec_text(high as nat) + " high"@,
        (Some(high), Some(max)) => iec_text(high as nat) + " high / "@ + iec_text(max as nat)
            + " max"@,
    }
}

/// A core count with two decimals, or `unlimited`.
pub open spec fn cores_text(c: Option<F64Bits>) -> Seq<char> {
    match c {
        None => "unlimited"@,
        Some(x) => fixed2_text(x.bits),
    }
}

/// A count, or `unlimited`.
pub open spec fn count_text(c: Option<u64>) -> Seq<char> {
    match c {
        None => "unlimited"@,
        Some(n) => decimal(n as nat),
    }
}

/// Whether a device moved data during the window.
pub open spec fn is_active(d: IoDevice) -> bool {
    is_positive(d.read_bytes_per_sec.bits) || is_positive(d.write_bytes_per_sec.bits)
}

/// The devices that moved data, in order.
pub open spec fn active(ds: Seq<IoDevice>) -> Seq<IoDevice>
    decreases ds.len(),
{
    if ds.len() == 0 {
        seq![]
    } else if is_active(ds.last()) {
        active(ds.drop_last()).push(ds.last())
    } else {
        active(ds.drop_last())
    }
}

/// Only devices that moved data during the window are listed by the human
/// and table renderers, in the order of the reading, and every such device is.
pub proof fn lemma_only_active_devices_are_listed(ds: Seq<IoDevice>)
    ensures
        active(ds).len() <= ds.len(),
        forall|i: int| 0 <= i < active(ds).len() ==> is_active(#[trigger] active(ds)[i]),
        (forall|i: int| 0 <= i < ds.len() ==> !is_active(#[trigger] ds[i])) <==> active(ds).len()
            == 0,
    decreases ds.len(),
{
    if ds.len() > 0 {
        let init = ds.drop_last();
        lemma_only_active_devices_are_listed(init);
        assert forall|i: int| 0 <= i < active(ds).len() implies is_active(
            #[trigger] active(ds)[i],
        ) by {
            if i < active(init).len() {
                assert(active(ds)[i] == active(init)[i]);
            }
        }
        if forall|i: int| 0 <= i < ds.len() ==> !is_active(#[trigger] ds[i]) {
            assert forall|i: int| 0 <= i < init.len() implies !is_active(#[trigger] init[i]) by {
                assert(init[i] == ds[i]);
            }
            assert(!is_active(ds[ds.len() - 1]));
        }
        if active(ds).len() == 0 {
            assert(!is_active(ds.last()));
            assert forall|i: int| 0 <= i < ds.len() implies !is_active(#[trigger] ds[i]) by {
                if i < init.len() {
                    assert(init[i] == ds[i]);
                }
            }
        }
    }
}

/// A rate in bytes per second, shown as `iec` of its integer part.
pub open spec fn rate_text(x: F64Bits) -> Seq<char> {
    iec_text(saturating_u64(x.bits))
}

/// The human line of one active device; the first carries the `IO:` label.
pub open spec fn device_line(d: IoDevice, first: bool) -> Seq<char> {
    (if first {
        "IO:  "@
    } else {
        "     "@
    }) + " "@ + d.device@ + "  r "@ + rate_text(d.read_bytes_per_sec) + "/s  w "@ + rate_text(
        d.write_bytes_per_sec,
    ) + "/s\n"@
}

pub open spec fn device_lines(ds: Seq<IoDevice>) -> Seq<char>
    decreases ds.len(),
{
    if ds.len() == 0 {
        seq![]
    } else {
        device_lines(ds.drop_last()) + device_line(ds.last(), ds.len() == 1)
    }
}

pub open spec fn memory_section(m: Option<Result<Memory, String>>) -> Seq<char> {
    match m {
        None => seq![],
        Some(Ok(r)) => "RAM:  "@ + iec_text(r.current as nat) + " / "@ + memory_limits_text(r)
            + "\n"@,
        Some(Err(e)) => "RAM:  n/a ("@ + e@ + ")\n"@,
    }
}

pub open spec fn cpu_section(c: Option<Result<Cpu, String>>) -> Seq<char> {
    match c {
        None => seq![],
        Some(Ok(r)) => "CPU:  "@ + fixed2_text(r.used_cores.bits) + " / "@ + cores_text(
            r.max_cores,
        ) + " cores\n"@,
        Some(Err(e)) => "CPU:  n/a ("@ + e@ + ")\n"@,
    }
}

pub open spec fn pids_section(p: Option<Result<Pids, String>>) -> Seq<char> {
    match p {
        None => seq![],
        Some(Ok(r)) => "PIDs: "@ + decimal(r.current as nat) + " / "@ + count_text(r.max) + "\n"@,
        Some(Err(e)) => "PIDs: n/a ("@ + e@ + ")\n"@,
    }
}

pub open spec fn io_section(i: Option<Result<Io, String>>) -> Seq<char> {
    match i {
        None => seq![],
        Some(Ok(r)) => if active(r.devices@).len() == 0 {
            "IO:   no activity\n"@
        } else {
            device_lines(active(r.devices@))
        },
        Some(Err(e)) => "IO:   n/a ("@ + e@ + ")\n"@,
    }
}

/// The human rendering: one line per requested metric in the order memory,
/// CPU, PIDs, IO (one line per active device), nothing for a metric that was
/// not requested, and `n/a` with the reason for one that is unavailable.
pub open spec fn human_text(s: Stats) -> Seq<char> {
    memory_section(s.memory) + cpu_section(s.cpu) + pids_section(s.pids) + io_section(s.io)
}

proof fn lemma_iec_text_shape(b: nat)
    ensures
        iec_text(b).len() >= 2,
        is_digit(iec_text(b)[0]),
        iec_text(b).last() == unit_char(iec_unit(b)),
{
    if iec_unit(b) == 0 {
        lemma_decimal_digits(b);
    } else {
        lemma_decimal_digits(iec_tenths(b) / 10);
    }
}

proof fn lemma_fixed2_first(b: u64)
    ensures
        fixed2_text(b).len() >= 1,
        fixed2_text(b)[0] != 'n',
{
    if !crate::utils::float::is_nan(b) && !crate::utils::float::is_infinite(b) {
        lemma_decimal_digits(crate::utils::float::hundredths(b) / 100);
    }
}

/// A memory limit shows as `unlimited` only when neither `memory.high` nor
/// `memory.max` is set: a cgroup capped by `memory.high` alone is not
/// unlimited, and neither is one with a `max`.
pub proof fn lemma_unlimited_only_without_limits(m: Memory)
    ensures
        memory_limits_text(m) == "unlimited"@ <==> (m.high is None && m.max is None),
{
    reveal_strlit("unlimited");
    reveal_strlit(" high");
    reveal_strlit(" max");
    match (m.high, m.max) {
        (None, None) => {},
        (None, Some(x)) => {
            lemma_iec_text_shape(x as nat);
            assert(limit_text(m.max).last() != 'd');
        },
        (Some(h), None) => {
            assert((iec_text(h as nat) + " high"@).last() == 'h');
        },
        (Some(h), Some(x)) => {
            assert((iec_text(h as nat) + " high / "@ + iec_text(x as nat) + " max"@).last() == 'x');
        },
    }
}

proof fn lemma_device_lines_end(ds: Seq<IoDevice>)
    requires
        ds.len() > 0,
    ensures
        device_lines(ds).len() >= 3,
        device_lines(ds)[device_lines(ds).len() - 2] == 's',
{
    reveal_strlit("/s\n");
    let line = device_line(ds.last(), ds.len() == 1);
    assert(line.len() >= 3);
    assert(line[line.len() - 2] == 's');
    assert(device_lines(ds) == device_lines(ds.drop_last()) + line);
}

/// The three states of a metric render differently in the human format: not
/// requested (nothing), unavailable (`n/a` and the reason) and a reading.
pub proof fn lemma_metric_states_render_differently(
    reason: String,
    memory: Memory,
    cpu: Cpu,
    pids: Pids,
    io: Io,
)
    ensures
        io_section(None) != io_section(Some(Err(reason))),
        io_section(None) != io_section(Some(Ok(io))),
        io_section(Some(Err(reason))) != io_section(Some(Ok(io))),
        memory_section(None) != memory_section(Some(Err(reason))),
        memory_section(None) != memory_section(Some(Ok(memory))),
        memory_section(Some(Err(reason))) != memory_section(Some(Ok(memory))),
        cpu_section(None) != cpu_section(Some(Err(reason))),
        cpu_section(None) != cpu_section(Some(Ok(cpu))),
        cpu_section(Some(Err(reason))) != cpu_section(Some(Ok(cpu))),
        pids_section(None) != pids_section(Some(Err(reason))),
        pids_section(None) != pids_section(Some(Ok(pids))),
        pids_section(Some(Err(reason))) != pids_section(Some(Ok(pids))),
{
    reveal_strlit("RAM:  ");
    reveal_strlit("RAM:  n/a (");
    reveal_strlit("CPU:  ");
    reveal_strlit("CPU:  n/a (");
    reveal_strlit("PIDs: ");
    reveal_strlit("PIDs: n/a (");
    lemma_iec_text_shape(memory.current as nat);
    lemma_fixed2_first(cpu.used_cores.bits);
    lemma_decimal_digits(pids.current as nat);
    let me = memory_section(Some(Err(reason)));
    let mo = memory_section(Some(Ok(memory)));
    assert(me[6] == 'n');
    assert(mo[6] == iec_text(memory.current as nat)[0]);
    let ce = cpu_section(Some(Err(reason)));
    let co = cpu_section(Some(Ok(cpu)));
    assert(ce[6] == 'n');
    assert(co[6] == fixed2_text(cpu.used_cores.bits)[0]);
    let pe = pids_section(Some(Err(reason)));
    let po = pids_section(Some(Ok(pids)));
    assert(pe[6] == 'n');
    assert(po[6] == decimal(pids.current as nat)[0]);
    assert(is_digit(decimal(pids.current as nat)[0]));
    reveal_strlit("IO:   n/a (");
    reveal_strlit(")\n");
    reveal_strlit("IO:   no activity\n");
    let ie = io_section(Some(Err(reason)));
    let io_text = io_section(Some(Ok(io)));
    assert(ie[ie.len() - 2] == ')');
    if active(io.devices@).len() == 0 {
        assert(io_text[io_text.len() - 2] == 'y');
    } else {
        lemma_device_lines_end(active(io.devices@));
    }
}

/// Text without a newline.
pub open spec fn no_newline(s: Seq<char>) -> bool {
    forall|i: int| 0 <= i < s.len() ==> s[i] != '\n'
}

/// The reason of an unavailable metric holds no newline.
pub open spec fn reason_one_line<T>(m: Option<Result<T, String>>) -> bool {
    m matches Some(Err(e)) ==> no_newline(e@)
}

proof fn lemma_concat_no_newline(a: Seq<char>, b: Seq<char>)
    requires
        no_newline(a),
        no_newline(b),
    ensures
        no_newline(a + b),
{
    assert forall|i: int| 0 <= i < (a + b).len() implies (a + b)[i] != '\n' by {
        if i >= a.len() {
            assert((a + b)[i] == b[i - a.len()]);
        }
    }
}

proof fn lemma_decimal_no_newline(n: nat)
    ensures
        no_newline(decimal(n)),
{
    lemma_decimal_digits(n);
    assert forall|i: int| 0 <= i < decimal(n).len() implies decimal(n)[i] != '\n' by {
        assert(is_digit(decimal(n)[i]));
    }
}

proof fn lemma_iec_no_newline(b: nat)
    ensures
        no_newline(iec_text(b)),
{
    if iec_unit(b) == 0 {
        lemma_decimal_no_newline(b);
        lemma_concat_no_newline(decimal(b), seq!['B']);
        assert(decimal(b).push('B') =~= decimal(b) + seq!['B']);
    } else {
        let t = iec_tenths(b);
        lemma_decimal_no_newline(t / 10);
        let tail = seq!['.', crate::utils::text::digit_char(t % 10), unit_char(iec_unit(b))];
        lemma_concat_no_newline(decimal(t / 10), tail);
        assert(iec_text(b) =~= decimal(t / 10) + tail);
    }
}

proof fn lemma_fixed2_no_newline(b: u64)
    ensures
        no_newline(fixed2_text(b)),
{
    let sign: Seq<char> = if crate::utils::float::sign_bit(b) {
        seq!['-']
    } else {
        seq![]
    };
    if !crate::utils::float::is_nan(b) && !crate::utils::float::is_infinite(b) {
        let h = crate::utils::float::hundredths(b);
        lemma_decimal_no_newline(h / 100);
        lemma_concat_no_newline(sign, decimal(h / 100));
        let tail = seq![
            '.',
            crate::utils::text::digit_char((h % 100) / 10),
            crate::utils::text::digit_char(h % 10),
        ];
        lemma_concat_no_newline(sign + decimal(h / 100), tail);
    } else if !crate::utils::float::is_nan(b) {
        lemma_concat_no_newline(sign, seq!['i', 'n', 'f']);
    }
}

proof fn lemma_limits_no_newline(m: Memory)
    ensures
        no_newline(memory_limits_text(m)),
{
    reveal_strlit("unlimited");
    reveal_strlit(" high");
    reveal_strlit(" high / ");
    reveal_strlit(" max");
    match (m.high, m.max) {
        (None, None) => {},
        (None, Some(x)) => {
            lemma_iec_no_newline(x as nat);
        },
        (Some(h), None) => {
            lemma_iec_no_newline(h as nat);
            lemma_concat_no_newline(iec_text(h as nat), " high"@);
        },
        (Some(h), Some(x)) => {
            lemma_iec_no_newline(h as nat);
            lemma_iec_no_newline(x as nat);
            lemma_concat_no_newline(iec_text(h as nat), " high / "@);
            lemma_concat_no_newline(iec_text(h as nat) + " high / "@, iec_text(x as nat));
            lemma_concat_no_newline(iec_text(h as nat) + " high / "@ + iec_text(x as nat), " max"@);
        },
    }
}

/// The memory block of the human format: nothing when not requested, else
/// one line that begins with `RAM:` (one line when the reason, if any, has
/// no newline).
#[verifier::spinoff_prover]
#[verifier::rlimit(40)]
pub proof fn lemma_memory_block(m: Option<Result<Memory, String>>)
    ensures
        m is None <==> memory_section(m).len() == 0,
        m is Some ==> memory_section(m).take(4) == "RAM:"@ && memory_section(m).last() == '\n',
        m is Some ==> memory_section(m).len() >= 5,
        m is Some && reason_one_line(m) ==> no_newline(memory_section(m).drop_last()),
{
    reveal_strlit("RAM:");
    reveal_strlit("RAM:  ");
    reveal_strlit("RAM:  n/a (");
    reveal_strlit(" / ");
    reveal_strlit("\n");
    reveal_strlit(")\n");
    match m {
        None => {},
        Some(Ok(r)) => {
            let a = "RAM:  "@ + iec_text(r.current as nat) + " / "@ + memory_limits_text(r);
            lemma_iec_no_newline(r.current as nat);
            lemma_limits_no_newline(r);
            lemma_concat_no_newline("RAM:  "@, iec_text(r.current as nat));
            lemma_concat_no_newline("RAM:  "@ + iec_text(r.current as nat), " / "@);
            lemma_concat_no_newline(
                "RAM:  "@ + iec_text(r.current as nat) + " / "@,
                memory_limits_text(r),
            );
            assert(memory_section(m).drop_last() =~= a);
            assert(memory_section(m).take(4) =~= "RAM:"@);
        },
        Some(Err(e)) => {
            let a = "RAM:  n/a ("@ + e@ + seq![')'];
            if no_newline(e@) {
                lemma_concat_no_newline("RAM:  n/a ("@, e@);
                lemma_concat_no_newline("RAM:  n/a ("@ + e@, seq![')']);
            }
            assert(memory_section(m).drop_last() =~= a);
            assert(memory_section(m).take(4) =~= "RAM:"@);
        },
    }
}

/// The CPU block of the human format: nothing when not requested, else one
/// line that begins with `CPU:`.
#[verifier::spinoff_prover]
#[verifier::rlimit(40)]
pub proof fn lemma_cpu_block(c: Option<Result<Cpu, String>>)
    ensures
        c is None <==> cpu_section(c).len() == 0,
        c is Some ==> cpu_section(c).take(4) == "CPU:"@ && cpu_section(c).last() == '\n',
        c is Some ==> cpu_section(c).len() >= 5,
        c is Some && reason_one_line(c) ==> no_newline(cpu_section(c).drop_last()),
{
    reveal_strlit("CPU:");
    reveal_strlit("CPU:  ");
    reveal_strlit("CPU:  n/a (");
    reveal_strlit(" / ");
    reveal_strlit(" cores\n");
    reveal_strlit(")\n");
    reveal_strlit("unlimited");
    match c {
        None => {},
        Some(Ok(r)) => {
            lemma_fixed2_no_newline(r.used_cores.bits);
            match r.max_cores {
                Some(x) => lemma_fixed2_no_newline(x.bits),
                None => {},
            }
            let u = fixed2_text(r.used_cores.bits);
            let mx = cores_text(r.max_cores);
            lemma_concat_no_newline("CPU:  "@, u);
            lemma_concat_no_newline("CPU:  "@ + u, " / "@);
            lemma_concat_no_newline("CPU:  "@ + u + " / "@, mx);
            lemma_concat_no_newline("CPU:  "@ + u + " / "@ + mx, seq![' ', 'c', 'o', 'r', 'e', 's']);
            assert(cpu_section(c).drop_last() =~= "CPU:  "@ + u + " / "@ + mx + seq![
                ' ',
                'c',
                'o',
                'r',
                'e',
                's',
            ]);
            assert(cpu_section(c).take(4) =~= "CPU:"@);
        },
        Some(Err(e)) => {
            if no_newline(e@) {
                lemma_concat_no_newline("CPU:  n/a ("@, e@);
                lemma_concat_no_newline("CPU:  n/a ("@ + e@, seq![')']);
            }
            assert(cpu_section(c).drop_last() =~= "CPU:  n/a ("@ + e@ + seq![')']);
            assert(cpu_section(c).take(4) =~= "CPU:"@);
        },
    }
}

/// The PIDs block of the human format: nothing when not requested, else one
/// line that begins with `PIDs:`.
#[verifier::spinoff_prover]
#[verifier::rlimit(40)]
pub proof fn lemma_pids_block(p: Option<Result<Pids, String>>)
    ensures
        p is None <==> pids_section(p).len() == 0,
        p is Some ==> pids_section(p).take(5) == "PIDs:"@ && pids_section(p).last() == '\n',
        p is Some ==> pids_section(p).len() >= 5,
        p is Some && reason_one_line(p) ==> no_newline(pids_section(p).drop_last()),
{
    reveal_strlit("PIDs:");
    reveal_strlit("PIDs: ");
    reveal_strlit("PIDs: n/a (");
    reveal_strlit(" / ");
    reveal_strlit("\n");
    reveal_strlit(")\n");
    reveal_strlit("unlimited");
    match p {
        None => {},
        Some(Ok(r)) => {
            lemma_decimal_no_newline(r.current as nat);
            match r.max {
                Some(x) => lemma_decimal_no_newline(x as nat),
                None => {},
            }
            let cur = decimal(r.current as nat);
            let mx = count_text(r.max);
            lemma_concat_no_newline("PIDs: "@, cur);
            lemma_concat_no_newline("PIDs: "@ + cur, " / "@);
            lemma_concat_no_newline("PIDs: "@ + cur + " / "@, mx);
            assert(pids_section(p).drop_last() =~= "PIDs: "@ + cur + " / "@ + mx);
            assert(pids_section(p).take(5) =~= "PIDs:"@);
        },
        Some(Err(e)) => {
            if no_newline(e@) {
                lemma_concat_no_newline("PIDs: n/a ("@, e@);
                lemma_concat_no_newline("PIDs: n/a ("@ + e@, seq![')']);
            }
            assert(pids_section(p).drop_last() =~= "PIDs: n/a ("@ + e@ + seq![')']);
            assert(pids_section(p).take(5) =~= "PIDs:"@);
        },
    }
}

/// The IO block of the human format: nothing when not requested, else
/// lines that begin with `IO:`.
#[verifier::spinoff_prover]
#[verifier::rlimit(40)]
pub proof fn lemma_io_block(i: Option<Result<Io, String>>)
    ensures
        i is None <==> io_section(i).len() == 0,
        i is Some ==> io_section(i).take(3) == "IO:"@ && io_section(i).last() == '\n',
        i is Some ==> io_section(i).len() >= 5,
{
    reveal_strlit("IO:");
    reveal_strlit("IO:  ");
    reveal_strlit("IO:   n/a (");
    reveal_strlit("IO:   no activity\n");
    reveal_strlit(")\n");
    reveal_strlit("/s\n");
    match i {
        None => {},
        Some(Ok(r)) => {
            let act = active(r.devices@);
            if act.len() > 0 {
                lemma_device_lines_start(act);
                lemma_device_lines_end(act);
            }
            assert(io_section(i).take(3) =~= "IO:"@);
        },
        Some(Err(e)) => {
            assert(io_section(i).take(3) =~= "IO:"@);
        },
    }
}

proof fn lemma_device_lines_start(ds: Seq<IoDevice>)
    requires
        ds.len() > 0,
    ensures
        device_lines(ds).len() >= 5,
        device_lines(ds).take(3) == "IO:"@,
        device_lines(ds).last() == '\n',
    decreases ds.len(),
{
    reveal_strlit("IO:");
    reveal_strlit("IO:  ");
    reveal_strlit("/s\n");
    let line = device_line(ds.last(), ds.len() == 1);
    assert(device_lines(ds) == device_lines(ds.drop_last()) + line);
    if ds.len() == 1 {
        assert(device_lines(ds.drop_last()) =~= Seq::<char>::empty());
        assert(device_lines(ds) =~= line);
        assert(line.take(3) =~= "IO:"@);
    } else {
        lemma_device_lines_start(ds.drop_last());
        assert(device_lines(ds).take(3) =~= device_lines(ds.drop_last()).take(3));
    }
}

/// The human format is the memory, CPU, PIDs and IO blocks in that order,
/// each absent exactly when its metric was not requested.
pub proof fn lemma_human_blocks(s: Stats)
    ensures
        human_text(s) == memory_section(s.memory) + cpu_section(s.cpu) + pids_section(s.pids)
            + io_section(s.io),
        s.memory is None <==> memory_section(s.memory).len() == 0,
        s.cpu is None <==> cpu_section(s.cpu).len() == 0,
        s.pids is None <==> pids_section(s.pids).len() == 0,
        s.io is None <==> io_section(s.io).len() == 0,
{
    lemma_memory_block(s.memory);
    lemma_cpu_block(s.cpu);
    lemma_pids_block(s.pids);
    lemma_io_block(s.io);
}

/// Whether a line of `t` begins with `p` at position `i`.
pub open spec fn line_starts_at(t: Seq<char>, i: int, p: Seq<char>) -> bool {
    &&& 0 <= i
    &&& i + p.len() <= t.len()
    &&& (i == 0 || t[i - 1] == '\n')
    &&& t.subrange(i, i + p.len()) == p
}

/// Whether some line of `t` begins with `p`.
pub open spec fn has_line_starting(t: Seq<char>, p: Seq<char>) -> bool {
    exists|i: int| line_starts_at(t, i, p)
}

/// Every device of an IO reading has a name without a newline.
pub open spec fn names_one_line(i: Option<Result<Io, String>>) -> bool {
    i matches Some(Ok(io)) ==> forall|k: int|
        0 <= k < io.devices@.len() ==> no_newline(#[trigger] io.devices@[k].device@)
}

/// `t` is empty or ends with a newline.
spec fn whole_lines(t: Seq<char>) -> bool {
    t.len() == 0 || t.last() == '\n'
}

/// `t` is a single line with its newline.
spec fn one_line(t: Seq<char>) -> bool {
    t.len() > 0 && t.last() == '\n' && no_newline(t.drop_last())
}

/// The lines of `a + b`, where `a` ends a line, are those of `a` and those of
/// `b`.
proof fn lemma_lines_of_concat(a: Seq<char>, b: Seq<char>, p: Seq<char>)
    requires
        whole_lines(a),
        p.len() > 0,
        no_newline(p),
    ensures
        has_line_starting(a + b, p) <==> has_line_starting(a, p) || has_line_starting(b, p),
{
    let t = a + b;
    if has_line_starting(t, p) {
        let i = choose|i: int| line_starts_at(t, i, p);
        if i < a.len() {
            if i + p.len() > a.len() {
                let k = a.len() - 1 - i;
                assert(t.subrange(i, i + p.len())[k] == t[a.len() - 1]);
                assert(p[k] == '\n');
            }
            assert(a.subrange(i, i + p.len()) =~= t.subrange(i, i + p.len()));
            if i > 0 {
                assert(t[i - 1] == a[i - 1]);
            }
            assert(line_starts_at(a, i, p));
        } else {
            let j = i - a.len();
            assert(b.subrange(j, j + p.len()) =~= t.subrange(i, i + p.len()));
            if j > 0 {
                assert(t[i - 1] == b[j - 1]);
            }
            assert(line_starts_at(b, j, p));
        }
    }
    if has_line_starting(a, p) {
        let i = choose|i: int| line_starts_at(a, i, p);
        assert(a.subrange(i, i + p.len()) =~= t.subrange(i, i + p.len()));
        if i > 0 {
            assert(t[i - 1] == a[i - 1]);
        }
        assert(line_starts_at(t, i, p));
    }
    if has_line_starting(b, p) {
        let j = choose|j: int| line_starts_at(b, j, p);
        let i = j + a.len();
        assert(b.subrange(j, j + p.len()) =~= t.subrange(i, i + p.len()));
        if j > 0 {
            assert(t[i - 1] == b[j - 1]);
        } else if a.len() > 0 {
            assert(t[i - 1] == a.last());
        }
        assert(line_starts_at(t, i, p));
    }
}

/// A line that begins with `p` in a single line is the line itself.
proof fn lemma_one_line_starts(x: Seq<char>, p: Seq<char>)
    requires
        one_line(x),
        p.len() > 0,
    ensures
        has_line_starting(x, p) ==> x[0] == p[0],
{
    if has_line_starting(x, p) {
        let i = choose|i: int| line_starts_at(x, i, p);
        if i > 0 {
            if i - 1 < x.len() - 1 {
                assert(x.drop_last()[i - 1] == x[i - 1]);
            }
        }
        assert(x.subrange(i, i + p.len())[0] == x[i]);
    }
}

/// A text that begins with `p` has a line that begins with it.
proof fn lemma_first_line_starts(t: Seq<char>, p: Seq<char>)
    requires
        p.len() <= t.len(),
        t.take(p.len() as int) == p,
    ensures
        has_line_starting(t, p),
{
    assert(t.subrange(0, p.len() as int) =~= t.take(p.len() as int));
    assert(line_starts_at(t, 0, p));
}

/// Empty text has no lines.
proof fn lemma_no_lines_in_empty(t: Seq<char>, p: Seq<char>)
    requires
        t.len() == 0,
        p.len() > 0,
    ensures
        !has_line_starting(t, p),
{
}

/// The devices that moved data keep the names of the reading.
proof fn lemma_active_names_one_line(ds: Seq<IoDevice>)
    requires
        forall|k: int| 0 <= k < ds.len() ==> no_newline(#[trigger] ds[k].device@),
    ensures
        forall|k: int| 0 <= k < active(ds).len() ==> no_newline(#[trigger] active(ds)[k].device@),
    decreases ds.len(),
{
    if ds.len() > 0 {
        let init = ds.drop_last();
        assert forall|k: int| 0 <= k < init.len() implies no_newline(#[trigger] init[k].device@) by {
            assert(init[k] == ds[k]);
        }
        lemma_active_names_one_line(init);
        assert forall|k: int| 0 <= k < active(ds).len() implies no_newline(
            #[trigger] active(ds)[k].device@,
        ) by {
            if k < active(init).len() {
                assert(active(ds)[k] == active(init)[k]);
            } else {
                assert(no_newline(ds[ds.len() - 1].device@));
            }
        }
    }
}

/// A device line is one line, beginning with `I` for the first device and
/// with a space for the others.
proof fn lemma_device_line_shape(d: IoDevice, first: bool)
    requires
        no_newline(d.device@),
    ensures
        one_line(device_line(d, first)),
        device_line(d, first)[0] == (if first { 'I' } else { ' ' }),
        first ==> device_line(d, first).take(3) == "IO:"@,
{
    reveal_strlit("IO:");
    reveal_strlit("IO:  ");
    reveal_strlit("     ");
    reveal_strlit(" ");
    reveal_strlit("  r ");
    reveal_strlit("/s  w ");
    reveal_strlit("/s\n");
    let head: Seq<char> = if first {
        "IO:  "@
    } else {
        "     "@
    };
    let r = rate_text(d.read_bytes_per_sec);
    let w = rate_text(d.write_bytes_per_sec);
    lemma_iec_no_newline(saturating_u64(d.read_bytes_per_sec.bits) as nat);
    lemma_iec_no_newline(saturating_u64(d.write_bytes_per_sec.bits) as nat);
    lemma_concat_no_newline(head, " "@);
    lemma_concat_no_newline(head + " "@, d.device@);
    lemma_concat_no_newline(head + " "@ + d.device@, "  r "@);
    lemma_concat_no_newline(head + " "@ + d.device@ + "  r "@, r);
    lemma_concat_no_newline(head + " "@ + d.device@ + "  r "@ + r, "/s  w "@);
    lemma_concat_no_newline(head + " "@ + d.device@ + "  r "@ + r + "/s  w "@, w);
    lemma_concat_no_newline(head + " "@ + d.device@ + "  r "@ + r + "/s  w "@ + w, seq!['/', 's']);
    let body = head + " "@ + d.device@ + "  r "@ + r + "/s  w "@ + w + seq!['/', 's'];
    assert(device_line(d, first) =~= body.push('\n'));
    assert(device_line(d, first).drop_last() =~= body);
    assert(device_line(d, first)[0] == head[0]);
    if first {
        assert(device_line(d, first).take(3) =~= "IO:"@);
    }
}

/// The lines of the device list: each begins with `I` or a space, and the
/// first with `IO:`.
proof fn lemma_device_lines_lines(ds: Seq<IoDevice>, p: Seq<char>)
    requires
        forall|k: int| 0 <= k < ds.len() ==> no_newline(#[trigger] ds[k].device@),
        p.len() > 0,
        no_newline(p),
    ensures
        whole_lines(device_lines(ds)),
        has_line_starting(device_lines(ds), p) ==> p[0] == 'I' || p[0] == ' ',
        ds.len() > 0 && p == "IO:"@ ==> has_line_starting(device_lines(ds), p),
    decreases ds.len(),
{
    if ds.len() > 0 {
        let init = ds.drop_last();
        assert forall|k: int| 0 <= k < init.len() implies no_newline(#[trigger] init[k].device@) by {
            assert(init[k] == ds[k]);
        }
        lemma_device_lines_lines(init, p);
        let line = device_line(ds.last(), ds.len() == 1);
        assert(no_newline(ds[ds.len() - 1].device@));
        lemma_device_line_shape(ds.last(), ds.len() == 1);
        assert(device_lines(ds) == device_lines(init) + line);
        lemma_lines_of_concat(device_lines(init), line, p);
        lemma_one_line_starts(line, p);
        if ds.len() == 1 && p == "IO:"@ {
            lemma_first_line_starts(line, p);
        }
    }
}

/// A requested metric's block holds one line that begins with its label
/// and no line that begins with another's; an unrequested one holds none.
proof fn lemma_block_lines(s: Stats, p: Seq<char>)
    requires
        reason_one_line(s.memory),
        reason_one_line(s.cpu),
        reason_one_line(s.pids),
        reason_one_line(s.io),
        names_one_line(s.io),
        p == "RAM:"@ || p == "CPU:"@ || p == "PIDs:"@ || p == "IO:"@,
    ensures
        whole_lines(memory_section(s.memory)),
        whole_lines(cpu_section(s.cpu)),
        whole_lines(pids_section(s.pids)),
        whole_lines(io_section(s.io)),
        has_line_starting(memory_section(s.memory), p) <==> s.memory is Some && p == "RAM:"@,
        has_line_starting(cpu_section(s.cpu), p) <==> s.cpu is Some && p == "CPU:"@,
        has_line_starting(pids_section(s.pids), p) <==> s.pids is Some && p == "PIDs:"@,
        has_line_starting(io_section(s.io), p) <==> s.io is Some && p == "IO:"@,
{
    reveal_strlit("RAM:");
    reveal_strlit("CPU:");
    reveal_strlit("PIDs:");
    reveal_strlit("IO:");
    reveal_strlit("IO:   n/a (");
    reveal_strlit("IO:   no activity\n");
    reveal_strlit(")\n");
    assert(no_newline(p));
    lemma_memory_block(s.memory);
    lemma_cpu_block(s.cpu);
    lemma_pids_block(s.pids);
    lemma_io_block(s.io);
    let m = memory_section(s.memory);
    let c = cpu_section(s.cpu);
    let q = pids_section(s.pids);
    let i = io_section(s.io);
    if s.memory is Some {
        lemma_one_line_starts(m, p);
        assert(m[0] == m.take(4)[0]);
        if p == "RAM:"@ {
            lemma_first_line_starts(m, p);
        }
    }
    if s.cpu is Some {
        lemma_one_line_starts(c, p);
        assert(c[0] == c.take(4)[0]);
        if p == "CPU:"@ {
            lemma_first_line_starts(c, p);
        }
    }
    if s.pids is Some {
        lemma_one_line_starts(q, p);
        assert(q[0] == q.take(5)[0]);
        if p == "PIDs:"@ {
            lemma_first_line_starts(q, p);
        }
    }
    match s.io {
        None => {},
        Some(Ok(r)) => {
            let act = active(r.devices@);
            if act.len() == 0 {
                assert(one_line(i)) by {
                    assert(i.drop_last() =~= "IO:   no activity"@) by {
                        reveal_strlit("IO:   no activity");
                    }
                    reveal_strlit("IO:   no activity");
                }
                lemma_one_line_starts(i, p);
                if p == "IO:"@ {
                    lemma_first_line_starts(i, p);
                }
            } else {
                lemma_active_names_one_line(r.devices@);
                lemma_device_lines_lines(act, p);
            }
        },
        Some(Err(e)) => {
            lemma_concat_no_newline("IO:   n/a ("@, e@);
            lemma_concat_no_newline("IO:   n/a ("@ + e@, seq![')']);
            assert(i.drop_last() =~= "IO:   n/a ("@ + e@ + seq![')']);
            lemma_one_line_starts(i, p);
            assert(i[0] == i.take(3)[0]);
            if p == "IO:"@ {
                lemma_first_line_starts(i, p);
            }
        },
    }
}

/// The human format has a line that begins with `RAM:`, `CPU:`, `PIDs:` or
/// `IO:` exactly when that metric was requested, when no reason and no
/// device name holds a newline.
pub proof fn lemma_human_lines(s: Stats)
    requires
        reason_one_line(s.memory),
        reason_one_line(s.cpu),
        reason_one_line(s.pids),
        reason_one_line(s.io),
        names_one_line(s.io),
    ensures
        has_line_starting(human_text(s), "RAM:"@) <==> s.memory is Some,
        has_line_starting(human_text(s), "CPU:"@) <==> s.cpu is Some,
        has_line_starting(human_text(s), "PIDs:"@) <==> s.pids is Some,
        has_line_starting(human_text(s), "IO:"@) <==> s.io is Some,
{
    reveal_strlit("RAM:");
    reveal_strlit("CPU:");
    reveal_strlit("PIDs:");
    reveal_strlit("IO:");
    assert("RAM:"@[0] != "CPU:"@[0] && "RAM:"@[0] != "PIDs:"@[0] && "RAM:"@[0] != "IO:"@[0]);
    assert("CPU:"@[0] != "PIDs:"@[0] && "CPU:"@[0] != "IO:"@[0] && "PIDs:"@[0] != "IO:"@[0]);
    lemma_human_text_lines(s, "RAM:"@);
    lemma_human_text_lines(s, "CPU:"@);
    lemma_human_text_lines(s, "PIDs:"@);
    lemma_human_text_lines(s, "IO:"@);
}

proof fn lemma_human_text_lines(s: Stats, p: Seq<char>)
    requires
        reason_one_line(s.memory),
        reason_one_line(s.cpu),
        reason_one_line(s.pids),
        reason_one_line(s.io),
        names_one_line(s.io),
        p == "RAM:"@ || p == "CPU:"@ || p == "PIDs:"@ || p == "IO:"@,
    ensures
        has_line_starting(human_text(s), p) <==> (s.memory is Some && p == "RAM:"@) || (s.cpu is Some
            && p == "CPU:"@) || (s.pids is Some && p == "PIDs:"@) || (s.io is Some && p == "IO:"@),
{
    reveal_strlit("RAM:");
    reveal_strlit("CPU:");
    reveal_strlit("PIDs:");
    reveal_strlit("IO:");
    assert(p.len() > 0 && no_newline(p));
    lemma_block_lines(s, p);
    let m = memory_section(s.memory);
    let c = cpu_section(s.cpu);
    let q = pids_section(s.pids);
    let i = io_section(s.io);
    lemma_lines_of_concat(m, c, p);
    assert(whole_lines(m + c));
    lemma_lines_of_concat(m + c, q, p);
    assert(whole_lines(m + c + q));
    lemma_lines_of_concat(m + c + q, i, p);
}

/// The devices the renderers list are exactly those whose read rate or write
/// rate is greater than zero, in the reading's order: `active` is the filter
/// of the reading's devices by that test.
pub proof fn lemma_listed_devices_are_those_that_moved_data(
    ds: Seq<IoDevice>,
    moved: spec_fn(IoDevice) -> bool,
)
    requires
        forall|d: IoDevice|
            #[trigger] moved(d) == (is_positive(d.read_bytes_per_sec.bits) || is_positive(
                d.write_bytes_per_sec.bits,
            )),
    ensures
        active(ds) == ds.filter(moved),
    decreases ds.len(),
{
    reveal(Seq::filter);
    if ds.len() > 0 {
        lemma_listed_devices_are_those_that_moved_data(ds.drop_last(), moved);
        assert(moved(ds.last()) == is_active(ds.last()));
    }
}

proof fn lemma_device_lines_flatten(ds: Seq<IoDevice>, lines: Seq<Seq<char>>)
    requires
        lines.len() == ds.len(),
        forall|k: int| 0 <= k < ds.len() ==> #[trigger] lines[k] == device_line(ds[k], k == 0),
    ensures
        device_lines(ds) == lines.flatten_alt(),
    decreases ds.len(),
{
    if ds.len() > 0 {
        let init = ds.drop_last();
        let front = lines.drop_last();
        assert forall|k: int| 0 <= k < init.len() implies #[trigger] front[k] == device_line(
            init[k],
            k == 0,
        ) by {
            assert(front[k] == lines[k]);
            assert(init[k] == ds[k]);
        }
        lemma_device_lines_flatten(init, front);
        assert(lines.last() == lines[lines.len() - 1]);
    }
}

/// The IO block of the human format gives each device that moved data (a
/// positive read or write rate) a line of its own, in the reading's order:
/// the first line carries the `IO:` label and the others are indented; each
/// holds the device's name, `r ` and its read rate, `w ` and its write rate,
/// a rate shown as `iec` of its integer part per second. With no such device
/// the block is the single line `IO:   no activity`.
pub proof fn lemma_human_io_lines(s: Stats, io: Io)
    requires
        s.io == Some(Ok::<Io, String>(io)),
    ensures
        ({
            let act = io.devices@.filter(
                |d: IoDevice|
                    is_positive(d.read_bytes_per_sec.bits) || is_positive(
                        d.write_bytes_per_sec.bits,
                    ),
            );
            let head = memory_section(s.memory) + cpu_section(s.cpu) + pids_section(s.pids);
            &&& act.len() == 0 ==> human_text(s) == head + "IO:   no activity\n"@
            &&& act.len() > 0 ==> human_text(s) == head + Seq::new(
                act.len(),
                |k: int|
                    (if k == 0 {
                        "IO:  "@
                    } else {
                        "     "@
                    }) + " "@ + act[k].device@ + "  r "@ + iec_text(
                        saturating_u64(act[k].read_bytes_per_sec.bits),
                    ) + "/s  w "@ + iec_text(saturating_u64(act[k].write_bytes_per_sec.bits))
                        + "/s\n"@,
            ).flatten()
        }),
{
    let moved = |d: IoDevice|
        is_positive(d.read_bytes_per_sec.bits) || is_positive(d.write_bytes_per_sec.bits);
    lemma_listed_devices_are_those_that_moved_data(io.devices@, moved);
    let act = io.devices@.filter(moved);
    if act.len() > 0 {
        let lines = Seq::new(
            act.len(),
            |k: int|
                (if k == 0 {
                    "IO:  "@
                } else {
                    "     "@
                }) + " "@ + act[k].device@ + "  r "@ + iec_text(
                    saturating_u64(act[k].read_bytes_per_sec.bits),
                ) + "/s  w "@ + iec_text(saturating_u64(act[k].write_bytes_per_sec.bits))
                    + "/s\n"@,
        );
        lemma_device_lines_flatten(act, lines);
        lines.lemma_flatten_and_flatten_alt_are_equivalent();
    }
}

/// The table gives each device that moved data (a positive read or write
/// rate) a row of its own, in the reading's order: `IO ` and the device's
/// name, then `r ` and the read rate, then `w ` and the write rate, a rate
/// shown as `iec` of its integer part per second. With no such device the IO
/// row says `no activity`.
pub proof fn lemma_table_io_rows(s: Stats, io: Io)
    requires
        s.io == Some(Ok::<Io, String>(io)),
    ensures
        ({
            let act = io.devices@.filter(
                |d: IoDevice|
                    is_positive(d.read_bytes_per_sec.bits) || is_positive(
                        d.write_bytes_per_sec.bits,
                    ),
            );
            let head = memory_rows(s.memory) + cpu_rows(s.cpu) + pids_rows(s.pids);
            &&& act.len() == 0 ==> table_body(s) == head + seq![
                seq!["IO"@, "no activity"@, ""@],
            ]
            &&& act.len() > 0 ==> table_body(s) == head + Seq::new(
                act.len(),
                |k: int|
                    seq![
                        "IO "@ + act[k].device@,
                        "r "@ + iec_text(saturating_u64(act[k].read_bytes_per_sec.bits)) + "/s"@,
                        "w "@ + iec_text(saturating_u64(act[k].write_bytes_per_sec.bits)) + "/s"@,
                    ],
            )
        }),
{
    let moved = |d: IoDevice|
        is_positive(d.read_bytes_per_sec.bits) || is_positive(d.write_bytes_per_sec.bits);
    lemma_listed_devices_are_those_that_moved_data(io.devices@, moved);
    let act = io.devices@.filter(moved);
    if act.len() > 0 {
        let rows = Seq::new(
            act.len(),
            |k: int|
                seq![
                    "IO "@ + act[k].device@,
                    "r "@ + iec_text(saturating_u64(act[k].read_bytes_per_sec.bits)) + "/s"@,
                    "w "@ + iec_text(saturating_u64(act[k].write_bytes_per_sec.bits)) + "/s"@,
                ],
        );
        assert(act.map_values(|d: IoDevice| device_row(d)) =~= rows);
    }
}

pub(crate) fn limit(v: Option<u64>) -> (r: String)
    ensures
        r@ == limit_text(v),
{
    match v {
        None => String::from_str("unlimited"),
        Some(b) => iec(b),
    }
}

fn memory_limits(memory: &Memory) -> (r: String)
    ensures
        r@ == memory_limits_text(*memory),
{
    match (memory.high, memory.max) {
        (None, max) => limit(max),
        (Some(high), None) => {
            let mut s = iec(high);
            s.append(" high");
            s
        },
        (Some(high), Some(max)) => {
            let mut s = iec(high);
            s.append(" high / ");
            let m = iec(max);
            s.append(m.as_str());
            s.append(" max");
            proof {
                assert(s@ =~= memory_limits_text(*memory));
            }
            s
        },
    }
}

fn cores(c: Option<F64Bits>) -> (r: String)
    ensures
        r@ == cores_text(c),
{
    match c {
        None => String::from_str("unlimited"),
        Some(x) => format_fixed2(x),
    }
}

fn count(c: Option<u64>) -> (r: String)
    ensures
        r@ == count_text(c),
{
    match c {
        None => String::from_str("unlimited"),
        Some(n) => decimal_string(n),
    }
}

fn rate(x: F64Bits) -> (r: String)
    ensures
        r@ == rate_text(x),
{
    iec(saturating_to_u64(x))
}

/// The devices that moved data during the sampling window.
fn active_devices(io: &Io) -> (r: Vec<&IoDevice>)
    ensures
        r@.map_values(|d: &IoDevice| *d) == active(io.devices@),
{
    let mut out: Vec<&IoDevice> = Vec::new();
    let mut i: usize = 0;
    proof {
        assert(io.devices@.take(0) =~= Seq::<IoDevice>::empty());
        assert(out@.map_values(|d: &IoDevice| *d) =~= Seq::<IoDevice>::empty());
    }
    while i < io.devices.len()
        invariant
            i <= io.devices@.len(),
            out@.map_values(|d: &IoDevice| *d) == active(io.devices@.take(i as int)),
        decreases io.devices@.len() - i,
    {
        let d = &io.devices[i];
        let ghost before = out@.map_values(|d: &IoDevice| *d);
        proof {
            assert(io.devices@.take(i + 1).drop_last() =~= io.devices@.take(i as int));
            assert(io.devices@.take(i + 1).last() == io.devices@[i as int]);
        }
        if is_positive_value(d.read_bytes_per_sec) || is_positive_value(d.write_bytes_per_sec) {
            out.push(d);
            proof {
                assert(out@.map_values(|d: &IoDevice| *d) =~= before.push(*d));
            }
        }
        i += 1;
    }
    proof {
        assert(io.devices@.take(i as int) =~= io.devices@);
    }
    out
}

/// Appends `a` and `b` to `out`.
fn append2(out: &mut String, a: &str, b: &str)
    ensures
        final(out)@ == old(out)@ + a@ + b@,
{
    out.append(a);
    out.append(b);
}

/// Appends `a`, `b` and `c` to `out`.
fn append3(out: &mut String, a: &str, b: &str, c: &str)
    ensures
        final(out)@ == old(out)@ + a@ + b@ + c@,
{
    out.append(a);
    out.append(b);
    out.append(c);
}

fn memory_part(memory: &Option<Result<Memory, String>>) -> (r: String)
    ensures
        r@ == memory_section(*memory),
{
    let mut out = String::new();
    match memory {
        Some(Ok(reading)) => {
            let cur = iec(reading.current);
            let lim = memory_limits(reading);
            append3(&mut out, "RAM:  ", cur.as_str(), " / ");
            append2(&mut out, lim.as_str(), "\n");
        },
        Some(Err(reason)) => {
            append3(&mut out, "RAM:  n/a (", reason.as_str(), ")\n");
        },
        None => {},
    }
    proof {
        assert(out@ =~= memory_section(*memory));
    }
    out
}

fn cpu_part(cpu: &Option<Result<Cpu, String>>) -> (r: String)
    ensures
        r@ == cpu_section(*cpu),
{
    let mut out = String::new();
    match cpu {
        Some(Ok(reading)) => {
            let used = format_fixed2(reading.used_cores);
            let max = cores(reading.max_cores);
            append3(&mut out, "CPU:  ", used.as_str(), " / ");
            append2(&mut out, max.as_str(), " cores\n");
        },
        Some(Err(reason)) => {
            append3(&mut out, "CPU:  n/a (", reason.as_str(), ")\n");
        },
        None => {},
    }
    proof {
        assert(out@ =~= cpu_section(*cpu));
    }
    out
}

fn pids_part(pids: &Option<Result<Pids, String>>) -> (r: String)
    ensures
        r@ == pids_section(*pids),
{
    let mut out = String::new();
    match pids {
        Some(Ok(reading)) => {
            let cur = decimal_string(reading.current);
            let max = count(reading.max);
            append3(&mut out, "PIDs: ", cur.as_str(), " / ");
            append2(&mut out, max.as_str(), "\n");
        },
        Some(Err(reason)) => {
            append3(&mut out, "PIDs: n/a (", reason.as_str(), ")\n");
        },
        None => {},
    }
    proof {
        assert(out@ =~= pids_section(*pids));
    }
    out
}

fn device_part(out: &mut String, device: &IoDevice, first: bool)
    ensures
        final(out)@ == old(out)@ + device_line(*device, first),
{
    let label = if first {
        "IO:  "
    } else {
        "     "
    };
    let r = rate(device.read_bytes_per_sec);
    let w = rate(device.write_bytes_per_sec);
    append3(out, label, " ", device.device.as_str());
    append3(out, "  r ", r.as_str(), "/s  w ");
    append2(out, w.as_str(), "/s\n");
    proof {
        assert(final(out)@ =~= old(out)@ + device_line(*device, first));
    }
}

fn io_part(io: &Option<Result<Io, String>>) -> (r: String)
    ensures
        r@ == io_section(*io),
{
    let mut out = String::new();
    match io {
        Some(Ok(reading)) => {
            let act = active_devices(reading);
            let ghost act_view = act@.map_values(|d: &IoDevice| *d);
            if act.len() == 0 {
                out.append("IO:   no activity\n");
            } else {
                let mut k: usize = 0;
                proof {
                    assert(act_view.take(0) =~= Seq::<IoDevice>::empty());
                    assert(out@ =~= device_lines(act_view.take(0)));
                }
                while k < act.len()
                    invariant
                        k <= act@.len(),
                        act_view == act@.map_values(|d: &IoDevice| *d),
                        out@ == device_lines(act_view.take(k as int)),
                    decreases act@.len() - k,
                {
                    let device = act[k];
                    proof {
                        assert(act_view.take(k + 1).drop_last() =~= act_view.take(k as int));
                        assert(act_view.take(k + 1).last() == *device);
                    }
                    device_part(&mut out, device, k == 0);
                    k += 1;
                }
                proof {
                    assert(act_view.take(k as int) =~= act_view);
                }
            }
        },
        Some(Err(reason)) => {
            append3(&mut out, "IO:   n/a (", reason.as_str(), ")\n");
        },
        None => {},
    }
    out
}

/// The human rendering of a reading.
pub fn human(stats: &Stats) -> (r: String)
    ensures
        r@ == human_text(*stats),
{
    let mut out = memory_part(&stats.memory);
    let cpu = cpu_part(&stats.cpu);
    let pids = pids_part(&stats.pids);
    let io = io_part(&stats.io);
    out.append(cpu.as_str());
    out.append(pids.as_str());
    out.append(io.as_str());
    out
}


pub open spec fn memory_rows(m: Option<Result<Memory, String>>) -> Seq<Seq<Seq<char>>> {
    match m {
        None => seq![],
        Some(Ok(r)) => seq![seq!["RAM"@, iec_text(r.current as nat), memory_limits_text(r)]],
        Some(Err(e)) => seq![seq!["RAM"@, "n/a"@, e@]],
    }
}

pub open spec fn cpu_rows(c: Option<Result<Cpu, String>>) -> Seq<Seq<Seq<char>>> {
    match c {
        None => seq![],
        Some(Ok(r)) => seq![
            seq!["CPU (cores)"@, fixed2_text(r.used_cores.bits), cores_text(r.max_cores)],
        ],
        Some(Err(e)) => seq![seq!["CPU (cores)"@, "n/a"@, e@]],
    }
}

pub open spec fn pids_rows(p: Option<Result<Pids, String>>) -> Seq<Seq<Seq<char>>> {
    match p {
        None => seq![],
        Some(Ok(r)) => seq![seq!["PIDs"@, decimal(r.current as nat), count_text(r.max)]],
        Some(Err(e)) => seq![seq!["PIDs"@, "n/a"@, e@]],
    }
}

/// The table row of one active device.
pub open spec fn device_row(d: IoDevice) -> Seq<Seq<char>> {
    seq![
        "IO "@ + d.device@,
        "r "@ + rate_text(d.read_bytes_per_sec) + "/s"@,
        "w "@ + rate_text(d.write_bytes_per_sec) + "/s"@,
    ]
}

pub open spec fn io_rows(i: Option<Result<Io, String>>) -> Seq<Seq<Seq<char>>> {
    match i {
        None => seq![],
        Some(Ok(r)) => if active(r.devices@).len() == 0 {
            seq![seq!["IO"@, "no activity"@, ""@]]
        } else {
            active(r.devices@).map_values(|d: IoDevice| device_row(d))
        },
        Some(Err(e)) => seq![seq!["IO"@, "n/a"@, e@]],
    }
}

/// The body rows of the table rendering, in the order memory, CPU, PIDs, IO.
pub open spec fn table_body(s: Stats) -> Seq<Seq<Seq<char>>> {
    memory_rows(s.memory) + cpu_rows(s.cpu) + pids_rows(s.pids) + io_rows(s.io)
}

/// The header of the table rendering.
pub open spec fn table_head() -> Seq<Seq<char>> {
    seq!["Metric"@, "Current"@, "Limit"@]
}

fn cells3(a: String, b: String, c: String) -> (r: Vec<String>)
    ensures
        cell_texts(r@) == seq![a@, b@, c@],
{
    let r = vec![a, b, c];
    proof {
        assert(cell_texts(r@) =~= seq![a@, b@, c@]);
    }
    r
}

fn str3(a: &str, b: &str, c: &str) -> (r: Vec<String>)
    ensures
        cell_texts(r@) == seq![a@, b@, c@],
{
    cells3(String::from_str(a), String::from_str(b), String::from_str(c))
}

/// The table rendering of a reading: comfy_table's `UTF8_FULL` table with the
/// header `Metric | Current | Limit` and one row per requested metric (one
/// per active device for IO).
pub fn table(stats: &Stats) -> (r: String)
    ensures
        r@ == rendered_table(utf8_full(), Some(table_head()), table_body(*stats)),
{
    let mut grid = new_table();
    load_utf8_full(&mut grid);
    set_header(&mut grid, str3("Metric", "Current", "Limit"));
    match &stats.memory {
        Some(Ok(reading)) => {
            add_row(
                &mut grid,
                cells3(String::from_str("RAM"), iec(reading.current), memory_limits(reading)),
            );
        },
        Some(Err(reason)) => {
            add_row(&mut grid, cells3(String::from_str("RAM"), String::from_str("n/a"), reason.clone()));
        },
        None => {},
    }
    proof {
        assert(table_rows(grid) =~= memory_rows(stats.memory));
    }
    let ghost after_mem = table_rows(grid);
    match &stats.cpu {
        Some(Ok(reading)) => {
            add_row(
                &mut grid,
                cells3(
                    String::from_str("CPU (cores)"),
                    format_fixed2(reading.used_cores),
                    cores(reading.max_cores),
                ),
            );
        },
        Some(Err(reason)) => {
            add_row(
                &mut grid,
                cells3(String::from_str("CPU (cores)"), String::from_str("n/a"), reason.clone()),
            );
        },
        None => {},
    }
    proof {
        assert(table_rows(grid) =~= after_mem + cpu_rows(stats.cpu));
    }
    let ghost after_cpu = table_rows(grid);
    match &stats.pids {
        Some(Ok(reading)) => {
            add_row(
                &mut grid,
                cells3(String::from_str("PIDs"), decimal_string(reading.current), count(reading.max)),
            );
        },
        Some(Err(reason)) => {
            add_row(&mut grid, cells3(String::from_str("PIDs"), String::from_str("n/a"), reason.clone()));
        },
        None => {},
    }
    proof {
        assert(table_rows(grid) =~= after_cpu + pids_rows(stats.pids));
    }
    let ghost after_pids = table_rows(grid);
    match &stats.io {
        Some(Ok(reading)) => {
            let act = active_devices(reading);
            let ghost act_view = act@.map_values(|d: &IoDevice| *d);
            if act.len() == 0 {
                add_row(&mut grid, str3("IO", "no activity", ""));
            } else {
                let mut k: usize = 0;
                proof {
                    assert(act_view.take(0).map_values(|d: IoDevice| device_row(d)) =~= Seq::<
                        Seq<Seq<char>>,
                    >::empty());
                    assert(after_pids =~= after_pids + Seq::<Seq<Seq<char>>>::empty());
                }
                while k < act.len()
                    invariant
                        k <= act@.len(),
                        act_view == act@.map_values(|d: &IoDevice| *d),
                        table_is_plain(grid),
                        table_style(grid) == utf8_full(),
                        table_header(grid) == Some(table_head()),
                        table_rows(grid) == after_pids + act_view.take(k as int).map_values(
                            |d: IoDevice| device_row(d),
                        ),
                    decreases act@.len() - k,
                {
                    let device = act[k];
                    let mut name = String::from_str("IO ");
                    name.append(device.device.as_str());
                    let mut rd = String::from_str("r ");
                    let r = rate(device.read_bytes_per_sec);
                    rd.append(r.as_str());
                    rd.append("/s");
                    let mut wr = String::from_str("w ");
                    let w = rate(device.write_bytes_per_sec);
                    wr.append(w.as_str());
                    wr.append("/s");
                    let ghost before = table_rows(grid);
                    add_row(&mut grid, cells3(name, rd, wr));
                    proof {
                        assert(act_view[k as int] == *device);
                        assert(act_view.take(k + 1).map_values(|d: IoDevice| device_row(d))
                            =~= act_view.take(k as int).map_values(|d: IoDevice| device_row(d)).push(
                            device_row(*device),
                        ));
                        assert(cell_texts(seq![name, rd, wr]) =~= device_row(*device));
                    }
                    k += 1;
                }
                proof {
                    assert(act_view.take(k as int) =~= act_view);
                }
            }
        },
        Some(Err(reason)) => {
            add_row(&mut grid, cells3(String::from_str("IO"), String::from_str("n/a"), reason.clone()));
        },
        None => {},
    }
    proof {
        assert(table_rows(grid) =~= table_body(*stats));
    }
    render(&grid)
}

} // verus!
