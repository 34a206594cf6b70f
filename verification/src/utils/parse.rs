//! Parsers for the cgroup v2 file formats: flat-keyed files (`cpu.stat`),
//! `cpu.max` and `io.stat`, and the reading of a limit that may be `max`.
use crate::utils::text::{
    char_rows, chars_of, decimal, is_digit, is_ws, lemma_decimal_digits,
    lemma_parse_decimal_roundtrip, lemma_words_append_word, lemma_words_push_ws, line_words,
    parse_u64, parse_u64_chars, pieces, same_chars, same_vec, split_pieces, split_words, string_of,
    words,
};
use vstd::prelude::*;

verus! {

/// The value that a line with these words holds for `key`: the line's first
/// word is `key` and its second word parses as a `u64`.
pub open spec fn flat_line_value(ws: Seq<Seq<char>>, key: Seq<char>) -> Option<u64> {
    if ws.len() >= 2 && ws[0] == key {
        parse_u64(ws[1])
    } else {
        None
    }
}

/// The value of the first line, among `lines`, that holds one for `key`.
pub open spec fn first_flat_value(lines: Seq<Seq<Seq<char>>>, key: Seq<char>) -> Option<u64>
    decreases lines.len(),
{
    if lines.len() == 0 {
        None
    } else {
        match flat_line_value(lines[0], key) {
            Some(v) => Some(v),
            None => first_flat_value(lines.drop_first(), key),
        }
    }
}

/// Read one value out of a flat-keyed cgroup file (`key value` per line), the
/// format used by `cpu.stat`, `memory.stat` and friends.
///
/// The result is the value of the first line whose first word is exactly
/// `key` and whose second word is a `u64`; `None` when no line qualifies.
pub fn parse_flat_key(text: &str, key: &str) -> (r: Option<u64>)
    ensures
        r == first_flat_value(line_words(text@), key@),
{
    let chars = chars_of(text);
    let key_chars = chars_of(key);
    let lines = split_pieces(&chars);
    let ghost all = line_words(text@);
    proof {
        assert(all.len() == lines@.len());
    }
    let mut i: usize = 0;
    proof {
        assert(all.skip(0) =~= all);
    }
    while i < lines.len()
        invariant
            i <= lines.len(),
            all == line_words(text@),
            char_rows(lines@) == pieces(text@),
            all.len() == lines@.len(),
            key_chars@ == key@,
            first_flat_value(all.skip(i as int), key@) == first_flat_value(all, key@),
        decreases lines.len() - i,
    {
        let ws = split_words(&lines[i]);
        proof {
            assert(lines@[i as int]@ == pieces(text@)[i as int]);
            assert(char_rows(ws@) == all[i as int]);
            assert(all.skip(i as int)[0] == all[i as int]);
            assert(all.skip(i as int).drop_first() =~= all.skip(i + 1));
        }
        if ws.len() >= 2 && same_vec(&ws[0], &key_chars) {
            proof {
                assert(ws@[0]@ == char_rows(ws@)[0]);
                assert(ws@[1]@ == char_rows(ws@)[1]);
            }
            let v = parse_u64_chars(&ws[1]);
            if v.is_some() {
                return v;
            }
        } else {
            proof {
                if ws.len() >= 2 {
                    assert(ws@[0]@ == char_rows(ws@)[0]);
                }
            }
        }
        i += 1;
    }
    None
}

/// What `cpu.max` holds: `<quota> <period>`, both numbers, with a period
/// that is not zero; `None` otherwise (which covers the literal `max`).
pub open spec fn cpu_max_value(text: Seq<char>) -> Option<(u64, u64)> {
    let ws = words(text);
    if ws.len() >= 2 && parse_u64(ws[1]) is Some && parse_u64(ws[1]).unwrap() != 0 && parse_u64(
        ws[0],
    ) is Some {
        Some((parse_u64(ws[0]).unwrap(), parse_u64(ws[1]).unwrap()))
    } else {
        None
    }
}

/// `cpu.max` holding any quota and any non-zero period, written as the
/// kernel writes them (with or without the final newline), reads as that
/// quota and that period, whatever their ratio: a quota below the period (a
/// fraction of a core) is as valid as one above it.
pub proof fn lemma_cpu_max_reads_quota_and_period(quota: u64, period: u64)
    requires
        period != 0,
    ensures
        cpu_max_value(decimal(quota as nat) + " "@ + decimal(period as nat)) == Some((quota, period)),
        cpu_max_value(decimal(quota as nat) + " "@ + decimal(period as nat) + "\n"@) == Some(
            (quota, period),
        ),
{
    reveal_strlit(" ");
    reveal_strlit("\n");
    let q = decimal(quota as nat);
    let p = decimal(period as nat);
    lemma_decimal_digits(quota as nat);
    lemma_decimal_digits(period as nat);
    assert forall|i: int| 0 <= i < q.len() implies !is_ws(#[trigger] q[i]) by {
        assert(is_digit(q[i]));
    }
    assert forall|i: int| 0 <= i < p.len() implies !is_ws(#[trigger] p[i]) by {
        assert(is_digit(p[i]));
    }
    lemma_words_append_word(Seq::<char>::empty(), q);
    assert(Seq::<char>::empty() + q =~= q);
    assert(q + " "@ =~= q.push(' '));
    lemma_words_push_ws(q, ' ');
    lemma_words_append_word(q + " "@, p);
    assert(q + " "@ + p + "\n"@ =~= (q + " "@ + p).push('\n'));
    lemma_words_push_ws(q + " "@ + p, '\n');
    assert(words(q + " "@ + p) =~= seq![q, p]);
    lemma_parse_decimal_roundtrip(quota);
    lemma_parse_decimal_roundtrip(period);
}

/// Parse `cpu.max`, which holds `<quota> <period>` where quota may be the
/// literal `max`. Returns `None` for unlimited, for unparseable content, and
/// for a zero period, which would otherwise hand the caller a divide-by-zero.
pub fn parse_cpu_max(text: &str) -> (r: Option<(u64, u64)>)
    ensures
        r == cpu_max_value(text@),
        r matches Some((_, period)) ==> period != 0,
{
    let chars = chars_of(text);
    let ws = split_words(&chars);
    if ws.len() < 2 {
        return None;
    }
    proof {
        assert(ws@[0]@ == char_rows(ws@)[0]);
        assert(ws@[1]@ == char_rows(ws@)[1]);
    }
    let period = match parse_u64_chars(&ws[1]) {
        Some(p) => p,
        None => return None,
    };
    if period == 0 {
        return None;
    }
    match parse_u64_chars(&ws[0]) {
        Some(quota) => Some((quota, period)),
        None => None,
    }
}

/// One device's counters as they appear in `io.stat`.
#[derive(Debug, Clone, PartialEq, Eq)]
pub struct RawIo {
    pub device: String,
    pub rbytes: u64,
    pub wbytes: u64,
}

impl View for RawIo {
    type V = (Seq<char>, u64, u64);

    open spec fn view(&self) -> (Seq<char>, u64, u64) {
        (self.device@, self.rbytes, self.wbytes)
    }
}

/// The part of `s` before the first `c` and the part after it.
pub open spec fn split_once(s: Seq<char>, c: char) -> Option<(Seq<char>, Seq<char>)>
    decreases s.len(),
{
    if s.len() == 0 {
        None
    } else if s[0] == c {
        Some((seq![], s.drop_first()))
    } else {
        match split_once(s.drop_first(), c) {
            Some((a, b)) => Some((seq![s[0]] + a, b)),
            None => None,
        }
    }
}

/// The `rbytes` and `wbytes` values that the `key=value` fields leave behind,
/// read left to right: each field whose key matches replaces the value, with
/// `None` when its value does not parse.
pub open spec fn io_counters(fields: Seq<Seq<char>>) -> (Option<u64>, Option<u64>)
    decreases fields.len(),
{
    if fields.len() == 0 {
        (None, None)
    } else {
        let (r, w) = io_counters(fields.drop_last());
        match split_once(fields.last(), '=') {
            Some((k, v)) => if k == "rbytes"@ {
                (parse_u64(v), w)
            } else if k == "wbytes"@ {
                (r, parse_u64(v))
            } else {
                (r, w)
            },
            None => (r, w),
        }
    }
}

/// The device that a line of `io.stat` with these words describes: its
/// first word holds a `:` and both counters are present.
pub open spec fn io_line(ws: Seq<Seq<char>>) -> Option<(Seq<char>, u64, u64)> {
    if ws.len() == 0 || !ws[0].contains(':') {
        None
    } else {
        let (r, w) = io_counters(ws.drop_first());
        match (r, w) {
            (Some(rb), Some(wb)) => Some((ws[0], rb, wb)),
            _ => None,
        }
    }
}

/// The devices that the lines describe, in order, skipping the other lines.
pub open spec fn io_devices(lines: Seq<Seq<Seq<char>>>) -> Seq<(Seq<char>, u64, u64)>
    decreases lines.len(),
{
    if lines.len() == 0 {
        seq![]
    } else {
        let prev = io_devices(lines.drop_last());
        match io_line(lines.last()) {
            Some(d) => prev.push(d),
            None => prev,
        }
    }
}

/// Every device that `io.stat` yields is named by a word holding a `:`
/// (the `major:minor` form), kept as text.
pub proof fn lemma_io_devices_are_major_minor(lines: Seq<Seq<Seq<char>>>)
    ensures
        forall|i: int|
            0 <= i < io_devices(lines).len() ==> (#[trigger] io_devices(lines)[i]).0.contains(':'),
    decreases lines.len(),
{
    if lines.len() > 0 {
        lemma_io_devices_are_major_minor(lines.drop_last());
        let prev = io_devices(lines.drop_last());
        match io_line(lines.last()) {
            Some(d) => {
                assert forall|i: int| 0 <= i < io_devices(lines).len() implies (
                #[trigger] io_devices(lines)[i]).0.contains(':') by {
                    if i < prev.len() {
                        assert(io_devices(lines)[i] == prev[i]);
                    }
                }
            },
            None => {},
        }
    }
}

proof fn lemma_split_once_at(s: Seq<char>, c: char, i: int)
    requires
        0 <= i < s.len(),
        s[i] == c,
        forall|j: int| 0 <= j < i ==> s[j] != c,
    ensures
        split_once(s, c) == Some((s.take(i), s.skip(i + 1))),
    decreases i,
{
    if i > 0 {
        lemma_split_once_at(s.drop_first(), c, i - 1);
        assert(seq![s[0]] + s.drop_first().take(i - 1) =~= s.take(i));
        assert(s.drop_first().skip(i) =~= s.skip(i + 1));
    } else {
        assert(s.take(0) =~= Seq::<char>::empty());
        assert(s.skip(1) =~= s.drop_first());
    }
}

proof fn lemma_split_once_none(s: Seq<char>, c: char)
    requires
        forall|j: int| 0 <= j < s.len() ==> s[j] != c,
    ensures
        split_once(s, c) is None,
    decreases s.len(),
{
    if s.len() > 0 {
        lemma_split_once_none(s.drop_first(), c);
    }
}

/// The position of the first `c` in `s`.
fn find_char(s: &Vec<char>, c: char) -> (r: Option<usize>)
    ensures
        r matches Some(i) ==> i < s.len() && s@[i as int] == c && forall|j: int|
            0 <= j < i ==> s@[j] != c,
        r is None ==> forall|j: int| 0 <= j < s.len() ==> s@[j] != c,
{
    let mut i: usize = 0;
    while i < s.len()
        invariant
            i <= s.len(),
            forall|j: int| 0 <= j < i ==> s@[j] != c,
        decreases s.len() - i,
    {
        if s[i] == c {
            return Some(i);
        }
        i += 1;
    }
    None
}

/// Splits `s` at its first `c`, as `str::split_once` does.
fn split_once_chars(s: &Vec<char>, c: char) -> (r: Option<(Vec<char>, Vec<char>)>)
    ensures
        match r {
            Some((a, b)) => split_once(s@, c) == Some((a@, b@)),
            None => split_once(s@, c) is None,
        },
{
    match find_char(s, c) {
        None => {
            proof {
                lemma_split_once_none(s@, c);
            }
            None
        },
        Some(i) => {
            let mut a: Vec<char> = Vec::new();
            let mut b: Vec<char> = Vec::new();
            let mut j: usize = 0;
            while j < s.len()
                invariant
                    i < s.len(),
                    j <= s.len(),
                    j <= i ==> a@ == s@.take(j as int) && b@.len() == 0,
                    j > i ==> a@ == s@.take(i as int) && b@ == s@.subrange(i + 1, j as int),
                decreases s.len() - j,
            {
                if j < i {
                    a.push(s[j]);
                    proof {
                        assert(a@ =~= s@.take(j + 1));
                    }
                } else if j > i {
                    b.push(s[j]);
                    proof {
                        assert(b@ =~= s@.subrange(i + 1, j + 1));
                    }
                } else {
                    proof {
                        assert(b@ =~= s@.subrange(i + 1, j + 1));
                    }
                }
                j += 1;
            }
            proof {
                lemma_split_once_at(s@, c, i as int);
                assert(b@ =~= s@.skip(i + 1));
            }
            Some((a, b))
        },
    }
}

/// The counters that the fields of one `io.stat` line carry.
fn io_line_counters(ws: &Vec<Vec<char>>) -> (r: (Option<u64>, Option<u64>))
    requires
        ws.len() >= 1,
    ensures
        r == io_counters(char_rows(ws@).drop_first()),
{
    let ghost fields = char_rows(ws@).drop_first();
    let mut rbytes: Option<u64> = None;
    let mut wbytes: Option<u64> = None;
    let mut i: usize = 1;
    proof {
        assert(fields.take(0) =~= Seq::<Seq<char>>::empty());
    }
    while i < ws.len()
        invariant
            1 <= i <= ws.len(),
            fields == char_rows(ws@).drop_first(),
            (rbytes, wbytes) == io_counters(fields.take(i - 1)),
        decreases ws.len() - i,
    {
        proof {
            assert(fields.take(i as int).drop_last() =~= fields.take(i - 1));
            assert(fields.take(i as int).last() == ws@[i as int]@);
        }
        match split_once_chars(&ws[i], '=') {
            Some((k, v)) => {
                if same_chars(&k, "rbytes") {
                    rbytes = parse_u64_chars(&v);
                } else if same_chars(&k, "wbytes") {
                    wbytes = parse_u64_chars(&v);
                }
            },
            None => {},
        }
        i += 1;
    }
    proof {
        assert(fields.take(i - 1) =~= fields);
    }
    (rbytes, wbytes)
}

/// Whether `s` holds the character `c`.
fn has_char(s: &Vec<char>, c: char) -> (r: bool)
    ensures
        r == s@.contains(c),
{
    match find_char(s, c) {
        Some(i) => {
            proof {
                assert(s@[i as int] == c);
            }
            true
        },
        None => false,
    }
}

/// Parse `io.stat`: `<major>:<minor> key=value key=value ...`.
///
/// Unlike the parser in cgroups-rs this does not require exactly seven fields,
/// so lines carrying iocost keys survive, and it keeps the device as text
/// rather than parsing the minor into an `i16` that overflows past 32767.
/// A line counts when its first word holds a `:` and it carries parseable
/// `rbytes` and `wbytes` values (the last of each wins); other lines are
/// skipped.
pub fn parse_io_stat(text: &str) -> (r: Vec<RawIo>)
    ensures
        r@.map_values(|d: RawIo| d@) == io_devices(line_words(text@)),
{
    let chars = chars_of(text);
    let lines = split_pieces(&chars);
    let ghost all = line_words(text@);
    let mut out: Vec<RawIo> = Vec::new();
    let mut i: usize = 0;
    proof {
        assert(all.take(0) =~= Seq::<Seq<Seq<char>>>::empty());
        assert(out@.map_values(|d: RawIo| d@) =~= Seq::<(Seq<char>, u64, u64)>::empty());
    }
    while i < lines.len()
        invariant
            i <= lines.len(),
            all == line_words(text@),
            char_rows(lines@) == pieces(text@),
            all.len() == lines@.len(),
            out@.map_values(|d: RawIo| d@) == io_devices(all.take(i as int)),
        decreases lines.len() - i,
    {
        let ws = split_words(&lines[i]);
        let ghost before = out@.map_values(|d: RawIo| d@);
        proof {
            assert(lines@[i as int]@ == pieces(text@)[i as int]);
            assert(char_rows(ws@) == all[i as int]);
            assert(all.take(i + 1).drop_last() =~= all.take(i as int));
            assert(all.take(i + 1).last() == all[i as int]);
        }
        if ws.len() >= 1 {
            proof {
                assert(ws@[0]@ == char_rows(ws@)[0]);
            }
            if has_char(&ws[0], ':') {
                let (rb, wb) = io_line_counters(&ws);
                match (rb, wb) {
                    (Some(rbytes), Some(wbytes)) => {
                        let device = string_of(&ws[0]);
                        out.push(RawIo { device, rbytes, wbytes });
                        proof {
                            assert(out@.map_values(|d: RawIo| d@) =~= before.push(
                                (ws@[0]@, rbytes, wbytes),
                            ));
                        }
                    },
                    _ => {},
                }
            }
        }
        i += 1;
    }
    proof {
        assert(all.take(i as int) =~= all);
    }
    out
}

/// A cgroup limit as the kernel writes it: the literal `max`, or a number.
#[derive(Debug, Clone, Copy, PartialEq, Eq)]
pub enum MaxValue {
    Max,
    Value(i64),
}

/// A limit as this crate reports it: `None` for no limit, which also covers
/// an absent reading and a negative number.
pub open spec fn limit_of(value: Option<MaxValue>) -> Option<u64> {
    match value {
        Some(MaxValue::Value(bytes)) => if bytes < 0 {
            None
        } else {
            Some(bytes as u64)
        },
        _ => None,
    }
}

/// Turns a limit reading into `Some(bytes)`, or `None` for unlimited.
pub fn max_value_to_option(value: Option<MaxValue>) -> (r: Option<u64>)
    ensures
        r == limit_of(value),
{
    match value {
        None | Some(MaxValue::Max) => None,
        Some(MaxValue::Value(bytes)) => if bytes < 0 {
            None
        } else {
            Some(bytes as u64)
        },
    }
}

} // verus!
