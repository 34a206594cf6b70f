# cgroup-stats-cli

Live cgroup v2 resource usage: CPU as cores, memory, PIDs and block IO.

The library (`src/`) holds the parts with contracts proved by Verus:

- `utils/parse.rs` — the cgroup file formats: flat-keyed files (`cpu.stat`),
  `cpu.max`, `io.stat`, and limits that may read `max`.
- `utils/text.rs` — whitespace and line splitting, `u64` parsing and decimal
  printing, as std does them.
- `utils/bytes.rs` — IEC byte formatting, with the value taken as a double.
- `utils/float.rs` — doubles carried by their bit pattern: `{:.2}` printing,
  `as u64`, `> 0.0` and `==`.
- `utils/cgfile.rs` — the checks that a cgroup's files are present and the
  verdict naming the first missing one, path joining, the block-device
  directory, path normalisation.
- `task/metrics.rs` — the reading types and the collectors' decisions: a
  missing file is reported as such rather than read as zero or unlimited,
  `usage_usec`, `cpu.max`, pairing of `io.stat` samples.
- `task/format.rs`, `task/grid.rs` — the human and table renderers.
- `cli.rs` — metric selection.

`app/` is the command-line program around it: argument parsing, reading the
kernel's files, the sampling sleep, rates as doubles and the JSON output.
