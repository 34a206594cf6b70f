use cgroup_stats_cli::cli::{selection, Format, Selection};

#[test]
fn no_metric_flags_selects_everything() {
    let s = selection(false, false, false, false);
    assert!(s.cpu && s.mem && s.pids && s.io);
}

#[test]
fn explicit_flags_select_only_those() {
    let s = selection(true, true, false, false);
    assert!(s.cpu && s.mem);
    assert!(!s.pids && !s.io);
}

#[test]
fn sampling_needed_only_for_delta_metrics() {
    let mem_only = selection(false, true, false, false);
    assert!(!mem_only.needs_sampling());

    let with_cpu = selection(true, false, false, false);
    assert!(with_cpu.needs_sampling());

    let with_io = selection(false, false, false, true);
    assert!(with_io.needs_sampling());

    let pids_only = selection(false, false, true, false);
    assert!(!pids_only.needs_sampling());
}

#[test]
fn the_default_selection_samples() {
    assert!(selection(false, false, false, false).needs_sampling());
}

#[test]
fn selection_fields_are_plain_values() {
    let s = Selection { cpu: false, mem: true, pids: false, io: false };
    assert!(!s.needs_sampling());
    assert_ne!(Format::Human, Format::Json);
}
