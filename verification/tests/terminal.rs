use cship::config::CshipConfig;
use cship::terminal::{
    apply_offset, statusline_width, ProbeStep, TerminalProbe, DEFAULT_OFFSET, MAX_ANCESTORS,
};

#[test]
fn test_apply_offset_subtracts() {
    assert_eq!(apply_offset(100, 3), 97);
    assert_eq!(apply_offset(50, 3), 47);
}

#[test]
fn test_apply_offset_clamps_to_one() {
    assert_eq!(apply_offset(2, 10), 1);
    assert_eq!(apply_offset(1, 1), 1);
}

#[test]
fn test_default_offset_constant_is_three() {
    assert_eq!(DEFAULT_OFFSET, 3);
}

#[test]
fn test_statusline_width_applies_offset_when_detection_absent() {
    // No ancestor terminal and no $COLUMNS: the configured width applies.
    let cfg = CshipConfig { width: Some(100), width_offset: Some(5), ..Default::default() };
    assert_eq!(statusline_width(None, None, &cfg), 95);
}

// --- further cases ---

#[test]
fn statusline_width_resolution_order() {
    let cfg = CshipConfig { width: Some(100), ..Default::default() };
    assert_eq!(statusline_width(Some(120), Some(90), &cfg), 117);
    assert_eq!(statusline_width(None, Some(90), &cfg), 87);
    assert_eq!(statusline_width(None, None, &cfg), 97);
    assert_eq!(statusline_width(None, None, &CshipConfig::default()), 77);
    let cfg = CshipConfig { width_offset: Some(200), ..Default::default() };
    assert_eq!(statusline_width(None, None, &cfg), 1);
}

#[test]
fn probe_reads_first_tty_of_ancestors() {
    let (mut probe, step) = TerminalProbe::start(500);
    assert_eq!(step, ProbeStep::InspectProcess(500));
    // no controlling tty: move to the parent
    assert_eq!(probe.on_process(Some((400, 0))), ProbeStep::InspectProcess(400));
    // a tty device: read its columns
    assert_eq!(probe.on_process(Some((300, 34816))), ProbeStep::ReadColumns(34816));
    // zero columns: keep walking
    assert_eq!(probe.on_columns(Some(0)), ProbeStep::InspectProcess(300));
    assert_eq!(probe.on_process(Some((1, 34817))), ProbeStep::ReadColumns(34817));
    assert_eq!(probe.on_columns(Some(132)), ProbeStep::Finished(Some(132)));
}

#[test]
fn probe_stops_at_root_and_on_errors() {
    let (mut probe, _) = TerminalProbe::start(1);
    assert_eq!(probe.on_process(Some((0, u64::from(u32::MAX)))), ProbeStep::Finished(None));
    let (mut probe, _) = TerminalProbe::start(7);
    assert_eq!(probe.on_process(None), ProbeStep::Finished(None));
    let (mut probe, _) = TerminalProbe::start(7);
    assert_eq!(probe.on_process(Some((7, 0))), ProbeStep::Finished(None));
}

#[test]
fn probe_inspects_at_most_sixteen_processes() {
    let (mut probe, mut step) = TerminalProbe::start(10_000);
    let mut inspected = 0;
    while let ProbeStep::InspectProcess(pid) = step {
        inspected += 1;
        step = probe.on_process(Some((pid - 1, 0)));
    }
    assert_eq!(inspected, MAX_ANCESTORS);
    assert_eq!(step, ProbeStep::Finished(None));
}
