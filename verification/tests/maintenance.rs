//! When maintenance runs, and with what.
use zdb_core::maintenance::{check_write_threshold, maybe_auto_run, plan_run};
use zdb_core::types::MaintenanceConfig;

fn config(auto_enabled: bool, write_threshold: u32) -> MaintenanceConfig {
    MaintenanceConfig {
        auto_enabled,
        write_threshold,
    }
}

#[test]
fn maybe_auto_run_skips_when_disabled() {
    // Default config has auto_enabled = false; this should be a no-op.
    assert!(!maybe_auto_run(&MaintenanceConfig::default()));
}

#[test]
fn maybe_auto_run_runs_when_enabled() {
    assert!(maybe_auto_run(&config(true, 50)));
}

#[test]
fn check_write_threshold_skips_when_disabled() {
    // Default: auto_enabled = false. Should increment but not trigger maintenance.
    for count in 0..60 {
        assert!(!check_write_threshold(&MaintenanceConfig::default(), count));
    }
}

#[test]
fn check_write_threshold_triggers_at_threshold() {
    let c = config(true, 3);
    assert!(!check_write_threshold(&c, 1));
    assert!(!check_write_threshold(&c, 2));
    assert!(check_write_threshold(&c, 3));
    // After trigger, counter resets; next call should not trigger.
    assert!(!check_write_threshold(&c, 1));
}

#[test]
fn a_threshold_of_zero_never_triggers() {
    assert!(!check_write_threshold(&config(true, 0), 1000));
}

#[test]
fn tasks_are_named_one_by_one() {
    let tasks = Some(vec!["commit-graph".to_string(), "gc".to_string()]);
    let call = plan_run(true, &tasks);
    assert_eq!(
        call.args,
        ["maintenance", "run", "--task=commit-graph", "--task=gc"]
    );
    assert_eq!(call.tasks_run, ["commit-graph", "gc"]);
    assert!(!call.fallback_used);
}

#[test]
fn collecting_garbage_stands_in_for_maintenance() {
    let call = plan_run(false, &None);
    assert_eq!(call.args, ["gc", "--auto"]);
    assert!(call.fallback_used);
}
