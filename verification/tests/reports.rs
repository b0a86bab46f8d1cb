//! What `backup` does after planning and what a run reports.

use photoflow::commands::backup::{
    is_transient, plan_uploads, step_after_plan, BackupReport, Candidate, FailureKind, Plan,
    RunStep,
};
use photoflow::commands::clean::{total_victim_bytes, Victim};

fn cand(key: &str, size: u64) -> Candidate {
    Candidate {
        key: key.to_string(),
        path: format!("/p/{key}"),
        size,
    }
}

fn two_pending() -> Plan {
    let cs = vec![cand("a.NEF", 10), cand("b.NEF", 20), cand("c.mov", 30)];
    plan_uploads(&cs, &[None, Some(20), Some(1)])
}

#[test]
fn dry_run_only_reports() {
    let plan = two_pending();
    assert_eq!(step_after_plan(&plan, true, false, true), RunStep::ReportDryRun);
    assert_eq!(step_after_plan(&plan, true, true, false), RunStep::ReportDryRun);
}

#[test]
fn nothing_pending_reports_up_to_date() {
    let plan = plan_uploads(&[cand("a.NEF", 10)], &[Some(10)]);
    assert_eq!(step_after_plan(&plan, false, false, true), RunStep::ReportUpToDate);
}

#[test]
fn confirmation_only_when_interactive_without_yes() {
    let plan = two_pending();
    assert_eq!(step_after_plan(&plan, false, false, true), RunStep::Confirm);
    assert_eq!(step_after_plan(&plan, false, true, true), RunStep::Upload);
    assert_eq!(step_after_plan(&plan, false, false, false), RunStep::Upload);
}

#[test]
fn dry_run_report_lists_pending_keys() {
    let plan = two_pending();
    let r = BackupReport::for_dry_run(&plan);
    assert!(r.dry_run && !r.cancelled);
    assert_eq!(r.uploaded, 0);
    assert_eq!(r.skipped, 1);
    assert_eq!(r.pending, 2);
    assert_eq!(r.pending_bytes, 40);
    assert_eq!(r.keys, vec!["a.NEF", "c.mov"]);
}

#[test]
fn up_to_date_report() {
    let plan = plan_uploads(&[cand("a.NEF", 10)], &[Some(10)]);
    let r = BackupReport::for_up_to_date(&plan);
    assert!(!r.dry_run && !r.cancelled);
    assert_eq!(r.skipped, 1);
    assert_eq!(r.pending, 0);
    assert!(r.keys.is_empty());
}

#[test]
fn cancelled_report_keeps_the_rest_pending() {
    let plan = two_pending();
    let r = BackupReport::for_cancelled(&plan, 1, 10);
    assert!(r.cancelled && !r.dry_run);
    assert_eq!(r.uploaded, 1);
    assert_eq!(r.bytes_uploaded, 10);
    assert_eq!(r.pending, 1);
    assert_eq!(r.pending_bytes, 30);
    assert!(r.keys.is_empty());
    // More bytes than planned (a file grew meanwhile) saturates at zero.
    let r = BackupReport::for_cancelled(&plan, 2, 99);
    assert_eq!(r.pending, 0);
    assert_eq!(r.pending_bytes, 0);
}

#[test]
fn finished_report_lists_uploaded_keys() {
    let plan = two_pending();
    let r = BackupReport::for_finished(&plan, 2, 40);
    assert!(!r.cancelled && !r.dry_run);
    assert_eq!(r.uploaded, 2);
    assert_eq!(r.bytes_uploaded, 40);
    assert_eq!(r.pending, 0);
    assert_eq!(r.keys, vec!["a.NEF", "c.mov"]);
}

#[test]
fn clean_total_bytes() {
    let v = vec![
        Victim {
            path: "a.jpg".to_string(),
            size: 3,
        },
        Victim {
            path: "a.jpg.xmp".to_string(),
            size: 4,
        },
    ];
    assert_eq!(total_victim_bytes(&v), 7);
    assert_eq!(total_victim_bytes(&[]), 0);
}

#[test]
fn only_local_io_failures_are_permanent() {
    assert!(!is_transient(FailureKind::LocalIo));
    assert!(is_transient(FailureKind::Store));
    assert!(is_transient(FailureKind::ClientBuild));
}
