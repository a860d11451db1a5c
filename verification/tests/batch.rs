use libhupa::batch::{
    backup_report, backup_task, clean_report, clean_task, restore_report, restore_skips,
    restore_task, BackupEvent, CleanEvent, Outcome, OutcomeReason, RestoreEvent,
};
use libhupa::error::IoErrorInfo;
use libhupa::item::Hupa;

fn item(name: &str) -> Hupa {
    Hupa::from_parts(
        name.to_string(),
        "".to_string(),
        vec![],
        "/backups".to_string(),
        format!("/data/{}", name),
        false,
        Vec::new(),
    )
}

#[test]
fn backup_partial_failure_keeps_order_and_other_items() {
    // three items; the second's origin does not exist
    let events = vec![
        BackupEvent::Copied,
        BackupEvent::OriginMissing,
        BackupEvent::Copied,
    ];
    let report = backup_report(&events);
    assert_eq!(
        report,
        vec![
            Outcome::Succeeded,
            Outcome::Failed(OutcomeReason::SourceMissing),
            Outcome::Succeeded,
        ]
    );
}

#[test]
fn backup_copy_failure_carries_the_io_error() {
    let io = IoErrorInfo::new("/data/a".to_string(), 13);
    let report = backup_report(&vec![BackupEvent::CopyFailed(io.clone())]);
    assert_eq!(report, vec![Outcome::Failed(OutcomeReason::Io(io))]);
}

#[test]
fn restore_root_skip_depends_on_the_flag() {
    // with the flag set, an item needing root is skipped, not failed
    assert!(restore_skips(true, true));
    let skipped = restore_report(&vec![RestoreEvent::RootNeeded]);
    assert_eq!(skipped, vec![Outcome::Skipped(OutcomeReason::RootNeeded)]);
    // without the flag the copy is attempted and its real outcome surfaces
    assert!(!restore_skips(true, false));
    assert!(!restore_skips(false, true));
    let attempted = restore_report(&vec![RestoreEvent::Copied]);
    assert_eq!(attempted, vec![Outcome::Succeeded]);
    let io = IoErrorInfo::new("/backups/a".to_string(), 2);
    let failed = restore_report(&vec![RestoreEvent::CopyFailed(io.clone())]);
    assert_eq!(failed, vec![Outcome::Failed(OutcomeReason::Io(io))]);
}

#[test]
fn clean_twice_succeeds_both_times() {
    // removing an already absent backup is reported as Removed, so the
    // second run sees the same events as the first
    let first = clean_report(&vec![CleanEvent::Removed, CleanEvent::Removed]);
    let second = clean_report(&vec![CleanEvent::Removed, CleanEvent::Removed]);
    assert_eq!(first, vec![Outcome::Succeeded, Outcome::Succeeded]);
    assert_eq!(second, vec![Outcome::Succeeded, Outcome::Succeeded]);
}

#[test]
fn clean_failure_carries_the_io_error() {
    let io = IoErrorInfo::new("/backups/a".to_string(), 1);
    let report = clean_report(&vec![CleanEvent::RemoveFailed(io.clone())]);
    assert_eq!(report, vec![Outcome::Failed(OutcomeReason::Io(io))]);
}

#[test]
fn tasks_name_the_right_paths() {
    let h = item("dots");
    let (src, dst) = backup_task(&h);
    assert_eq!(src, "/data/dots");
    assert_eq!(dst, "/backups/dots");
    let (rsrc, rdst) = restore_task(&h);
    assert_eq!(rsrc, "/backups/dots");
    assert_eq!(rdst, "/data/dots");
    assert_eq!(clean_task(&h), "/backups/dots");
}
