//! Per-item decisions and outcome reports for batch backup, restore and
//! clean runs.
//!
//! The filesystem work itself is done by the surrounding program; this
//! module decides what to attempt for each item and what each observed
//! result means, so that a batch always attempts every item, never lets one
//! item's failure stop another's, and reports outcomes in input order.

use vstd::prelude::*;

use crate::error::{IoErrorInfo, IoErrorView};
use crate::item::{backup_path_of, Hupa};

verus! {

/// Mathematical view of a reason.
pub enum ReasonView {
    SourceMissing,
    RootNeeded,
    Io(IoErrorView),
}

/// Why an item was skipped or failed.
#[derive(Clone, Debug, PartialEq)]
pub enum OutcomeReason {
    /// The item's live data does not exist.
    SourceMissing,
    /// The item needs elevated privileges and the run was told to skip such
    /// items.
    RootNeeded,
    /// The filesystem reported a failure.
    Io(IoErrorInfo),
}

impl View for OutcomeReason {
    type V = ReasonView;

    open spec fn view(&self) -> ReasonView {
        match self {
            OutcomeReason::SourceMissing => ReasonView::SourceMissing,
            OutcomeReason::RootNeeded => ReasonView::RootNeeded,
            OutcomeReason::Io(e) => ReasonView::Io(e@),
        }
    }
}

/// Mathematical view of an outcome.
pub enum OutcomeView {
    Succeeded,
    Failed(ReasonView),
    Skipped(ReasonView),
}

/// The terminal state of one item in one batch run.
#[derive(Clone, Debug, PartialEq)]
pub enum Outcome {
    Succeeded,
    Failed(OutcomeReason),
    Skipped(OutcomeReason),
}

impl View for Outcome {
    type V = OutcomeView;

    open spec fn view(&self) -> OutcomeView {
        match self {
            Outcome::Succeeded => OutcomeView::Succeeded,
            Outcome::Failed(r) => OutcomeView::Failed(r@),
            Outcome::Skipped(r) => OutcomeView::Skipped(r@),
        }
    }
}

impl DeepView for Outcome {
    type V = OutcomeView;

    open spec fn deep_view(&self) -> OutcomeView {
        self.view()
    }
}

/// Mathematical view of a backup observation.
pub enum BackupEventView {
    OriginMissing,
    Copied,
    CopyFailed(IoErrorView),
}

/// What the program observed for one item during a backup run: the origin
/// was absent, or the copy into the backup location finished, or it failed.
#[derive(Clone, Debug, PartialEq)]
pub enum BackupEvent {
    OriginMissing,
    Copied,
    CopyFailed(IoErrorInfo),
}

impl View for BackupEvent {
    type V = BackupEventView;

    open spec fn view(&self) -> BackupEventView {
        match self {
            BackupEvent::OriginMissing => BackupEventView::OriginMissing,
            BackupEvent::Copied => BackupEventView::Copied,
            BackupEvent::CopyFailed(e) => BackupEventView::CopyFailed(e@),
        }
    }
}

impl DeepView for BackupEvent {
    type V = BackupEventView;

    open spec fn deep_view(&self) -> BackupEventView {
        self.view()
    }
}

/// The outcome a backup observation stands for: a missing origin is a
/// failure of its own kind, never an abort of the batch.
pub open spec fn backup_outcome_model(e: BackupEventView) -> OutcomeView {
    match e {
        BackupEventView::OriginMissing => OutcomeView::Failed(ReasonView::SourceMissing),
        BackupEventView::Copied => OutcomeView::Succeeded,
        BackupEventView::CopyFailed(io) => OutcomeView::Failed(ReasonView::Io(io)),
    }
}

/// The outcome of one item of a backup run.
pub fn backup_outcome(e: &BackupEvent) -> (r: Outcome)
    ensures
        r@ == backup_outcome_model(e@),
{
    match e {
        BackupEvent::OriginMissing => Outcome::Failed(OutcomeReason::SourceMissing),
        BackupEvent::Copied => Outcome::Succeeded,
        BackupEvent::CopyFailed(io) => Outcome::Failed(OutcomeReason::Io(io.duplicate())),
    }
}

/// The per-item report of a backup run: one outcome per observation, in
/// input order, every item accounted for.
pub fn backup_report(events: &Vec<BackupEvent>) -> (r: Vec<Outcome>)
    ensures
        r@.len() == events@.len(),
        forall|k: int|
            0 <= k < events@.len() ==> r@[k]@ == backup_outcome_model(
                #[trigger] events@[k]@,
            ),
{
    let n = events.len();
    let mut r: Vec<Outcome> = Vec::new();
    let mut k: usize = 0;
    while k < n
        invariant
            k <= n,
            n == events@.len(),
            r@.len() == k,
            forall|t: int| 0 <= t < k ==> r@[t]@ == backup_outcome_model(#[trigger] events@[t]@),
        decreases n - k,
    {
        let o = backup_outcome(&events[k]);
        r.push(o);
        k = k + 1;
    }
    r
}

/// Mathematical view of a restore observation.
pub enum RestoreEventView {
    RootNeeded,
    Copied,
    CopyFailed(IoErrorView),
}

/// What the program observed for one item during a restore run.
#[derive(Clone, Debug, PartialEq)]
pub enum RestoreEvent {
    RootNeeded,
    Copied,
    CopyFailed(IoErrorInfo),
}

impl View for RestoreEvent {
    type V = RestoreEventView;

    open spec fn view(&self) -> RestoreEventView {
        match self {
            RestoreEvent::RootNeeded => RestoreEventView::RootNeeded,
            RestoreEvent::Copied => RestoreEventView::Copied,
            RestoreEvent::CopyFailed(e) => RestoreEventView::CopyFailed(e@),
        }
    }
}

impl DeepView for RestoreEvent {
    type V = RestoreEventView;

    open spec fn deep_view(&self) -> RestoreEventView {
        self.view()
    }
}

/// The outcome a restore observation stands for: an item left alone for
/// want of privileges is skipped, not failed.
pub open spec fn restore_outcome_model(e: RestoreEventView) -> OutcomeView {
    match e {
        RestoreEventView::RootNeeded => OutcomeView::Skipped(ReasonView::RootNeeded),
        RestoreEventView::Copied => OutcomeView::Succeeded,
        RestoreEventView::CopyFailed(io) => OutcomeView::Failed(ReasonView::Io(io)),
    }
}

/// The outcome of one item of a restore run.
pub fn restore_outcome(e: &RestoreEvent) -> (r: Outcome)
    ensures
        r@ == restore_outcome_model(e@),
{
    match e {
        RestoreEvent::RootNeeded => Outcome::Skipped(OutcomeReason::RootNeeded),
        RestoreEvent::Copied => Outcome::Succeeded,
        RestoreEvent::CopyFailed(io) => Outcome::Failed(OutcomeReason::Io(io.duplicate())),
    }
}

/// The per-item report of a restore run, in input order.
pub fn restore_report(events: &Vec<RestoreEvent>) -> (r: Vec<Outcome>)
    ensures
        r@.len() == events@.len(),
        forall|k: int|
            0 <= k < events@.len() ==> r@[k]@ == restore_outcome_model(
                #[trigger] events@[k]@,
            ),
{
    let n = events.len();
    let mut r: Vec<Outcome> = Vec::new();
    let mut k: usize = 0;
    while k < n
        invariant
            k <= n,
            n == events@.len(),
            r@.len() == k,
            forall|t: int| 0 <= t < k ==> r@[t]@ == restore_outcome_model(#[trigger] events@[t]@),
        decreases n - k,
    {
        let o = restore_outcome(&events[k]);
        r.push(o);
        k = k + 1;
    }
    r
}

/// Whether a restore run leaves an item alone: exactly when the item needs
/// elevated privileges and the run was told to skip such items. With the
/// flag unset the copy is attempted and its real outcome surfaces.
pub fn restore_skips(needs_root: bool, ignore_root_needed: bool) -> (r: bool)
    ensures
        r == (needs_root && ignore_root_needed),
{
    needs_root && ignore_root_needed
}

/// Mathematical view of a clean observation.
pub enum CleanEventView {
    Removed,
    RemoveFailed(IoErrorView),
}

/// What the program observed for one item during a clean run. Removing an
/// already absent backup counts as `Removed`: cleaning is idempotent.
#[derive(Clone, Debug, PartialEq)]
pub enum CleanEvent {
    Removed,
    RemoveFailed(IoErrorInfo),
}

impl View for CleanEvent {
    type V = CleanEventView;

    open spec fn view(&self) -> CleanEventView {
        match self {
            CleanEvent::Removed => CleanEventView::Removed,
            CleanEvent::RemoveFailed(e) => CleanEventView::RemoveFailed(e@),
        }
    }
}

impl DeepView for CleanEvent {
    type V = CleanEventView;

    open spec fn deep_view(&self) -> CleanEventView {
        self.view()
    }
}

/// The outcome a clean observation stands for.
pub open spec fn clean_outcome_model(e: CleanEventView) -> OutcomeView {
    match e {
        CleanEventView::Removed => OutcomeView::Succeeded,
        CleanEventView::RemoveFailed(io) => OutcomeView::Failed(ReasonView::Io(io)),
    }
}

/// The outcome of one item of a clean run.
pub fn clean_outcome(e: &CleanEvent) -> (r: Outcome)
    ensures
        r@ == clean_outcome_model(e@),
{
    match e {
        CleanEvent::Removed => Outcome::Succeeded,
        CleanEvent::RemoveFailed(io) => Outcome::Failed(OutcomeReason::Io(io.duplicate())),
    }
}

/// The per-item report of a clean run, in input order.
pub fn clean_report(events: &Vec<CleanEvent>) -> (r: Vec<Outcome>)
    ensures
        r@.len() == events@.len(),
        forall|k: int|
            0 <= k < events@.len() ==> r@[k]@ == clean_outcome_model(#[trigger] events@[k]@),
{
    let n = events.len();
    let mut r: Vec<Outcome> = Vec::new();
    let mut k: usize = 0;
    while k < n
        invariant
            k <= n,
            n == events@.len(),
            r@.len() == k,
            forall|t: int| 0 <= t < k ==> r@[t]@ == clean_outcome_model(#[trigger] events@[t]@),
        decreases n - k,
    {
        let o = clean_outcome(&events[k]);
        r.push(o);
        k = k + 1;
    }
    r
}

/// The copy a backup run attempts for an item: its origin into its backup
/// location.
pub fn backup_task(h: &Hupa) -> (r: (String, String))
    ensures
        r.0@ == h@.origin,
        r.1@ == backup_path_of(h@),
{
    (h.get_origin().clone(), h.backup_path())
}

/// The copy a restore run attempts for an item: its backup copy back onto
/// its origin.
pub fn restore_task(h: &Hupa) -> (r: (String, String))
    ensures
        r.0@ == backup_path_of(h@),
        r.1@ == h@.origin,
{
    (h.backup_path(), h.get_origin().clone())
}

/// The path a clean run removes for an item: its backup location.
pub fn clean_task(h: &Hupa) -> (r: String)
    ensures
        r@ == backup_path_of(h@),
{
    h.backup_path()
}

/// Cleaning is idempotent at the decision layer: a run whose removals all
/// report success — and removing an already absent backup does — succeeds
/// for every item, however many runs came before it.
pub proof fn lemma_clean_idempotent(events: Seq<CleanEventView>)
    requires
        forall|k: int| 0 <= k < events.len() ==> events[k] == CleanEventView::Removed,
    ensures
        forall|k: int|
            0 <= k < events.len() ==> clean_outcome_model(#[trigger] events[k])
                == OutcomeView::Succeeded,
{
}

} // verus!
