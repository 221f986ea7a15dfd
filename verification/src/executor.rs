use vstd::prelude::*;

verus! {

/// How one rename attempt ended.
///
/// `Skipped` means the name was already normalized and nothing was attempted;
/// `DryRunReported` means a needed rename was reported without touching the
/// filesystem; `Failed` carries the cause of a failed rename call.
pub enum RenameOutcome {
    Skipped,
    DryRunReported,
    Succeeded,
    Failed(String),
}

impl RenameOutcome {
    /// Outcomes that the run counts as successful work.
    pub open spec fn counts_as_success(&self) -> bool {
        match self {
            RenameOutcome::Succeeded => true,
            RenameOutcome::DryRunReported => true,
            _ => false,
        }
    }

    /// Outcomes that the run counts as errors.
    pub open spec fn counts_as_error(&self) -> bool {
        match self {
            RenameOutcome::Failed(_) => true,
            _ => false,
        }
    }
}

/// One diagnostic record of a rename attempt: the full old path, the full
/// new path, and how the attempt ended.
pub struct RenameReport {
    pub old_path: String,
    pub new_path: String,
    pub outcome: RenameOutcome,
}

/// Process-wide counters, read once after all work finishes. Skipped
/// entries are counted by neither field.
pub struct Counters {
    pub success: u64,
    pub error: u64,
}

impl Counters {
    pub fn new() -> (c: Counters)
        ensures
            c.success == 0,
            c.error == 0,
    {
        Counters { success: 0, error: 0 }
    }

    /// Record one outcome: a success or dry-run report bumps the success
    /// count, a failure bumps the error count, a skip bumps neither.
    pub fn record(&mut self, outcome: &RenameOutcome)
        requires
            old(self).success < u64::MAX,
            old(self).error < u64::MAX,
        ensures
            final(self).success == old(self).success + if outcome.counts_as_success() { 1int } else { 0int },
            final(self).error == old(self).error + if outcome.counts_as_error() { 1int } else { 0int },
    {
        match outcome {
            RenameOutcome::Succeeded => { self.success = self.success + 1; },
            RenameOutcome::DryRunReported => { self.success = self.success + 1; },
            RenameOutcome::Failed(_) => { self.error = self.error + 1; },
            RenameOutcome::Skipped => {},
        }
    }
}

/// Exit status policy: a run succeeds (exit code 0) exactly when no real
/// rename failed; dry runs therefore always qualify.
pub fn exit_code(counters: &Counters) -> (r: i32)
    ensures
        (r == 0) <==> (counters.error == 0),
        r == 0 || r == 1,
{
    if counters.error == 0 { 0 } else { 1 }
}

} // verus!
