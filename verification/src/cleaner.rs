//! The bookkeeping of a clean: what moved, what failed and how many bytes each took.
use vstd::prelude::*;
use crate::model::{CandidateInternal, CandidateInternalView, CleanEvent, CleanFailure, CleanFailureView};

verus! {

/// What a clean of a batch of candidates came to.
#[derive(Debug, PartialEq)]
pub struct CleanBatchOutcome {
    pub moved_count: usize,
    pub moved_bytes: u64,
    pub failed_bytes: u64,
    pub failures: Vec<CleanFailure>,
}

/// The contents of a `CleanBatchOutcome`, with unbounded counters.
pub struct OutcomeView {
    pub moved_count: nat,
    pub moved_bytes: nat,
    pub failed_bytes: nat,
    pub failures: Seq<CleanFailureView>,
}

impl View for CleanBatchOutcome {
    type V = OutcomeView;

    open spec fn view(&self) -> OutcomeView {
        OutcomeView {
            moved_count: self.moved_count as nat,
            moved_bytes: self.moved_bytes as nat,
            failed_bytes: self.failed_bytes as nat,
            failures: self.failures@.map_values(|f: CleanFailure| f@),
        }
    }
}

/// The message shown for a candidate that was moved to the trash.
pub open spec fn moved_message() -> Seq<char> {
    "已移入废纸篓"@
}

/// The outcome after one more candidate: counted as moved when its checks and its
/// move succeeded, otherwise listed as a failure with the error.
pub open spec fn outcome_step(
    o: OutcomeView,
    c: CandidateInternalView,
    result: Result<(), Seq<char>>,
) -> OutcomeView {
    match result {
        Ok(()) => OutcomeView {
            moved_count: o.moved_count + 1,
            moved_bytes: o.moved_bytes + c.public.size_bytes as nat,
            ..o
        },
        Err(message) => OutcomeView {
            failed_bytes: o.failed_bytes + c.public.size_bytes as nat,
            failures: o.failures.push(
                CleanFailureView {
                    id: c.public.id,
                    path: c.public.path,
                    message,
                    size_bytes: c.public.size_bytes,
                },
            ),
            ..o
        },
    }
}

/// Nothing moved and nothing failed yet.
pub open spec fn empty_outcome() -> OutcomeView {
    OutcomeView {
        moved_count: 0,
        moved_bytes: 0,
        failed_bytes: 0,
        failures: Seq::<CleanFailureView>::empty(),
    }
}

/// The outcome of a whole batch, each candidate with what happened to it, in order.
pub open spec fn batch_outcome(items: Seq<(CandidateInternalView, Result<(), Seq<char>>)>) -> OutcomeView
    decreases items.len(),
{
    if items.len() == 0 {
        empty_outcome()
    } else {
        let last = items.last();
        outcome_step(batch_outcome(items.drop_last()), last.0, last.1)
    }
}

/// Whether recording `result` for `c` keeps every counter within its type.
pub open spec fn step_fits(o: OutcomeView, c: CandidateInternalView, result: Result<(), Seq<char>>) -> bool {
    match result {
        Ok(()) => o.moved_count + 1 <= usize::MAX && o.moved_bytes + c.public.size_bytes <= u64::MAX,
        Err(_) => o.failed_bytes + c.public.size_bytes <= u64::MAX,
    }
}

/// What to do with a selected candidate once it has been checked again: move the
/// item at its path to the trash, or skip it with the check's error.
pub enum CleanAction {
    Move(String),
    Skip(String),
}

/// A candidate goes to the trash only when its check passed; otherwise it is
/// skipped with the check's error.
pub fn clean_action(c: &CandidateInternal, check: Result<(), String>) -> (res: CleanAction)
    ensures
        match check {
            Ok(()) => res matches CleanAction::Move(p) && p@ == c.path@,
            Err(e) => res matches CleanAction::Skip(m) && m@ == e@,
        },
{
    match check {
        Ok(()) => CleanAction::Move(c.path.clone()),
        Err(e) => CleanAction::Skip(e),
    }
}

/// What happened to a candidate: the check's error when it failed, otherwise what
/// the move came to.
pub open spec fn attempted(check: Result<(), Seq<char>>, moved: Result<(), Seq<char>>) -> Result<(), Seq<char>> {
    match check {
        Err(e) => Err(e),
        Ok(()) => moved,
    }
}

impl Default for CleanBatchOutcome {
    fn default() -> (res: Self)
        ensures
            res@ == empty_outcome(),
    {
        let res = CleanBatchOutcome { moved_count: 0, moved_bytes: 0, failed_bytes: 0, failures: Vec::new() };
        assert(res@.failures =~= Seq::<CleanFailureView>::empty());
        res
    }
}

/// The view of a result whose error is a string.
pub open spec fn move_result(r: Result<(), String>) -> Result<(), Seq<char>> {
    match r {
        Ok(()) => Ok(()),
        Err(e) => Err(e@),
    }
}

impl CleanBatchOutcome {
    /// Whether recording `result` for `candidate` keeps every counter within its type.
    pub fn can_record(&self, candidate: &CandidateInternal, result: &Result<(), String>) -> (res: bool)
        ensures
            res == step_fits(self@, candidate@, move_result(*result)),
    {
        match result {
            Ok(()) => self.moved_count < usize::MAX && (self.moved_bytes as u128)
                + (candidate.public.size_bytes as u128) <= u64::MAX as u128,
            Err(_) => (self.failed_bytes as u128) + (candidate.public.size_bytes as u128)
                <= u64::MAX as u128,
        }
    }

    /// Records what happened to one candidate, and tells it: the candidate's id,
    /// whether it moved, and the message to show.
    pub fn record(&mut self, candidate: &CandidateInternal, result: Result<(), String>) -> (ev: CleanEvent)
        requires
            step_fits(old(self)@, candidate@, move_result(result)),
        ensures
            final(self)@ == outcome_step(old(self)@, candidate@, move_result(result)),
            match ev {
                CleanEvent::ItemCompleted { id, success, message } => {
                    &&& id@ == candidate.public.id@
                    &&& success == (result is Ok)
                    &&& message@ == match result {
                        Ok(()) => moved_message(),
                        Err(e) => e@,
                    }
                },
                _ => false,
            },
    {
        match result {
            Ok(()) => {
                self.moved_count = self.moved_count + 1;
                self.moved_bytes = self.moved_bytes + candidate.public.size_bytes;
                CleanEvent::ItemCompleted {
                    id: candidate.public.id.clone(),
                    success: true,
                    message: "已移入废纸篓".to_string(),
                }
            },
            Err(message) => {
                let ghost before = self.failures@;
                self.failed_bytes = self.failed_bytes + candidate.public.size_bytes;
                self.failures.push(
                    CleanFailure {
                        id: candidate.public.id.clone(),
                        path: candidate.public.path.clone(),
                        message: message.clone(),
                        size_bytes: candidate.public.size_bytes,
                    },
                );
                assert(self.failures@.map_values(|f: CleanFailure| f@) =~= before.map_values(
                    |f: CleanFailure| f@,
                ).push(
                    CleanFailureView {
                        id: candidate.public.id@,
                        path: candidate.public.path@,
                        message: message@,
                        size_bytes: candidate.public.size_bytes,
                    },
                ));
                CleanEvent::ItemCompleted { id: candidate.public.id.clone(), success: false, message }
            },
        }
    }
}

} // verus!
