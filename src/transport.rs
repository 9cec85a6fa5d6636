use vstd::prelude::*;

verus! {

/// What the transport answered to one write of the report.
#[derive(PartialEq, Eq, Structural, Clone, Copy, Debug)]
pub enum WriteOutcome {
    /// The transport took the given number of bytes.
    Accepted(usize),
    /// The transport's buffer has not drained; nothing was taken.
    Busy,
    /// The transport reported an error.
    Failed,
}

/// What the tick handler does next, still inside its critical section.
#[derive(PartialEq, Eq, Structural, Clone, Copy, Debug)]
pub enum SubmitAction {
    /// Write the report to the transport and report back the outcome.
    Write,
    /// The submission is over; release the lock.
    Done,
}

/// The bounded-retry protocol that hands one report to the transport: a
/// report that differs from the one installed is written, and written
/// again while the transport is busy, at most `max_attempts` times.
pub struct Submission {
    attempts: u32,
    max_attempts: u32,
}

impl Submission {
    /// Writes issued so far.
    pub closed spec fn attempts(&self) -> nat {
        self.attempts as nat
    }

    /// The cap on writes.
    pub closed spec fn max_attempts(&self) -> nat {
        self.max_attempts as nat
    }

    pub open spec fn wf(&self) -> bool {
        self.attempts() <= self.max_attempts()
    }

    /// Starts a submission once the report has been offered to the
    /// transport's report slot; `changed` tells whether the slot took a
    /// new value. An unchanged report is not written.
    pub fn start(changed: bool, max_attempts: u32) -> (res: (Submission, SubmitAction))
        ensures
            res.0.wf(),
            res.0.max_attempts() == max_attempts,
            res.1 == (if changed && max_attempts > 0 {
                SubmitAction::Write
            } else {
                SubmitAction::Done
            }),
            res.0.attempts() == (if res.1 == SubmitAction::Write {
                1nat
            } else {
                0nat
            }),
    {
        if changed && max_attempts > 0 {
            (Submission { attempts: 1, max_attempts }, SubmitAction::Write)
        } else {
            (Submission { attempts: 0, max_attempts }, SubmitAction::Done)
        }
    }

    /// Takes the outcome of the last write: a busy transport is written
    /// again while the cap allows; anything else ends the submission.
    pub fn on_write(&mut self, outcome: WriteOutcome) -> (act: SubmitAction)
        requires
            old(self).wf(),
        ensures
            final(self).wf(),
            final(self).max_attempts() == old(self).max_attempts(),
            act == (if outcome == WriteOutcome::Busy && old(self).attempts() < old(self).max_attempts() {
                SubmitAction::Write
            } else {
                SubmitAction::Done
            }),
            final(self).attempts() == (if act == SubmitAction::Write {
                old(self).attempts() + 1
            } else {
                old(self).attempts()
            }),
    {
        match outcome {
            WriteOutcome::Busy => {
                if self.attempts < self.max_attempts {
                    self.attempts = self.attempts + 1;
                    SubmitAction::Write
                } else {
                    SubmitAction::Done
                }
            },
            _ => SubmitAction::Done,
        }
    }
}

} // verus!
