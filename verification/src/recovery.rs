//! How the log of a store is replaced on disk so that a crash at any moment
//! leaves a log that can be opened: the order of the steps, and what is
//! mended on the next open.
//!
//! Beside the log two more files can stand in its directory: the new log
//! while it is written, and the old log once it has been retired. This
//! module holds the decisions; whoever owns the files performs them.

use vstd::prelude::*;

verus! {

/// One step of replacing the log by a new image.
#[derive(Debug, Clone, Copy, PartialEq, Eq, Structural)]
pub enum SwapStep {
    /// Create the new log, empty.
    CreateNew,
    /// Write the image into the new log and flush it.
    FillNew,
    /// Rename the log to the old log.
    RetireLog,
    /// Rename the new log to the log.
    PromoteNew,
    /// Delete the old log.
    DeleteOld,
    /// Open the log again for appending and reading.
    Reopen,
}

impl SwapStep {
    /// The step that a replacement begins with.
    pub fn first() -> (step: SwapStep)
        ensures
            step == SwapStep::CreateNew,
    {
        SwapStep::CreateNew
    }

    /// The place of the step in the order of a replacement, from 0.
    pub open spec fn place(self) -> nat {
        match self {
            SwapStep::CreateNew => 0,
            SwapStep::FillNew => 1,
            SwapStep::RetireLog => 2,
            SwapStep::PromoteNew => 3,
            SwapStep::DeleteOld => 4,
            SwapStep::Reopen => 5,
        }
    }

    /// The step at a place.
    pub open spec fn at(place: nat) -> SwapStep {
        if place == 0 {
            SwapStep::CreateNew
        } else if place == 1 {
            SwapStep::FillNew
        } else if place == 2 {
            SwapStep::RetireLog
        } else if place == 3 {
            SwapStep::PromoteNew
        } else if place == 4 {
            SwapStep::DeleteOld
        } else {
            SwapStep::Reopen
        }
    }

    /// The step to take after this one, `None` after the last.
    pub fn next(self) -> (res: Option<SwapStep>)
        ensures
            match res {
                Some(step) => step.place() == self.place() + 1,
                None => self == SwapStep::Reopen,
            },
    {
        match self {
            SwapStep::CreateNew => Some(SwapStep::FillNew),
            SwapStep::FillNew => Some(SwapStep::RetireLog),
            SwapStep::RetireLog => Some(SwapStep::PromoteNew),
            SwapStep::PromoteNew => Some(SwapStep::DeleteOld),
            SwapStep::DeleteOld => Some(SwapStep::Reopen),
            SwapStep::Reopen => None,
        }
    }
}

/// What the failure of one step of a replacement means for the log.
#[derive(Debug, Clone, Copy, PartialEq, Eq, Structural)]
pub enum Failure {
    /// The log is still the one it was. The replacement is given up, what it
    /// has left of the new log is removed, and the failure is reported.
    GiveUp,
    /// An open already finds the image. The replacement has taken place;
    /// what is left of it is finished before the log is used again.
    Finish,
}

/// What the failure of `step` means: up to the retiring of the log the log
/// is the one it was, from then on an open finds the image.
pub open spec fn failure_at(step: SwapStep) -> Failure {
    if step.place() <= 2 {
        Failure::GiveUp
    } else {
        Failure::Finish
    }
}

/// Decides what to do where `step` has failed.
pub fn after_failure(step: SwapStep) -> (res: Failure)
    ensures
        res == failure_at(step),
        res is GiveUp <==> step.place() <= 2,
{
    match step {
        SwapStep::CreateNew | SwapStep::FillNew | SwapStep::RetireLog => Failure::GiveUp,
        SwapStep::PromoteNew | SwapStep::DeleteOld | SwapStep::Reopen => Failure::Finish,
    }
}

/// What the directory holds of a store: the bytes of the log, of the new log
/// and of the old log, each where there is such a file.
pub struct Files {
    pub log: Option<Seq<u8>>,
    pub new: Option<Seq<u8>>,
    pub old: Option<Seq<u8>>,
}

/// What to mend on open, before the log is read.
#[derive(Debug, Clone, Copy, PartialEq, Eq, Structural)]
pub struct Recovery {
    /// Rename the new log to the log.
    pub promote_new: bool,
    /// Delete the old log.
    pub delete_old: bool,
}

impl Files {
    /// The files after one step of replacing the log by `image`.
    pub open spec fn after(self, step: SwapStep, image: Seq<u8>) -> Files {
        match step {
            SwapStep::CreateNew => Files { new: Some(Seq::empty()), ..self },
            SwapStep::FillNew => Files { new: Some(image), ..self },
            SwapStep::RetireLog => Files { log: None, old: self.log, ..self },
            SwapStep::PromoteNew => Files { log: self.new, new: None, ..self },
            SwapStep::DeleteOld => Files { old: None, ..self },
            SwapStep::Reopen => self,
        }
    }

    /// The files after the first `done` steps of replacing the log by `image`.
    pub open spec fn after_steps(self, done: nat, image: Seq<u8>) -> Files
        decreases done,
    {
        if done == 0 {
            self
        } else {
            self.after_steps((done - 1) as nat, image).after(
                SwapStep::at((done - 1) as nat),
                image,
            )
        }
    }

    /// What is to be mended in these files.
    pub open spec fn plan(self) -> Recovery {
        let promote_new = self.new is Some && self.log is None;
        Recovery { promote_new, delete_old: self.old is Some && (self.log is Some || promote_new) }
    }

    /// The files once they are mended: where there is a new log and no log,
    /// the new log has become the log; where there then are a log and an old
    /// log, the old log is gone.
    pub open spec fn recovered(self) -> Files {
        let plan = self.plan();
        let promoted = if plan.promote_new {
            Files { log: self.new, new: None, ..self }
        } else {
            self
        };
        if plan.delete_old {
            Files { old: None, ..promoted }
        } else {
            promoted
        }
    }

    /// The bytes of the log that an open finds: those of the log after
    /// mending, and none where there is no log even then and an empty one is
    /// created.
    pub open spec fn opened(self) -> Seq<u8> {
        match self.recovered().log {
            Some(bytes) => bytes,
            None => Seq::empty(),
        }
    }
}

/// Decides what to mend on open from which of the three files exist.
pub fn recovery(has_log: bool, has_new: bool, has_old: bool) -> (plan: Recovery)
    ensures
        plan.promote_new == (has_new && !has_log),
        plan.delete_old == (has_old && (has_log || has_new)),
        forall|files: Files|
            files.log is Some == has_log && files.new is Some == has_new && files.old is Some
                == has_old ==> #[trigger] files.plan() == plan,
{
    let promote_new = has_new && !has_log;
    Recovery { promote_new, delete_old: has_old && (has_log || promote_new) }
}

/// Where there is no file at all, nothing is to be mended and an open finds
/// an empty log.
pub proof fn lemma_open_fresh()
    ensures
        (Files { log: None, new: None, old: None }).opened() == Seq::<u8>::empty(),
        (Files { log: None, new: None, old: None }).plan() == (Recovery {
            promote_new: false,
            delete_old: false,
        }),
{
}

/// Crash safety: after any number of the steps of replacing `log` by
/// `image`, an open finds `log` or `image`, whole. It is `log` as long as the
/// log has not been retired, and `image` from then on. It does not matter
/// what an earlier replacement has left behind as a new log.
pub proof fn lemma_crash_safety(log: Seq<u8>, stale: Option<Seq<u8>>, image: Seq<u8>, done: nat)
    requires
        done <= 6,
    ensures
        ({
            let files = Files { log: Some(log), new: stale, old: None }.after_steps(done, image);
            &&& done <= 2 ==> files.opened() == log
            &&& done >= 3 ==> files.opened() == image
            &&& files.recovered().old is None
        }),
{
    reveal_with_fuel(Files::after_steps, 7);
}

/// Where a step of replacing `log` by `image` fails after the steps before
/// it, a replacement that is given up has left `log` for an open to find,
/// and one that is to be finished has left `image`.
pub proof fn lemma_after_failure(
    step: SwapStep,
    log: Seq<u8>,
    stale: Option<Seq<u8>>,
    image: Seq<u8>,
)
    ensures
        ({
            let files = Files { log: Some(log), new: stale, old: None }.after_steps(
                step.place(),
                image,
            );
            match failure_at(step) {
                Failure::GiveUp => files.opened() == log,
                Failure::Finish => files.opened() == image,
            }
        }),
{
    lemma_crash_safety(log, stale, image, step.place());
}

/// A crash while the new log is written leaves the log as it was, whatever
/// part of the image has reached the new log.
pub proof fn lemma_crash_while_filling(log: Seq<u8>, partial: Seq<u8>)
    ensures
        (Files { log: Some(log), new: Some(partial), old: None }).opened() == log,
{
}

} // verus!
