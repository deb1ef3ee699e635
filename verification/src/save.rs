//! The steps by which a new history takes the place of the old one: it is
//! written to a temporary file, and only a file written and flushed in full
//! is renamed over the history file.

use vstd::prelude::*;
use crate::location::{
    history_file, history_file_name, lemma_history_file_apart, temporary_file,
    temporary_file_name,
};

verus! {

/// One step of saving the history.
#[derive(Debug, PartialEq, Eq, Structural, Clone, Copy)]
pub enum SaveStep {
    /// Make the state directory, and what it lies under.
    MakeDirectory,
    /// Create the temporary file in it.
    CreateTemporary,
    /// Write the text of the history to the temporary file.
    WriteTemporary,
    /// Flush the temporary file.
    FlushTemporary,
    /// Rename the temporary file over the history file.
    Rename,
}

/// What follows a step.
#[derive(Debug, PartialEq, Eq, Structural, Clone, Copy)]
pub struct SaveMove {
    /// The step to take next; `None` where saving has ended.
    pub next: Option<SaveStep>,
    /// Whether the step has failed and the failure is to be reported.
    pub report: bool,
}

/// The first step: the state directory is made unless it exists.
pub open spec fn first_step(directory_exists: bool) -> SaveStep {
    if directory_exists {
        SaveStep::CreateTemporary
    } else {
        SaveStep::MakeDirectory
    }
}

/// What follows `step`, which succeeded or not. Every failure is reported.
/// A directory that could not be made does not end saving: the temporary
/// file is tried all the same. Any later failure ends it, with the history
/// file as it was.
pub open spec fn after_step(step: SaveStep, succeeded: bool) -> SaveMove {
    let next = match step {
        SaveStep::MakeDirectory => Some(SaveStep::CreateTemporary),
        SaveStep::CreateTemporary => if succeeded {
            Some(SaveStep::WriteTemporary)
        } else {
            None
        },
        SaveStep::WriteTemporary => if succeeded {
            Some(SaveStep::FlushTemporary)
        } else {
            None
        },
        SaveStep::FlushTemporary => if succeeded {
            Some(SaveStep::Rename)
        } else {
            None
        },
        SaveStep::Rename => None,
    };
    SaveMove { next, report: !succeeded }
}

/// The path that a step makes or changes, in the state directory `dir`: the
/// directory itself, the temporary file, and for the rename the history
/// file, over which the temporary file is moved.
pub open spec fn acts_on(step: SaveStep, dir: Seq<char>) -> Seq<char> {
    match step {
        SaveStep::MakeDirectory => dir,
        SaveStep::CreateTemporary => temporary_file(dir),
        SaveStep::WriteTemporary => temporary_file(dir),
        SaveStep::FlushTemporary => temporary_file(dir),
        SaveStep::Rename => history_file(dir),
    }
}

/// No step but the rename makes or changes the history file.
pub proof fn lemma_only_rename_changes_history(step: SaveStep, dir: Seq<char>)
    ensures
        acts_on(step, dir) == history_file(dir) <==> step == SaveStep::Rename,
{
    lemma_history_file_apart(dir);
}

/// The steps taken from `step` on, where `outcomes` says of each step in
/// turn whether it succeeds.
pub open spec fn steps_taken(step: SaveStep, outcomes: Seq<bool>) -> Seq<SaveStep>
    decreases outcomes.len(),
{
    if outcomes.len() == 0 {
        seq![step]
    } else {
        match after_step(step, outcomes.first()).next {
            Some(next) => seq![step] + steps_taken(next, outcomes.drop_first()),
            None => seq![step],
        }
    }
}

/// The history file is renamed over only after the temporary file was
/// flushed with success, and a flush follows only a write that succeeded,
/// which follows only a temporary file that was created.
pub proof fn lemma_rename_comes_last(step: SaveStep, succeeded: bool)
    ensures
        after_step(step, succeeded).next == Some(SaveStep::Rename) <==> step
            == SaveStep::FlushTemporary && succeeded,
        after_step(step, succeeded).next == Some(SaveStep::FlushTemporary) <==> step
            == SaveStep::WriteTemporary && succeeded,
        after_step(step, succeeded).next == Some(SaveStep::WriteTemporary) <==> step
            == SaveStep::CreateTemporary && succeeded,
        after_step(step, succeeded).next != Some(SaveStep::MakeDirectory),
{
}

/// However the steps turn out, the rename is the last step taken if it is
/// taken at all, and the three steps before it are the creation, the writing
/// and the flushing of the temporary file, each with success.
pub proof fn lemma_rename_in_run(step: SaveStep, outcomes: Seq<bool>, k: int)
    requires
        step == SaveStep::MakeDirectory || step == SaveStep::CreateTemporary,
        0 <= k < steps_taken(step, outcomes).len(),
        steps_taken(step, outcomes)[k] == SaveStep::Rename,
    ensures
        k >= 3,
        k == steps_taken(step, outcomes).len() - 1,
        steps_taken(step, outcomes)[k - 3] == SaveStep::CreateTemporary && outcomes[k - 3],
        steps_taken(step, outcomes)[k - 2] == SaveStep::WriteTemporary && outcomes[k - 2],
        steps_taken(step, outcomes)[k - 1] == SaveStep::FlushTemporary && outcomes[k - 1],
    decreases outcomes.len(),
{
    reveal_with_fuel(steps_taken, 6);
    if step == SaveStep::MakeDirectory && outcomes.len() > 0 {
        let rest = outcomes.drop_first();
        assert(steps_taken(step, outcomes) == seq![step] + steps_taken(
            SaveStep::CreateTemporary,
            rest,
        ));
        assert(k >= 1);
        assert(steps_taken(SaveStep::CreateTemporary, rest)[k - 1] == SaveStep::Rename);
        lemma_rename_in_run(SaveStep::CreateTemporary, rest, k - 1);
        assert(forall|j: int| 0 <= j < rest.len() ==> rest[j] == outcomes[j + 1]);
    } else if outcomes.len() > 2 {
        assert(outcomes.drop_first()[0] == outcomes[1]);
        assert(outcomes.drop_first().drop_first()[0] == outcomes[2]);
    }
}

/// However the steps turn out, no step before a rename makes or changes the
/// history file, and without a rename no step does: a run that ends early
/// leaves the history file as it was.
pub proof fn lemma_history_file_kept(step: SaveStep, outcomes: Seq<bool>, dir: Seq<char>, k: int)
    requires
        step == SaveStep::MakeDirectory || step == SaveStep::CreateTemporary,
        0 <= k < steps_taken(step, outcomes).len(),
        acts_on(steps_taken(step, outcomes)[k], dir) == history_file(dir),
    ensures
        steps_taken(step, outcomes)[k] == SaveStep::Rename,
        k == steps_taken(step, outcomes).len() - 1,
        k >= 3 && outcomes[k - 3] && outcomes[k - 2] && outcomes[k - 1],
{
    lemma_only_rename_changes_history(steps_taken(step, outcomes)[k], dir);
    lemma_rename_in_run(step, outcomes, k);
}

impl SaveStep {
    /// The first step of saving.
    pub fn first(directory_exists: bool) -> (r: SaveStep)
        ensures
            r == first_step(directory_exists),
    {
        if directory_exists {
            SaveStep::CreateTemporary
        } else {
            SaveStep::MakeDirectory
        }
    }

    /// What follows this step, which succeeded or not.
    pub fn then_do(self, succeeded: bool) -> (r: SaveMove)
        ensures
            r == after_step(self, succeeded),
    {
        let next = match self {
            SaveStep::MakeDirectory => Some(SaveStep::CreateTemporary),
            SaveStep::CreateTemporary => if succeeded {
                Some(SaveStep::WriteTemporary)
            } else {
                None
            },
            SaveStep::WriteTemporary => if succeeded {
                Some(SaveStep::FlushTemporary)
            } else {
                None
            },
            SaveStep::FlushTemporary => if succeeded {
                Some(SaveStep::Rename)
            } else {
                None
            },
            SaveStep::Rename => None,
        };
        SaveMove { next, report: !succeeded }
    }

    /// The path that this step makes or changes, in the state directory
    /// `state_dir`. The rename moves the temporary file over it; no other
    /// step names the history file.
    pub fn target(self, state_dir: &str) -> (r: String)
        ensures
            r@ == acts_on(self, state_dir@),
            self != SaveStep::Rename ==> r@ != history_file(state_dir@),
    {
        proof {
            lemma_only_rename_changes_history(self, state_dir@);
        }
        match self {
            SaveStep::MakeDirectory => state_dir.to_owned(),
            SaveStep::CreateTemporary => temporary_file_name(state_dir),
            SaveStep::WriteTemporary => temporary_file_name(state_dir),
            SaveStep::FlushTemporary => temporary_file_name(state_dir),
            SaveStep::Rename => history_file_name(state_dir),
        }
    }
}

} // verus!
