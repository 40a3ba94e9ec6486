//! What a run does, decided from the flags of the command line.

use vstd::prelude::*;

verus! {

/// Where the edits go.
#[derive(Debug, Clone, Copy, PartialEq, Eq, Structural)]
pub enum Output {
    /// Into the files themselves.
    InPlace,
    /// As a unified diff on standard output.
    DiffToStream,
    /// As a unified diff into a file, whose content it replaces.
    DiffToFile,
}

/// Who decides on each matched line.
#[derive(Debug, Clone, Copy, PartialEq, Eq, Structural)]
pub enum Interaction {
    /// The operator, line by line.
    Interactive,
    /// Nobody: every matched line is replaced.
    Batch,
}

/// The `--diff` flag as it was given.
#[derive(Debug, Clone, Copy, PartialEq, Eq, Structural)]
pub enum DiffFlag {
    Absent,
    WithoutPath,
    WithPath,
}

/// What a run does.
#[derive(Debug, Clone, Copy, PartialEq, Eq, Structural)]
pub enum Plan {
    /// Only search: the arguments go to the search tool as they are.
    Search,
    /// Search and replace.
    Replace { interaction: Interaction, output: Output },
}

/// A combination of flags that makes no sense.
#[derive(Debug, Clone, Copy, PartialEq, Eq, Structural)]
pub enum UsageError {
    /// `--diff` without `--replace`.
    DiffWithoutReplace,
    /// `--iterative` without `--replace`.
    IterativeWithoutReplace,
}

/// The plan that the flags stand for. Without `--replace` the other two
/// flags are errors. With it, the operator decides unless a diff was asked
/// for and `--iterative` was not; the edits go into a diff where one was
/// asked for, else into the files.
pub open spec fn plan_of(replace: bool, diff: DiffFlag, iterative: bool) -> Result<Plan, UsageError> {
    if !replace {
        if diff != DiffFlag::Absent {
            Err(UsageError::DiffWithoutReplace)
        } else if iterative {
            Err(UsageError::IterativeWithoutReplace)
        } else {
            Ok(Plan::Search)
        }
    } else {
        Ok(
            Plan::Replace {
                interaction: if diff != DiffFlag::Absent && !iterative {
                    Interaction::Batch
                } else {
                    Interaction::Interactive
                },
                output: match diff {
                    DiffFlag::Absent => Output::InPlace,
                    DiffFlag::WithoutPath => Output::DiffToStream,
                    DiffFlag::WithPath => Output::DiffToFile,
                },
            },
        )
    }
}

/// Decides what the run does, or why the flags are refused.
pub fn select_plan(replace: bool, diff: DiffFlag, iterative: bool) -> (r: Result<Plan, UsageError>)
    ensures
        r == plan_of(replace, diff, iterative),
{
    let asked_for_diff = match diff {
        DiffFlag::Absent => false,
        _ => true,
    };
    if !replace {
        if asked_for_diff {
            Err(UsageError::DiffWithoutReplace)
        } else if iterative {
            Err(UsageError::IterativeWithoutReplace)
        } else {
            Ok(Plan::Search)
        }
    } else {
        let interaction = if asked_for_diff && !iterative {
            Interaction::Batch
        } else {
            Interaction::Interactive
        };
        let output = match diff {
            DiffFlag::Absent => Output::InPlace,
            DiffFlag::WithoutPath => Output::DiffToStream,
            DiffFlag::WithPath => Output::DiffToFile,
        };
        Ok(Plan::Replace { interaction, output })
    }
}

/// A run without an operator comes only from `--replace` with `--diff` and
/// without `--iterative`.
pub proof fn law_batch_is_opt_in(replace: bool, diff: DiffFlag, iterative: bool)
    ensures
        (plan_of(replace, diff, iterative) matches Ok(Plan::Replace { interaction, .. })
            && interaction == Interaction::Batch) <==> (replace && diff != DiffFlag::Absent
            && !iterative),
{
}

} // verus!
