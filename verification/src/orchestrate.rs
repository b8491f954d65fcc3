//! Orchestration decisions of one invocation: what to display and which exit
//! code to propagate. The display layer performs them; the rules live here.
use vstd::prelude::*;

verus! {

/// How launching the wrapped command went.
pub enum LaunchOutcome {
    /// The command ran to completion and exited with this code.
    Ran(i32),
    /// The command could not be started at all.
    Failed,
}

/// A summary is worth showing only from the second sample on: a single
/// sample has no spread to compare against.
pub fn should_display(count: usize) -> (b: bool)
    ensures
        b == (count > 1),
{
    count > 1
}

/// With no command named at all, only usage can be printed.
pub fn needs_usage(arg_count: usize) -> (b: bool)
    ensures
        b == (arg_count == 0),
{
    arg_count == 0
}

/// The exit code this program propagates: the wrapped command's own code, or
/// the sentinel 255 when it could not be launched.
pub fn exit_code(outcome: &LaunchOutcome) -> (c: i32)
    ensures
        match outcome {
            LaunchOutcome::Ran(code) => c == code,
            LaunchOutcome::Failed => c == 255,
        },
{
    match outcome {
        LaunchOutcome::Ran(code) => *code,
        LaunchOutcome::Failed => 255,
    }
}

/// The exit code printed usage is followed by.
pub fn usage_exit_code() -> (c: i32)
    ensures
        c == 1,
{
    1
}

} // verus!
