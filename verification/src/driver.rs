//! The rounds of a run: the build file is brought up to date first (when it has a task), and read
//! again after it was rebuilt, at most [`MAX_ROUNDS`] times; then what was asked for is built.
use vstd::prelude::*;

verus! {

/// How many times the build file is read at most.
pub const MAX_ROUNDS: usize = 100;

/// What a run does next.
#[derive(Debug, PartialEq, Eq, Structural, Clone, Copy)]
pub enum DriverAction {
    /// Bring the build file itself up to date.
    UpdateBuildFile,
    /// The build file was rebuilt: read it again.
    Reread,
    /// Build the requested targets (or the defaults).
    BuildRequested,
    /// Stop without building.
    Stop,
}

/// The next step of round `round` (counted from 1), given whether the build file has a task and,
/// once it was brought up to date, whether that rebuilt it.
pub fn driver_step(round: usize, build_file_has_task: bool, rebuilt: Option<bool>) -> (a: DriverAction)
    ensures
        round > MAX_ROUNDS ==> a is Stop,
        round <= MAX_ROUNDS && rebuilt is None ==> (a is UpdateBuildFile <==> build_file_has_task) && (
        !build_file_has_task ==> a is BuildRequested),
        round <= MAX_ROUNDS && rebuilt == Some(true) ==> (if round < MAX_ROUNDS {
            a is Reread
        } else {
            a is Stop
        }),
        round <= MAX_ROUNDS && rebuilt == Some(false) ==> a is BuildRequested,
{
    if round > MAX_ROUNDS {
        return DriverAction::Stop;
    }
    match rebuilt {
        None => if build_file_has_task {
            DriverAction::UpdateBuildFile
        } else {
            DriverAction::BuildRequested
        },
        Some(true) => if round < MAX_ROUNDS {
            DriverAction::Reread
        } else {
            DriverAction::Stop
        },
        Some(false) => DriverAction::BuildRequested,
    }
}

} // verus!
