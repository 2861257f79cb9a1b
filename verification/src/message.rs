//! The events the wizard handles and the outside actions it asks for.

use vstd::prelude::*;
use crate::config::LeagueConfig;
use crate::state::Step;
use crate::ranking::Solution;

verus! {

/// Every event the wizard handles.
pub enum Message {
    /// Jump to a step.
    GoTo(Step),
    /// Go to the next step.
    Next,
    /// Go to the previous step.
    Back,
    /// The new-team field changed.
    NewTeamNameChanged(String),
    /// Add the team named in the new-team field.
    AddTeam,
    /// Remove the team at this position.
    RemoveTeam(usize),
    /// Ask for the configuration to be saved.
    SaveConfig,
    /// Ask for a configuration to be loaded.
    LoadConfig,
    /// The save finished.
    ConfigSaved(Result<(), String>),
    /// The load finished, with the configuration read.
    ConfigLoaded(Result<LeagueConfig, String>),
    /// The weeks field changed.
    WeeksInputChanged(String),
    /// Apply the weeks field.
    ApplyWeeks,
    /// One week's matchup field changed.
    BaseScheduleInputChanged(u32, String),
    /// Apply the matchup fields.
    ApplyBaseSchedule,
    /// Use the built-in five-team round robin.
    UseDefault5Team,
    /// Use the built-in six-team round robin.
    UseDefault6Team,
    /// A team's preference field changed: team, slot (0 first, 1 second), text.
    PrefChanged(String, usize, String),
    /// Toggle whether the team may not have its bye in the week.
    ToggleRestriction(String, u32),
    /// Toggle whether the team is left out of the fairness score.
    ToggleExclusion(String),
    /// Start the scheduler.
    RunScheduler,
    /// The scheduler finished.
    SchedulerComplete(Result<Vec<Solution>, String>),
    /// Show the solution with this rank.
    SelectRank(usize),
    /// Ask for the solutions to be exported.
    ExportResults,
    /// The export finished.
    ExportDone(Result<(), String>),
}

/// What the caller is asked to do after a message.
pub enum Action {
    /// Nothing.
    Nothing,
    /// Save this configuration to a file the user picks.
    SaveConfig(LeagueConfig),
    /// Load a configuration from a file the user picks, then send `ConfigLoaded`.
    LoadConfig,
    /// Run the scheduler on this configuration, then send `SchedulerComplete`.
    RunScheduler(LeagueConfig),
    /// Write this text to a file the user picks, then send `ExportDone`.
    ExportResults(String),
}

} // verus!
