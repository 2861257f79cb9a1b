//! The wizard's state: the configuration being edited, the step shown, the
//! editable text of each step, and the scheduler's results.

use vstd::prelude::*;
use crate::config::{LeagueConfig, inputs_view, inputs_of, schedule_view, five_team_schedule, label_names,
    str_views, default_5team_schedule, schedule_to_inputs, first_labels};
use crate::ranking::Solution;
use crate::text::{decimal, join, push_decimal, string_from_chars};

verus! {

/// One screen of the wizard, in the order the user visits them.
#[derive(Clone, Copy, Debug, PartialEq, Eq, Structural)]
pub enum Step {
    Teams,
    Weeks,
    BaseSchedule,
    ByePreferences,
    ByeRestrictions,
    ScoreExclusions,
    Results,
}

/// The position of a step in the wizard.
pub open spec fn step_index(s: Step) -> int {
    match s {
        Step::Teams => 0,
        Step::Weeks => 1,
        Step::BaseSchedule => 2,
        Step::ByePreferences => 3,
        Step::ByeRestrictions => 4,
        Step::ScoreExclusions => 5,
        Step::Results => 6,
    }
}

/// Every step, in wizard order.
pub open spec fn all_steps() -> Seq<Step> {
    seq![
        Step::Teams,
        Step::Weeks,
        Step::BaseSchedule,
        Step::ByePreferences,
        Step::ByeRestrictions,
        Step::ScoreExclusions,
        Step::Results,
    ]
}

/// The header title of a step.
pub open spec fn step_title(s: Step) -> Seq<char> {
    match s {
        Step::Teams => "Step 1 — Teams"@,
        Step::Weeks => "Step 2 — Weeks"@,
        Step::BaseSchedule => "Step 3 — Base Schedule"@,
        Step::ByePreferences => "Step 4 — Bye Preferences"@,
        Step::ByeRestrictions => "Step 5 — Bye Restrictions"@,
        Step::ScoreExclusions => "Step 6 — Score Exclusions"@,
        Step::Results => "Results"@,
    }
}

impl Step {
    /// The short title shown in the header.
    pub fn title(&self) -> (r: &'static str)
        ensures
            r@ == step_title(*self),
    {
        match self {
            Step::Teams => "Step 1 — Teams",
            Step::Weeks => "Step 2 — Weeks",
            Step::BaseSchedule => "Step 3 — Base Schedule",
            Step::ByePreferences => "Step 4 — Bye Preferences",
            Step::ByeRestrictions => "Step 5 — Bye Restrictions",
            Step::ScoreExclusions => "Step 6 — Score Exclusions",
            Step::Results => "Results",
        }
    }

    /// Every step, in the order the wizard visits them.
    pub fn all() -> (r: Vec<Step>)
        ensures
            r@ == all_steps(),
    {
        let r = vec![
            Step::Teams,
            Step::Weeks,
            Step::BaseSchedule,
            Step::ByePreferences,
            Step::ByeRestrictions,
            Step::ScoreExclusions,
            Step::Results,
        ];
        assert(r@ =~= all_steps());
        r
    }
}

/// The whole state of the wizard.
pub struct SwimScheduler {
    /// The configuration being edited, which Save writes and Load replaces.
    pub config: LeagueConfig,
    /// The step shown (`None` reads as the first step).
    pub step: Option<Step>,
    /// The text of the new-team field.
    pub new_team_name: String,
    /// The text of the weeks field, such as `1, 2, 3, 4, 5`.
    pub weeks_input: String,
    /// Why the weeks text was refused, if it was.
    pub weeks_error: Option<String>,
    /// The matchup text of each week, such as `A vs B, C vs D`.
    pub base_schedule_inputs: Vec<(u32, String)>,
    /// Why the matchup text was refused, if it was.
    pub base_schedule_error: Option<String>,
    /// The text of each team's two preference fields.
    pub pref_inputs: Vec<(String, [String; 2])>,
    /// The ranked solutions of the last run.
    pub results: Vec<Solution>,
    /// The rank of the solution shown.
    pub selected_rank: usize,
    /// The error of the last run, if it failed.
    pub run_error: Option<String>,
    /// The scheduler is running.
    pub is_running: bool,
}

/// The weeks written as `1, 2, 3`.
pub open spec fn weeks_text(weeks: Seq<u32>) -> Seq<char> {
    join(weeks.map_values(|w: u32| decimal(w as nat)), seq![',', ' '])
}

/// The weeks written as `1, 2, 3`.
pub fn weeks_to_text(weeks: &Vec<u32>) -> (r: String)
    ensures
        r@ == weeks_text(weeks@),
{
    let ghost parts = weeks@.map_values(|w: u32| decimal(w as nat));
    let mut out: Vec<char> = Vec::new();
    let mut i: usize = 0;
    while i < weeks.len()
        invariant
            i <= weeks.len(),
            parts == weeks@.map_values(|w: u32| decimal(w as nat)),
            out@ == join(parts.take(i as int), seq![',', ' ']),
        decreases weeks.len() - i,
    {
        let ghost before = out@;
        if i > 0 {
            out.push(',');
            out.push(' ');
        }
        push_decimal(&mut out, weeks[i] as u64);
        proof {
            let sub = parts.take(i + 1);
            assert(sub.drop_last() =~= parts.take(i as int));
            assert(sub.last() == decimal(weeks@[i as int] as nat));
            if i == 0 {
                assert(out@ =~= decimal(weeks@[0] as nat));
            } else {
                assert(out@ =~= before + seq![',', ' '] + decimal(weeks@[i as int] as nat));
            }
        }
        i = i + 1;
    }
    assert(parts.take(weeks.len() as int) =~= parts);
    string_from_chars(&out)
}

/// The configuration a new wizard starts from: no teams, weeks 1 to 5, the
/// labels A to E and the five-team round robin.
pub open spec fn is_default_config(c: &LeagueConfig) -> bool {
    &&& c.teams@.len() == 0
    &&& c.weeks@ == seq![1u32, 2, 3, 4, 5]
    &&& str_views(c.labels@) == label_names(5)
    &&& schedule_view(c.base_schedule@) == five_team_schedule()
    &&& c.bye_preferences@.len() == 0
    &&& c.bye_restrictions@.len() == 0
    &&& c.score_excluded@.len() == 0
    &&& c.wf()
}

impl LeagueConfig {
    /// A ready-to-use five-team configuration with no teams entered yet.
    pub fn new_default() -> (r: LeagueConfig)
        ensures
            is_default_config(&r),
    {
        let weeks = vec![1u32, 2, 3, 4, 5];
        assert(weeks@ =~= seq![1u32, 2, 3, 4, 5]);
        LeagueConfig {
            teams: Vec::new(),
            weeks,
            labels: first_labels(5),
            base_schedule: default_5team_schedule(),
            bye_preferences: Vec::new(),
            bye_restrictions: Vec::new(),
            score_excluded: Vec::new(),
        }
    }
}

impl Default for LeagueConfig {
    fn default() -> (r: LeagueConfig)
        ensures
            is_default_config(&r),
    {
        LeagueConfig::new_default()
    }
}

impl SwimScheduler {
    /// The state a new wizard starts in: the default configuration on the
    /// Teams step, with the weeks and matchup fields filled from it.
    pub fn new() -> (s: SwimScheduler)
        ensures
            is_default_config(&s.config),
            s.step == Some(Step::Teams),
            s.new_team_name@.len() == 0,
            s.weeks_input@ == weeks_text(s.config.weeks@),
            s.weeks_error is None,
            inputs_view(s.base_schedule_inputs@) == inputs_of(five_team_schedule()),
            s.base_schedule_error is None,
            s.pref_inputs@.len() == 0,
            s.results@.len() == 0,
            s.selected_rank == 1,
            s.run_error is None,
            !s.is_running,
    {
        let config = LeagueConfig::new_default();
        let weeks_input = weeks_to_text(&config.weeks);
        let base_schedule_inputs = schedule_to_inputs(&config.base_schedule);
        SwimScheduler {
            config,
            step: Some(Step::Teams),
            new_team_name: String::new(),
            weeks_input,
            weeks_error: None,
            base_schedule_inputs,
            base_schedule_error: None,
            pref_inputs: Vec::new(),
            results: Vec::new(),
            selected_rank: 1,
            run_error: None,
            is_running: false,
        }
    }

    /// The step shown, the first step when none is set.
    pub fn current_step(&self) -> (r: Step)
        ensures
            r == match self.step {
                Some(s) => s,
                None => Step::Teams,
            },
    {
        match self.step {
            Some(s) => s,
            None => Step::Teams,
        }
    }
}

} // verus!
