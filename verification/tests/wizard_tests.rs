use league_scheduler::config::LeagueConfig;
use league_scheduler::message::{Action, Message};
use league_scheduler::ranking::{bye_mark, ByeMark, Solution};
use league_scheduler::state::{Step, SwimScheduler};

fn s(x: &str) -> String {
    x.to_string()
}

fn add(w: &mut SwimScheduler, name: &str) {
    w.update(Message::NewTeamNameChanged(s(name)));
    w.update(Message::AddTeam);
}

fn five_team_wizard() -> SwimScheduler {
    let mut w = SwimScheduler::new();
    for t in ["Marlins", "Dolphins", "Sharks", "Orcas", "Seals"] {
        add(&mut w, t);
    }
    w
}

#[test]
fn add_team_trims_and_clears_the_field() {
    let mut w = SwimScheduler::new();
    add(&mut w, "  Marlins  ");
    assert_eq!(w.config.teams, vec![s("Marlins")]);
    assert_eq!(w.new_team_name, "");
    assert_eq!(w.config.labels, vec![s("A")]);
}

#[test]
fn add_team_ignores_blank_and_duplicate_names() {
    let mut w = SwimScheduler::new();
    add(&mut w, "Marlins");
    add(&mut w, "   ");
    assert_eq!(w.config.teams, vec![s("Marlins")]);
    add(&mut w, " Marlins");
    assert_eq!(w.config.teams, vec![s("Marlins")]);
    // The refused name stays in the field.
    assert_eq!(w.new_team_name, " Marlins");
}

#[test]
fn at_most_six_teams_are_kept() {
    let mut w = five_team_wizard();
    add(&mut w, "Rays");
    assert_eq!(w.config.teams.len(), 6);
    add(&mut w, "Eels");
    assert_eq!(w.config.teams.len(), 6);
    assert_eq!(w.new_team_name, "Eels");
}

#[test]
fn fifth_team_brings_the_five_team_round_robin() {
    let w = five_team_wizard();
    assert_eq!(w.config.labels, vec![s("A"), s("B"), s("C"), s("D"), s("E")]);
    assert_eq!(w.base_schedule_inputs.len(), 5);
    assert_eq!(w.base_schedule_inputs[0], (1, s("A vs B, C vs D")));
}

#[test]
fn sixth_team_brings_the_six_team_round_robin() {
    let mut w = five_team_wizard();
    add(&mut w, "Rays");
    assert_eq!(w.config.labels.len(), 6);
    assert_eq!(w.base_schedule_inputs[0], (1, s("A vs B, C vs F, D vs E")));
    assert_eq!(w.config.base_schedule[4].1.len(), 3);
}

#[test]
fn remove_team_drops_it_and_relabels() {
    let mut w = five_team_wizard();
    w.update(Message::RemoveTeam(1));
    assert_eq!(w.config.teams, vec![s("Marlins"), s("Sharks"), s("Orcas"), s("Seals")]);
    assert_eq!(w.config.labels, vec![s("A"), s("B"), s("C"), s("D")]);
    w.update(Message::RemoveTeam(9));
    assert_eq!(w.config.teams.len(), 4);
}

#[test]
fn next_and_back_walk_the_steps() {
    let mut w = SwimScheduler::new();
    w.update(Message::Next);
    assert_eq!(w.current_step(), Step::Weeks);
    w.update(Message::Back);
    assert_eq!(w.current_step(), Step::Teams);
    w.update(Message::Back);
    assert_eq!(w.current_step(), Step::Teams);
    w.update(Message::GoTo(Step::Results));
    w.update(Message::Next);
    assert_eq!(w.current_step(), Step::Results);
    w.update(Message::Back);
    assert_eq!(w.current_step(), Step::ScoreExclusions);
}

#[test]
fn step_titles_and_order() {
    let all = Step::all();
    assert_eq!(all.len(), 7);
    assert_eq!(all[0], Step::Teams);
    assert_eq!(all[6], Step::Results);
    assert_eq!(Step::Teams.title(), "Step 1 — Teams");
    assert_eq!(Step::ByePreferences.title(), "Step 4 — Bye Preferences");
    assert_eq!(Step::Results.title(), "Results");
}

#[test]
fn apply_weeks_accepts_a_list() {
    let mut w = SwimScheduler::new();
    w.update(Message::WeeksInputChanged(s(" 2, 4 ,6")));
    w.update(Message::ApplyWeeks);
    assert_eq!(w.config.weeks, vec![2, 4, 6]);
    assert_eq!(w.weeks_error, None);
}

#[test]
fn apply_weeks_refuses_a_bad_list() {
    let mut w = SwimScheduler::new();
    w.update(Message::WeeksInputChanged(s("1, two, 3")));
    w.update(Message::ApplyWeeks);
    assert_eq!(w.config.weeks, vec![1, 2, 3, 4, 5]);
    assert_eq!(w.weeks_error, Some(s("Enter comma-separated week numbers, e.g. 1, 2, 3, 4, 5")));
    w.update(Message::WeeksInputChanged(s("")));
    w.update(Message::ApplyWeeks);
    assert!(w.weeks_error.is_some());
}

#[test]
fn apply_base_schedule_reads_the_fields() {
    let mut w = SwimScheduler::new();
    w.update(Message::BaseScheduleInputChanged(1, s("B vs A, , E vs C")));
    w.update(Message::ApplyBaseSchedule);
    assert_eq!(w.base_schedule_error, None);
    assert_eq!(w.config.base_schedule[0].0, 1);
    assert_eq!(w.config.base_schedule[0].1, vec![[s("B"), s("A")], [s("E"), s("C")]]);
    assert_eq!(w.config.base_schedule.len(), 5);
}

#[test]
fn apply_base_schedule_names_the_bad_matchup() {
    let mut w = SwimScheduler::new();
    w.update(Message::BaseScheduleInputChanged(2, s("A vs C,  A B ")));
    w.update(Message::ApplyBaseSchedule);
    assert_eq!(w.base_schedule_error, Some(s("Invalid matchup 'A B' in week 2")));
    assert_eq!(w.config.base_schedule[1].1, vec![[s("A"), s("C")], [s("D"), s("E")]]);
}

#[test]
fn changed_input_for_a_new_week_is_added() {
    let mut w = SwimScheduler::new();
    w.update(Message::BaseScheduleInputChanged(6, s("A vs B")));
    assert_eq!(w.base_schedule_inputs.len(), 6);
    assert_eq!(w.base_schedule_inputs[5], (6, s("A vs B")));
}

#[test]
fn preferences_are_stored_once_both_fields_parse() {
    let mut w = five_team_wizard();
    w.update(Message::PrefChanged(s("Sharks"), 0, s(" 3 ")));
    assert!(w.config.bye_preferences.is_empty());
    assert_eq!(w.pref_inputs, vec![(s("Sharks"), [s(" 3 "), s("")])]);
    w.update(Message::PrefChanged(s("Sharks"), 1, s("5")));
    assert_eq!(w.config.bye_preferences, vec![(s("Sharks"), [3, 5])]);
    w.update(Message::PrefChanged(s("Sharks"), 1, s("x")));
    assert_eq!(w.config.bye_preferences, vec![(s("Sharks"), [3, 5])]);
    w.update(Message::PrefChanged(s("Sharks"), 1, s("4")));
    assert_eq!(w.config.bye_preferences, vec![(s("Sharks"), [3, 4])]);
}

#[test]
fn restrictions_toggle_on_and_off() {
    let mut w = five_team_wizard();
    w.update(Message::ToggleRestriction(s("Orcas"), 2));
    w.update(Message::ToggleRestriction(s("Orcas"), 4));
    assert_eq!(w.config.bye_restrictions, vec![(s("Orcas"), vec![2, 4])]);
    w.update(Message::ToggleRestriction(s("Orcas"), 2));
    assert_eq!(w.config.bye_restrictions, vec![(s("Orcas"), vec![4])]);
}

#[test]
fn exclusion_toggled_twice_is_undone() {
    let mut w = five_team_wizard();
    w.update(Message::ToggleExclusion(s("Seals")));
    assert_eq!(w.config.score_excluded, vec![s("Seals")]);
    w.update(Message::ToggleExclusion(s("Seals")));
    assert!(w.config.score_excluded.is_empty());
}

#[test]
fn save_and_run_hand_over_the_configuration() {
    let mut w = five_team_wizard();
    match w.update(Message::SaveConfig) {
        Action::SaveConfig(c) => assert_eq!(c.teams, w.config.teams),
        _ => panic!("expected a save"),
    }
    assert!(matches!(w.update(Message::LoadConfig), Action::LoadConfig));
    match w.update(Message::RunScheduler) {
        Action::RunScheduler(c) => assert_eq!(c.weeks, w.config.weeks),
        _ => panic!("expected a run"),
    }
    assert!(w.is_running);
}

#[test]
fn loaded_configuration_refills_the_fields() {
    let mut w = SwimScheduler::new();
    let mut cfg = LeagueConfig::default();
    cfg.weeks = vec![3, 1];
    cfg.bye_preferences = vec![(s("Orcas"), [2, 10])];
    w.update(Message::ConfigLoaded(Ok(cfg)));
    assert_eq!(w.weeks_input, "3, 1");
    assert_eq!(w.pref_inputs, vec![(s("Orcas"), [s("2"), s("10")])]);
    assert_eq!(w.base_schedule_inputs[3], (4, s("A vs E, B vs C")));
    w.update(Message::ConfigLoaded(Err(s("Cancelled"))));
    assert_eq!(w.config.weeks, vec![3, 1]);
}

fn sample_solution() -> Solution {
    Solution {
        rank: 1,
        score: 3,
        penalty: 0,
        bye_detail: vec![(s("P"), 2), (s("Q"), -1)],
        bye_assignment: vec![(s("P"), 2), (s("Q"), 1)],
        schedule: vec![(2, vec![(s("Q"), s("R"))]), (1, vec![(s("P"), s("R"))])],
    }
}

#[test]
fn finished_run_shows_the_results() {
    let mut w = SwimScheduler::new();
    w.update(Message::RunScheduler);
    w.update(Message::SelectRank(3));
    w.update(Message::SchedulerComplete(Ok(vec![sample_solution()])));
    assert!(!w.is_running);
    assert_eq!(w.current_step(), Step::Results);
    assert_eq!(w.selected_rank, 1);
    assert_eq!(w.results.len(), 1);
    w.update(Message::SchedulerComplete(Err(s("Need at least 2 teams."))));
    assert!(w.results.is_empty());
    assert_eq!(w.run_error, Some(s("Need at least 2 teams.")));
}

#[test]
fn export_text_lists_byes_and_games_in_week_order() {
    let mut w = SwimScheduler::new();
    w.config.teams = vec![s("P"), s("Q"), s("R")];
    w.config.weeks = vec![2, 1];
    w.update(Message::SchedulerComplete(Ok(vec![sample_solution()])));
    let expected = [
        "\n==============================\nRank: 1\nScore: 3\n\nBye Weeks\n",
        "  P: week 2  (score 2)\n",
        "  Q: week 1  (score -1)\n",
        "  R: week 0  (score 0)\n",
        "\nMatches\n",
        "\n  Week 1\n    P hosts R\n",
        "\n  Week 2\n    Q hosts R\n",
    ]
    .concat();
    match w.update(Message::ExportResults) {
        Action::ExportResults(t) => assert_eq!(t, expected),
        _ => panic!("expected an export"),
    }
}

#[test]
fn restriction_ticked_and_unticked_leaves_no_restricted_week() {
    let mut w = five_team_wizard();
    w.update(Message::ToggleRestriction(s("Seals"), 3));
    assert_eq!(w.config.bye_restrictions, vec![(s("Seals"), vec![3])]);
    w.update(Message::ToggleRestriction(s("Seals"), 3));
    assert_eq!(w.config.bye_restrictions, vec![(s("Seals"), vec![])]);
}

#[test]
fn teams_past_the_eighth_share_the_last_label() {
    let mut w = SwimScheduler::new();
    w.config.teams = (1..=10).map(|i| format!("T{}", i)).collect();
    w.sync_labels();
    assert_eq!(
        w.config.labels,
        vec![s("A"), s("B"), s("C"), s("D"), s("E"), s("F"), s("G"), s("H"), s("H"), s("H")]
    );
    w.config.teams.truncate(3);
    w.sync_labels();
    assert_eq!(w.config.labels, vec![s("A"), s("B"), s("C")]);
}

#[test]
fn next_waits_for_five_teams_and_adding_stops_at_six() {
    let mut w = SwimScheduler::new();
    add(&mut w, "Marlins");
    assert!(!w.next_enabled());
    assert!(w.can_add_team());
    let mut w = five_team_wizard();
    assert!(w.next_enabled());
    add(&mut w, "Rays");
    assert!(!w.can_add_team());
    w.update(Message::GoTo(Step::Weeks));
    w.config.teams.clear();
    assert!(w.next_enabled());
}

#[test]
fn selected_solution_and_bye_marks() {
    let mut w = SwimScheduler::new();
    assert_eq!(w.selected_solution(), None);
    let mut second = sample_solution();
    second.rank = 2;
    w.update(Message::SchedulerComplete(Ok(vec![sample_solution(), second])));
    assert_eq!(w.selected_solution(), Some(0));
    w.update(Message::SelectRank(2));
    assert_eq!(w.selected_solution(), Some(1));
    w.update(Message::SelectRank(7));
    assert_eq!(w.selected_solution(), None);
    assert_eq!(bye_mark(-1), ByeMark::Excluded);
    assert_eq!(bye_mark(2), ByeMark::FirstChoice);
    assert_eq!(bye_mark(1), ByeMark::SecondChoice);
    assert_eq!(bye_mark(0), ByeMark::NoPreference);
    assert_eq!(bye_mark(5), ByeMark::NoPreference);
}
