use league_scheduler::config::{default_5team_schedule, default_6team_schedule, schedule_to_inputs, LeagueConfig};
use league_scheduler::state::{Step, SwimScheduler};

fn pairs(bs: &Vec<(u32, Vec<[String; 2]>)>) -> Vec<(u32, Vec<(String, String)>)> {
    bs.iter()
        .map(|(w, ms)| (*w, ms.iter().map(|m| (m[0].clone(), m[1].clone())).collect()))
        .collect()
}

fn p(a: &str, b: &str) -> (String, String) {
    (a.to_string(), b.to_string())
}

#[test]
fn five_team_default_has_the_documented_weeks() {
    let bs = pairs(&default_5team_schedule());
    assert_eq!(
        bs,
        vec![
            (1, vec![p("A", "B"), p("C", "D")]),
            (2, vec![p("A", "C"), p("D", "E")]),
            (3, vec![p("A", "D"), p("B", "E")]),
            (4, vec![p("A", "E"), p("B", "C")]),
            (5, vec![p("B", "D"), p("C", "E")]),
        ]
    );
}

#[test]
fn six_team_default_has_the_documented_weeks() {
    let bs = pairs(&default_6team_schedule());
    assert_eq!(
        bs,
        vec![
            (1, vec![p("A", "B"), p("C", "F"), p("D", "E")]),
            (2, vec![p("A", "C"), p("B", "D"), p("E", "F")]),
            (3, vec![p("A", "D"), p("B", "F"), p("C", "E")]),
            (4, vec![p("A", "E"), p("B", "C"), p("D", "F")]),
            (5, vec![p("A", "F"), p("B", "E"), p("C", "D")]),
        ]
    );
}

#[test]
fn schedule_text_reads_a_vs_b() {
    let inputs = schedule_to_inputs(&default_5team_schedule());
    assert_eq!(inputs[0], (1, "A vs B, C vs D".to_string()));
    assert_eq!(inputs[4], (5, "B vs D, C vs E".to_string()));
    assert_eq!(inputs.len(), 5);
}

#[test]
fn new_wizard_starts_on_teams_with_default_config() {
    let s = SwimScheduler::new();
    assert_eq!(s.current_step(), Step::Teams);
    assert_eq!(s.weeks_input, "1, 2, 3, 4, 5");
    assert_eq!(s.config.labels, vec!["A", "B", "C", "D", "E"]);
    assert_eq!(s.selected_rank, 1);
    let c = LeagueConfig::default();
    assert!(c.teams.is_empty());
    assert_eq!(c.weeks, vec![1, 2, 3, 4, 5]);
}

fn meetings(bs: &Vec<(u32, Vec<[String; 2]>)>, x: &str, y: &str) -> usize {
    bs.iter()
        .map(|(_, ms)| ms.iter().filter(|m| (m[0] == x && m[1] == y) || (m[0] == y && m[1] == x)).count())
        .sum()
}

fn games_in_week(ms: &Vec<[String; 2]>, x: &str) -> usize {
    ms.iter().filter(|m| m[0] == x || m[1] == x).count()
}

#[test]
fn five_team_default_is_a_round_robin() {
    let bs = default_5team_schedule();
    let labels = ["A", "B", "C", "D", "E"];
    for a in labels {
        for b in labels {
            if a != b {
                assert_eq!(meetings(&bs, a, b), 1, "{} and {}", a, b);
            }
        }
        let sit_outs = bs.iter().filter(|(_, ms)| games_in_week(ms, a) == 0).count();
        assert_eq!(sit_outs, 1);
        assert!(bs.iter().all(|(_, ms)| games_in_week(ms, a) <= 1));
    }
}

#[test]
fn six_team_default_is_a_round_robin_without_byes() {
    let bs = default_6team_schedule();
    let labels = ["A", "B", "C", "D", "E", "F"];
    for a in labels {
        assert!(bs.iter().all(|(_, ms)| games_in_week(ms, a) == 1));
        for b in labels {
            if a != b {
                assert_eq!(meetings(&bs, a, b), 1, "{} and {}", a, b);
            }
        }
    }
}
