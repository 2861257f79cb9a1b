use league_scheduler::config::{default_6team_schedule, schedule_to_inputs};
use league_scheduler::message::Message;
use league_scheduler::state::{weeks_to_text, SwimScheduler};
use league_scheduler::text::{
    decimal_string, is_whitespace, parse_u32_chars, split_chars, string_from_chars, trim_chars,
};
use league_scheduler::update::parse_weeks_exec;

fn chars(x: &str) -> Vec<char> {
    x.chars().collect()
}

fn text(v: &Vec<char>) -> String {
    string_from_chars(v)
}

#[test]
fn trim_drops_unicode_white_space_at_both_ends() {
    assert_eq!(text(&trim_chars(&chars("\t a b \n"))), "a b");
    assert_eq!(text(&trim_chars(&chars("\u{3000}x\u{a0}"))), "x");
    assert_eq!(text(&trim_chars(&chars("   "))), "");
    assert!(is_whitespace('\u{2028}'));
    assert!(!is_whitespace('x'));
}

#[test]
fn split_cuts_at_every_separator() {
    let parts = split_chars(&chars("A vs B vs C"), &chars("vs"));
    let texts: Vec<String> = parts.iter().map(text).collect();
    assert_eq!(texts, vec!["A ", " B ", " C"]);
    let parts = split_chars(&chars(",,"), &chars(","));
    assert_eq!(parts.len(), 3);
    let parts = split_chars(&chars(""), &chars(","));
    assert_eq!(parts, vec![Vec::<char>::new()]);
}

#[test]
fn numbers_parse_as_str_parse_does() {
    assert_eq!(parse_u32_chars(&chars("42")), Some(42));
    assert_eq!(parse_u32_chars(&chars("+7")), Some(7));
    assert_eq!(parse_u32_chars(&chars("007")), Some(7));
    assert_eq!(parse_u32_chars(&chars("4294967295")), Some(u32::MAX));
    assert_eq!(parse_u32_chars(&chars("4294967296")), None);
    assert_eq!(parse_u32_chars(&chars("-1")), None);
    assert_eq!(parse_u32_chars(&chars("+")), None);
    assert_eq!(parse_u32_chars(&chars("")), None);
    assert_eq!(parse_u32_chars(&chars(" 1")), None);
}

#[test]
fn decimal_text_of_numbers() {
    assert_eq!(decimal_string(0), "0");
    assert_eq!(decimal_string(1907), "1907");
    assert_eq!(decimal_string(u64::MAX), "18446744073709551615");
}

#[test]
fn weeks_text_reads_back_as_the_weeks() {
    let weeks = vec![5, 10, 0, 4294967295];
    let t = weeks_to_text(&weeks);
    assert_eq!(t, "5, 10, 0, 4294967295");
    assert_eq!(parse_weeks_exec(&t), Some(weeks));
    assert_eq!(parse_weeks_exec(&"1,,2".to_string()), None);
}

#[test]
fn schedule_text_reads_back_as_the_schedule() {
    let bs = default_6team_schedule();
    let mut w = SwimScheduler::new();
    w.base_schedule_inputs = schedule_to_inputs(&bs);
    w.update(Message::ApplyBaseSchedule);
    assert_eq!(w.base_schedule_error, None);
    assert_eq!(w.config.base_schedule, bs);
}
