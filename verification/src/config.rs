//! The persisted league configuration, the two built-in round-robin base
//! schedules, and the conversion of a base schedule into editable text.

use vstd::prelude::*;
use crate::text::{join, push_char, chars_of, append_chars, string_from_chars};

verus! {

/// A matchup of two labels, as the base schedule writes it.
pub type Matchup = [String; 2];

/// All settings for one swim-league season.
///
/// The maps of the saved file are held as association lists here: each key
/// occurs at most once (see `wf`).
pub struct LeagueConfig {
    /// Real team names, in order.
    pub teams: Vec<String>,
    /// Calendar week numbers of the season, as entered.
    pub weeks: Vec<u32>,
    /// Abstract labels, one per team (`labels[i]` belongs to `teams[i]`).
    pub labels: Vec<String>,
    /// For each week number, the label matchups played that week.
    pub base_schedule: Vec<(u32, Vec<Matchup>)>,
    /// Per team, its first and second choice of bye week.
    pub bye_preferences: Vec<(String, [u32; 2])>,
    /// Per team, the weeks it must not have its bye in.
    pub bye_restrictions: Vec<(String, Vec<u32>)>,
    /// Teams left out of the fairness score.
    pub score_excluded: Vec<String>,
}

/// The character sequences of a list of strings.
pub open spec fn str_views(v: Seq<String>) -> Seq<Seq<char>> {
    v.map_values(|s: String| s@)
}

/// A matchup as a pair of label names.
pub open spec fn matchup_view(m: Matchup) -> (Seq<char>, Seq<char>) {
    (m[0]@, m[1]@)
}

/// The matchups of one week as pairs of label names.
pub open spec fn matchups_view(ms: Seq<Matchup>) -> Seq<(Seq<char>, Seq<char>)> {
    ms.map_values(|m: Matchup| matchup_view(m))
}

/// A base schedule as week numbers with pairs of label names.
pub open spec fn schedule_view(bs: Seq<(u32, Vec<Matchup>)>) -> Seq<(u32, Seq<(Seq<char>, Seq<char>)>)> {
    bs.map_values(|e: (u32, Vec<Matchup>)| (e.0, matchups_view(e.1@)))
}

/// No week number occurs twice in a base schedule.
pub open spec fn schedule_keys_distinct(bs: Seq<(u32, Vec<Matchup>)>) -> bool {
    forall|i: int, j: int| 0 <= i < j < bs.len() ==> bs[i].0 != bs[j].0
}

/// No team name occurs twice as a key of the preference list.
pub open spec fn pref_keys_distinct(p: Seq<(String, [u32; 2])>) -> bool {
    forall|i: int, j: int| 0 <= i < j < p.len() ==> p[i].0@ != p[j].0@
}

/// No team name occurs twice as a key of the restriction list.
pub open spec fn restriction_keys_distinct(r: Seq<(String, Vec<u32>)>) -> bool {
    forall|i: int, j: int| 0 <= i < j < r.len() ==> r[i].0@ != r[j].0@
}

impl LeagueConfig {
    /// The association lists are maps: each key occurs at most once.
    pub open spec fn wf(&self) -> bool {
        &&& schedule_keys_distinct(self.base_schedule@)
        &&& pref_keys_distinct(self.bye_preferences@)
        &&& restriction_keys_distinct(self.bye_restrictions@)
    }
}

/// The one-letter label name `'A' + i`.
pub open spec fn label_name(i: int) -> Seq<char> {
    seq![(('A' as u32) + i) as char]
}

/// The first `n` labels `A`, `B`, ...
pub open spec fn label_names(n: nat) -> Seq<Seq<char>> {
    Seq::new(n, |i: int| label_name(i))
}

/// A base-schedule entry written as week number and label pairs.
pub open spec fn entry(w: u32, ms: Seq<(Seq<char>, Seq<char>)>) -> (u32, Seq<(Seq<char>, Seq<char>)>) {
    (w, ms)
}

pub open spec fn pair(a: int, b: int) -> (Seq<char>, Seq<char>) {
    (label_name(a), label_name(b))
}

/// The standard five-team round robin: five weeks, two games a week, one
/// label sitting out each week, and every pair of labels meeting once.
pub open spec fn five_team_schedule() -> Seq<(u32, Seq<(Seq<char>, Seq<char>)>)> {
    seq![
        entry(1, seq![pair(0, 1), pair(2, 3)]),
        entry(2, seq![pair(0, 2), pair(3, 4)]),
        entry(3, seq![pair(0, 3), pair(1, 4)]),
        entry(4, seq![pair(0, 4), pair(1, 2)]),
        entry(5, seq![pair(1, 3), pair(2, 4)]),
    ]
}

/// The standard six-team round robin: five weeks, three games a week, no
/// byes, and every pair of labels meeting once.
pub open spec fn six_team_schedule() -> Seq<(u32, Seq<(Seq<char>, Seq<char>)>)> {
    seq![
        entry(1, seq![pair(0, 1), pair(2, 5), pair(3, 4)]),
        entry(2, seq![pair(0, 2), pair(1, 3), pair(4, 5)]),
        entry(3, seq![pair(0, 3), pair(1, 5), pair(2, 4)]),
        entry(4, seq![pair(0, 4), pair(1, 2), pair(3, 5)]),
        entry(5, seq![pair(0, 5), pair(1, 4), pair(2, 3)]),
    ]
}

/// The string of label `i` (`A` for 0, `B` for 1, ...).
pub fn label_string(i: u32) -> (r: String)
    requires
        i < 26,
    ensures
        r@ == label_name(i as int),
{
    let c = char_from_label_index(i);
    let mut r = String::new();
    push_char(&mut r, c);
    assert(r@ =~= label_name(i as int));
    r
}

fn char_from_label_index(i: u32) -> (c: char)
    requires
        i < 26,
    ensures
        c == (('A' as u32) + i) as char,
{
    let letters: [char; 26] = [
        'A', 'B', 'C', 'D', 'E', 'F', 'G', 'H', 'I', 'J', 'K', 'L', 'M',
        'N', 'O', 'P', 'Q', 'R', 'S', 'T', 'U', 'V', 'W', 'X', 'Y', 'Z',
    ];
    let c = letters[i as usize];
    assert(letters@[i as int] == (('A' as u32) + i) as char) by {
        assert(letters@ == seq![
            'A', 'B', 'C', 'D', 'E', 'F', 'G', 'H', 'I', 'J', 'K', 'L', 'M',
            'N', 'O', 'P', 'Q', 'R', 'S', 'T', 'U', 'V', 'W', 'X', 'Y', 'Z',
        ]);
    }
    c
}

/// The label strings `A`, `B`, ... for the first `n` labels.
pub fn first_labels(n: u32) -> (r: Vec<String>)
    requires
        n <= 26,
    ensures
        str_views(r@) == label_names(n as nat),
{
    let mut r: Vec<String> = Vec::new();
    let mut i: u32 = 0;
    while i < n
        invariant
            i <= n <= 26,
            str_views(r@) == label_names(i as nat),
        decreases n - i,
    {
        let s = label_string(i);
        let ghost before = r@;
        r.push(s);
        assert(str_views(r@) =~= label_names((i + 1) as nat)) by {
            assert(str_views(r@) =~= str_views(before).push(label_name(i as int)));
        }
        i = i + 1;
    }
    r
}

fn mk_matchup(a: u32, b: u32) -> (m: Matchup)
    requires
        a < 26,
        b < 26,
    ensures
        matchup_view(m) == pair(a as int, b as int),
{
    [label_string(a), label_string(b)]
}

fn mk_week(w: u32, games: &Vec<(u32, u32)>) -> (r: (u32, Vec<Matchup>))
    requires
        forall|k: int| 0 <= k < games.len() ==> #[trigger] games@[k].0 < 26 && games@[k].1 < 26,
    ensures
        r.0 == w,
        matchups_view(r.1@) == Seq::new(games@.len(), |k: int| pair(games@[k].0 as int, games@[k].1 as int)),
{
    let mut ms: Vec<Matchup> = Vec::new();
    let mut k: usize = 0;
    while k < games.len()
        invariant
            k <= games.len(),
            forall|j: int| 0 <= j < games.len() ==> #[trigger] games@[j].0 < 26 && games@[j].1 < 26,
            matchups_view(ms@) == Seq::new(k as nat, |j: int| pair(games@[j].0 as int, games@[j].1 as int)),
        decreases games.len() - k,
    {
        let (a, b) = games[k];
        let m = mk_matchup(a, b);
        let ghost before = ms@;
        ms.push(m);
        assert(matchups_view(ms@) =~= Seq::new((k + 1) as nat, |j: int| pair(games@[j].0 as int, games@[j].1 as int))) by {
            assert(matchups_view(ms@) =~= matchups_view(before).push(matchup_view(m)));
        }
        k = k + 1;
    }
    (w, ms)
}

fn push_week(bs: &mut Vec<(u32, Vec<Matchup>)>, w: u32, games: Vec<(u32, u32)>)
    requires
        forall|k: int| 0 <= k < games.len() ==> #[trigger] games@[k].0 < 26 && games@[k].1 < 26,
    ensures
        schedule_view(final(bs)@) == schedule_view(old(bs)@).push(
            (w, Seq::new(games@.len(), |k: int| pair(games@[k].0 as int, games@[k].1 as int))),
        ),
{
    let e = mk_week(w, &games);
    let ghost before = bs@;
    bs.push(e);
    assert(schedule_view(bs@) =~= schedule_view(before).push((e.0, matchups_view(e.1@))));
}

/// The standard five-team round-robin base schedule, weeks 1 to 5 in order.
///
/// ```text
/// Week 1: A–B, C–D   (E has bye)
/// Week 2: A–C, D–E   (B has bye)
/// Week 3: A–D, B–E   (C has bye)
/// Week 4: A–E, B–C   (D has bye)
/// Week 5: B–D, C–E   (A has bye)
/// ```
pub fn default_5team_schedule() -> (bs: Vec<(u32, Vec<Matchup>)>)
    ensures
        schedule_view(bs@) == five_team_schedule(),
        schedule_keys_distinct(bs@),
{
    let mut bs: Vec<(u32, Vec<Matchup>)> = Vec::new();
    push_week(&mut bs, 1, vec![(0, 1), (2, 3)]);
    push_week(&mut bs, 2, vec![(0, 2), (3, 4)]);
    push_week(&mut bs, 3, vec![(0, 3), (1, 4)]);
    push_week(&mut bs, 4, vec![(0, 4), (1, 2)]);
    push_week(&mut bs, 5, vec![(1, 3), (2, 4)]);
    assert(schedule_view(bs@) =~= five_team_schedule()) by {
        let v = schedule_view(bs@);
        assert(v[0].1 =~= seq![pair(0, 1), pair(2, 3)]);
        assert(v[1].1 =~= seq![pair(0, 2), pair(3, 4)]);
        assert(v[2].1 =~= seq![pair(0, 3), pair(1, 4)]);
        assert(v[3].1 =~= seq![pair(0, 4), pair(1, 2)]);
        assert(v[4].1 =~= seq![pair(1, 3), pair(2, 4)]);
    }
    assert(bs@[0].0 == 1 && bs@[1].0 == 2 && bs@[2].0 == 3 && bs@[3].0 == 4 && bs@[4].0 == 5) by {
        assert(schedule_view(bs@)[0].0 == bs@[0].0);
        assert(schedule_view(bs@)[1].0 == bs@[1].0);
        assert(schedule_view(bs@)[2].0 == bs@[2].0);
        assert(schedule_view(bs@)[3].0 == bs@[3].0);
        assert(schedule_view(bs@)[4].0 == bs@[4].0);
    }
    bs
}

/// The standard six-team round-robin base schedule, weeks 1 to 5 in order.
///
/// ```text
/// Week 1: A–B, C–F, D–E
/// Week 2: A–C, B–D, E–F
/// Week 3: A–D, B–F, C–E
/// Week 4: A–E, B–C, D–F
/// Week 5: A–F, B–E, C–D
/// ```
pub fn default_6team_schedule() -> (bs: Vec<(u32, Vec<Matchup>)>)
    ensures
        schedule_view(bs@) == six_team_schedule(),
        schedule_keys_distinct(bs@),
{
    let mut bs: Vec<(u32, Vec<Matchup>)> = Vec::new();
    push_week(&mut bs, 1, vec![(0, 1), (2, 5), (3, 4)]);
    push_week(&mut bs, 2, vec![(0, 2), (1, 3), (4, 5)]);
    push_week(&mut bs, 3, vec![(0, 3), (1, 5), (2, 4)]);
    push_week(&mut bs, 4, vec![(0, 4), (1, 2), (3, 5)]);
    push_week(&mut bs, 5, vec![(0, 5), (1, 4), (2, 3)]);
    assert(schedule_view(bs@) =~= six_team_schedule()) by {
        let v = schedule_view(bs@);
        assert(v[0].1 =~= seq![pair(0, 1), pair(2, 5), pair(3, 4)]);
        assert(v[1].1 =~= seq![pair(0, 2), pair(1, 3), pair(4, 5)]);
        assert(v[2].1 =~= seq![pair(0, 3), pair(1, 5), pair(2, 4)]);
        assert(v[3].1 =~= seq![pair(0, 4), pair(1, 2), pair(3, 5)]);
        assert(v[4].1 =~= seq![pair(0, 5), pair(1, 4), pair(2, 3)]);
    }
    assert(bs@[0].0 == 1 && bs@[1].0 == 2 && bs@[2].0 == 3 && bs@[3].0 == 4 && bs@[4].0 == 5) by {
        assert(schedule_view(bs@)[0].0 == bs@[0].0);
        assert(schedule_view(bs@)[1].0 == bs@[1].0);
        assert(schedule_view(bs@)[2].0 == bs@[2].0);
        assert(schedule_view(bs@)[3].0 == bs@[3].0);
        assert(schedule_view(bs@)[4].0 == bs@[4].0);
    }
    bs
}

/// `a vs b`, the text of one matchup.
pub open spec fn matchup_text(m: (Seq<char>, Seq<char>)) -> Seq<char> {
    m.0 + seq![' ', 'v', 's', ' '] + m.1
}

/// The matchups of one week as `A vs B, C vs D`.
pub open spec fn week_line(ms: Seq<(Seq<char>, Seq<char>)>) -> Seq<char> {
    join(ms.map_values(|m: (Seq<char>, Seq<char>)| matchup_text(m)), seq![',', ' '])
}

/// Each week of a base schedule with its line of text.
pub open spec fn inputs_of(bs: Seq<(u32, Seq<(Seq<char>, Seq<char>)>)>) -> Seq<(u32, Seq<char>)> {
    bs.map_values(|e: (u32, Seq<(Seq<char>, Seq<char>)>)| (e.0, week_line(e.1)))
}

/// Editable per-week text as week numbers with strings.
pub open spec fn inputs_view(v: Seq<(u32, String)>) -> Seq<(u32, Seq<char>)> {
    v.map_values(|e: (u32, String)| (e.0, e.1@))
}

fn week_line_exec(ms: &Vec<Matchup>) -> (r: String)
    ensures
        r@ == week_line(matchups_view(ms@)),
{
    let ghost mv = matchups_view(ms@);
    let ghost texts = mv.map_values(|m: (Seq<char>, Seq<char>)| matchup_text(m));
    let mut out: Vec<char> = Vec::new();
    let mut k: usize = 0;
    while k < ms.len()
        invariant
            k <= ms.len(),
            mv == matchups_view(ms@),
            texts == mv.map_values(|m: (Seq<char>, Seq<char>)| matchup_text(m)),
            out@ == join(texts.subrange(0, k as int), seq![',', ' ']),
        decreases ms.len() - k,
    {
        let ghost before = out@;
        if k > 0 {
            out.push(',');
            out.push(' ');
        }
        let a = chars_of(ms[k][0].as_str());
        let b = chars_of(ms[k][1].as_str());
        append_chars(&mut out, &a);
        out.push(' ');
        out.push('v');
        out.push('s');
        out.push(' ');
        append_chars(&mut out, &b);
        proof {
            let sub = texts.subrange(0, k + 1);
            assert(sub.drop_last() =~= texts.subrange(0, k as int));
            assert(sub.last() == texts[k as int]);
            assert(texts[k as int] == matchup_text(mv[k as int]));
            if k == 0 {
                assert(out@ =~= texts[k as int]);
            } else {
                assert(out@ =~= before + seq![',', ' '] + texts[k as int]);
            }
        }
        k = k + 1;
    }
    assert(texts.subrange(0, ms.len() as int) =~= texts);
    string_from_chars(&out)
}

/// Each week of a base schedule written as `A vs B, C vs D`, in the
/// schedule's own order, for the editable per-week fields.
pub fn schedule_to_inputs(bs: &Vec<(u32, Vec<Matchup>)>) -> (r: Vec<(u32, String)>)
    ensures
        inputs_view(r@) == inputs_of(schedule_view(bs@)),
{
    let mut r: Vec<(u32, String)> = Vec::new();
    let mut k: usize = 0;
    while k < bs.len()
        invariant
            k <= bs.len(),
            inputs_view(r@) == inputs_of(schedule_view(bs@)).subrange(0, k as int),
        decreases bs.len() - k,
    {
        let line = week_line_exec(&bs[k].1);
        let ghost before = r@;
        r.push((bs[k].0, line));
        assert(inputs_view(r@) =~= inputs_of(schedule_view(bs@)).subrange(0, k + 1)) by {
            assert(inputs_view(r@) =~= inputs_view(before).push((bs@[k as int].0, line@)));
        }
        k = k + 1;
    }
    assert(inputs_of(schedule_view(bs@)).subrange(0, bs.len() as int) =~= inputs_of(schedule_view(bs@)));
    r
}

} // verus!
