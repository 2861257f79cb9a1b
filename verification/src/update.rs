//! The wizard's transitions: each message changes the state as stated and
//! may ask the caller to perform an outside action (a file dialog, a run of
//! the scheduler).

use vstd::prelude::*;
use crate::config::{LeagueConfig, Matchup, str_views, label_names, schedule_view, inputs_view, inputs_of,
    five_team_schedule, six_team_schedule, first_labels, default_5team_schedule, default_6team_schedule,
    schedule_to_inputs, schedule_keys_distinct, matchup_view, matchups_view, label_name, label_string};
use crate::state::SwimScheduler;
use crate::plan::{first_slot_name, contains_name};
use crate::state::{Step, all_steps, step_index, weeks_text, weeks_to_text};
use crate::message::{Message, Action};
use crate::export::{results_text, format_results};
use crate::text::{trim, split_on, decimal, parse_u32, chars_of, trim_chars, split_chars, parse_u32_chars,
    append_chars, append_str, push_decimal, string_from_chars, char_views, decimal_string};

verus! {

/// The labels that go with `n` teams: `A`, `B`, ... one per team, the
/// teams past the eighth all taking the last letter `H`.
pub open spec fn labels_for(n: nat) -> Seq<Seq<char>> {
    Seq::new(n, |i: int| label_name(if i < 8 { i } else { 7 }))
}

impl SwimScheduler {
    /// Rebuild the labels from the team count: `A`, `B`, ... one per team,
    /// teams past the eighth getting `H`.  Nothing else changes.
    pub fn sync_labels(&mut self)
        ensures
            str_views(final(self).config.labels@) == labels_for(old(self).config.teams@.len()),
            *final(self) == (SwimScheduler {
                config: LeagueConfig { labels: final(self).config.labels, ..old(self).config },
                ..*old(self)
            }),
    {
        let n = self.config.teams.len();
        let mut labels: Vec<String> = Vec::new();
        let mut i: usize = 0;
        while i < n
            invariant
                i <= n,
                n == self.config.teams@.len(),
                str_views(labels@) == labels_for(i as nat),
            decreases n - i,
        {
            let k: u32 = if i < 8 { i as u32 } else { 7 };
            let s = label_string(k);
            let ghost before = labels@;
            labels.push(s);
            assert(str_views(labels@) =~= labels_for((i + 1) as nat)) by {
                assert(str_views(labels@) =~= str_views(before).push(label_name(k as int)));
            }
            i = i + 1;
        }
        self.config.labels = labels;
    }
}


/// The configuration after the team list became `teams`: labels follow the
/// team count, and a count of five or six brings in that round robin.
pub open spec fn roster_followed(o: SwimScheduler, n: SwimScheduler, teams: Seq<Seq<char>>) -> bool {
    let k = teams.len();
    &&& str_views(n.config.teams@) == teams
    &&& str_views(n.config.labels@) == labels_for(k)
    &&& if k == 5 {
        &&& schedule_view(n.config.base_schedule@) == five_team_schedule()
        &&& schedule_keys_distinct(n.config.base_schedule@)
        &&& inputs_view(n.base_schedule_inputs@) == inputs_of(five_team_schedule())
        &&& n.base_schedule_error is None
    } else if k == 6 {
        &&& schedule_view(n.config.base_schedule@) == six_team_schedule()
        &&& schedule_keys_distinct(n.config.base_schedule@)
        &&& inputs_view(n.base_schedule_inputs@) == inputs_of(six_team_schedule())
        &&& n.base_schedule_error is None
    } else {
        &&& n.config.base_schedule == o.config.base_schedule
        &&& n.base_schedule_inputs == o.base_schedule_inputs
        &&& n.base_schedule_error == o.base_schedule_error
    }
    &&& n.config.weeks == o.config.weeks
    &&& n.config.bye_preferences == o.config.bye_preferences
    &&& n.config.bye_restrictions == o.config.bye_restrictions
    &&& n.config.score_excluded == o.config.score_excluded
    &&& n.step == o.step
    &&& n.weeks_input == o.weeks_input
    &&& n.weeks_error == o.weeks_error
    &&& n.pref_inputs == o.pref_inputs
    &&& n.results == o.results
    &&& n.selected_rank == o.selected_rank
    &&& n.run_error == o.run_error
    &&& n.is_running == o.is_running
}

impl SwimScheduler {
    /// With five or six teams, bring in that round robin: its labels, base
    /// schedule and matchup text, clearing the matchup error.  With any other
    /// count nothing changes.
    pub fn apply_default_schedule_if_supported(&mut self)
        ensures
            old(self).config.teams@.len() == 5 || old(self).config.teams@.len() == 6 ==> roster_followed(
                *old(self),
                *final(self),
                str_views(old(self).config.teams@),
            ),
            old(self).config.teams@.len() != 5 && old(self).config.teams@.len() != 6 ==> *final(self) == *old(self),
            final(self).new_team_name == old(self).new_team_name,
            final(self).config.teams == old(self).config.teams,
    {
        let n = self.config.teams.len();
        if n == 5 {
            self.config.labels = first_labels(5);
            self.config.base_schedule = default_5team_schedule();
            self.base_schedule_inputs = schedule_to_inputs(&self.config.base_schedule);
            self.base_schedule_error = None;
            assert(labels_for(5) =~= label_names(5));
        } else if n == 6 {
            self.config.labels = first_labels(6);
            self.config.base_schedule = default_6team_schedule();
            self.base_schedule_inputs = schedule_to_inputs(&self.config.base_schedule);
            self.base_schedule_error = None;
            assert(labels_for(6) =~= label_names(6));
        }
    }

    /// Rebuild the matchup text of every week from the base schedule.
    pub fn sync_base_schedule_inputs(&mut self)
        ensures
            inputs_view(final(self).base_schedule_inputs@) == inputs_of(schedule_view(old(self).config.base_schedule@)),
            *final(self) == (SwimScheduler { base_schedule_inputs: final(self).base_schedule_inputs, ..*old(self) }),
    {
        self.base_schedule_inputs = schedule_to_inputs(&self.config.base_schedule);
    }
}


pub open spec fn comma() -> Seq<char> {
    seq![',']
}

pub open spec fn vs() -> Seq<char> {
    seq!['v', 's']
}

/// The message for a matchup that is not `X vs Y`.
pub open spec fn matchup_error(w: u32, m: Seq<char>) -> Seq<char> {
    "Invalid matchup '"@ + trim(m) + "' in week "@ + decimal(w as nat)
}

/// One matchup `X vs Y`: exactly one `vs` with a non-blank side on each side.
pub open spec fn parse_matchup(w: u32, m: Seq<char>) -> Result<(Seq<char>, Seq<char>), Seq<char>> {
    let parts = split_on(m, vs());
    if parts.len() == 2 && trim(parts[0]).len() > 0 && trim(parts[1]).len() > 0 {
        Ok((trim(parts[0]), trim(parts[1])))
    } else {
        Err(matchup_error(w, m))
    }
}

/// The matchups of the first `k` comma-separated pieces, blank pieces
/// skipped, stopping at the first invalid one.
pub open spec fn parse_pieces(w: u32, pieces: Seq<Seq<char>>, k: int) -> Result<Seq<(Seq<char>, Seq<char>)>, Seq<char>>
    decreases k,
{
    if k <= 0 {
        Ok(Seq::empty())
    } else {
        match parse_pieces(w, pieces, k - 1) {
            Err(e) => Err(e),
            Ok(prev) => if trim(pieces[k - 1]).len() == 0 {
                Ok(prev)
            } else {
                match parse_matchup(w, pieces[k - 1]) {
                    Ok(m) => Ok(prev.push(m)),
                    Err(e) => Err(e),
                }
            },
        }
    }
}

/// The matchups of one week's text.
pub open spec fn parse_week_text(w: u32, raw: Seq<char>) -> Result<Seq<(Seq<char>, Seq<char>)>, Seq<char>> {
    let pieces = split_on(raw, comma());
    parse_pieces(w, pieces, pieces.len() as int)
}

/// The base schedule of the first `k` weeks' text, stopping at the first error.
pub open spec fn parse_inputs(inputs: Seq<(u32, Seq<char>)>, k: int) -> Result<Seq<(u32, Seq<(Seq<char>, Seq<char>)>)>, Seq<char>>
    decreases k,
{
    if k <= 0 {
        Ok(Seq::empty())
    } else {
        match parse_inputs(inputs, k - 1) {
            Err(e) => Err(e),
            Ok(prev) => match parse_week_text(inputs[k - 1].0, inputs[k - 1].1) {
                Ok(ms) => Ok(prev.push((inputs[k - 1].0, ms))),
                Err(e) => Err(e),
            },
        }
    }
}

/// The base schedule written in the matchup fields, or the first error.
pub open spec fn parse_schedule_inputs(inputs: Seq<(u32, Seq<char>)>) -> Result<Seq<(u32, Seq<(Seq<char>, Seq<char>)>)>, Seq<char>> {
    parse_inputs(inputs, inputs.len() as int)
}

/// No week number occurs twice among the matchup fields.
pub open spec fn input_keys_distinct(v: Seq<(u32, String)>) -> bool {
    forall|i: int, j: int| 0 <= i < j < v.len() ==> v[i].0 != v[j].0
}

fn parse_matchup_exec(w: u32, m: &Vec<char>) -> (r: Result<Matchup, String>)
    ensures
        match r {
            Ok(x) => parse_matchup(w, m@) == Ok::<(Seq<char>, Seq<char>), Seq<char>>(matchup_view(x)),
            Err(e) => parse_matchup(w, m@) == Err::<(Seq<char>, Seq<char>), Seq<char>>(e@),
        },
{
    let pat = vec!['v', 's'];
    assert(pat@ =~= vs());
    let parts = split_chars(m, &pat);
    if parts.len() == 2 {
        let a = trim_chars(&parts[0]);
        let b = trim_chars(&parts[1]);
        assert(char_views(parts@)[0] == parts@[0]@);
        assert(char_views(parts@)[1] == parts@[1]@);
        if a.len() > 0 && b.len() > 0 {
            let x: Matchup = [string_from_chars(&a), string_from_chars(&b)];
            return Ok(x);
        }
    }
    let mut out: Vec<char> = Vec::new();
    append_str(&mut out, "Invalid matchup '");
    let t = trim_chars(m);
    append_chars(&mut out, &t);
    append_str(&mut out, "' in week ");
    push_decimal(&mut out, w as u64);
    assert(out@ =~= matchup_error(w, m@));
    Err(string_from_chars(&out))
}

fn parse_week_exec(w: u32, raw: &String) -> (r: Result<Vec<Matchup>, String>)
    ensures
        match r {
            Ok(ms) => parse_week_text(w, raw@) == Ok::<Seq<(Seq<char>, Seq<char>)>, Seq<char>>(matchups_view(ms@)),
            Err(e) => parse_week_text(w, raw@) == Err::<Seq<(Seq<char>, Seq<char>)>, Seq<char>>(e@),
        },
{
    let cs = chars_of(raw.as_str());
    let sep = vec![','];
    assert(sep@ =~= comma());
    let pieces = split_chars(&cs, &sep);
    let ghost pv = char_views(pieces@);
    let mut ms: Vec<Matchup> = Vec::new();
    assert(matchups_view(ms@) =~= Seq::<(Seq<char>, Seq<char>)>::empty());
    let mut k: usize = 0;
    while k < pieces.len()
        invariant
            k <= pieces@.len(),
            pv == char_views(pieces@),
            pv == split_on(raw@, comma()),
            parse_pieces(w, pv, k as int) == Ok::<Seq<(Seq<char>, Seq<char>)>, Seq<char>>(matchups_view(ms@)),
        decreases pieces@.len() - k,
    {
        assert(pv[k as int] == pieces@[k as int]@);
        let t = trim_chars(&pieces[k]);
        if t.len() > 0 {
            match parse_matchup_exec(w, &pieces[k]) {
                Ok(x) => {
                    let ghost before = ms@;
                    ms.push(x);
                    assert(matchups_view(ms@) =~= matchups_view(before).push(matchup_view(x)));
                },
                Err(e) => {
                    proof {
                        lemma_parse_pieces_err(w, pv, (k + 1) as int, pv.len() as int, e@);
                    }
                    return Err(e);
                },
            }
        }
        k = k + 1;
    }
    Ok(ms)
}

proof fn lemma_parse_inputs_err(inputs: Seq<(u32, Seq<char>)>, k: int, m: int, e: Seq<char>)
    requires
        0 <= k <= m <= inputs.len(),
        parse_inputs(inputs, k) == Err::<Seq<(u32, Seq<(Seq<char>, Seq<char>)>)>, Seq<char>>(e),
    ensures
        parse_inputs(inputs, m) == Err::<Seq<(u32, Seq<(Seq<char>, Seq<char>)>)>, Seq<char>>(e),
    decreases m - k,
{
    if m > k {
        lemma_parse_inputs_err(inputs, k, m - 1, e);
    }
}

proof fn lemma_parse_pieces_err(w: u32, pieces: Seq<Seq<char>>, k: int, m: int, e: Seq<char>)
    requires
        0 <= k <= m <= pieces.len(),
        parse_pieces(w, pieces, k) == Err::<Seq<(Seq<char>, Seq<char>)>, Seq<char>>(e),
    ensures
        parse_pieces(w, pieces, m) == Err::<Seq<(Seq<char>, Seq<char>)>, Seq<char>>(e),
    decreases m - k,
{
    if m > k {
        lemma_parse_pieces_err(w, pieces, k, m - 1, e);
    }
}


impl SwimScheduler {
    /// Parse every week's matchup text, in the fields' order, into the base
    /// schedule; the first invalid matchup gives the error
    /// `Invalid matchup '<text>' in week <n>`.
    pub fn parse_base_schedule(&self) -> (r: Result<Vec<(u32, Vec<Matchup>)>, String>)
        ensures
            match r {
                Ok(bs) => parse_schedule_inputs(inputs_view(self.base_schedule_inputs@))
                    == Ok::<Seq<(u32, Seq<(Seq<char>, Seq<char>)>)>, Seq<char>>(schedule_view(bs@)),
                Err(e) => parse_schedule_inputs(inputs_view(self.base_schedule_inputs@))
                    == Err::<Seq<(u32, Seq<(Seq<char>, Seq<char>)>)>, Seq<char>>(e@),
            },
            r matches Ok(bs) ==> forall|i: int| 0 <= i < bs@.len() ==> bs@[i].0 == #[trigger] self.base_schedule_inputs@[i].0,
            r matches Ok(bs) ==> bs@.len() == self.base_schedule_inputs@.len(),
    {
        let ghost iv = inputs_view(self.base_schedule_inputs@);
        let mut result: Vec<(u32, Vec<Matchup>)> = Vec::new();
        assert(schedule_view(result@) =~= Seq::<(u32, Seq<(Seq<char>, Seq<char>)>)>::empty());
        let mut k: usize = 0;
        while k < self.base_schedule_inputs.len()
            invariant
                k <= self.base_schedule_inputs@.len(),
                iv == inputs_view(self.base_schedule_inputs@),
                parse_inputs(iv, k as int) == Ok::<Seq<(u32, Seq<(Seq<char>, Seq<char>)>)>, Seq<char>>(schedule_view(result@)),
                result@.len() == k,
                forall|i: int| 0 <= i < k ==> result@[i].0 == #[trigger] self.base_schedule_inputs@[i].0,
            decreases self.base_schedule_inputs@.len() - k,
        {
            let w = self.base_schedule_inputs[k].0;
            assert(iv[k as int] == (w, self.base_schedule_inputs@[k as int].1@));
            match parse_week_exec(w, &self.base_schedule_inputs[k].1) {
                Ok(ms) => {
                    let ghost before = result@;
                    let ghost mv = matchups_view(ms@);
                    result.push((w, ms));
                    assert(schedule_view(result@) =~= schedule_view(before).push((w, mv)));
                },
                Err(e) => {
                    proof {
                        lemma_parse_inputs_err(iv, (k + 1) as int, iv.len() as int, e@);
                    }
                    return Err(e);
                },
            }
            k = k + 1;
        }
        Ok(result)
    }
}

/// The week numbers of the first `k` comma-separated pieces, each trimmed,
/// or nothing when one is not a number.
pub open spec fn parse_weeks_from(pieces: Seq<Seq<char>>, k: int) -> Option<Seq<u32>>
    decreases k,
{
    if k <= 0 {
        Some(Seq::empty())
    } else {
        match parse_weeks_from(pieces, k - 1) {
            None => None,
            Some(l) => match parse_u32(trim(pieces[k - 1])) {
                Some(v) => Some(l.push(v)),
                None => None,
            },
        }
    }
}

/// The week numbers of a comma-separated text such as `1, 2, 3`.
pub open spec fn parse_weeks(s: Seq<char>) -> Option<Seq<u32>> {
    let pieces = split_on(s, comma());
    parse_weeks_from(pieces, pieces.len() as int)
}

proof fn lemma_parse_weeks_none(pieces: Seq<Seq<char>>, k: int, m: int)
    requires
        0 <= k <= m <= pieces.len(),
        parse_weeks_from(pieces, k) is None,
    ensures
        parse_weeks_from(pieces, m) is None,
    decreases m - k,
{
    if m > k {
        lemma_parse_weeks_none(pieces, k, m - 1);
    }
}

/// The week numbers of a comma-separated text, or nothing when a piece is
/// not a number.
pub fn parse_weeks_exec(s: &String) -> (r: Option<Vec<u32>>)
    ensures
        match r {
            Some(v) => parse_weeks(s@) == Some(v@),
            None => parse_weeks(s@) is None,
        },
{
    let cs = chars_of(s.as_str());
    let sep = vec![','];
    assert(sep@ =~= comma());
    let pieces = split_chars(&cs, &sep);
    let ghost pv = char_views(pieces@);
    let mut out: Vec<u32> = Vec::new();
    let mut k: usize = 0;
    while k < pieces.len()
        invariant
            k <= pieces@.len(),
            pv == char_views(pieces@),
            pv == split_on(s@, comma()),
            parse_weeks_from(pv, k as int) == Some(out@),
        decreases pieces@.len() - k,
    {
        assert(pv[k as int] == pieces@[k as int]@);
        let t = trim_chars(&pieces[k]);
        match parse_u32_chars(&t) {
            Some(v) => {
                out.push(v);
            },
            None => {
                proof {
                    lemma_parse_weeks_none(pv, (k + 1) as int, pv.len() as int);
                }
                return None;
            },
        }
        k = k + 1;
    }
    Some(out)
}

/// The keys of an association list keyed by name.
pub open spec fn keys_of<T>(v: Seq<(String, T)>) -> Seq<Seq<char>> {
    v.map_values(|e: (String, T)| e.0@)
}

/// The position of the first entry keyed `k`, if any.
pub fn key_position<T>(v: &Vec<(String, T)>, k: &String) -> (r: Option<usize>)
    ensures
        match r {
            Some(i) => i as int == first_slot_name(keys_of(v@), k@) && i < v@.len(),
            None => first_slot_name(keys_of(v@), k@) == -1,
        },
{
    let ghost keys = keys_of(v@);
    let mut i: usize = 0;
    while i < v.len()
        invariant
            i <= v@.len(),
            keys == keys_of(v@),
            first_slot_name(keys.take(i as int), k@) == -1,
        decreases v@.len() - i,
    {
        assert(keys.take(i + 1).drop_last() =~= keys.take(i as int));
        assert(keys.take(i + 1).last() == v@[i as int].0@);
        if v[i].0 == *k {
            proof {
                assert(first_slot_name(keys.take(i + 1), k@) == i);
                lemma_first_slot_extend(keys, (i + 1) as int, v@.len() as int, k@);
                assert(keys.take(v@.len() as int) =~= keys);
            }
            return Some(i);
        }
        i = i + 1;
    }
    assert(keys.take(v@.len() as int) =~= keys);
    None
}

proof fn lemma_first_slot_extend(s: Seq<Seq<char>>, j: int, m: int, x: Seq<char>)
    requires
        0 < j <= m <= s.len(),
        first_slot_name(s.take(j), x) >= 0,
    ensures
        first_slot_name(s.take(m), x) == first_slot_name(s.take(j), x),
    decreases m - j,
{
    if m > j {
        lemma_first_slot_extend(s, j, m - 1, x);
        assert(s.take(m).drop_last() =~= s.take(m - 1));
    } else {
        assert(s.take(m) == s.take(j));
    }
}

/// The first position of `x` in `s`, or -1.
pub open spec fn first_slot_u32(s: Seq<u32>, x: u32) -> int
    decreases s.len(),
{
    if s.len() == 0 {
        -1
    } else {
        let r = first_slot_u32(s.drop_last(), x);
        if r >= 0 {
            r
        } else if s.last() == x {
            s.len() - 1
        } else {
            -1
        }
    }
}

pub proof fn lemma_first_slot_u32(s: Seq<u32>, x: u32)
    ensures
        -1 <= first_slot_u32(s, x) < s.len(),
        first_slot_u32(s, x) >= 0 ==> s[first_slot_u32(s, x)] == x,
        first_slot_u32(s, x) == -1 <==> !s.contains(x),
    decreases s.len(),
{
    if s.len() > 0 {
        lemma_first_slot_u32(s.drop_last(), x);
        assert forall|j: int| 0 <= j < s.len() - 1 implies s.drop_last()[j] == s[j] by {}
        if first_slot_u32(s, x) >= 0 {
            assert(s.contains(x));
        } else {
            assert forall|j: int| 0 <= j < s.len() implies s[j] != x by {
                if j < s.len() - 1 {
                    assert(s.drop_last()[j] == s[j]);
                    assert(!s.drop_last().contains(x));
                }
            }
        }
    }
}

/// `w` taken out of the list (its first occurrence) when present, added at
/// the end otherwise.
pub open spec fn toggle_week(l: Seq<u32>, w: u32) -> Seq<u32> {
    if l.contains(w) {
        l.remove(first_slot_u32(l, w))
    } else {
        l.push(w)
    }
}

/// The restriction lists as names with week lists.
pub open spec fn restrictions_view(v: Seq<(String, Vec<u32>)>) -> Seq<(Seq<char>, Seq<u32>)> {
    v.map_values(|e: (String, Vec<u32>)| (e.0@, e.1@))
}

/// The restrictions with `(team, week)` toggled; a team without an entry
/// gets one holding just `week`.
pub open spec fn toggle_restriction(rv: Seq<(Seq<char>, Seq<u32>)>, team: Seq<char>, w: u32) -> Seq<(Seq<char>, Seq<u32>)> {
    let i = first_slot_name(rv.map_values(|e: (Seq<char>, Seq<u32>)| e.0), team);
    if i >= 0 {
        rv.update(i, (team, toggle_week(rv[i].1, w)))
    } else {
        rv.push((team, seq![w]))
    }
}

/// `t` taken out of the list (its first occurrence) when present, added at
/// the end otherwise.
pub open spec fn toggle_name(s: Seq<Seq<char>>, t: Seq<char>) -> Seq<Seq<char>> {
    let i = first_slot_name(s, t);
    if i >= 0 {
        s.remove(i)
    } else {
        s.push(t)
    }
}

/// The preferences as names with (first, second) choices.
pub open spec fn prefs_view(v: Seq<(String, [u32; 2])>) -> Seq<(Seq<char>, (u32, u32))> {
    v.map_values(|e: (String, [u32; 2])| (e.0@, (e.1[0], e.1[1])))
}

/// The preference text as names with the two fields' text.
pub open spec fn pref_inputs_view(v: Seq<(String, [String; 2])>) -> Seq<(Seq<char>, (Seq<char>, Seq<char>))> {
    v.map_values(|e: (String, [String; 2])| (e.0@, (e.1[0]@, e.1[1]@)))
}

/// `(k, v)` stored: the first entry keyed `k` gets `v`, or a new entry is added.
pub open spec fn upsert<T>(s: Seq<(Seq<char>, T)>, k: Seq<char>, v: T) -> Seq<(Seq<char>, T)> {
    let i = first_slot_name(s.map_values(|e: (Seq<char>, T)| e.0), k);
    if i >= 0 {
        s.update(i, (k, v))
    } else {
        s.push((k, v))
    }
}

/// The first position of week `w` among the matchup fields, or -1.
pub open spec fn input_slot(s: Seq<(u32, Seq<char>)>, w: u32) -> int
    decreases s.len(),
{
    if s.len() == 0 {
        -1
    } else {
        let r = input_slot(s.drop_last(), w);
        if r >= 0 {
            r
        } else if s.last().0 == w {
            s.len() - 1
        } else {
            -1
        }
    }
}

/// The matchup fields with week `w` set to `text` (added when absent).
pub open spec fn set_input(s: Seq<(u32, Seq<char>)>, w: u32, text: Seq<char>) -> Seq<(u32, Seq<char>)> {
    let i = input_slot(s, w);
    if i >= 0 {
        s.update(i, (w, text))
    } else {
        s.push((w, text))
    }
}


/// Two configurations hold the same settings.
pub open spec fn same_config(a: LeagueConfig, b: LeagueConfig) -> bool {
    &&& a.teams@ == b.teams@
    &&& a.weeks@ == b.weeks@
    &&& a.labels@ == b.labels@
    &&& schedule_view(a.base_schedule@) == schedule_view(b.base_schedule@)
    &&& a.bye_preferences@ == b.bye_preferences@
    &&& restrictions_view(a.bye_restrictions@) == restrictions_view(b.bye_restrictions@)
    &&& a.score_excluded@ == b.score_excluded@
}

fn copy_strings(v: &Vec<String>) -> (r: Vec<String>)
    ensures
        r@ == v@,
{
    let mut r: Vec<String> = Vec::new();
    let mut i: usize = 0;
    while i < v.len()
        invariant
            i <= v@.len(),
            r@ == v@.take(i as int),
        decreases v@.len() - i,
    {
        r.push(v[i].clone());
        assert(r@ =~= v@.take(i + 1));
        i = i + 1;
    }
    assert(v@.take(v@.len() as int) =~= v@);
    r
}

fn copy_u32s(v: &Vec<u32>) -> (r: Vec<u32>)
    ensures
        r@ == v@,
{
    let mut r: Vec<u32> = Vec::new();
    let mut i: usize = 0;
    while i < v.len()
        invariant
            i <= v@.len(),
            r@ == v@.take(i as int),
        decreases v@.len() - i,
    {
        r.push(v[i]);
        assert(r@ =~= v@.take(i + 1));
        i = i + 1;
    }
    assert(v@.take(v@.len() as int) =~= v@);
    r
}

fn copy_matchups(v: &Vec<Matchup>) -> (r: Vec<Matchup>)
    ensures
        matchups_view(r@) == matchups_view(v@),
{
    let mut r: Vec<Matchup> = Vec::new();
    let mut i: usize = 0;
    while i < v.len()
        invariant
            i <= v@.len(),
            matchups_view(r@) == matchups_view(v@).take(i as int),
        decreases v@.len() - i,
    {
        let m: Matchup = [v[i][0].clone(), v[i][1].clone()];
        let ghost before = r@;
        r.push(m);
        assert(matchups_view(r@) =~= matchups_view(v@).take(i + 1)) by {
            assert(matchups_view(r@) =~= matchups_view(before).push(matchup_view(m)));
        }
        i = i + 1;
    }
    assert(matchups_view(v@).take(v@.len() as int) =~= matchups_view(v@));
    r
}

impl LeagueConfig {
    /// A copy holding the same settings.
    pub fn duplicate(&self) -> (r: LeagueConfig)
        ensures
            same_config(*self, r),
    {
        let mut bs: Vec<(u32, Vec<Matchup>)> = Vec::new();
        let mut i: usize = 0;
        while i < self.base_schedule.len()
            invariant
                i <= self.base_schedule@.len(),
                schedule_view(bs@) == schedule_view(self.base_schedule@).take(i as int),
            decreases self.base_schedule@.len() - i,
        {
            let ms = copy_matchups(&self.base_schedule[i].1);
            let ghost before = bs@;
            let ghost mv = matchups_view(ms@);
            bs.push((self.base_schedule[i].0, ms));
            assert(schedule_view(bs@) =~= schedule_view(self.base_schedule@).take(i + 1)) by {
                assert(schedule_view(bs@) =~= schedule_view(before).push((self.base_schedule@[i as int].0, mv)));
            }
            i = i + 1;
        }
        assert(schedule_view(self.base_schedule@).take(self.base_schedule@.len() as int) =~= schedule_view(self.base_schedule@));
        let mut prefs: Vec<(String, [u32; 2])> = Vec::new();
        let mut i: usize = 0;
        while i < self.bye_preferences.len()
            invariant
                i <= self.bye_preferences@.len(),
                prefs@ == self.bye_preferences@.take(i as int),
            decreases self.bye_preferences@.len() - i,
        {
            let e = (self.bye_preferences[i].0.clone(), self.bye_preferences[i].1);
            prefs.push(e);
            assert(prefs@ =~= self.bye_preferences@.take(i + 1));
            i = i + 1;
        }
        assert(self.bye_preferences@.take(self.bye_preferences@.len() as int) =~= self.bye_preferences@);
        let mut rs: Vec<(String, Vec<u32>)> = Vec::new();
        let mut i: usize = 0;
        while i < self.bye_restrictions.len()
            invariant
                i <= self.bye_restrictions@.len(),
                restrictions_view(rs@) == restrictions_view(self.bye_restrictions@).take(i as int),
            decreases self.bye_restrictions@.len() - i,
        {
            let l = copy_u32s(&self.bye_restrictions[i].1);
            let ghost before = rs@;
            let ghost lv = l@;
            rs.push((self.bye_restrictions[i].0.clone(), l));
            assert(restrictions_view(rs@) =~= restrictions_view(self.bye_restrictions@).take(i + 1)) by {
                assert(restrictions_view(rs@) =~= restrictions_view(before).push((self.bye_restrictions@[i as int].0@, lv)));
            }
            i = i + 1;
        }
        assert(restrictions_view(self.bye_restrictions@).take(self.bye_restrictions@.len() as int) =~= restrictions_view(self.bye_restrictions@));
        LeagueConfig {
            teams: copy_strings(&self.teams),
            weeks: copy_u32s(&self.weeks),
            labels: copy_strings(&self.labels),
            base_schedule: bs,
            bye_preferences: prefs,
            bye_restrictions: rs,
            score_excluded: copy_strings(&self.score_excluded),
        }
    }
}


/// The new team name is accepted: not blank, not already a team, and fewer
/// than six teams so far.
pub open spec fn team_accepted(o: SwimScheduler) -> bool {
    let name = trim(o.new_team_name@);
    name.len() > 0 && !str_views(o.config.teams@).contains(name) && o.config.teams@.len() < 6
}

/// The preference text as it becomes when loaded from a configuration.
pub open spec fn pref_texts(prefs: Seq<(String, [u32; 2])>) -> Seq<(Seq<char>, (Seq<char>, Seq<char>))> {
    prefs.map_values(|e: (String, [u32; 2])| (e.0@, (decimal(e.1[0] as nat), decimal(e.1[1] as nat))))
}

/// The message shown when the weeks text is refused.
pub open spec fn weeks_error_text() -> Seq<char> {
    "Enter comma-separated week numbers, e.g. 1, 2, 3, 4, 5"@
}

/// The preference fields of `team` after slot `idx` became `val`.
pub open spec fn pref_fields_after(pv: Seq<(Seq<char>, (Seq<char>, Seq<char>))>, team: Seq<char>, idx: usize, val: Seq<char>) -> (Seq<char>, Seq<char>) {
    let i = first_slot_name(pv.map_values(|e: (Seq<char>, (Seq<char>, Seq<char>))| e.0), team);
    let old_fields = if i >= 0 {
        pv[i].1
    } else {
        (Seq::<char>::empty(), Seq::<char>::empty())
    };
    if idx == 0 {
        (val, old_fields.1)
    } else {
        (old_fields.0, val)
    }
}

fn prefs_to_inputs(prefs: &Vec<(String, [u32; 2])>) -> (r: Vec<(String, [String; 2])>)
    ensures
        pref_inputs_view(r@) == pref_texts(prefs@),
{
    let mut r: Vec<(String, [String; 2])> = Vec::new();
    let mut i: usize = 0;
    while i < prefs.len()
        invariant
            i <= prefs@.len(),
            pref_inputs_view(r@) == pref_texts(prefs@).take(i as int),
        decreases prefs@.len() - i,
    {
        let k = prefs[i].0.clone();
        let a = decimal_string(prefs[i].1[0] as u64);
        let b = decimal_string(prefs[i].1[1] as u64);
        let e: (String, [String; 2]) = (k, [a, b]);
        let ghost before = r@;
        r.push(e);
        assert(pref_inputs_view(r@) =~= pref_texts(prefs@).take(i + 1)) by {
            assert(pref_inputs_view(r@) =~= pref_inputs_view(before).push((e.0@, (e.1[0]@, e.1[1]@))));
        }
        i = i + 1;
    }
    assert(pref_texts(prefs@).take(prefs@.len() as int) =~= pref_texts(prefs@));
    r
}

impl SwimScheduler {
    fn add_team(&mut self)
        ensures
            team_accepted(*old(self)) ==> roster_followed(
                *old(self),
                *final(self),
                str_views(old(self).config.teams@).push(trim(old(self).new_team_name@)),
            ) && final(self).new_team_name@.len() == 0,
            !team_accepted(*old(self)) ==> *final(self) == *old(self),
    {
        let ghost o = *self;
        let raw = chars_of(self.new_team_name.as_str());
        let t = trim_chars(&raw);
        let name = string_from_chars(&t);
        if t.len() > 0 && !contains_name(&self.config.teams, &name) && self.config.teams.len() < 6 {
            self.config.teams.push(name);
            let ghost teams = str_views(o.config.teams@).push(t@);
            assert(str_views(self.config.teams@) =~= teams);
            self.new_team_name = String::new();
            self.sync_labels();
            let ghost mid = *self;
            assert(mid.config.base_schedule == o.config.base_schedule);
            assert(mid.base_schedule_inputs == o.base_schedule_inputs);
            assert(mid.base_schedule_error == o.base_schedule_error);
            assert(str_views(mid.config.labels@) == labels_for(teams.len()));
            self.apply_default_schedule_if_supported();
            assert(roster_followed(mid, *self, teams));
            assert(roster_followed(o, *self, teams));
            assert(self.new_team_name@.len() == 0);
        }
    }

    fn remove_team(&mut self, idx: usize)
        ensures
            idx < old(self).config.teams@.len() ==> roster_followed(
                *old(self),
                *final(self),
                str_views(old(self).config.teams@).remove(idx as int),
            ) && final(self).new_team_name == old(self).new_team_name,
            idx >= old(self).config.teams@.len() ==> *final(self) == *old(self),
    {
        let ghost o = *self;
        if idx < self.config.teams.len() {
            self.config.teams.remove(idx);
            let ghost teams = str_views(o.config.teams@).remove(idx as int);
            assert(str_views(self.config.teams@) =~= teams);
            self.sync_labels();
            let ghost mid = *self;
            assert(mid.config.base_schedule == o.config.base_schedule);
            assert(mid.base_schedule_inputs == o.base_schedule_inputs);
            assert(mid.base_schedule_error == o.base_schedule_error);
            assert(str_views(mid.config.labels@) == labels_for(teams.len()));
            self.apply_default_schedule_if_supported();
            assert(roster_followed(mid, *self, teams));
            assert(roster_followed(o, *self, teams));
            assert(self.new_team_name == o.new_team_name);
        }
    }

    fn load_config(&mut self, cfg: LeagueConfig)
        ensures
            final(self).config == cfg,
            final(self).weeks_input@ == weeks_text(cfg.weeks@),
            inputs_view(final(self).base_schedule_inputs@) == inputs_of(schedule_view(cfg.base_schedule@)),
            pref_inputs_view(final(self).pref_inputs@) == pref_texts(cfg.bye_preferences@),
            *final(self) == (SwimScheduler {
                config: final(self).config,
                weeks_input: final(self).weeks_input,
                base_schedule_inputs: final(self).base_schedule_inputs,
                pref_inputs: final(self).pref_inputs,
                ..*old(self)
            }),
    {
        self.config = cfg;
        self.weeks_input = weeks_to_text(&self.config.weeks);
        self.base_schedule_inputs = schedule_to_inputs(&self.config.base_schedule);
        self.pref_inputs = prefs_to_inputs(&self.config.bye_preferences);
    }

    fn apply_weeks(&mut self)
        ensures
            match parse_weeks(old(self).weeks_input@) {
                Some(w) => if w.len() > 0 {
                    &&& final(self).config.weeks@ == w
                    &&& final(self).weeks_error is None
                    &&& inputs_view(final(self).base_schedule_inputs@) == inputs_of(schedule_view(old(self).config.base_schedule@))
                    &&& *final(self) == (SwimScheduler {
                        config: LeagueConfig { weeks: final(self).config.weeks, ..old(self).config },
                        weeks_error: None,
                        base_schedule_inputs: final(self).base_schedule_inputs,
                        ..*old(self)
                    })
                } else {
                    &&& final(self).weeks_error matches Some(e) && e@ == weeks_error_text()
                    &&& *final(self) == (SwimScheduler { weeks_error: final(self).weeks_error, ..*old(self) })
                },
                None => {
                    &&& final(self).weeks_error matches Some(e) && e@ == weeks_error_text()
                    &&& *final(self) == (SwimScheduler { weeks_error: final(self).weeks_error, ..*old(self) })
                },
            },
    {
        match parse_weeks_exec(&self.weeks_input) {
            Some(w) => {
                if w.len() > 0 {
                    self.weeks_error = None;
                    self.config.weeks = w;
                    self.sync_base_schedule_inputs();
                    return;
                }
            },
            None => {},
        }
        self.weeks_error = Some(String::from_str("Enter comma-separated week numbers, e.g. 1, 2, 3, 4, 5"));
    }

    fn set_week_input(&mut self, w: u32, text: String)
        ensures
            inputs_view(final(self).base_schedule_inputs@) == set_input(inputs_view(old(self).base_schedule_inputs@), w, text@),
            *final(self) == (SwimScheduler { base_schedule_inputs: final(self).base_schedule_inputs, ..*old(self) }),
    {
        let ghost iv = inputs_view(self.base_schedule_inputs@);
        let mut slot: Option<usize> = None;
        let mut i: usize = 0;
        while i < self.base_schedule_inputs.len()
            invariant
                i <= self.base_schedule_inputs@.len(),
                iv == inputs_view(self.base_schedule_inputs@),
                match slot {
                    Some(q) => q < i && input_slot(iv.take(i as int), w) == q,
                    None => input_slot(iv.take(i as int), w) == -1,
                },
            decreases self.base_schedule_inputs@.len() - i,
        {
            assert(iv.take(i + 1).drop_last() =~= iv.take(i as int));
            if slot.is_none() && self.base_schedule_inputs[i].0 == w {
                slot = Some(i);
            }
            i = i + 1;
        }
        assert(iv.take(iv.len() as int) =~= iv);
        let ghost tv = text@;
        match slot {
            Some(q) => {
                self.base_schedule_inputs.set(q, (w, text));
                assert(inputs_view(self.base_schedule_inputs@) =~= set_input(iv, w, tv));
            },
            None => {
                self.base_schedule_inputs.push((w, text));
                assert(inputs_view(self.base_schedule_inputs@) =~= set_input(iv, w, tv));
            },
        }
    }
}

proof fn lemma_input_slot_extend(s: Seq<(u32, Seq<char>)>, j: int, m: int, w: u32)
    requires
        0 < j <= m <= s.len(),
        input_slot(s.take(j), w) >= 0,
    ensures
        input_slot(s.take(m), w) == input_slot(s.take(j), w),
    decreases m - j,
{
    if m > j {
        lemma_input_slot_extend(s, j, m - 1, w);
        assert(s.take(m).drop_last() =~= s.take(m - 1));
    } else {
        assert(s.take(m) == s.take(j));
    }
}


fn first_position(v: &Vec<String>, x: &String) -> (r: Option<usize>)
    ensures
        match r {
            Some(i) => i as int == first_slot_name(str_views(v@), x@) && i < v@.len(),
            None => first_slot_name(str_views(v@), x@) == -1,
        },
{
    let ghost sv = str_views(v@);
    let mut i: usize = 0;
    while i < v.len()
        invariant
            i <= v@.len(),
            sv == str_views(v@),
            first_slot_name(sv.take(i as int), x@) == -1,
        decreases v@.len() - i,
    {
        assert(sv.take(i + 1).drop_last() =~= sv.take(i as int));
        assert(sv.take(i + 1).last() == v@[i as int]@);
        if v[i] == *x {
            proof {
                assert(first_slot_name(sv.take(i + 1), x@) == i);
                lemma_first_slot_extend(sv, (i + 1) as int, v@.len() as int, x@);
                assert(sv.take(v@.len() as int) =~= sv);
            }
            return Some(i);
        }
        i = i + 1;
    }
    assert(sv.take(v@.len() as int) =~= sv);
    None
}

fn first_position_u32(v: &Vec<u32>, x: u32) -> (r: Option<usize>)
    ensures
        match r {
            Some(i) => i as int == first_slot_u32(v@, x) && i < v@.len(),
            None => first_slot_u32(v@, x) == -1,
        },
{
    let mut found: Option<usize> = None;
    let mut i: usize = 0;
    while i < v.len()
        invariant
            i <= v@.len(),
            match found {
                Some(q) => q < i && first_slot_u32(v@.take(i as int), x) == q,
                None => first_slot_u32(v@.take(i as int), x) == -1,
            },
        decreases v@.len() - i,
    {
        assert(v@.take(i + 1).drop_last() =~= v@.take(i as int));
        if found.is_none() && v[i] == x {
            found = Some(i);
        }
        i = i + 1;
    }
    assert(v@.take(v@.len() as int) =~= v@);
    found
}

/// The position of step `s` in the wizard order.
fn step_position(s: Step) -> (r: usize)
    ensures
        r as int == step_index(s),
{
    match s {
        Step::Teams => 0,
        Step::Weeks => 1,
        Step::BaseSchedule => 2,
        Step::ByePreferences => 3,
        Step::ByeRestrictions => 4,
        Step::ScoreExclusions => 5,
        Step::Results => 6,
    }
}

/// The step shown, the first one when none is set.
pub open spec fn shown_step(o: SwimScheduler) -> Step {
    match o.step {
        Some(s) => s,
        None => Step::Teams,
    }
}

impl SwimScheduler {
    /// The Next button is offered: on the Teams step only once at least
    /// five teams (the fewest the round robins serve) are entered.
    pub fn next_enabled(&self) -> (r: bool)
        ensures
            r == (shown_step(*self) != Step::Teams || self.config.teams@.len() >= 5),
    {
        match self.current_step() {
            Step::Teams => self.config.teams.len() >= 5,
            _ => true,
        }
    }

    /// The position of the solution shown: the first result whose rank is
    /// the selected rank, if any.
    pub fn selected_solution(&self) -> (r: Option<usize>)
        ensures
            match r {
                Some(i) => {
                    &&& i < self.results@.len()
                    &&& self.results@[i as int].rank == self.selected_rank
                    &&& forall|j: int| 0 <= j < i ==> #[trigger] self.results@[j].rank != self.selected_rank
                },
                None => forall|j: int| 0 <= j < self.results@.len() ==> #[trigger] self.results@[j].rank
                    != self.selected_rank,
            },
    {
        let mut i: usize = 0;
        while i < self.results.len()
            invariant
                i <= self.results@.len(),
                forall|j: int| 0 <= j < i ==> #[trigger] self.results@[j].rank != self.selected_rank,
            decreases self.results@.len() - i,
        {
            if self.results[i].rank == self.selected_rank {
                return Some(i);
            }
            i = i + 1;
        }
        None
    }

    /// Another team can be added: fewer than six are entered.
    pub fn can_add_team(&self) -> (r: bool)
        ensures
            r == (self.config.teams@.len() < 6),
    {
        self.config.teams.len() < 6
    }
}

impl SwimScheduler {
    fn apply_base_schedule(&mut self)
        ensures
            match parse_schedule_inputs(inputs_view(old(self).base_schedule_inputs@)) {
                Ok(bs) => {
                    &&& schedule_view(final(self).config.base_schedule@) == bs
                    &&& forall|i: int| 0 <= i < final(self).config.base_schedule@.len()
                        ==> final(self).config.base_schedule@[i].0 == #[trigger] old(self).base_schedule_inputs@[i].0
                    &&& final(self).config.base_schedule@.len() == old(self).base_schedule_inputs@.len()
                    &&& final(self).base_schedule_error is None
                    &&& *final(self) == (SwimScheduler {
                        config: LeagueConfig { base_schedule: final(self).config.base_schedule, ..old(self).config },
                        base_schedule_error: None,
                        ..*old(self)
                    })
                },
                Err(e) => {
                    &&& final(self).base_schedule_error matches Some(m) && m@ == e
                    &&& *final(self) == (SwimScheduler { base_schedule_error: final(self).base_schedule_error, ..*old(self) })
                },
            },
    {
        match self.parse_base_schedule() {
            Ok(bs) => {
                self.config.base_schedule = bs;
                self.base_schedule_error = None;
            },
            Err(e) => {
                self.base_schedule_error = Some(e);
            },
        }
    }

    fn use_default(&mut self, six: bool)
        ensures
            str_views(final(self).config.labels@) == label_names(if six { 6 } else { 5 }),
            schedule_view(final(self).config.base_schedule@) == (if six { six_team_schedule() } else { five_team_schedule() }),
            schedule_keys_distinct(final(self).config.base_schedule@),
            inputs_view(final(self).base_schedule_inputs@) == inputs_of(if six { six_team_schedule() } else { five_team_schedule() }),
            final(self).base_schedule_error is None,
            *final(self) == (SwimScheduler {
                config: LeagueConfig {
                    labels: final(self).config.labels,
                    base_schedule: final(self).config.base_schedule,
                    ..old(self).config
                },
                base_schedule_inputs: final(self).base_schedule_inputs,
                base_schedule_error: None,
                ..*old(self)
            }),
    {
        if six {
            self.config.labels = first_labels(6);
            self.config.base_schedule = default_6team_schedule();
        } else {
            self.config.labels = first_labels(5);
            self.config.base_schedule = default_5team_schedule();
        }
        self.base_schedule_inputs = schedule_to_inputs(&self.config.base_schedule);
        self.base_schedule_error = None;
    }

    fn change_pref(&mut self, team: String, idx: usize, val: String)
        requires
            idx < 2,
        ensures
            ({
                let fields = pref_fields_after(pref_inputs_view(old(self).pref_inputs@), team@, idx, val@);
                &&& pref_inputs_view(final(self).pref_inputs@) == upsert(pref_inputs_view(old(self).pref_inputs@), team@, fields)
                &&& match (parse_u32(trim(fields.0)), parse_u32(trim(fields.1))) {
                    (Some(f), Some(s)) => prefs_view(final(self).config.bye_preferences@) == upsert(
                        prefs_view(old(self).config.bye_preferences@),
                        team@,
                        (f, s),
                    ),
                    _ => final(self).config.bye_preferences == old(self).config.bye_preferences,
                }
            }),
            *final(self) == (SwimScheduler {
                config: LeagueConfig { bye_preferences: final(self).config.bye_preferences, ..old(self).config },
                pref_inputs: final(self).pref_inputs,
                ..*old(self)
            }),
    {
        let ghost pv = pref_inputs_view(self.pref_inputs@);
        let ghost fields = pref_fields_after(pv, team@, idx, val@);
        proof {
            assert(keys_of(self.pref_inputs@) =~= pv.map_values(|e: (Seq<char>, (Seq<char>, Seq<char>))| e.0));
        }
        let pos = key_position(&self.pref_inputs, &team);
        let entry: [String; 2] = match pos {
            Some(i) => {
                if idx == 0 {
                    [val, self.pref_inputs[i].1[1].clone()]
                } else {
                    [self.pref_inputs[i].1[0].clone(), val]
                }
            },
            None => {
                if idx == 0 {
                    [val, String::new()]
                } else {
                    [String::new(), val]
                }
            },
        };
        assert(entry[0]@ == fields.0 && entry[1]@ == fields.1);
        let a = parse_u32_chars(&trim_chars(&chars_of(entry[0].as_str())));
        let b = parse_u32_chars(&trim_chars(&chars_of(entry[1].as_str())));
        let ghost ev = (entry[0]@, entry[1]@);
        match pos {
            Some(i) => {
                self.pref_inputs.set(i, (team.clone(), entry));
                assert(pref_inputs_view(self.pref_inputs@) =~= upsert(pv, team@, ev));
            },
            None => {
                self.pref_inputs.push((team.clone(), entry));
                assert(pref_inputs_view(self.pref_inputs@) =~= upsert(pv, team@, ev));
            },
        }
        match (a, b) {
            (Some(f), Some(s)) => {
                let ghost prv = prefs_view(self.config.bye_preferences@);
                proof {
                    assert(keys_of(self.config.bye_preferences@) =~= prv.map_values(|e: (Seq<char>, (u32, u32))| e.0));
                }
                match key_position(&self.config.bye_preferences, &team) {
                    Some(i) => {
                        self.config.bye_preferences.set(i, (team, [f, s]));
                        assert(prefs_view(self.config.bye_preferences@) =~= upsert(prv, team@, (f, s)));
                    },
                    None => {
                        let ghost tv = team@;
                        self.config.bye_preferences.push((team, [f, s]));
                        assert(prefs_view(self.config.bye_preferences@) =~= upsert(prv, tv, (f, s)));
                    },
                }
            },
            _ => {},
        }
    }

    fn toggle_restriction(&mut self, team: String, week: u32)
        ensures
            restrictions_view(final(self).config.bye_restrictions@) == toggle_restriction(
                restrictions_view(old(self).config.bye_restrictions@),
                team@,
                week,
            ),
            *final(self) == (SwimScheduler {
                config: LeagueConfig { bye_restrictions: final(self).config.bye_restrictions, ..old(self).config },
                ..*old(self)
            }),
    {
        let ghost rv = restrictions_view(self.config.bye_restrictions@);
        proof {
            assert(keys_of(self.config.bye_restrictions@) =~= rv.map_values(|e: (Seq<char>, Seq<u32>)| e.0));
        }
        match key_position(&self.config.bye_restrictions, &team) {
            Some(i) => {
                let mut l = copy_u32s(&self.config.bye_restrictions[i].1);
                let ghost lv = l@;
                assert(lv == rv[i as int].1);
                match first_position_u32(&l, week) {
                    Some(j) => {
                        proof {
                            lemma_first_slot_u32(lv, week);
                        }
                        l.remove(j);
                        assert(l@ == toggle_week(lv, week));
                    },
                    None => {
                        proof {
                            lemma_first_slot_u32(lv, week);
                        }
                        l.push(week);
                        assert(l@ == toggle_week(lv, week));
                    },
                }
                let ghost nl = l@;
                self.config.bye_restrictions.set(i, (team, l));
                assert(restrictions_view(self.config.bye_restrictions@) =~= toggle_restriction(rv, team@, week));
            },
            None => {
                let ghost tv = team@;
                let l = vec![week];
                assert(l@ =~= seq![week]);
                self.config.bye_restrictions.push((team, l));
                assert(restrictions_view(self.config.bye_restrictions@) =~= toggle_restriction(rv, tv, week));
            },
        }
    }

    fn toggle_exclusion(&mut self, team: String)
        ensures
            str_views(final(self).config.score_excluded@) == toggle_name(str_views(old(self).config.score_excluded@), team@),
            *final(self) == (SwimScheduler {
                config: LeagueConfig { score_excluded: final(self).config.score_excluded, ..old(self).config },
                ..*old(self)
            }),
    {
        let ghost sv = str_views(self.config.score_excluded@);
        match first_position(&self.config.score_excluded, &team) {
            Some(i) => {
                self.config.score_excluded.remove(i);
                assert(str_views(self.config.score_excluded@) =~= toggle_name(sv, team@));
            },
            None => {
                let ghost tv = team@;
                self.config.score_excluded.push(team);
                assert(str_views(self.config.score_excluded@) =~= toggle_name(sv, tv));
            },
        }
    }

    fn next_step(&mut self)
        ensures
            step_index(shown_step(*old(self))) < 6 ==> *final(self) == (SwimScheduler {
                step: Some(all_steps()[step_index(shown_step(*old(self))) + 1]),
                ..*old(self)
            }),
            step_index(shown_step(*old(self))) >= 6 ==> *final(self) == *old(self),
    {
        let steps = Step::all();
        let pos = step_position(self.current_step());
        if pos + 1 < steps.len() {
            self.step = Some(steps[pos + 1]);
        }
    }

    fn previous_step(&mut self)
        ensures
            step_index(shown_step(*old(self))) > 0 ==> *final(self) == (SwimScheduler {
                step: Some(all_steps()[step_index(shown_step(*old(self))) - 1]),
                ..*old(self)
            }),
            step_index(shown_step(*old(self))) == 0 ==> *final(self) == *old(self),
    {
        let steps = Step::all();
        let pos = step_position(self.current_step());
        if pos > 0 {
            self.step = Some(steps[pos - 1]);
        }
    }
}


/// What a message does: `o` before, `n` after, `a` the action asked for.
pub open spec fn update_effect(o: SwimScheduler, n: SwimScheduler, m: Message, a: Action) -> bool {
    match m {
        Message::GoTo(s) => n == (SwimScheduler { step: Some(s), ..o }) && a is Nothing,
        Message::Next => a is Nothing && if step_index(shown_step(o)) < 6 {
            n == (SwimScheduler { step: Some(all_steps()[step_index(shown_step(o)) + 1]), ..o })
        } else {
            n == o
        },
        Message::Back => a is Nothing && if step_index(shown_step(o)) > 0 {
            n == (SwimScheduler { step: Some(all_steps()[step_index(shown_step(o)) - 1]), ..o })
        } else {
            n == o
        },
        Message::NewTeamNameChanged(t) => n == (SwimScheduler { new_team_name: t, ..o }) && a is Nothing,
        Message::AddTeam => a is Nothing && if team_accepted(o) {
            &&& roster_followed(o, n, str_views(o.config.teams@).push(trim(o.new_team_name@)))
            &&& n.new_team_name@.len() == 0
        } else {
            n == o
        },
        Message::RemoveTeam(idx) => a is Nothing && if idx < o.config.teams@.len() {
            &&& roster_followed(o, n, str_views(o.config.teams@).remove(idx as int))
            &&& n.new_team_name == o.new_team_name
        } else {
            n == o
        },
        Message::SaveConfig => n == o && (a matches Action::SaveConfig(c) && same_config(c, o.config)),
        Message::LoadConfig => n == o && a is LoadConfig,
        Message::ConfigSaved(_) => n == o && a is Nothing,
        Message::ConfigLoaded(r) => a is Nothing && match r {
            Ok(cfg) => {
                &&& n.config == cfg
                &&& n.weeks_input@ == weeks_text(cfg.weeks@)
                &&& inputs_view(n.base_schedule_inputs@) == inputs_of(schedule_view(cfg.base_schedule@))
                &&& pref_inputs_view(n.pref_inputs@) == pref_texts(cfg.bye_preferences@)
                &&& n == (SwimScheduler {
                    config: n.config,
                    weeks_input: n.weeks_input,
                    base_schedule_inputs: n.base_schedule_inputs,
                    pref_inputs: n.pref_inputs,
                    ..o
                })
            },
            Err(_) => n == o,
        },
        Message::WeeksInputChanged(t) => n == (SwimScheduler { weeks_input: t, ..o }) && a is Nothing,
        Message::ApplyWeeks => a is Nothing && match parse_weeks(o.weeks_input@) {
            Some(w) => if w.len() > 0 {
                &&& n.config.weeks@ == w
                &&& inputs_view(n.base_schedule_inputs@) == inputs_of(schedule_view(o.config.base_schedule@))
                &&& n == (SwimScheduler {
                    config: LeagueConfig { weeks: n.config.weeks, ..o.config },
                    weeks_error: None,
                    base_schedule_inputs: n.base_schedule_inputs,
                    ..o
                })
            } else {
                &&& n.weeks_error matches Some(e) && e@ == weeks_error_text()
                &&& n == (SwimScheduler { weeks_error: n.weeks_error, ..o })
            },
            None => {
                &&& n.weeks_error matches Some(e) && e@ == weeks_error_text()
                &&& n == (SwimScheduler { weeks_error: n.weeks_error, ..o })
            },
        },
        Message::BaseScheduleInputChanged(w, t) => a is Nothing && {
            &&& inputs_view(n.base_schedule_inputs@) == set_input(inputs_view(o.base_schedule_inputs@), w, t@)
            &&& n == (SwimScheduler { base_schedule_inputs: n.base_schedule_inputs, ..o })
        },
        Message::ApplyBaseSchedule => a is Nothing && match parse_schedule_inputs(inputs_view(o.base_schedule_inputs@)) {
            Ok(bs) => {
                &&& schedule_view(n.config.base_schedule@) == bs
                &&& n == (SwimScheduler {
                    config: LeagueConfig { base_schedule: n.config.base_schedule, ..o.config },
                    base_schedule_error: None,
                    ..o
                })
            },
            Err(e) => {
                &&& n.base_schedule_error matches Some(msg) && msg@ == e
                &&& n == (SwimScheduler { base_schedule_error: n.base_schedule_error, ..o })
            },
        },
        Message::UseDefault5Team => a is Nothing && {
            &&& str_views(n.config.labels@) == label_names(5)
            &&& schedule_view(n.config.base_schedule@) == five_team_schedule()
            &&& inputs_view(n.base_schedule_inputs@) == inputs_of(five_team_schedule())
            &&& n == (SwimScheduler {
                config: LeagueConfig { labels: n.config.labels, base_schedule: n.config.base_schedule, ..o.config },
                base_schedule_inputs: n.base_schedule_inputs,
                base_schedule_error: None,
                ..o
            })
        },
        Message::UseDefault6Team => a is Nothing && {
            &&& str_views(n.config.labels@) == label_names(6)
            &&& schedule_view(n.config.base_schedule@) == six_team_schedule()
            &&& inputs_view(n.base_schedule_inputs@) == inputs_of(six_team_schedule())
            &&& n == (SwimScheduler {
                config: LeagueConfig { labels: n.config.labels, base_schedule: n.config.base_schedule, ..o.config },
                base_schedule_inputs: n.base_schedule_inputs,
                base_schedule_error: None,
                ..o
            })
        },
        Message::PrefChanged(team, idx, val) => a is Nothing && {
            let fields = pref_fields_after(pref_inputs_view(o.pref_inputs@), team@, idx, val@);
            &&& pref_inputs_view(n.pref_inputs@) == upsert(pref_inputs_view(o.pref_inputs@), team@, fields)
            &&& match (parse_u32(trim(fields.0)), parse_u32(trim(fields.1))) {
                (Some(f), Some(s)) => prefs_view(n.config.bye_preferences@) == upsert(
                    prefs_view(o.config.bye_preferences@),
                    team@,
                    (f, s),
                ),
                _ => n.config.bye_preferences == o.config.bye_preferences,
            }
            &&& n == (SwimScheduler {
                config: LeagueConfig { bye_preferences: n.config.bye_preferences, ..o.config },
                pref_inputs: n.pref_inputs,
                ..o
            })
        },
        Message::ToggleRestriction(team, week) => a is Nothing && {
            &&& restrictions_view(n.config.bye_restrictions@) == toggle_restriction(
                restrictions_view(o.config.bye_restrictions@),
                team@,
                week,
            )
            &&& n == (SwimScheduler {
                config: LeagueConfig { bye_restrictions: n.config.bye_restrictions, ..o.config },
                ..o
            })
        },
        Message::ToggleExclusion(team) => a is Nothing && {
            &&& str_views(n.config.score_excluded@) == toggle_name(str_views(o.config.score_excluded@), team@)
            &&& n == (SwimScheduler {
                config: LeagueConfig { score_excluded: n.config.score_excluded, ..o.config },
                ..o
            })
        },
        Message::RunScheduler => n == (SwimScheduler { is_running: true, ..o }) && (a matches Action::RunScheduler(c)
            && same_config(c, o.config)),
        Message::SchedulerComplete(r) => a is Nothing && match r {
            Ok(sols) => n == (SwimScheduler {
                is_running: false,
                step: Some(Step::Results),
                results: sols,
                selected_rank: 1,
                run_error: None,
                ..o
            }),
            Err(e) => {
                &&& n.results@.len() == 0
                &&& n == (SwimScheduler {
                    is_running: false,
                    step: Some(Step::Results),
                    results: n.results,
                    run_error: Some(e),
                    ..o
                })
            },
        },
        Message::SelectRank(r) => n == (SwimScheduler { selected_rank: r, ..o }) && a is Nothing,
        Message::ExportResults => n == o && (a matches Action::ExportResults(t) && t@ == results_text(
            o.results@,
            o.config.teams@,
            o.config.weeks@,
        )),
        Message::ExportDone(_) => n == o && a is Nothing,
    }
}

/// A preference slot names the first (0) or second (1) field.
pub open spec fn message_ok(m: Message) -> bool {
    m matches Message::PrefChanged(_, idx, _) ==> idx < 2
}

impl SwimScheduler {
    /// Apply one message to the wizard and return the outside action it asks for.
    pub fn update(&mut self, message: Message) -> (a: Action)
        requires
            message_ok(message),
        ensures
            update_effect(*old(self), *final(self), message, a),
    {
        match message {
            Message::GoTo(s) => {
                self.step = Some(s);
            },
            Message::Next => {
                self.next_step();
            },
            Message::Back => {
                self.previous_step();
            },
            Message::NewTeamNameChanged(t) => {
                self.new_team_name = t;
            },
            Message::AddTeam => {
                self.add_team();
            },
            Message::RemoveTeam(idx) => {
                self.remove_team(idx);
            },
            Message::SaveConfig => {
                return Action::SaveConfig(self.config.duplicate());
            },
            Message::LoadConfig => {
                return Action::LoadConfig;
            },
            Message::ConfigSaved(_) => {},
            Message::ConfigLoaded(r) => {
                match r {
                    Ok(cfg) => {
                        self.load_config(cfg);
                    },
                    Err(_) => {},
                }
            },
            Message::WeeksInputChanged(t) => {
                self.weeks_input = t;
            },
            Message::ApplyWeeks => {
                self.apply_weeks();
            },
            Message::BaseScheduleInputChanged(w, t) => {
                self.set_week_input(w, t);
            },
            Message::ApplyBaseSchedule => {
                self.apply_base_schedule();
            },
            Message::UseDefault5Team => {
                self.use_default(false);
            },
            Message::UseDefault6Team => {
                self.use_default(true);
            },
            Message::PrefChanged(team, idx, val) => {
                self.change_pref(team, idx, val);
            },
            Message::ToggleRestriction(team, week) => {
                self.toggle_restriction(team, week);
            },
            Message::ToggleExclusion(team) => {
                self.toggle_exclusion(team);
            },
            Message::RunScheduler => {
                self.is_running = true;
                return Action::RunScheduler(self.config.duplicate());
            },
            Message::SchedulerComplete(r) => {
                self.is_running = false;
                self.step = Some(Step::Results);
                match r {
                    Ok(sols) => {
                        self.results = sols;
                        self.selected_rank = 1;
                        self.run_error = None;
                    },
                    Err(e) => {
                        self.results = Vec::new();
                        self.run_error = Some(e);
                    },
                }
            },
            Message::SelectRank(r) => {
                self.selected_rank = r;
            },
            Message::ExportResults => {
                return Action::ExportResults(format_results(&self.results, &self.config.teams, &self.config.weeks));
            },
            Message::ExportDone(_) => {},
        }
        Action::Nothing
    }
}

} // verus!
