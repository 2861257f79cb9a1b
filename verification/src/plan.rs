//! Validation of a league configuration and the structural form of its base
//! schedule: weeks in order, games as label-index triples, the label that
//! sits out each week, the host patterns, and per-team lookups.

use vstd::prelude::*;
use vstd::arithmetic::power2::pow2;
use crate::config::{LeagueConfig, Matchup, str_views};
use crate::sorting::{sort_u32, sort_triples, dedup_sorted, sort_u32_exec, sort_triples_exec, dedup_sorted_exec};
use crate::host_bits::{valid_patterns_below, games_in_range, structural_host_bits};
use crate::text::{decimal, append_str, push_decimal, string_from_chars};

verus! {

/// The team names of a configuration.
pub open spec fn team_names(c: &LeagueConfig) -> Seq<Seq<char>> {
    str_views(c.teams@)
}

/// The label names of a configuration.
pub open spec fn label_list(c: &LeagueConfig) -> Seq<Seq<char>> {
    str_views(c.labels@)
}

/// The season's weeks in non-decreasing order (repeats kept).
pub open spec fn sorted_weeks(c: &LeagueConfig) -> Seq<u32> {
    sort_u32(c.weeks@)
}

/// The season's distinct weeks in increasing order.
pub open spec fn distinct_weeks(c: &LeagueConfig) -> Seq<u32> {
    dedup_sorted(sorted_weeks(c))
}

/// The last position of `x` in `s`, or -1.
pub open spec fn last_slot_u32(s: Seq<u32>, x: u32) -> int
    decreases s.len(),
{
    if s.len() == 0 {
        -1
    } else if s.last() == x {
        s.len() - 1
    } else {
        last_slot_u32(s.drop_last(), x)
    }
}

/// The last position of `x` in `s`, or -1.
pub open spec fn last_slot_name(s: Seq<Seq<char>>, x: Seq<char>) -> int
    decreases s.len(),
{
    if s.len() == 0 {
        -1
    } else if s.last() == x {
        s.len() - 1
    } else {
        last_slot_name(s.drop_last(), x)
    }
}

/// The first position of `x` in `s`, or -1.
pub open spec fn first_slot_name(s: Seq<Seq<char>>, x: Seq<char>) -> int
    decreases s.len(),
{
    if s.len() == 0 {
        -1
    } else {
        let r = first_slot_name(s.drop_last(), x);
        if r >= 0 {
            r
        } else if s.last() == x {
            s.len() - 1
        } else {
            -1
        }
    }
}

/// The index a week number stands at among the sorted weeks (its last
/// occurrence when it repeats), or -1.
pub open spec fn week_slot(c: &LeagueConfig, w: u32) -> int {
    last_slot_u32(sorted_weeks(c), w)
}

/// The index of a label (its last occurrence when it repeats), or -1.
pub open spec fn label_slot(c: &LeagueConfig, l: Seq<char>) -> int {
    last_slot_name(label_list(c), l)
}

/// The games of one base-schedule entry as `(week index, label, label)`.
pub open spec fn entry_games(c: &LeagueConfig, e: (u32, Vec<Matchup>)) -> Seq<(usize, usize, usize)> {
    Seq::new(
        e.1@.len(),
        |j: int|
            (
                week_slot(c, e.0) as usize,
                label_slot(c, e.1@[j][0]@) as usize,
                label_slot(c, e.1@[j][1]@) as usize,
            ),
    )
}

/// The games of the first `k` base-schedule entries, in entry order.
pub open spec fn raw_games_upto(c: &LeagueConfig, k: int) -> Seq<(usize, usize, usize)>
    decreases k,
{
    if k <= 0 {
        Seq::empty()
    } else {
        raw_games_upto(c, k - 1) + entry_games(c, c.base_schedule@[k - 1])
    }
}

/// All games of the base schedule, in entry order.
pub open spec fn raw_games(c: &LeagueConfig) -> Seq<(usize, usize, usize)> {
    raw_games_upto(c, c.base_schedule@.len() as int)
}

/// All games of the base schedule in lexicographic order, which fixes the
/// bit that stands for each game.
pub open spec fn structural_games(c: &LeagueConfig) -> Seq<(usize, usize, usize)> {
    sort_triples(raw_games(c))
}

/// Label `i` plays in some game of entry `e`.
pub open spec fn label_plays(c: &LeagueConfig, e: (u32, Vec<Matchup>), i: int) -> bool {
    exists|j: int|
        0 <= j < e.1@.len() && (#[trigger] entry_games(c, e)[j].1 == i || entry_games(c, e)[j].2 == i)
}

/// The labels below `m` that play in no game of entry `e`.
pub open spec fn sitters_below(c: &LeagueConfig, e: (u32, Vec<Matchup>), m: int) -> Seq<usize>
    decreases m,
{
    if m <= 0 {
        Seq::empty()
    } else if label_plays(c, e, m - 1) {
        sitters_below(c, e, m - 1)
    } else {
        sitters_below(c, e, m - 1).push((m - 1) as usize)
    }
}

/// The label that sits out each week index, after the first `k` entries:
/// a week gets one exactly when a single label plays no game that week.
pub open spec fn byes_upto(c: &LeagueConfig, k: int) -> Seq<Option<usize>>
    decreases k,
{
    if k <= 0 {
        Seq::new(sorted_weeks(c).len(), |i: int| None)
    } else {
        let prev = byes_upto(c, k - 1);
        let e = c.base_schedule@[k - 1];
        let s = sitters_below(c, e, c.labels@.len() as int);
        if s.len() == 1 {
            prev.update(week_slot(c, e.0), Some(s[0]))
        } else {
            prev
        }
    }
}

/// The label that sits out each week index, if a single one does.
pub open spec fn bye_labels(c: &LeagueConfig) -> Seq<Option<usize>> {
    byes_upto(c, c.base_schedule@.len() as int)
}

/// The first position of the name at position `i`: positions with equal
/// names stand for the same team.
pub open spec fn canon(c: &LeagueConfig, i: int) -> int {
    first_slot_name(team_names(c), team_names(c)[i])
}

/// The restriction list of the first entry keyed `name` among the first `k`.
pub open spec fn restriction_lookup(rs: Seq<(String, Vec<u32>)>, name: Seq<char>, k: int) -> Option<Seq<u32>>
    decreases k,
{
    if k <= 0 {
        None
    } else {
        match restriction_lookup(rs, name, k - 1) {
            Some(l) => Some(l),
            None => if rs[k - 1].0@ == name {
                Some(rs[k - 1].1@)
            } else {
                None
            },
        }
    }
}

/// The weeks a team must not have its bye in (empty when it has no entry).
pub open spec fn restriction_list(c: &LeagueConfig, name: Seq<char>) -> Seq<u32> {
    match restriction_lookup(c.bye_restrictions@, name, c.bye_restrictions@.len() as int) {
        Some(l) => l,
        None => Seq::empty(),
    }
}

/// The preference pair of the first entry keyed `name` among the first `k`.
pub open spec fn preference_lookup(ps: Seq<(String, [u32; 2])>, name: Seq<char>, k: int) -> Option<(u32, u32)>
    decreases k,
{
    if k <= 0 {
        None
    } else {
        match preference_lookup(ps, name, k - 1) {
            Some(p) => Some(p),
            None => if ps[k - 1].0@ == name {
                Some((ps[k - 1].1[0], ps[k - 1].1[1]))
            } else {
                None
            },
        }
    }
}

/// A team's first and second choice of bye week, if it has them.
pub open spec fn preference(c: &LeagueConfig, name: Seq<char>) -> Option<(u32, u32)> {
    preference_lookup(c.bye_preferences@, name, c.bye_preferences@.len() as int)
}

/// The team is left out of the fairness score.
pub open spec fn is_excluded(c: &LeagueConfig, name: Seq<char>) -> bool {
    str_views(c.score_excluded@).contains(name)
}

/// The message for a label list whose length differs from the team list's.
pub open spec fn label_count_message(labels: nat, teams: nat) -> Seq<char> {
    "Labels count ("@ + decimal(labels) + ") must match team count ("@ + decimal(teams) + ")."@
}

/// Why the scheduler refuses a configuration, checked in this order.
pub open spec fn validation_error(c: &LeagueConfig) -> Option<Seq<char>> {
    if c.teams@.len() < 2 {
        Some("Need at least 2 teams."@)
    } else if c.weeks@.len() == 0 {
        Some("Need at least one week."@)
    } else if c.labels@.len() != c.teams@.len() {
        Some(label_count_message(c.labels@.len(), c.teams@.len()))
    } else {
        None
    }
}

/// Every week of the base schedule is a season week, every matchup names
/// known labels, and there are fewer than 64 games (one bit each).
pub open spec fn schedule_fits(c: &LeagueConfig) -> bool {
    &&& forall|k: int| 0 <= k < c.base_schedule@.len() ==> week_slot(c, #[trigger] c.base_schedule@[k].0) >= 0
    &&& forall|k: int, j: int|
        0 <= k < c.base_schedule@.len() && 0 <= j < c.base_schedule@[k].1@.len() ==> label_slot(
            c,
            (#[trigger] c.base_schedule@[k].1@[j])[0]@,
        ) >= 0 && label_slot(c, c.base_schedule@[k].1@[j][1]@) >= 0
    &&& raw_games(c).len() < 64
}

/// The structural form of a configuration, shared by every assignment of
/// teams to labels.
pub struct Plan {
    pub n_teams: usize,
    pub sorted_weeks: Vec<u32>,
    pub distinct_weeks: Vec<u32>,
    pub games: Vec<(usize, usize, usize)>,
    pub byes: Vec<Option<usize>>,
    pub valid_bits: Vec<u64>,
    pub canon: Vec<usize>,
    pub restricted: Vec<Vec<u32>>,
    pub prefs: Vec<Option<(u32, u32)>>,
    pub excluded: Vec<bool>,
}

impl Plan {
    /// The plan is the structural form of `c`.
    pub open spec fn describes(&self, c: &LeagueConfig) -> bool {
        let n = c.teams@.len();
        &&& validation_error(c) is None
        &&& schedule_fits(c)
        &&& self.n_teams == n
        &&& self.sorted_weeks@ == sorted_weeks(c)
        &&& self.distinct_weeks@ == distinct_weeks(c)
        &&& self.games@ == structural_games(c)
        &&& self.byes@ == bye_labels(c)
        &&& self.valid_bits@ == valid_patterns_below(
            structural_games(c),
            n,
            sorted_weeks(c).len(),
            pow2(structural_games(c).len()),
        )
        &&& self.canon@.len() == n
        &&& forall|i: int| 0 <= i < n ==> #[trigger] self.canon@[i] == canon(c, i)
        &&& self.restricted@.len() == n
        &&& forall|i: int| 0 <= i < n ==> #[trigger] self.restricted@[i]@ == restriction_list(c, team_names(c)[i])
        &&& self.prefs@.len() == n
        &&& forall|i: int| 0 <= i < n ==> #[trigger] self.prefs@[i] == preference(c, team_names(c)[i])
        &&& self.excluded@.len() == n
        &&& forall|i: int| 0 <= i < n ==> #[trigger] self.excluded@[i] == is_excluded(c, team_names(c)[i])
        &&& self.bounded()
    }

    /// Index bounds that hold of every plan.
    pub open spec fn bounded(&self) -> bool {
        let n = self.n_teams;
        &&& n >= 2
        &&& self.games@.len() < 64
        &&& games_in_range(self.games@, n as nat, self.sorted_weeks@.len())
        &&& self.byes@.len() == self.sorted_weeks@.len()
        &&& forall|wi: int| 0 <= wi < self.byes@.len() ==> (#[trigger] self.byes@[wi] matches Some(li) ==> li < n)
        &&& forall|i: int| 0 <= i < self.canon@.len() ==> #[trigger] self.canon@[i] <= i
        &&& forall|i: int| 0 <= i < self.canon@.len() ==> self.canon@[#[trigger] self.canon@[i] as int] == self.canon@[i]
    }
}


pub proof fn lemma_last_slot_u32(s: Seq<u32>, x: u32)
    ensures
        -1 <= last_slot_u32(s, x) < s.len(),
        last_slot_u32(s, x) >= 0 ==> s[last_slot_u32(s, x)] == x,
        last_slot_u32(s, x) == -1 ==> !s.contains(x),
    decreases s.len(),
{
    if s.len() > 0 {
        lemma_last_slot_u32(s.drop_last(), x);
        if last_slot_u32(s, x) == -1 {
            assert forall|i: int| 0 <= i < s.len() implies s[i] != x by {
                if i < s.len() - 1 {
                    assert(s.drop_last()[i] == s[i]);
                }
            }
        }
    }
}

pub proof fn lemma_last_slot_name(s: Seq<Seq<char>>, x: Seq<char>)
    ensures
        -1 <= last_slot_name(s, x) < s.len(),
        last_slot_name(s, x) >= 0 ==> s[last_slot_name(s, x)] == x,
    decreases s.len(),
{
    if s.len() > 0 {
        lemma_last_slot_name(s.drop_last(), x);
    }
}

pub proof fn lemma_first_slot_name(s: Seq<Seq<char>>, x: Seq<char>)
    ensures
        -1 <= first_slot_name(s, x) < s.len(),
        first_slot_name(s, x) >= 0 ==> s[first_slot_name(s, x)] == x,
        first_slot_name(s, x) >= 0 ==> forall|j: int| 0 <= j < first_slot_name(s, x) ==> s[j] != x,
        first_slot_name(s, x) == -1 ==> forall|j: int| 0 <= j < s.len() ==> s[j] != x,
    decreases s.len(),
{
    if s.len() > 0 {
        lemma_first_slot_name(s.drop_last(), x);
        let r = first_slot_name(s.drop_last(), x);
        assert forall|j: int| 0 <= j < s.len() - 1 implies s.drop_last()[j] == s[j] by {}
    }
}

/// The first position of the name at `i` is at most `i`, holds the same
/// name, and is its own first position.
pub proof fn lemma_canon(c: &LeagueConfig, i: int)
    requires
        0 <= i < c.teams@.len(),
    ensures
        0 <= canon(c, i) <= i,
        team_names(c)[canon(c, i)] == team_names(c)[i],
        canon(c, canon(c, i)) == canon(c, i),
{
    let s = team_names(c);
    lemma_first_slot_name(s, s[i]);
}

fn last_slot_u32_exec(s: &Vec<u32>, x: u32) -> (r: Option<usize>)
    ensures
        match r {
            Some(i) => i == last_slot_u32(s@, x) && i < s.len(),
            None => last_slot_u32(s@, x) == -1,
        },
{
    let mut found: Option<usize> = None;
    let mut i: usize = 0;
    while i < s.len()
        invariant
            i <= s.len(),
            match found {
                Some(f) => f == last_slot_u32(s@.take(i as int), x) && f < i,
                None => last_slot_u32(s@.take(i as int), x) == -1,
            },
        decreases s.len() - i,
    {
        assert(s@.take(i + 1).drop_last() =~= s@.take(i as int));
        if s[i] == x {
            found = Some(i);
        }
        i = i + 1;
    }
    assert(s@.take(s.len() as int) =~= s@);
    found
}

fn last_slot_name_exec(s: &Vec<String>, x: &String) -> (r: Option<usize>)
    ensures
        match r {
            Some(i) => i == last_slot_name(str_views(s@), x@) && i < s.len(),
            None => last_slot_name(str_views(s@), x@) == -1,
        },
{
    let ghost v = str_views(s@);
    let mut found: Option<usize> = None;
    let mut i: usize = 0;
    while i < s.len()
        invariant
            i <= s.len(),
            v == str_views(s@),
            match found {
                Some(f) => f == last_slot_name(v.take(i as int), x@) && f < i,
                None => last_slot_name(v.take(i as int), x@) == -1,
            },
        decreases s.len() - i,
    {
        assert(v.take(i + 1).drop_last() =~= v.take(i as int));
        assert(v.take(i + 1).last() == s@[i as int]@);
        if s[i] == *x {
            found = Some(i);
        }
        i = i + 1;
    }
    assert(v.take(s.len() as int) =~= v);
    found
}

fn first_slot_name_exec(s: &Vec<String>, x: &String) -> (r: usize)
    requires
        str_views(s@).contains(x@),
    ensures
        r as int == first_slot_name(str_views(s@), x@),
{
    let ghost v = str_views(s@);
    let mut found: Option<usize> = None;
    let mut i: usize = 0;
    while i < s.len()
        invariant
            i <= s.len(),
            v == str_views(s@),
            match found {
                Some(f) => f == first_slot_name(v.take(i as int), x@) && f < i,
                None => first_slot_name(v.take(i as int), x@) == -1,
            },
        decreases s.len() - i,
    {
        assert(v.take(i + 1).drop_last() =~= v.take(i as int));
        assert(v.take(i + 1).last() == s@[i as int]@);
        if found.is_none() && s[i] == *x {
            found = Some(i);
        }
        i = i + 1;
    }
    assert(v.take(s.len() as int) =~= v);
    proof {
        lemma_first_slot_name(v, x@);
    }
    match found {
        Some(f) => f,
        None => 0,
    }
}

pub fn contains_name(s: &Vec<String>, x: &String) -> (r: bool)
    ensures
        r == str_views(s@).contains(x@),
{
    let ghost v = str_views(s@);
    let mut i: usize = 0;
    while i < s.len()
        invariant
            i <= s.len(),
            v == str_views(s@),
            forall|j: int| 0 <= j < i ==> v[j] != x@,
        decreases s.len() - i,
    {
        if s[i] == *x {
            assert(v[i as int] == x@);
            return true;
        }
        i = i + 1;
    }
    false
}

fn restriction_list_exec(rs: &Vec<(String, Vec<u32>)>, name: &String) -> (r: Vec<u32>)
    ensures
        r@ == match restriction_lookup(rs@, name@, rs@.len() as int) {
            Some(l) => l,
            None => Seq::empty(),
        },
{
    let mut i: usize = 0;
    while i < rs.len()
        invariant
            i <= rs.len(),
            restriction_lookup(rs@, name@, i as int) is None,
        decreases rs.len() - i,
    {
        if rs[i].0 == *name {
            let r = rs[i].1.clone();
            proof {
                lemma_lookup_found_restriction(rs@, name@, (i + 1) as int, rs@.len() as int);
            }
            assert(r@ == rs@[i as int].1@);
            return r;
        }
        i = i + 1;
    }
    Vec::new()
}

proof fn lemma_lookup_found_restriction(rs: Seq<(String, Vec<u32>)>, name: Seq<char>, k: int, m: int)
    requires
        0 < k <= m <= rs.len(),
        restriction_lookup(rs, name, k) is Some,
    ensures
        restriction_lookup(rs, name, m) == restriction_lookup(rs, name, k),
    decreases m - k,
{
    if m > k {
        lemma_lookup_found_restriction(rs, name, k, m - 1);
    }
}

proof fn lemma_lookup_found_preference(ps: Seq<(String, [u32; 2])>, name: Seq<char>, k: int, m: int)
    requires
        0 < k <= m <= ps.len(),
        preference_lookup(ps, name, k) is Some,
    ensures
        preference_lookup(ps, name, m) == preference_lookup(ps, name, k),
    decreases m - k,
{
    if m > k {
        lemma_lookup_found_preference(ps, name, k, m - 1);
    }
}

fn preference_exec(ps: &Vec<(String, [u32; 2])>, name: &String) -> (r: Option<(u32, u32)>)
    ensures
        r == preference_lookup(ps@, name@, ps@.len() as int),
{
    let mut i: usize = 0;
    while i < ps.len()
        invariant
            i <= ps.len(),
            preference_lookup(ps@, name@, i as int) is None,
        decreases ps.len() - i,
    {
        if ps[i].0 == *name {
            let p = ps[i].1;
            proof {
                lemma_lookup_found_preference(ps@, name@, (i + 1) as int, ps@.len() as int);
            }
            return Some((p[0], p[1]));
        }
        i = i + 1;
    }
    None
}

/// Why the scheduler refuses `c`, if it does: fewer than two teams, no
/// weeks, or a label count that differs from the team count.
pub fn check_config(c: &LeagueConfig) -> (r: Option<String>)
    ensures
        match r {
            Some(m) => validation_error(c) == Some(m@),
            None => validation_error(c) is None,
        },
{
    if c.teams.len() < 2 {
        return Some(String::from_str("Need at least 2 teams."));
    }
    if c.weeks.len() == 0 {
        return Some(String::from_str("Need at least one week."));
    }
    if c.labels.len() != c.teams.len() {
        let mut out: Vec<char> = Vec::new();
        append_str(&mut out, "Labels count (");
        push_decimal(&mut out, c.labels.len() as u64);
        append_str(&mut out, ") must match team count (");
        push_decimal(&mut out, c.teams.len() as u64);
        append_str(&mut out, ").");
        assert(out@ =~= label_count_message(c.labels@.len(), c.teams@.len()));
        return Some(string_from_chars(&out));
    }
    None
}


proof fn lemma_insert_triple_in_range(s: Seq<(usize, usize, usize)>, x: (usize, usize, usize), n: nat, nw: nat)
    requires
        games_in_range(s, n, nw),
        games_in_range(seq![x], n, nw),
    ensures
        games_in_range(crate::sorting::insert_triple(s, x), n, nw),
        crate::sorting::insert_triple(s, x).len() == s.len() + 1,
    decreases s.len(),
{
    if s.len() > 0 {
        let t = s.drop_last();
        assert(games_in_range(t, n, nw)) by {
            assert forall|k: int| 0 <= k < t.len() implies #[trigger] t[k].0 < nw && t[k].1 < n && t[k].2 < n by {
                assert(t[k] == s[k]);
            }
        }
        lemma_insert_triple_in_range(t, x, n, nw);
        let r = crate::sorting::insert_triple(s, x);
        if crate::sorting::triple_lt(x, s.last()) {
            let r0 = crate::sorting::insert_triple(t, x);
            assert(r == r0.push(s.last()));
            assert(s[s.len() - 1].0 < nw && s[s.len() - 1].1 < n && s[s.len() - 1].2 < n);
            assert forall|k: int| 0 <= k < r.len() implies #[trigger] r[k].0 < nw && r[k].1 < n && r[k].2 < n by {
                if k < r0.len() {
                    assert(r[k] == r0[k]);
                }
            }
        } else {
            assert(seq![x][0] == x);
            assert forall|k: int| 0 <= k < r.len() implies #[trigger] r[k].0 < nw && r[k].1 < n && r[k].2 < n by {
                if k < s.len() {
                    assert(r[k] == s[k]);
                }
            }
        }
    } else {
        assert(seq![x][0] == x);
    }
}

pub proof fn lemma_sort_triples_in_range(s: Seq<(usize, usize, usize)>, n: nat, nw: nat)
    requires
        games_in_range(s, n, nw),
    ensures
        games_in_range(sort_triples(s), n, nw),
        sort_triples(s).len() == s.len(),
    decreases s.len(),
{
    if s.len() > 0 {
        let t = s.drop_last();
        assert(games_in_range(t, n, nw)) by {
            assert forall|k: int| 0 <= k < t.len() implies #[trigger] t[k].0 < nw && t[k].1 < n && t[k].2 < n by {
                assert(t[k] == s[k]);
            }
        }
        lemma_sort_triples_in_range(t, n, nw);
        assert(s[s.len() - 1].0 < nw && s[s.len() - 1].1 < n && s[s.len() - 1].2 < n);
        assert(games_in_range(seq![s.last()], n, nw)) by {
            assert(seq![s.last()][0] == s.last());
        }
        lemma_insert_triple_in_range(sort_triples(t), s.last(), n, nw);
    }
}

fn entry_games_exec(c: &LeagueConfig, sorted: &Vec<u32>, k: usize) -> (eg: Vec<(usize, usize, usize)>)
    requires
        sorted@ == sorted_weeks(c),
        k < c.base_schedule@.len(),
        schedule_fits(c),
    ensures
        eg@ == entry_games(c, c.base_schedule@[k as int]),
        games_in_range(eg@, c.labels@.len(), sorted@.len()),
{
    let e = &c.base_schedule[k];
    let ghost ev = c.base_schedule@[k as int];
    assert(week_slot(c, ev.0) >= 0);
    proof {
        lemma_last_slot_u32(sorted_weeks(c), ev.0);
    }
    let wi = match last_slot_u32_exec(sorted, e.0) {
        Some(i) => i,
        None => 0,
    };
    let mut eg: Vec<(usize, usize, usize)> = Vec::new();
    let mut j: usize = 0;
    while j < e.1.len()
        invariant
            j <= e.1.len(),
            *e == ev,
            ev == c.base_schedule@[k as int],
            k < c.base_schedule@.len(),
            schedule_fits(c),
            wi as int == week_slot(c, ev.0),
            wi < sorted@.len(),
            sorted@ == sorted_weeks(c),
            eg@ == entry_games(c, ev).take(j as int),
            games_in_range(eg@, c.labels@.len(), sorted@.len()),
        decreases e.1.len() - j,
    {
        let m = &e.1[j];
        assert(label_slot(c, ev.1@[j as int][0]@) >= 0 && label_slot(c, ev.1@[j as int][1]@) >= 0);
        proof {
            lemma_last_slot_name(label_list(c), ev.1@[j as int][0]@);
            lemma_last_slot_name(label_list(c), ev.1@[j as int][1]@);
        }
        let a = match last_slot_name_exec(&c.labels, &m[0]) {
            Some(i) => i,
            None => 0,
        };
        let b = match last_slot_name_exec(&c.labels, &m[1]) {
            Some(i) => i,
            None => 0,
        };
        let ghost before = eg@;
        eg.push((wi, a, b));
        assert(eg@ =~= entry_games(c, ev).take(j + 1));
        assert(games_in_range(eg@, c.labels@.len(), sorted@.len())) by {
            assert forall|q: int| 0 <= q < eg@.len() implies #[trigger] eg@[q].0 < sorted@.len() && eg@[q].1
                < c.labels@.len() && eg@[q].2 < c.labels@.len() by {
                if q < before.len() {
                    assert(eg@[q] == before[q]);
                }
            }
        }
        j = j + 1;
    }
    assert(entry_games(c, ev).take(e.1.len() as int) =~= entry_games(c, ev));
    eg
}

fn sitters_exec(c: &LeagueConfig, k: usize, eg: &Vec<(usize, usize, usize)>) -> (r: Vec<usize>)
    requires
        k < c.base_schedule@.len(),
        eg@ == entry_games(c, c.base_schedule@[k as int]),
    ensures
        r@ == sitters_below(c, c.base_schedule@[k as int], c.labels@.len() as int),
        forall|q: int| 0 <= q < r@.len() ==> #[trigger] r@[q] < c.labels@.len(),
{
    let ghost e = c.base_schedule@[k as int];
    let nl = c.labels.len();
    let mut r: Vec<usize> = Vec::new();
    let mut i: usize = 0;
    while i < nl
        invariant
            i <= nl,
            nl == c.labels@.len(),
            e == c.base_schedule@[k as int],
            eg@ == entry_games(c, e),
            eg@.len() == e.1@.len(),
            r@ == sitters_below(c, e, i as int),
            forall|q: int| 0 <= q < r@.len() ==> #[trigger] r@[q] < i,
        decreases nl - i,
    {
        let mut plays = false;
        let mut j: usize = 0;
        while j < eg.len()
            invariant
                j <= eg.len(),
                eg@ == entry_games(c, e),
                eg@.len() == e.1@.len(),
                plays == exists|q: int| 0 <= q < j && (#[trigger] entry_games(c, e)[q].1 == i || entry_games(c, e)[q].2 == i),
            decreases eg.len() - j,
        {
            if eg[j].1 == i || eg[j].2 == i {
                plays = true;
            }
            j = j + 1;
        }
        assert(plays == label_plays(c, e, i as int));
        if !plays {
            r.push(i);
        }
        i = i + 1;
    }
    r
}

/// The games of the base schedule in entry order, and the label that sits
/// out each week index.
fn structure_exec(c: &LeagueConfig, sorted: &Vec<u32>) -> (r: (Vec<(usize, usize, usize)>, Vec<Option<usize>>))
    requires
        sorted@ == sorted_weeks(c),
        schedule_fits(c),
    ensures
        r.0@ == raw_games(c),
        games_in_range(r.0@, c.labels@.len(), sorted@.len()),
        r.1@ == bye_labels(c),
        r.1@.len() == sorted@.len(),
        forall|wi: int| 0 <= wi < r.1@.len() ==> (#[trigger] r.1@[wi] matches Some(li) ==> li < c.labels@.len()),
{
    let mut games: Vec<(usize, usize, usize)> = Vec::new();
    let mut byes: Vec<Option<usize>> = Vec::new();
    let mut w: usize = 0;
    while w < sorted.len()
        invariant
            w <= sorted.len(),
            byes@ == Seq::new(w as nat, |i: int| None::<usize>),
        decreases sorted.len() - w,
    {
        byes.push(None);
        assert(byes@ =~= Seq::new((w + 1) as nat, |i: int| None::<usize>));
        w = w + 1;
    }
    assert(byes@ =~= byes_upto(c, 0));
    let mut k: usize = 0;
    while k < c.base_schedule.len()
        invariant
            k <= c.base_schedule@.len(),
            sorted@ == sorted_weeks(c),
            schedule_fits(c),
            games@ == raw_games_upto(c, k as int),
            games_in_range(games@, c.labels@.len(), sorted@.len()),
            byes@ == byes_upto(c, k as int),
            byes@.len() == sorted@.len(),
            forall|wi: int| 0 <= wi < byes@.len() ==> (#[trigger] byes@[wi] matches Some(li) ==> li < c.labels@.len()),
        decreases c.base_schedule@.len() - k,
    {
        let eg = entry_games_exec(c, sorted, k);
        let ghost before = games@;
        let mut j: usize = 0;
        while j < eg.len()
            invariant
                j <= eg.len(),
                games@ == before + eg@.take(j as int),
                games_in_range(before, c.labels@.len(), sorted@.len()),
                games_in_range(eg@, c.labels@.len(), sorted@.len()),
                games_in_range(games@, c.labels@.len(), sorted@.len()),
            decreases eg.len() - j,
        {
            let ghost prev = games@;
            games.push(eg[j]);
            assert(games@ =~= before + eg@.take(j + 1));
            assert(games_in_range(games@, c.labels@.len(), sorted@.len())) by {
                assert forall|q: int| 0 <= q < games@.len() implies #[trigger] games@[q].0 < sorted@.len()
                    && games@[q].1 < c.labels@.len() && games@[q].2 < c.labels@.len() by {
                    if q < prev.len() {
                        assert(games@[q] == prev[q]);
                    } else {
                        assert(games@[q] == eg@[j as int]);
                    }
                }
            }
            j = j + 1;
        }
        assert(eg@.take(eg.len() as int) =~= eg@);
        let sit = sitters_exec(c, k, &eg);
        if sit.len() == 1 {
            let ghost ev = c.base_schedule@[k as int];
            proof {
                lemma_last_slot_u32(sorted_weeks(c), ev.0);
                assert(week_slot(c, ev.0) >= 0);
            }
            let wi = match last_slot_u32_exec(sorted, c.base_schedule[k].0) {
                Some(i) => i,
                None => 0,
            };
            byes.set(wi, Some(sit[0]));
            assert(byes@ == byes_upto(c, k + 1));
        } else {
            assert(byes@ == byes_upto(c, k + 1));
        }
        k = k + 1;
    }
    (games, byes)
}

/// Whether every base-schedule week is a season week, every matchup names a
/// known label, and there are fewer than 64 games.
pub fn schedule_fits_exec(c: &LeagueConfig) -> (r: bool)
    ensures
        r == schedule_fits(c),
{
    let sorted = sort_u32_exec(&c.weeks);
    let mut total: usize = 0;
    let mut k: usize = 0;
    while k < c.base_schedule.len()
        invariant
            k <= c.base_schedule@.len(),
            sorted@ == sorted_weeks(c),
            total == raw_games_upto(c, k as int).len(),
            total < 64,
            forall|q: int| 0 <= q < k ==> week_slot(c, #[trigger] c.base_schedule@[q].0) >= 0,
            forall|q: int, j: int|
                0 <= q < k && 0 <= j < c.base_schedule@[q].1@.len() ==> label_slot(
                    c,
                    (#[trigger] c.base_schedule@[q].1@[j])[0]@,
                ) >= 0 && label_slot(c, c.base_schedule@[q].1@[j][1]@) >= 0,
        decreases c.base_schedule@.len() - k,
    {
        let e = &c.base_schedule[k];
        if last_slot_u32_exec(&sorted, e.0).is_none() {
            return false;
        }
        let mut j: usize = 0;
        while j < e.1.len()
            invariant
                j <= e.1.len(),
                k < c.base_schedule@.len(),
                *e == c.base_schedule@[k as int],
                forall|i: int|
                    0 <= i < j ==> label_slot(c, (#[trigger] e.1@[i])[0]@) >= 0 && label_slot(c, e.1@[i][1]@) >= 0,
            decreases e.1.len() - j,
        {
            let sa = last_slot_name_exec(&c.labels, &e.1[j][0]);
            let sb = last_slot_name_exec(&c.labels, &e.1[j][1]);
            if sa.is_none() || sb.is_none() {
                proof {
                    let m = c.base_schedule@[k as int].1@[j as int];
                    assert(m == e.1@[j as int]);
                    assert(!(label_slot(c, m[0]@) >= 0 && label_slot(c, m[1]@) >= 0));
                }
                return false;
            }
            j = j + 1;
        }
        if e.1.len() >= 64 - total {
            assert(raw_games_upto(c, (k + 1) as int).len() >= 64);
            proof {
                lemma_raw_games_grow(c, (k + 1) as int, c.base_schedule@.len() as int);
            }
            return false;
        }
        total = total + e.1.len();
        k = k + 1;
    }
    true
}

proof fn lemma_raw_games_grow(c: &LeagueConfig, k: int, m: int)
    requires
        0 <= k <= m <= c.base_schedule@.len(),
    ensures
        raw_games_upto(c, k).len() <= raw_games_upto(c, m).len(),
    decreases m - k,
{
    if m > k {
        lemma_raw_games_grow(c, k, m - 1);
    }
}

/// Check `c` and compute its structural form: the weeks in order, the games
/// as label-index triples in lexicographic order, the label that sits out
/// each week, the acceptable host patterns, and each team's lookups.
pub fn plan_schedule(c: &LeagueConfig) -> (r: Result<Plan, String>)
    requires
        validation_error(c) is None ==> schedule_fits(c),
    ensures
        match r {
            Ok(plan) => plan.describes(c),
            Err(e) => validation_error(c) == Some(e@),
        },
{
    match check_config(c) {
        Some(e) => {
            return Err(e);
        },
        None => {},
    }
    let n = c.teams.len();
    let sorted = sort_u32_exec(&c.weeks);
    let distinct = dedup_sorted_exec(&sorted);
    let (raw, byes) = structure_exec(c, &sorted);
    let games = sort_triples_exec(&raw);
    proof {
        lemma_sort_triples_in_range(raw@, n as nat, sorted@.len());
    }
    let valid_bits = structural_host_bits(&games, n, sorted.len());
    let mut canon_v: Vec<usize> = Vec::new();
    let mut restricted: Vec<Vec<u32>> = Vec::new();
    let mut prefs: Vec<Option<(u32, u32)>> = Vec::new();
    let mut excluded: Vec<bool> = Vec::new();
    let mut i: usize = 0;
    while i < n
        invariant
            i <= n,
            n == c.teams@.len(),
            canon_v@.len() == i,
            forall|q: int| 0 <= q < i ==> #[trigger] canon_v@[q] == canon(c, q),
            restricted@.len() == i,
            forall|q: int| 0 <= q < i ==> #[trigger] restricted@[q]@ == restriction_list(c, team_names(c)[q]),
            prefs@.len() == i,
            forall|q: int| 0 <= q < i ==> #[trigger] prefs@[q] == preference(c, team_names(c)[q]),
            excluded@.len() == i,
            forall|q: int| 0 <= q < i ==> #[trigger] excluded@[q] == is_excluded(c, team_names(c)[q]),
        decreases n - i,
    {
        let name = &c.teams[i];
        assert(team_names(c)[i as int] == name@);
        assert(team_names(c).contains(name@));
        canon_v.push(first_slot_name_exec(&c.teams, name));
        restricted.push(restriction_list_exec(&c.bye_restrictions, name));
        prefs.push(preference_exec(&c.bye_preferences, name));
        excluded.push(contains_name(&c.score_excluded, name));
        i = i + 1;
    }
    proof {
        assert forall|q: int| 0 <= q < n implies #[trigger] canon_v@[q] <= q && canon_v@[canon_v@[q] as int]
            == canon_v@[q] by {
            lemma_canon(c, q);
        }
    }
    let plan = Plan {
        n_teams: n,
        sorted_weeks: sorted,
        distinct_weeks: distinct,
        games,
        byes,
        valid_bits,
        canon: canon_v,
        restricted,
        prefs,
        excluded,
    };
    Ok(plan)
}

} // verus!
