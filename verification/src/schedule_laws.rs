//! What every returned schedule satisfies, read off its named games: how
//! many games each team hosts, that no team hosts three weeks running, and
//! what its hosting-streak penalty counts.

use vstd::prelude::*;
use crate::config::LeagueConfig;
use crate::sorting::{insert_u32, sort_u32, dedup_sorted};
use crate::host_bits::games_in_range;
use crate::plan::{schedule_fits, raw_games_upto, raw_games, structural_games, entry_games, sorted_weeks, label_list,
    week_slot, label_slot, lemma_last_slot_u32, lemma_last_slot_name, lemma_sort_triples_in_range, distinct_weeks,
    team_names, canon, lemma_canon};
use crate::candidates::{placed_game, team_hosts_in, team_penalty_upto, penalty_upto, assigns_teams};
use crate::host_bits::{host_label, hosted_count, pattern_ok, is_balanced, has_long_streak, hosts_in_week};
use crate::scheduler::{scheduler_answer, scheduler_can_run, all_orderings, is_ordering};
use crate::ranking::{Solution, top_keys, schedule_view};
use crate::laws::{law_top_candidates, lemma_top_keys_in_perms};
use crate::plan::validation_error;
use crate::ranking::{named_schedule, week_games_upto};
use crate::laws::names_distinct;
use vstd::set_lib::{set_int_range, lemma_int_range, lemma_subset_equality};

verus! {

/// `s` is in non-decreasing order.
pub open spec fn nondecreasing(s: Seq<u32>) -> bool {
    forall|i: int, j: int| 0 <= i < j < s.len() ==> s[i] <= s[j]
}

/// `s` is in increasing order.
pub open spec fn increasing(s: Seq<u32>) -> bool {
    forall|i: int, j: int| 0 <= i < j < s.len() ==> s[i] < s[j]
}

proof fn lemma_insert_u32(s: Seq<u32>, x: u32)
    requires
        nondecreasing(s),
    ensures
        nondecreasing(insert_u32(s, x)),
        insert_u32(s, x).len() == s.len() + 1,
        forall|y: u32| #[trigger] insert_u32(s, x).contains(y) <==> (s.contains(y) || y == x),
        increasing(s) && !s.contains(x) ==> increasing(insert_u32(s, x)),
    decreases s.len(),
{
    let r = insert_u32(s, x);
    if s.len() == 0 {
        assert(r == seq![x]);
        assert forall|y: u32| r.contains(y) <==> (s.contains(y) || y == x) by {
            if y == x {
                assert(r[0] == x);
            }
        }
    } else if x < s.last() {
        let t = s.drop_last();
        assert forall|i: int, j: int| 0 <= i < j < t.len() implies t[i] <= t[j] by {
            assert(t[i] == s[i] && t[j] == s[j]);
        }
        lemma_insert_u32(t, x);
        let r0 = insert_u32(t, x);
        assert(r == r0.push(s.last()));
        assert forall|y: u32| r.contains(y) <==> (s.contains(y) || y == x) by {
            if r.contains(y) {
                let k = choose|k: int| 0 <= k < r.len() && r[k] == y;
                if k < r0.len() {
                    assert(r0[k] == y);
                    assert(r0.contains(y));
                    assert(t.contains(y) || y == x);
                    if t.contains(y) {
                        let q = choose|q: int| 0 <= q < t.len() && t[q] == y;
                        assert(s[q] == y);
                    }
                } else {
                    assert(s[s.len() - 1] == y);
                }
            }
            if s.contains(y) {
                let q = choose|q: int| 0 <= q < s.len() && s[q] == y;
                if q < t.len() {
                    assert(t[q] == y);
                    assert(t.contains(y));
                    assert(r0.contains(y));
                    let k = choose|k: int| 0 <= k < r0.len() && r0[k] == y;
                    assert(r[k] == y);
                } else {
                    assert(r[r0.len() as int] == y);
                }
            }
            if y == x {
                assert(r0.contains(x));
                let k = choose|k: int| 0 <= k < r0.len() && r0[k] == x;
                assert(r[k] == x);
            }
        }
        // every element of r0 is at most s.last()
        assert forall|k: int| 0 <= k < r0.len() implies r0[k] <= s.last() by {
            assert(r0.contains(r0[k]));
            if t.contains(r0[k]) {
                let q = choose|q: int| 0 <= q < t.len() && t[q] == r0[k];
                assert(s[q] == t[q]);
            }
        }
        assert forall|i: int, j: int| 0 <= i < j < r.len() implies r[i] <= r[j] by {
            if j < r0.len() {
                assert(r[i] == r0[i] && r[j] == r0[j]);
            } else {
                assert(r[i] == r0[i]);
            }
        }
        if increasing(s) && !s.contains(x) {
            assert(increasing(t)) by {
                assert forall|i: int, j: int| 0 <= i < j < t.len() implies t[i] < t[j] by {
                    assert(t[i] == s[i] && t[j] == s[j]);
                }
            }
            assert(!t.contains(x)) by {
                if t.contains(x) {
                    let q = choose|q: int| 0 <= q < t.len() && t[q] == x;
                    assert(s[q] == x);
                }
            }
            assert forall|k: int| 0 <= k < r0.len() implies r0[k] < s.last() by {
                assert(r0.contains(r0[k]));
                if t.contains(r0[k]) {
                    let q = choose|q: int| 0 <= q < t.len() && t[q] == r0[k];
                    assert(s[q] == t[q]);
                }
            }
            assert forall|i: int, j: int| 0 <= i < j < r.len() implies r[i] < r[j] by {
                if j < r0.len() {
                    assert(r[i] == r0[i] && r[j] == r0[j]);
                } else {
                    assert(r[i] == r0[i]);
                }
            }
        }
    } else {
        assert(r == s.push(x));
        assert forall|y: u32| r.contains(y) <==> (s.contains(y) || y == x) by {
            if r.contains(y) {
                let k = choose|k: int| 0 <= k < r.len() && r[k] == y;
                if k < s.len() {
                    assert(s[k] == y);
                }
            }
            if s.contains(y) {
                let q = choose|q: int| 0 <= q < s.len() && s[q] == y;
                assert(r[q] == y);
            }
            if y == x {
                assert(r[s.len() as int] == x);
            }
        }
        assert forall|i: int, j: int| 0 <= i < j < r.len() implies r[i] <= r[j] by {
            if j < s.len() {
                assert(r[i] == s[i] && r[j] == s[j]);
            } else {
                assert(r[i] == s[i]);
                assert(s[i] <= s[s.len() - 1]);
            }
        }
        if increasing(s) && !s.contains(x) {
            assert(x != s[s.len() - 1]);
            assert forall|i: int, j: int| 0 <= i < j < r.len() implies r[i] < r[j] by {
                if j < s.len() {
                    assert(r[i] == s[i] && r[j] == s[j]);
                } else {
                    assert(r[i] == s[i]);
                    if i < s.len() - 1 {
                        assert(s[i] < s[s.len() - 1]);
                    }
                }
            }
        }
    }
}

/// Sorting puts the values in order, keeps which values occur, and keeps
/// them distinct when they were.
pub proof fn lemma_sort_u32(s: Seq<u32>)
    ensures
        nondecreasing(sort_u32(s)),
        sort_u32(s).len() == s.len(),
        forall|y: u32| #[trigger] sort_u32(s).contains(y) <==> s.contains(y),
        s.no_duplicates() ==> increasing(sort_u32(s)),
    decreases s.len(),
{
    if s.len() > 0 {
        let t = s.drop_last();
        lemma_sort_u32(t);
        lemma_insert_u32(sort_u32(t), s.last());
        assert forall|y: u32| sort_u32(s).contains(y) <==> s.contains(y) by {
            if t.contains(y) {
                let q = choose|q: int| 0 <= q < t.len() && t[q] == y;
                assert(s[q] == y);
            }
            if s.contains(y) {
                let q = choose|q: int| 0 <= q < s.len() && s[q] == y;
                if q < t.len() {
                    assert(t[q] == y);
                }
            }
        }
        if s.no_duplicates() {
            assert(t.no_duplicates()) by {
                assert forall|i: int, j: int| 0 <= i < t.len() && 0 <= j < t.len() && i != j implies t[i] != t[j] by {
                    assert(t[i] == s[i] && t[j] == s[j]);
                }
            }
            assert(!t.contains(s.last())) by {
                if t.contains(s.last()) {
                    let q = choose|q: int| 0 <= q < t.len() && t[q] == s.last();
                    assert(s[q] == s[s.len() - 1]);
                }
            }
            assert(!sort_u32(t).contains(s.last()));
        }
    }
}

/// Removing repeats from a sorted sequence leaves the same values, each
/// once and in increasing order; an increasing sequence is left as it is.
pub proof fn lemma_dedup_sorted(s: Seq<u32>)
    requires
        nondecreasing(s),
    ensures
        increasing(dedup_sorted(s)),
        forall|y: u32| #[trigger] dedup_sorted(s).contains(y) <==> s.contains(y),
        increasing(s) ==> dedup_sorted(s) == s,
        dedup_sorted(s).len() > 0 ==> s.len() > 0 && dedup_sorted(s).last() == s.last(),
    decreases s.len(),
{
    if s.len() > 0 {
        let t = s.drop_last();
        assert forall|i: int, j: int| 0 <= i < j < t.len() implies t[i] <= t[j] by {
            assert(t[i] == s[i] && t[j] == s[j]);
        }
        lemma_dedup_sorted(t);
        let r = dedup_sorted(t);
        let d = dedup_sorted(s);
        assert forall|y: u32| d.contains(y) <==> s.contains(y) by {
            if d.contains(y) {
                let k = choose|k: int| 0 <= k < d.len() && d[k] == y;
                if k < r.len() {
                    assert(d[k] == r[k]);
                    assert(r.contains(y));
                    let q = choose|q: int| 0 <= q < t.len() && t[q] == y;
                    assert(s[q] == y);
                } else {
                    assert(s[s.len() - 1] == y);
                }
            }
            if s.contains(y) {
                let q = choose|q: int| 0 <= q < s.len() && s[q] == y;
                if q < t.len() {
                    assert(t[q] == y);
                    assert(r.contains(y));
                    let k = choose|k: int| 0 <= k < r.len() && r[k] == y;
                    assert(d[k] == y);
                } else if r.len() > 0 && r.last() == s.last() {
                    assert(d[r.len() - 1] == y);
                } else {
                    assert(d[r.len() as int] == y);
                }
            }
        }
        if !(r.len() > 0 && r.last() == s.last()) {
            if r.len() > 0 {
                assert(r.last() == t.last());
                assert(t.last() <= s.last()) by {
                    assert(s[t.len() - 1] <= s[s.len() - 1]);
                }
            }
            assert forall|i: int, j: int| 0 <= i < j < d.len() implies d[i] < d[j] by {
                if j < r.len() {
                    assert(d[i] == r[i] && d[j] == r[j]);
                } else {
                    assert(d[i] == r[i]);
                    if i < r.len() - 1 {
                        assert(r[i] < r[r.len() - 1]);
                    }
                }
            }
        }
        if increasing(s) {
            assert(increasing(t)) by {
                assert forall|i: int, j: int| 0 <= i < j < t.len() implies t[i] < t[j] by {
                    assert(t[i] == s[i] && t[j] == s[j]);
                }
            }
            if t.len() > 0 {
                assert(t.last() < s.last()) by {
                    assert(s[t.len() - 1] < s[s.len() - 1]);
                }
            }
            assert(d =~= t.push(s.last()));
        }
    }
}

proof fn lemma_raw_games_in_range(c: &LeagueConfig, k: int)
    requires
        schedule_fits(c),
        0 <= k <= c.base_schedule@.len(),
    ensures
        games_in_range(raw_games_upto(c, k), label_list(c).len(), sorted_weeks(c).len()),
    decreases k,
{
    if k > 0 {
        lemma_raw_games_in_range(c, k - 1);
        let e = c.base_schedule@[k - 1];
        let eg = entry_games(c, e);
        let prev = raw_games_upto(c, k - 1);
        let nl = label_list(c).len();
        let nw = sorted_weeks(c).len();
        lemma_last_slot_u32(sorted_weeks(c), e.0);
        assert(week_slot(c, e.0) >= 0);
        assert forall|j: int| 0 <= j < eg.len() implies #[trigger] eg[j].0 < nw && eg[j].1 < nl && eg[j].2 < nl by {
            lemma_last_slot_name(label_list(c), e.1@[j][0]@);
            lemma_last_slot_name(label_list(c), e.1@[j][1]@);
            assert(label_slot(c, c.base_schedule@[k - 1].1@[j][0]@) >= 0);
            assert(label_slot(c, c.base_schedule@[k - 1].1@[j][1]@) >= 0);
        }
        let all = raw_games_upto(c, k);
        assert(all == prev + eg);
        assert forall|q: int| 0 <= q < all.len() implies #[trigger] all[q].0 < nw && all[q].1 < nl && all[q].2 < nl by {
            if q < prev.len() {
                assert(all[q] == prev[q]);
            } else {
                assert(all[q] == eg[q - prev.len()]);
            }
        }
    }
}

/// The structural games of a schedule that fits name existing week
/// indices and labels.
pub proof fn lemma_structural_games_in_range(c: &LeagueConfig)
    requires
        schedule_fits(c),
    ensures
        games_in_range(structural_games(c), c.labels@.len(), sorted_weeks(c).len()),
{
    lemma_raw_games_in_range(c, c.base_schedule@.len() as int);
    assert(label_list(c).len() == c.labels@.len());
    lemma_sort_triples_in_range(raw_games(c), c.labels@.len(), sorted_weeks(c).len());
}

/// How many of the first `m` indices satisfy `q`.
pub open spec fn count_if(q: spec_fn(int) -> bool, m: int) -> nat
    decreases m,
{
    if m <= 0 {
        0
    } else {
        count_if(q, m - 1) + if q(m - 1) {
            1nat
        } else {
            0nat
        }
    }
}

/// How many of the first `m` indices have key `w` and satisfy `q`.
pub open spec fn count_key(key: spec_fn(int) -> u32, q: spec_fn(int) -> bool, w: u32, m: int) -> nat
    decreases m,
{
    if m <= 0 {
        0
    } else {
        count_key(key, q, w, m - 1) + if key(m - 1) == w && q(m - 1) {
            1nat
        } else {
            0nat
        }
    }
}

/// The counts for the first `jn` keys of `ws`, added up.
pub open spec fn sum_keys(key: spec_fn(int) -> u32, q: spec_fn(int) -> bool, ws: Seq<u32>, jn: int, m: int) -> nat
    decreases jn,
{
    if jn <= 0 {
        0
    } else {
        sum_keys(key, q, ws, jn - 1, m) + count_key(key, q, ws[jn - 1], m)
    }
}

proof fn lemma_count_if_zero(q: spec_fn(int) -> bool, m: int)
    ensures
        count_if(q, m) > 0 <==> exists|k: int| 0 <= k < m && #[trigger] q(k),
    decreases m,
{
    if m > 0 {
        lemma_count_if_zero(q, m - 1);
        if q(m - 1) {
            assert(0 <= m - 1 < m && q(m - 1));
        }
    }
}

proof fn lemma_count_key_zero(key: spec_fn(int) -> u32, q: spec_fn(int) -> bool, w: u32, m: int)
    ensures
        count_key(key, q, w, m) > 0 <==> exists|k: int| 0 <= k < m && #[trigger] key(k) == w && q(k),
    decreases m,
{
    if m > 0 {
        lemma_count_key_zero(key, q, w, m - 1);
        if key(m - 1) == w && q(m - 1) {
            assert(0 <= m - 1 < m && key(m - 1) == w && q(m - 1));
        }
    }
}

proof fn lemma_sum_keys_step(key: spec_fn(int) -> u32, q: spec_fn(int) -> bool, ws: Seq<u32>, jn: int, m: int)
    requires
        increasing(ws),
        0 <= jn <= ws.len(),
        m > 0,
    ensures
        sum_keys(key, q, ws, jn, m) == sum_keys(key, q, ws, jn, m - 1) + if q(m - 1) && exists|j: int|
            0 <= j < jn && #[trigger] ws[j] == key(m - 1) {
            1nat
        } else {
            0nat
        },
    decreases jn,
{
    if jn > 0 {
        lemma_sum_keys_step(key, q, ws, jn - 1, m);
        if exists|j: int| 0 <= j < jn && #[trigger] ws[j] == key(m - 1) {
            let j = choose|j: int| 0 <= j < jn && ws[j] == key(m - 1);
            if j < jn - 1 {
                assert(ws[j] < ws[jn - 1]);
            }
        } else {
            assert(!(ws[jn - 1] == key(m - 1)));
        }
    }
}

/// Counting per key and adding up over keys that occur once each and
/// cover every index gives the plain count.
proof fn lemma_sum_keys(key: spec_fn(int) -> u32, q: spec_fn(int) -> bool, ws: Seq<u32>, m: int)
    requires
        increasing(ws),
        m >= 0,
        forall|k: int| 0 <= k < m ==> ws.contains(#[trigger] key(k)),
    ensures
        sum_keys(key, q, ws, ws.len() as int, m) == count_if(q, m),
    decreases m,
{
    if m == 0 {
        lemma_sum_keys_zero(key, q, ws, ws.len() as int);
    } else {
        lemma_sum_keys(key, q, ws, m - 1);
        lemma_sum_keys_step(key, q, ws, ws.len() as int, m);
        assert(ws.contains(key(m - 1)));
    }
}

proof fn lemma_sum_keys_zero(key: spec_fn(int) -> u32, q: spec_fn(int) -> bool, ws: Seq<u32>, jn: int)
    ensures
        sum_keys(key, q, ws, jn, 0) == 0,
    decreases jn,
{
    if jn > 0 {
        lemma_sum_keys_zero(key, q, ws, jn - 1);
    }
}

/// How many of the games `g` team `t` hosts (is named first in).
pub open spec fn hosted_by(g: Seq<(Seq<char>, Seq<char>)>, t: Seq<char>) -> nat
    decreases g.len(),
{
    if g.len() == 0 {
        0
    } else {
        hosted_by(g.drop_last(), t) + if g.last().0 == t {
            1nat
        } else {
            0nat
        }
    }
}

/// Team `t` hosts one of the games `g`.
pub open spec fn hosts_among(g: Seq<(Seq<char>, Seq<char>)>, t: Seq<char>) -> bool {
    exists|i: int| 0 <= i < g.len() && #[trigger] g[i].0 == t
}

/// How many games team `t` hosts in the first `m` weeks of schedule `s`.
pub open spec fn games_hosted(s: Seq<(u32, Seq<(Seq<char>, Seq<char>)>)>, t: Seq<char>, m: int) -> nat
    decreases m,
{
    if m <= 0 {
        0
    } else {
        games_hosted(s, t, m - 1) + hosted_by(s[m - 1].1, t)
    }
}

/// How many games the first `m` weeks of schedule `s` list.
pub open spec fn games_listed(s: Seq<(u32, Seq<(Seq<char>, Seq<char>)>)>, m: int) -> nat
    decreases m,
{
    if m <= 0 {
        0
    } else {
        games_listed(s, m - 1) + s[m - 1].1.len()
    }
}

/// Team `t` hosts a game in the week of schedule `s` numbered `w`.
pub open spec fn hosts_in_week_number(s: Seq<(u32, Seq<(Seq<char>, Seq<char>)>)>, t: Seq<char>, w: int) -> bool {
    exists|j: int| 0 <= j < s.len() && s[j].0 == w && #[trigger] hosts_among(s[j].1, t)
}

/// Among the first `m` weeks of schedule `s`, how many weeks `w` team `t`
/// hosts in and also in week `w + 1`.
pub open spec fn adjacent_hosting(s: Seq<(u32, Seq<(Seq<char>, Seq<char>)>)>, t: Seq<char>, m: int) -> nat
    decreases m,
{
    if m <= 0 {
        0
    } else {
        adjacent_hosting(s, t, m - 1) + if hosts_among(s[m - 1].1, t) && hosts_in_week_number(
            s,
            t,
            s[m - 1].0 + 1,
        ) {
            1nat
        } else {
            0nat
        }
    }
}

/// The adjacent-week hosting counts of the first `m` teams, added up.
pub open spec fn streak_count(s: Seq<(u32, Seq<(Seq<char>, Seq<char>)>)>, teams: Seq<Seq<char>>, m: int) -> nat
    decreases m,
{
    if m <= 0 {
        0
    } else {
        streak_count(s, teams, m - 1) + adjacent_hosting(s, teams[m - 1], s.len() as int)
    }
}

proof fn lemma_hosted_by_positive(g: Seq<(Seq<char>, Seq<char>)>, t: Seq<char>)
    ensures
        hosted_by(g, t) > 0 <==> hosts_among(g, t),
    decreases g.len(),
{
    if g.len() > 0 {
        let h = g.drop_last();
        lemma_hosted_by_positive(h, t);
        if hosts_among(h, t) {
            let i = choose|i: int| 0 <= i < h.len() && #[trigger] h[i].0 == t;
            assert(g[i] == h[i]);
        }
        if hosts_among(g, t) {
            let i = choose|i: int| 0 <= i < g.len() && #[trigger] g[i].0 == t;
            if i < h.len() {
                assert(h[i] == g[i]);
            }
        }
        if g.last().0 == t {
            assert(g[g.len() - 1].0 == t);
        }
    }
}

/// The schedule position of each structural game.
pub open spec fn game_week(c: &LeagueConfig, p: Seq<usize>, bits: u64) -> spec_fn(int) -> u32 {
    |k: int| placed_game(c, p, bits, k).0
}

/// The games whose host is the team at position `t`.
pub open spec fn hosted_by_team(c: &LeagueConfig, p: Seq<usize>, bits: u64, t: int) -> spec_fn(int) -> bool {
    |k: int| placed_game(c, p, bits, k).1 == t
}

/// Every game.
pub open spec fn any_game() -> spec_fn(int) -> bool {
    |k: int| true
}

/// Every placed game's host is a team position.
pub open spec fn hosts_in_teams(c: &LeagueConfig, p: Seq<usize>, bits: u64, m: int) -> bool {
    forall|k: int| 0 <= k < m ==> (#[trigger] placed_game(c, p, bits, k)).1 < c.teams@.len()
}

proof fn lemma_week_games_counts(c: &LeagueConfig, p: Seq<usize>, bits: u64, w: u32, t: int, m: int)
    requires
        names_distinct(c),
        0 <= t < c.teams@.len(),
        0 <= m,
        hosts_in_teams(c, p, bits, m),
    ensures
        hosted_by(week_games_upto(c, p, bits, w, m), team_names(c)[t]) == count_key(
            game_week(c, p, bits),
            hosted_by_team(c, p, bits, t),
            w,
            m,
        ),
        week_games_upto(c, p, bits, w, m).len() == count_key(game_week(c, p, bits), any_game(), w, m),
    decreases m,
{
    if m > 0 {
        lemma_week_games_counts(c, p, bits, w, t, m - 1);
        let prev = week_games_upto(c, p, bits, w, m - 1);
        let g = placed_game(c, p, bits, m - 1);
        assert(g.1 < c.teams@.len());
        if g.0 == w {
            let x = (team_names(c)[g.1 as int], team_names(c)[g.2 as int]);
            let cur = prev.push(x);
            assert(cur.drop_last() =~= prev);
            assert(cur.last() == x);
            if g.1 as int != t {
                if (g.1 as int) < t {
                    assert(team_names(c)[g.1 as int] != team_names(c)[t]);
                } else {
                    assert(team_names(c)[t] != team_names(c)[g.1 as int]);
                }
            }
        }
    }
}

proof fn lemma_count_all(m: int)
    requires
        m >= 0,
    ensures
        count_if(any_game(), m) == m,
    decreases m,
{
    if m > 0 {
        lemma_count_all(m - 1);
    }
}

proof fn lemma_named_sums(c: &LeagueConfig, p: Seq<usize>, bits: u64, t: int, jn: int)
    requires
        names_distinct(c),
        0 <= t < c.teams@.len(),
        0 <= jn <= distinct_weeks(c).len(),
        hosts_in_teams(c, p, bits, structural_games(c).len() as int),
    ensures
        games_hosted(named_schedule(c, p, bits), team_names(c)[t], jn) == sum_keys(
            game_week(c, p, bits),
            hosted_by_team(c, p, bits, t),
            distinct_weeks(c),
            jn,
            structural_games(c).len() as int,
        ),
        games_listed(named_schedule(c, p, bits), jn) == sum_keys(
            game_week(c, p, bits),
            any_game(),
            distinct_weeks(c),
            jn,
            structural_games(c).len() as int,
        ),
    decreases jn,
{
    if jn > 0 {
        lemma_named_sums(c, p, bits, t, jn - 1);
        let dw = distinct_weeks(c);
        let ng = structural_games(c).len() as int;
        assert(named_schedule(c, p, bits)[jn - 1] == (dw[jn - 1], week_games_upto(c, p, bits, dw[jn - 1], ng)));
        lemma_week_games_counts(c, p, bits, dw[jn - 1], t, ng);
    }
}

/// The facts about a configuration and an assignment of teams to labels
/// that the schedule laws rest on.
pub open spec fn well_placed(c: &LeagueConfig, p: Seq<usize>) -> bool {
    &&& validation_error(c) is None
    &&& schedule_fits(c)
    &&& names_distinct(c)
    &&& assigns_teams(p, c.teams@.len())
}

proof fn lemma_placed_ranges(c: &LeagueConfig, p: Seq<usize>, bits: u64)
    requires
        well_placed(c, p),
    ensures
        hosts_in_teams(c, p, bits, structural_games(c).len() as int),
        increasing(distinct_weeks(c)),
        forall|k: int|
            0 <= k < structural_games(c).len() ==> distinct_weeks(c).contains(#[trigger] game_week(c, p, bits)(k)),
        forall|y: u32| #[trigger] distinct_weeks(c).contains(y) <==> sorted_weeks(c).contains(y),
        sorted_weeks(c).len() == c.weeks@.len(),
        nondecreasing(sorted_weeks(c)),
        games_in_range(structural_games(c), c.teams@.len(), sorted_weeks(c).len()),
{
    lemma_structural_games_in_range(c);
    lemma_sort_u32(c.weeks@);
    lemma_dedup_sorted(sorted_weeks(c));
    let games = structural_games(c);
    let n = c.teams@.len();
    assert forall|k: int| 0 <= k < games.len() implies (#[trigger] placed_game(c, p, bits, k)).1 < n by {
        assert(games[k].0 < sorted_weeks(c).len() && games[k].1 < n && games[k].2 < n);
        let h = host_label(games[k], bits, k);
        assert(h < n);
        assert(p[h as int] < n);
    }
    assert forall|k: int| 0 <= k < games.len() implies distinct_weeks(c).contains(#[trigger] game_week(c, p, bits)(k)) by {
        assert(games[k].0 < sorted_weeks(c).len());
        let w = sorted_weeks(c)[games[k].0 as int];
        assert(sorted_weeks(c).contains(w));
        assert(game_week(c, p, bits)(k) == w);
    }
}

/// Over the whole schedule: the games team `t` hosts and all games listed.
proof fn lemma_named_totals(c: &LeagueConfig, p: Seq<usize>, bits: u64, t: int)
    requires
        well_placed(c, p),
        0 <= t < c.teams@.len(),
    ensures
        games_hosted(named_schedule(c, p, bits), team_names(c)[t], named_schedule(c, p, bits).len() as int) == count_if(
            hosted_by_team(c, p, bits, t),
            structural_games(c).len() as int,
        ),
        games_listed(named_schedule(c, p, bits), named_schedule(c, p, bits).len() as int)
            == structural_games(c).len(),
{
    lemma_placed_ranges(c, p, bits);
    let ng = structural_games(c).len() as int;
    let dw = distinct_weeks(c);
    lemma_named_sums(c, p, bits, t, dw.len() as int);
    lemma_sum_keys(game_week(c, p, bits), hosted_by_team(c, p, bits, t), dw, ng);
    lemma_sum_keys(game_week(c, p, bits), any_game(), dw, ng);
    lemma_count_all(ng);
}

proof fn lemma_team_count_is_label_count(c: &LeagueConfig, p: Seq<usize>, bits: u64, t: int, l: int, m: int)
    requires
        well_placed(c, p),
        is_ordering(p, c.teams@.len()),
        0 <= l < c.teams@.len(),
        p[l] == t,
        0 <= m <= structural_games(c).len(),
    ensures
        count_if(hosted_by_team(c, p, bits, t), m) == hosted_count(structural_games(c), bits, l as usize, m),
    decreases m,
{
    if m > 0 {
        lemma_team_count_is_label_count(c, p, bits, t, l, m - 1);
        lemma_placed_ranges(c, p, bits);
        let games = structural_games(c);
        let h = host_label(games[m - 1], bits, m - 1);
        assert(c.teams@.len() == c.teams.len());
        assert((l as usize) as int == l);
        assert(placed_game(c, p, bits, m - 1).1 == p[h as int]);
        assert(hosted_by_team(c, p, bits, t)(m - 1) == (p[h as int] == t));
        assert(games[m - 1].0 < sorted_weeks(c).len() && games[m - 1].1 < c.teams@.len() && games[m - 1].2 < c.teams@.len());
        assert(h < c.teams@.len());
        if h as int != l {
            if (h as int) < l {
                assert(p[h as int] != p[l]);
            } else {
                assert(p[l] != p[h as int]);
            }
        }
    }
}

/// An ordering of `0..n` reaches every position: each `t < n` is `p[l]` for
/// some `l`.
proof fn lemma_ordering_onto(p: Seq<usize>, n: nat, t: int) -> (l: int)
    requires
        is_ordering(p, n),
        0 <= t < n,
    ensures
        0 <= l < n,
        p[l] == t,
{
    let q = p.map_values(|x: usize| x as int);
    assert(q.len() == n);
    assert(q.no_duplicates()) by {
        assert forall|i: int, j: int| 0 <= i < q.len() && 0 <= j < q.len() && i != j implies q[i] != q[j] by {
            if i < j {
                assert(p[i] != p[j]);
            } else {
                assert(p[j] != p[i]);
            }
        }
    }
    q.unique_seq_to_set();
    lemma_int_range(0, n as int);
    assert(q.to_set().subset_of(set_int_range(0, n as int))) by {
        assert forall|v: int| q.to_set().contains(v) implies set_int_range(0, n as int).contains(v) by {
            let i = choose|i: int| 0 <= i < q.len() && q[i] == v;
            assert(p[i] < n);
        }
    }
    lemma_subset_equality(q.to_set(), set_int_range(0, n as int));
    assert(set_int_range(0, n as int).contains(t));
    assert(q.to_set().contains(t));
    let l = choose|l: int| 0 <= l < q.len() && q[l] == t;
    l
}

/// The games a team hosts in the schedule of `p` under an acceptable host
/// pattern number at most one more than the games divided among the teams.
proof fn lemma_hosting_bound(c: &LeagueConfig, p: Seq<usize>, bits: u64, t: int)
    requires
        well_placed(c, p),
        is_ordering(p, c.teams@.len()),
        pattern_ok(structural_games(c), c.teams@.len(), sorted_weeks(c).len(), bits),
        0 <= t < c.teams@.len(),
    ensures
        games_listed(named_schedule(c, p, bits), named_schedule(c, p, bits).len() as int) / (c.teams@.len() as nat)
            <= games_hosted(named_schedule(c, p, bits), team_names(c)[t], named_schedule(c, p, bits).len() as int)
            <= games_listed(named_schedule(c, p, bits), named_schedule(c, p, bits).len() as int) / (
        c.teams@.len() as nat) + 1,
{
    lemma_named_totals(c, p, bits, t);
    let ng = structural_games(c).len() as int;
    let n = c.teams@.len();
    let l = lemma_ordering_onto(p, n, t);
    lemma_team_count_is_label_count(c, p, bits, t, l, ng);
    assert(c.teams@.len() == c.teams.len());
    assert(is_balanced(structural_games(c), n, bits));
    assert((l as usize) < n);
    assert(ng / (n as int) <= hosted_count(structural_games(c), bits, l as usize, ng) <= ng / (n as int) + 1);
}

/// Hosting is shared out evenly: in every returned schedule, the games a
/// team is named first in number at least the games listed divided by the
/// number of teams (rounded down) and at most one more than that.  This needs distinct
/// team names and orderings of the teams.
pub proof fn law_hosting_balanced(c: &LeagueConfig, perms: Seq<Seq<usize>>, sols: Vec<Solution>)
    requires
        scheduler_answer(c, perms, Ok(sols)),
        scheduler_can_run(c),
        names_distinct(c),
        all_orderings(perms, c.teams@.len()),
    ensures
        forall|i: int, t: int|
            0 <= i < sols@.len() && 0 <= t < c.teams@.len() ==> games_listed(
                schedule_view(sols@[i].schedule@),
                schedule_view(sols@[i].schedule@).len() as int,
            ) / (c.teams@.len() as nat) <= #[trigger] games_hosted(
                schedule_view(sols@[i].schedule@),
                team_names(c)[t],
                schedule_view(sols@[i].schedule@).len() as int,
            ) <= games_listed(schedule_view(sols@[i].schedule@), schedule_view(sols@[i].schedule@).len() as int) / (
            c.teams@.len() as nat) + 1,
{
    let top = top_keys(c, perms);
    law_top_candidates(c, perms);
    lemma_top_keys_in_perms(c, perms);
    assert forall|i: int, t: int| 0 <= i < sols@.len() && 0 <= t < c.teams@.len() implies games_listed(
        schedule_view(sols@[i].schedule@),
        schedule_view(sols@[i].schedule@).len() as int,
    ) / (c.teams@.len() as nat) <= #[trigger] games_hosted(
        schedule_view(sols@[i].schedule@),
        team_names(c)[t],
        schedule_view(sols@[i].schedule@).len() as int,
    ) <= games_listed(schedule_view(sols@[i].schedule@), schedule_view(sols@[i].schedule@).len() as int) / (
    c.teams@.len() as nat) + 1 by {
        assert(sols@[i].is_solution(c, top[i], i + 1));
        let p = top[i].0;
        let q = choose|q: int| 0 <= q < perms.len() && perms[q] == p;
        assert(is_ordering(perms[q], c.teams@.len()));
        lemma_hosting_bound(c, p, top[i].1, t);
    }
}

proof fn lemma_canon_distinct(c: &LeagueConfig, x: int)
    requires
        names_distinct(c),
        0 <= x < c.teams@.len(),
    ensures
        canon(c, x) == x,
{
    lemma_canon(c, x);
    let y = canon(c, x);
    if y != x {
        assert(team_names(c)[y] == team_names(c)[x]);
    }
}

proof fn lemma_team_hosts_in_count(c: &LeagueConfig, p: Seq<usize>, bits: u64, t: int, w: int)
    requires
        well_placed(c, p),
        0 <= t < c.teams@.len(),
        0 <= w <= u32::MAX,
    ensures
        team_hosts_in(c, p, bits, t, w) <==> count_key(
            game_week(c, p, bits),
            hosted_by_team(c, p, bits, t),
            w as u32,
            structural_games(c).len() as int,
        ) > 0,
{
    lemma_placed_ranges(c, p, bits);
    let ng = structural_games(c).len() as int;
    let key = game_week(c, p, bits);
    let q = hosted_by_team(c, p, bits, t);
    lemma_count_key_zero(key, q, w as u32, ng);
    if team_hosts_in(c, p, bits, t, w) {
        let k = choose|k: int|
            0 <= k < ng && (#[trigger] placed_game(c, p, bits, k)).0 == w && canon(c, placed_game(c, p, bits, k).1 as int)
                == t;
        lemma_canon_distinct(c, placed_game(c, p, bits, k).1 as int);
        assert(key(k) == w as u32 && q(k));
    }
    if count_key(key, q, w as u32, ng) > 0 {
        let k = choose|k: int| 0 <= k < ng && #[trigger] key(k) == w as u32 && q(k);
        lemma_canon_distinct(c, placed_game(c, p, bits, k).1 as int);
        assert(placed_game(c, p, bits, k).0 == w && canon(c, placed_game(c, p, bits, k).1 as int) == t);
    }
}

proof fn lemma_entry_hosting(c: &LeagueConfig, p: Seq<usize>, bits: u64, t: int, j: int)
    requires
        well_placed(c, p),
        0 <= t < c.teams@.len(),
        0 <= j < distinct_weeks(c).len(),
    ensures
        named_schedule(c, p, bits)[j].0 == distinct_weeks(c)[j],
        hosts_among(named_schedule(c, p, bits)[j].1, team_names(c)[t]) <==> team_hosts_in(
            c,
            p,
            bits,
            t,
            distinct_weeks(c)[j] as int,
        ),
{
    lemma_placed_ranges(c, p, bits);
    let ng = structural_games(c).len() as int;
    let dw = distinct_weeks(c);
    assert(named_schedule(c, p, bits)[j] == (dw[j], week_games_upto(c, p, bits, dw[j], ng)));
    lemma_week_games_counts(c, p, bits, dw[j], t, ng);
    lemma_hosted_by_positive(week_games_upto(c, p, bits, dw[j], ng), team_names(c)[t]);
    lemma_team_hosts_in_count(c, p, bits, t, dw[j] as int);
}

proof fn lemma_week_number_hosting(c: &LeagueConfig, p: Seq<usize>, bits: u64, t: int, w: int)
    requires
        well_placed(c, p),
        0 <= t < c.teams@.len(),
    ensures
        hosts_in_week_number(named_schedule(c, p, bits), team_names(c)[t], w) <==> team_hosts_in(c, p, bits, t, w),
{
    let s = named_schedule(c, p, bits);
    let dw = distinct_weeks(c);
    let nt = team_names(c)[t];
    lemma_placed_ranges(c, p, bits);
    if hosts_in_week_number(s, nt, w) {
        let j = choose|j: int| 0 <= j < s.len() && s[j].0 == w && #[trigger] hosts_among(s[j].1, nt);
        lemma_entry_hosting(c, p, bits, t, j);
    }
    if team_hosts_in(c, p, bits, t, w) {
        let ng = structural_games(c).len() as int;
        let k = choose|k: int|
            0 <= k < ng && (#[trigger] placed_game(c, p, bits, k)).0 == w && canon(c, placed_game(c, p, bits, k).1 as int)
                == t;
        assert(dw.contains(game_week(c, p, bits)(k)));
        let j = choose|j: int| 0 <= j < dw.len() && dw[j] == game_week(c, p, bits)(k);
        lemma_entry_hosting(c, p, bits, t, j);
        assert(s[j].0 == w && hosts_among(s[j].1, nt));
    }
}

proof fn lemma_team_penalty_counts(c: &LeagueConfig, p: Seq<usize>, bits: u64, t: int, m: int)
    requires
        well_placed(c, p),
        0 <= t < c.teams@.len(),
        0 <= m <= distinct_weeks(c).len(),
    ensures
        team_penalty_upto(c, p, bits, t, m) == adjacent_hosting(named_schedule(c, p, bits), team_names(c)[t], m),
    decreases m,
{
    if m > 0 {
        lemma_team_penalty_counts(c, p, bits, t, m - 1);
        let w = distinct_weeks(c)[m - 1] as int;
        lemma_entry_hosting(c, p, bits, t, m - 1);
        lemma_week_number_hosting(c, p, bits, t, w + 1);
    }
}

proof fn lemma_penalty_counts(c: &LeagueConfig, p: Seq<usize>, bits: u64, m: int)
    requires
        well_placed(c, p),
        0 <= m <= c.teams@.len(),
    ensures
        penalty_upto(c, p, bits, m) == streak_count(named_schedule(c, p, bits), team_names(c), m),
    decreases m,
{
    if m > 0 {
        lemma_penalty_counts(c, p, bits, m - 1);
        lemma_canon_distinct(c, m - 1);
        lemma_team_penalty_counts(c, p, bits, m - 1, distinct_weeks(c).len() as int);
    }
}

/// The hosting-streak penalty counts adjacent weeks: in every returned
/// solution it equals, over the teams, the number of weeks `w` of its
/// schedule in which the team hosts a game and also hosts one in week
/// `w + 1`.  This needs distinct team names.
pub proof fn law_penalty_counts_adjacent_weeks(c: &LeagueConfig, perms: Seq<Seq<usize>>, sols: Vec<Solution>)
    requires
        scheduler_answer(c, perms, Ok(sols)),
        scheduler_can_run(c),
        names_distinct(c),
        forall|i: int| 0 <= i < perms.len() ==> assigns_teams(#[trigger] perms[i], c.teams@.len()),
    ensures
        forall|i: int|
            0 <= i < sols@.len() ==> (#[trigger] sols@[i]).penalty as int == streak_count(
                schedule_view(sols@[i].schedule@),
                team_names(c),
                c.teams@.len() as int,
            ),
{
    let top = top_keys(c, perms);
    lemma_top_keys_in_perms(c, perms);
    assert forall|i: int| 0 <= i < sols@.len() implies (#[trigger] sols@[i]).penalty as int == streak_count(
        schedule_view(sols@[i].schedule@),
        team_names(c),
        c.teams@.len() as int,
    ) by {
        assert(sols@[i].is_solution(c, top[i], i + 1));
        let p = top[i].0;
        let q = choose|q: int| 0 <= q < perms.len() && perms[q] == p;
        assert(assigns_teams(perms[q], c.teams@.len()));
        lemma_penalty_counts(c, p, top[i].1, c.teams@.len() as int);
    }
}

proof fn lemma_entry_host_label(c: &LeagueConfig, p: Seq<usize>, bits: u64, t: int, e: int) -> (l: int)
    requires
        well_placed(c, p),
        c.weeks@.no_duplicates(),
        0 <= t < c.teams@.len(),
        0 <= e < distinct_weeks(c).len(),
        hosts_among(named_schedule(c, p, bits)[e].1, team_names(c)[t]),
    ensures
        0 <= l < c.teams@.len(),
        p[l] == t,
        hosts_in_week(structural_games(c), bits, l as usize, e),
{
    lemma_placed_ranges(c, p, bits);
    lemma_sort_u32(c.weeks@);
    lemma_dedup_sorted(sorted_weeks(c));
    let sw = sorted_weeks(c);
    assert(distinct_weeks(c) == sw);
    lemma_entry_hosting(c, p, bits, t, e);
    let ng = structural_games(c).len() as int;
    let games = structural_games(c);
    let k = choose|k: int|
        0 <= k < ng && (#[trigger] placed_game(c, p, bits, k)).0 == sw[e] as int && canon(
            c,
            placed_game(c, p, bits, k).1 as int,
        ) == t;
    assert(games[k].0 < sw.len() && games[k].1 < c.teams@.len() && games[k].2 < c.teams@.len());
    lemma_canon_distinct(c, placed_game(c, p, bits, k).1 as int);
    let g0 = games[k].0 as int;
    assert(sw[g0] == sw[e]);
    if g0 < e {
        assert(sw[g0] < sw[e]);
    } else if g0 > e {
        assert(sw[e] < sw[g0]);
    }
    let h = host_label(games[k], bits, k);
    assert(c.teams@.len() == c.teams.len());
    assert(games[k].0 == e && host_label(games[k], bits, k) == (h as int) as usize);
    h as int
}

/// No team hosts three weeks running: in no returned schedule is a team
/// named first in a game in each of three consecutive weeks.  This needs
/// distinct team names, orderings of the teams, and no week entered twice.
pub proof fn law_no_three_week_hosting(c: &LeagueConfig, perms: Seq<Seq<usize>>, sols: Vec<Solution>)
    requires
        scheduler_answer(c, perms, Ok(sols)),
        scheduler_can_run(c),
        names_distinct(c),
        all_orderings(perms, c.teams@.len()),
        c.weeks@.no_duplicates(),
    ensures
        forall|i: int, t: int, j: int|
            0 <= i < sols@.len() && 0 <= t < c.teams@.len() && 0 <= j && j + 2 < schedule_view(
                sols@[i].schedule@,
            ).len() ==> !(#[trigger] hosts_among(schedule_view(sols@[i].schedule@)[j].1, team_names(c)[t])
                && hosts_among(schedule_view(sols@[i].schedule@)[j + 1].1, team_names(c)[t]) && hosts_among(
                schedule_view(sols@[i].schedule@)[j + 2].1,
                team_names(c)[t],
            )),
{
    let top = top_keys(c, perms);
    let n = c.teams@.len();
    law_top_candidates(c, perms);
    lemma_top_keys_in_perms(c, perms);
    assert forall|i: int, t: int, j: int|
        0 <= i < sols@.len() && 0 <= t < n && 0 <= j && j + 2 < schedule_view(sols@[i].schedule@).len() implies !(
    #[trigger] hosts_among(schedule_view(sols@[i].schedule@)[j].1, team_names(c)[t]) && hosts_among(
        schedule_view(sols@[i].schedule@)[j + 1].1,
        team_names(c)[t],
    ) && hosts_among(schedule_view(sols@[i].schedule@)[j + 2].1, team_names(c)[t])) by {
        assert(sols@[i].is_solution(c, top[i], i + 1));
        let p = top[i].0;
        let bits = top[i].1;
        let s = named_schedule(c, p, bits);
        let q = choose|q: int| 0 <= q < perms.len() && perms[q] == p;
        assert(is_ordering(perms[q], n));
        let nt = team_names(c)[t];
        if hosts_among(s[j].1, nt) && hosts_among(s[j + 1].1, nt) && hosts_among(s[j + 2].1, nt) {
            let l0 = lemma_entry_host_label(c, p, bits, t, j);
            let l1 = lemma_entry_host_label(c, p, bits, t, j + 1);
            let l2 = lemma_entry_host_label(c, p, bits, t, j + 2);
            if l0 != l1 {
                if l0 < l1 {
                    assert(p[l0] != p[l1]);
                } else {
                    assert(p[l1] != p[l0]);
                }
            }
            if l0 != l2 {
                if l0 < l2 {
                    assert(p[l0] != p[l2]);
                } else {
                    assert(p[l2] != p[l0]);
                }
            }
            lemma_placed_ranges(c, p, bits);
            lemma_sort_u32(c.weeks@);
            lemma_dedup_sorted(sorted_weeks(c));
            assert(distinct_weeks(c) == sorted_weeks(c));
            let games = structural_games(c);
            assert(hosts_in_week(games, bits, l0 as usize, j) && hosts_in_week(games, bits, l0 as usize, j + 1)
                && hosts_in_week(games, bits, l0 as usize, j + 2));
            assert(has_long_streak(games, sorted_weeks(c).len(), bits, l0 as usize));
            assert(pattern_ok(games, n, sorted_weeks(c).len(), bits));
            assert(!has_long_streak(games, sorted_weeks(c).len(), bits, l0 as usize));
        }
    }
}

} // verus!
