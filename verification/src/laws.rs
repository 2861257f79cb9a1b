//! Properties of the library as a whole, each proved from the functions'
//! own specifications.

use vstd::prelude::*;
use crate::config::LeagueConfig;
use crate::plan::{structural_games, sorted_weeks};
use crate::host_bits::{valid_patterns_below, pattern_ok};
use crate::candidates::{signature, permutation_rejected, byes_respected};
use crate::ranking::{
    candidate_keys, perm_keys, dedup_keys, rank_sort, insert_ranked, ranks_before, first_five, top_keys,
    host_patterns,
};
use vstd::arithmetic::power2::pow2;
use crate::config::str_views;
use crate::plan::{first_slot_name, lemma_first_slot_name, restriction_list, team_names};
use crate::update::{first_slot_u32, lemma_first_slot_u32};
use crate::candidates::{bye_weeks, detail_of, score_upto, fairness_score, streak_penalty};
use crate::plan::{canon, lemma_canon};
use crate::ranking::{Solution, bye_entries, bye_view, detail_entries, detail_view};
use crate::scheduler::{scheduler_answer, covers_orderings, is_ordering};
use crate::state::{SwimScheduler, Step, step_index, all_steps};
use crate::message::{Message, Action};
use crate::update::{same_config, update_effect, shown_step, team_accepted, labels_for, input_keys_distinct, toggle_name,
    parse_inputs, parse_schedule_inputs, set_input, input_slot, upsert, prefs_view, pref_inputs_view,
    restrictions_view, toggle_restriction, toggle_week};
use crate::config::{schedule_view, schedule_keys_distinct, inputs_view,
    inputs_of, five_team_schedule, six_team_schedule, Matchup};

verus! {

/// `s` is in rank order: no later candidate ranks before an earlier one.
pub open spec fn rank_ordered(c: &LeagueConfig, s: Seq<(Seq<usize>, u64)>) -> bool {
    forall|i: int, j: int| 0 <= i < j < s.len() ==> !ranks_before(c, #[trigger] s[j], #[trigger] s[i])
}

/// No two candidates of `s` have the same signature.
pub open spec fn distinct_signatures(c: &LeagueConfig, s: Seq<(Seq<usize>, u64)>) -> bool {
    forall|i: int, j: int| 0 <= i < j < s.len() ==> signature(c, #[trigger] s[i].0) != signature(c, #[trigger] s[j].0)
}

/// Every element of `r` is an element of `s`.
pub open spec fn drawn_from(r: Seq<(Seq<usize>, u64)>, s: Seq<(Seq<usize>, u64)>) -> bool {
    forall|i: int| 0 <= i < r.len() ==> exists|j: int| 0 <= j < s.len() && #[trigger] r[i] == #[trigger] s[j]
}

proof fn lemma_valid_patterns_ok(games: Seq<(usize, usize, usize)>, nt: nat, nw: nat, limit: nat)
    ensures
        forall|i: int|
            0 <= i < valid_patterns_below(games, nt, nw, limit).len() ==> pattern_ok(
                games,
                nt,
                nw,
                #[trigger] valid_patterns_below(games, nt, nw, limit)[i],
            ),
    decreases limit,
{
    if limit > 0 {
        lemma_valid_patterns_ok(games, nt, nw, (limit - 1) as nat);
        let prev = valid_patterns_below(games, nt, nw, (limit - 1) as nat);
        let cur = valid_patterns_below(games, nt, nw, limit);
        assert forall|i: int| 0 <= i < cur.len() implies pattern_ok(games, nt, nw, #[trigger] cur[i]) by {
            if i < prev.len() {
                assert(cur[i] == prev[i]);
            }
        }
    }
}

/// What every candidate key of `perms` satisfies.
pub open spec fn sound_key(c: &LeagueConfig, k: (Seq<usize>, u64)) -> bool {
    &&& !permutation_rejected(c, k.0)
    &&& host_patterns(c).contains(k.1)
}

proof fn lemma_candidate_keys_sound(c: &LeagueConfig, perms: Seq<Seq<usize>>)
    ensures
        forall|i: int| 0 <= i < candidate_keys(c, perms).len() ==> sound_key(c, #[trigger] candidate_keys(c, perms)[i]),
    decreases perms.len(),
{
    if perms.len() > 0 {
        lemma_candidate_keys_sound(c, perms.drop_last());
        let a = candidate_keys(c, perms.drop_last());
        let b = perm_keys(c, perms.last());
        let all = candidate_keys(c, perms);
        assert(all == a + b);
        assert forall|i: int| 0 <= i < all.len() implies sound_key(c, #[trigger] all[i]) by {
            if i < a.len() {
                assert(all[i] == a[i]);
            } else {
                let k = i - a.len();
                assert(all[i] == b[k]);
                assert(!permutation_rejected(c, perms.last()));
                assert(b[k] == (perms.last(), host_patterns(c)[k]));
                assert(host_patterns(c).contains(b[k].1));
            }
        }
    }
}

proof fn lemma_dedup_drawn(c: &LeagueConfig, keys: Seq<(Seq<usize>, u64)>)
    ensures
        drawn_from(dedup_keys(c, keys), keys),
        distinct_signatures(c, dedup_keys(c, keys)),
    decreases keys.len(),
{
    if keys.len() > 0 {
        let t = keys.drop_last();
        lemma_dedup_drawn(c, t);
        let r = dedup_keys(c, t);
        let d = dedup_keys(c, keys);
        assert forall|i: int| 0 <= i < d.len() implies exists|j: int| 0 <= j < keys.len() && #[trigger] d[i] == #[trigger] keys[j] by {
            if i < r.len() {
                assert(d[i] == r[i]);
                let j = choose|j: int| 0 <= j < t.len() && r[i] == t[j];
                assert(keys[j] == t[j]);
            } else {
                assert(d[i] == keys[keys.len() - 1]);
            }
        }
        if !(exists|i: int| 0 <= i < r.len() && signature(c, #[trigger] r[i].0) == signature(c, keys.last().0)) {
            assert forall|i: int, j: int| 0 <= i < j < d.len() implies signature(c, #[trigger] d[i].0) != signature(
                c,
                #[trigger] d[j].0,
            ) by {
                if j < r.len() {
                    assert(d[i] == r[i] && d[j] == r[j]);
                } else {
                    assert(d[i] == r[i]);
                    assert(d[j] == keys.last());
                }
            }
        }
    }
}

proof fn lemma_rank_sort_keeps(c: &LeagueConfig, s: Seq<(Seq<usize>, u64)>)
    ensures
        drawn_from(s, rank_sort(c, s)),
    decreases s.len(),
{
    if s.len() > 0 {
        let t = s.drop_last();
        let x = s.last();
        lemma_rank_sort_keeps(c, t);
        let r = rank_sort(c, t);
        let pos = lemma_insert_ranked(c, r, x);
        let out = rank_sort(c, s);
        assert(out == r.take(pos).push(x) + r.skip(pos));
        assert forall|i: int| 0 <= i < s.len() implies exists|j: int| 0 <= j < out.len() && #[trigger] s[i] == #[trigger] out[j] by {
            if i == s.len() - 1 {
                assert(out[pos] == s[i]);
            } else {
                assert(s[i] == t[i]);
                let k = choose|k: int| 0 <= k < r.len() && t[i] == r[k];
                if k < pos {
                    assert(out[k] == r[k]);
                } else {
                    assert(out[k + 1] == r[k]);
                }
            }
        }
    }
}

proof fn lemma_dedup_covers(c: &LeagueConfig, keys: Seq<(Seq<usize>, u64)>)
    ensures
        forall|i: int|
            0 <= i < keys.len() ==> exists|j: int|
                0 <= j < dedup_keys(c, keys).len() && signature(c, (#[trigger] dedup_keys(c, keys)[j]).0) == signature(
                    c,
                    (#[trigger] keys[i]).0,
                ),
    decreases keys.len(),
{
    if keys.len() > 0 {
        let t = keys.drop_last();
        lemma_dedup_covers(c, t);
        let r = dedup_keys(c, t);
        let d = dedup_keys(c, keys);
        assert forall|i: int| 0 <= i < keys.len() implies exists|j: int|
            0 <= j < d.len() && signature(c, (#[trigger] d[j]).0) == signature(c, (#[trigger] keys[i]).0) by {
            if i < t.len() {
                assert(keys[i] == t[i]);
                let j = choose|j: int| 0 <= j < r.len() && signature(c, r[j].0) == signature(c, t[i].0);
                assert(d[j] == r[j]);
            } else if exists|q: int| 0 <= q < r.len() && signature(c, #[trigger] r[q].0) == signature(c, keys.last().0) {
                let q = choose|q: int| 0 <= q < r.len() && signature(c, #[trigger] r[q].0) == signature(c, keys.last().0);
                assert(d[q] == r[q]);
            } else {
                assert(d[r.len() as int] == keys.last());
            }
        }
    }
}

proof fn lemma_candidate_keys_cover(c: &LeagueConfig, perms: Seq<Seq<usize>>, j: int, b: int)
    requires
        0 <= j < perms.len(),
        !permutation_rejected(c, perms[j]),
        0 <= b < host_patterns(c).len(),
    ensures
        candidate_keys(c, perms).contains((perms[j], host_patterns(c)[b])),
    decreases perms.len(),
{
    let a = candidate_keys(c, perms.drop_last());
    let pk = perm_keys(c, perms.last());
    assert(candidate_keys(c, perms) == a + pk);
    if j < perms.len() - 1 {
        assert(perms.drop_last()[j] == perms[j]);
        lemma_candidate_keys_cover(c, perms.drop_last(), j, b);
        let q = choose|q: int| 0 <= q < a.len() && a[q] == (perms[j], host_patterns(c)[b]);
        assert((a + pk)[q] == a[q]);
    } else {
        assert(pk[b] == (perms[j], host_patterns(c)[b]));
        assert((a + pk)[a.len() + b] == pk[b]);
    }
}

proof fn lemma_candidate_keys_from(c: &LeagueConfig, perms: Seq<Seq<usize>>)
    ensures
        forall|i: int| 0 <= i < candidate_keys(c, perms).len() ==> perms.contains(#[trigger] candidate_keys(c, perms)[i].0),
    decreases perms.len(),
{
    if perms.len() > 0 {
        let t = perms.drop_last();
        lemma_candidate_keys_from(c, t);
        let a = candidate_keys(c, t);
        let b = perm_keys(c, perms.last());
        let all = candidate_keys(c, perms);
        assert(all == a + b);
        assert forall|i: int| 0 <= i < all.len() implies perms.contains(#[trigger] all[i].0) by {
            if i < a.len() {
                assert(all[i] == a[i]);
                let q = choose|q: int| 0 <= q < t.len() && t[q] == a[i].0;
                assert(perms[q] == t[q]);
            } else {
                let k = i - a.len();
                assert(all[i] == b[k]);
                assert(b[k] == (perms.last(), host_patterns(c)[k]));
                assert(perms[perms.len() - 1] == perms.last());
            }
        }
    }
}

/// Each returned candidate comes from one of the orderings tried.
pub(crate) proof fn lemma_top_keys_in_perms(c: &LeagueConfig, perms: Seq<Seq<usize>>)
    ensures
        forall|i: int| 0 <= i < top_keys(c, perms).len() ==> perms.contains(#[trigger] top_keys(c, perms)[i].0),
{
    let ck = candidate_keys(c, perms);
    let dk = dedup_keys(c, ck);
    let rk = rank_sort(c, dk);
    let top = top_keys(c, perms);
    lemma_candidate_keys_from(c, perms);
    lemma_dedup_drawn(c, ck);
    lemma_rank_sort(c, dk);
    assert(top == first_five(rk));
    assert forall|i: int| 0 <= i < top.len() implies perms.contains(#[trigger] top[i].0) by {
        assert(top[i] == rk[i]);
        let j = choose|j: int| 0 <= j < dk.len() && rk[i] == dk[j];
        let k = choose|k: int| 0 <= k < ck.len() && dk[j] == ck[k];
        assert(perms.contains(ck[k].0));
    }
}

/// Where `x` lands in `s`, and what holds of its neighbours.
proof fn lemma_insert_ranked(c: &LeagueConfig, s: Seq<(Seq<usize>, u64)>, x: (Seq<usize>, u64)) -> (pos: int)
    ensures
        0 <= pos <= s.len(),
        insert_ranked(c, s, x) == s.take(pos).push(x) + s.skip(pos),
        forall|i: int| pos <= i < s.len() ==> ranks_before(c, x, #[trigger] s[i]),
        pos > 0 ==> !ranks_before(c, x, s[pos - 1]),
    decreases s.len(),
{
    if s.len() == 0 {
        assert(insert_ranked(c, s, x) =~= s.take(0).push(x) + s.skip(0));
        0
    } else if ranks_before(c, x, s.last()) {
        let t = s.drop_last();
        let p = lemma_insert_ranked(c, t, x);
        assert(insert_ranked(c, s, x) =~= s.take(p).push(x) + s.skip(p)) by {
            assert(t.take(p) =~= s.take(p));
            assert(t.skip(p).push(s.last()) =~= s.skip(p));
        }
        assert forall|i: int| p <= i < s.len() implies ranks_before(c, x, #[trigger] s[i]) by {
            if i < t.len() {
                assert(s[i] == t[i]);
            }
        }
        if p > 0 {
            assert(s[p - 1] == t[p - 1]);
        }
        p
    } else {
        assert(insert_ranked(c, s, x) =~= s.take(s.len() as int).push(x) + s.skip(s.len() as int));
        s.len() as int
    }
}

proof fn lemma_rank_sort(c: &LeagueConfig, s: Seq<(Seq<usize>, u64)>)
    ensures
        rank_ordered(c, rank_sort(c, s)),
        drawn_from(rank_sort(c, s), s),
        rank_sort(c, s).len() == s.len(),
        distinct_signatures(c, s) ==> distinct_signatures(c, rank_sort(c, s)),
    decreases s.len(),
{
    if s.len() > 0 {
        let t = s.drop_last();
        let x = s.last();
        lemma_rank_sort(c, t);
        let r = rank_sort(c, t);
        let pos = lemma_insert_ranked(c, r, x);
        let out = rank_sort(c, s);
        assert(out == r.take(pos).push(x) + r.skip(pos));
        assert(out.len() == s.len());
        // Each element of the result is `x` or an element of `r`.
        assert forall|i: int| 0 <= i < out.len() implies (i < pos && out[i] == r[i]) || (i == pos && out[i] == x) || (i
            > pos && out[i] == r[i - 1]) by {}
        assert forall|i: int| 0 <= i < out.len() implies exists|j: int| 0 <= j < s.len() && #[trigger] out[i] == #[trigger] s[j] by {
            if i == pos {
                assert(out[i] == s[s.len() - 1]);
            } else {
                let k = if i < pos { i } else { i - 1 };
                assert(out[i] == r[k]);
                let j = choose|j: int| 0 <= j < t.len() && r[k] == t[j];
                assert(s[j] == t[j]);
            }
        }
        assert forall|i: int, j: int| 0 <= i < j < out.len() implies !ranks_before(c, #[trigger] out[j], #[trigger] out[i]) by {
            if j < pos {
                assert(out[i] == r[i] && out[j] == r[j]);
            } else if j == pos {
                assert(out[i] == r[i]);
                assert(!ranks_before(c, x, r[pos - 1]));
                if i < pos - 1 {
                    assert(!ranks_before(c, r[pos - 1], r[i]));
                }
            } else if i == pos {
                assert(out[j] == r[j - 1]);
                assert(ranks_before(c, x, r[j - 1]));
            } else if i < pos {
                assert(out[i] == r[i] && out[j] == r[j - 1]);
            } else {
                assert(out[i] == r[i - 1] && out[j] == r[j - 1]);
            }
        }
        if distinct_signatures(c, s) {
            assert(distinct_signatures(c, t)) by {
                assert forall|i: int, j: int| 0 <= i < j < t.len() implies signature(c, #[trigger] t[i].0) != signature(
                    c,
                    #[trigger] t[j].0,
                ) by {
                    assert(t[i] == s[i] && t[j] == s[j]);
                }
            }
            assert forall|k: int| 0 <= k < r.len() implies signature(c, #[trigger] r[k].0) != signature(c, x.0) by {
                let j = choose|j: int| 0 <= j < t.len() && r[k] == t[j];
                assert(t[j] == s[j]);
                assert(x == s[s.len() - 1]);
            }
            assert forall|i: int, j: int| 0 <= i < j < out.len() implies signature(c, #[trigger] out[i].0) != signature(
                c,
                #[trigger] out[j].0,
            ) by {
                if j < pos {
                    assert(out[i] == r[i] && out[j] == r[j]);
                } else if j == pos {
                    assert(out[i] == r[i]);
                } else if i == pos {
                    assert(out[j] == r[j - 1]);
                } else if i < pos {
                    assert(out[i] == r[i] && out[j] == r[j - 1]);
                } else {
                    assert(out[i] == r[i - 1] && out[j] == r[j - 1]);
                }
            }
        }
    }
}

/// The scheduler returns at most five candidates, in rank order (higher
/// score first, then lower penalty), no two with the same matchups every
/// week, each drawn from a permutation that is not rejected and a host
/// pattern that keeps hosting balanced without three-week streaks.
pub proof fn law_top_candidates(c: &LeagueConfig, perms: Seq<Seq<usize>>)
    ensures
        top_keys(c, perms).len() <= 5,
        rank_ordered(c, top_keys(c, perms)),
        distinct_signatures(c, top_keys(c, perms)),
        forall|i: int|
            0 <= i < top_keys(c, perms).len() ==> !permutation_rejected(c, (#[trigger] top_keys(c, perms)[i]).0)
                && pattern_ok(structural_games(c), c.teams@.len(), sorted_weeks(c).len(), top_keys(c, perms)[i].1),
{
    let ck = candidate_keys(c, perms);
    let dk = dedup_keys(c, ck);
    let rk = rank_sort(c, dk);
    let top = top_keys(c, perms);
    lemma_candidate_keys_sound(c, perms);
    lemma_dedup_drawn(c, ck);
    lemma_rank_sort(c, dk);
    lemma_valid_patterns_ok(
        structural_games(c),
        c.teams@.len(),
        sorted_weeks(c).len(),
        pow2(structural_games(c).len()),
    );
    assert(top == first_five(rk));
    assert forall|i: int| 0 <= i < top.len() implies top[i] == rk[i] by {}
    assert forall|i: int| 0 <= i < top.len() implies !permutation_rejected(c, (#[trigger] top[i]).0) && pattern_ok(
        structural_games(c),
        c.teams@.len(),
        sorted_weeks(c).len(),
        top[i].1,
    ) by {
        assert(top[i] == rk[i]);
        let j = choose|j: int| 0 <= j < dk.len() && rk[i] == dk[j];
        let k = choose|k: int| 0 <= k < ck.len() && dk[j] == ck[k];
        assert(sound_key(c, ck[k]));
        let b = top[i].1;
        let q = choose|q: int| 0 <= q < host_patterns(c).len() && host_patterns(c)[q] == b;
    }
    assert forall|i: int, j: int| 0 <= i < j < top.len() implies !ranks_before(c, #[trigger] top[j], #[trigger] top[i]) by {
        assert(top[i] == rk[i] && top[j] == rk[j]);
    }
    assert forall|i: int, j: int| 0 <= i < j < top.len() implies signature(c, #[trigger] top[i].0) != signature(
        c,
        #[trigger] top[j].0,
    ) by {
        assert(top[i] == rk[i] && top[j] == rk[j]);
    }
}

/// No returned schedule gives a team its bye in a week it is restricted
/// from.
pub proof fn law_restrictions_hold(c: &LeagueConfig, perms: Seq<Seq<usize>>)
    ensures
        forall|i: int| 0 <= i < top_keys(c, perms).len() ==> byes_respected(c, (#[trigger] top_keys(c, perms)[i]).0),
{
    law_top_candidates(c, perms);
    assert forall|i: int| 0 <= i < top_keys(c, perms).len() implies byes_respected(c, (#[trigger] top_keys(c, perms)[i]).0) by {
        assert(!permutation_rejected(c, top_keys(c, perms)[i].0));
    }
}


/// The returned solutions are ranked 1, 2, ... and ordered by fairness
/// score (higher first), then by hosting-streak penalty (lower first); there
/// are at most five.
pub proof fn law_solutions_ranked(c: &LeagueConfig, perms: Seq<Seq<usize>>, sols: Vec<Solution>)
    requires
        scheduler_answer(c, perms, Ok(sols)),
    ensures
        sols@.len() <= 5,
        forall|i: int| 0 <= i < sols@.len() ==> (#[trigger] sols@[i]).rank == i + 1,
        forall|i: int, j: int|
            0 <= i < j < sols@.len() ==> (#[trigger] sols@[i]).score > (#[trigger] sols@[j]).score || (sols@[i].score
                == sols@[j].score && sols@[i].penalty <= sols@[j].penalty),
{
    law_top_candidates(c, perms);
    let top = top_keys(c, perms);
    assert forall|i: int, j: int| 0 <= i < j < sols@.len() implies (#[trigger] sols@[i]).score > (
    #[trigger] sols@[j]).score || (sols@[i].score == sols@[j].score && sols@[i].penalty <= sols@[j].penalty) by {
        assert(sols@[i].is_solution(c, top[i], i + 1));
        assert(sols@[j].is_solution(c, top[j], j + 1));
        assert(!ranks_before(c, top[j], top[i]));
    }
}

proof fn lemma_bye_entries_respect(c: &LeagueConfig, p: Seq<usize>, m: int)
    requires
        0 <= m <= c.teams@.len(),
        byes_respected(c, p),
    ensures
        forall|k: int|
            0 <= k < bye_entries(c, p, m).len() ==> !restriction_list(c, (#[trigger] bye_entries(c, p, m)[k]).0).contains(
                bye_entries(c, p, m)[k].1,
            ),
    decreases m,
{
    if m > 0 {
        lemma_bye_entries_respect(c, p, m - 1);
        let prev = bye_entries(c, p, m - 1);
        let cur = bye_entries(c, p, m);
        assert forall|k: int| 0 <= k < cur.len() implies !restriction_list(c, (#[trigger] cur[k]).0).contains(cur[k].1) by {
            if k < prev.len() {
                assert(cur[k] == prev[k]);
            } else {
                match bye_weeks(c, p)[m - 1] {
                    Some(w) => {
                        assert(cur[k] == (team_names(c)[m - 1], w));
                    },
                    None => {},
                }
            }
        }
    }
}

/// No returned solution lists a team's bye in a week that team is
/// restricted from.
pub proof fn law_solution_byes_respect_restrictions(c: &LeagueConfig, perms: Seq<Seq<usize>>, sols: Vec<Solution>)
    requires
        scheduler_answer(c, perms, Ok(sols)),
    ensures
        forall|i: int, k: int|
            0 <= i < sols@.len() && 0 <= k < sols@[i].bye_assignment@.len() ==> !restriction_list(
                c,
                (#[trigger] sols@[i].bye_assignment@[k]).0@,
            ).contains(sols@[i].bye_assignment@[k].1),
{
    law_restrictions_hold(c, perms);
    let top = top_keys(c, perms);
    assert forall|i: int, k: int| 0 <= i < sols@.len() && 0 <= k < sols@[i].bye_assignment@.len() implies !restriction_list(
        c,
        (#[trigger] sols@[i].bye_assignment@[k]).0@,
    ).contains(sols@[i].bye_assignment@[k].1) by {
        assert(sols@[i].is_solution(c, top[i], i + 1));
        lemma_bye_entries_respect(c, top[i].0, c.teams@.len() as int);
        let e = bye_view(sols@[i].bye_assignment@);
        assert(e[k] == (sols@[i].bye_assignment@[k].0@, sols@[i].bye_assignment@[k].1));
    }
}

/// The sum of the breakdown values that count: every value but the -1 of
/// an excluded team.
pub open spec fn counted_points(d: Seq<(Seq<char>, i32)>) -> int
    decreases d.len(),
{
    if d.len() == 0 {
        0
    } else {
        counted_points(d.drop_last()) + if d.last().1 >= 0 {
            d.last().1 as int
        } else {
            0
        }
    }
}

/// No team name occurs twice.
pub open spec fn names_distinct(c: &LeagueConfig) -> bool {
    forall|i: int, j: int| 0 <= i < j < c.teams@.len() ==> team_names(c)[i] != team_names(c)[j]
}

proof fn lemma_detail_sums_to_score(c: &LeagueConfig, p: Seq<usize>, m: int)
    requires
        0 <= m <= c.teams@.len(),
        names_distinct(c),
    ensures
        counted_points(detail_entries(c, p, m)) == score_upto(c, p, m),
        forall|k: int| 0 <= k < detail_entries(c, p, m).len() ==> {
            let v = #[trigger] detail_entries(c, p, m)[k].1;
            v == -1 || v == 0 || v == 1 || v == 2
        },
    decreases m,
{
    if m > 0 {
        lemma_detail_sums_to_score(c, p, m - 1);
        let t = m - 1;
        lemma_canon(c, t);
        lemma_first_slot_name(team_names(c), team_names(c)[t]);
        assert(canon(c, t) == t);
        let prev = detail_entries(c, p, t);
        match detail_of(c, p, t) {
            Some(v) => {
                let cur = prev.push((team_names(c)[t], v));
                assert(cur.drop_last() =~= prev);
                assert forall|k: int| 0 <= k < cur.len() implies {
                    let x = #[trigger] cur[k].1;
                    x == -1 || x == 0 || x == 1 || x == 2
                } by {
                    if k < prev.len() {
                        assert(cur[k] == prev[k]);
                    }
                }
            },
            None => {},
        }
    }
}

/// Every returned solution's fairness score is the sum of its per-team
/// breakdown, leaving out the -1 that marks an excluded team, and each
/// breakdown value is 2 (first choice), 1 (second choice), 0 (neither) or
/// -1 (excluded); this needs distinct team names.
pub proof fn law_score_is_breakdown_sum(c: &LeagueConfig, perms: Seq<Seq<usize>>, sols: Vec<Solution>)
    requires
        scheduler_answer(c, perms, Ok(sols)),
        names_distinct(c),
    ensures
        forall|i: int| 0 <= i < sols@.len() ==> (#[trigger] sols@[i]).score as int == counted_points(
            detail_view(sols@[i].bye_detail@),
        ),
        forall|i: int, k: int|
            0 <= i < sols@.len() && 0 <= k < sols@[i].bye_detail@.len() ==> {
                let v = (#[trigger] sols@[i].bye_detail@[k]).1;
                v == -1 || v == 0 || v == 1 || v == 2
            },
{
    let top = top_keys(c, perms);
    assert forall|i: int| 0 <= i < sols@.len() implies (#[trigger] sols@[i]).score as int == counted_points(
        detail_view(sols@[i].bye_detail@),
    ) by {
        assert(sols@[i].is_solution(c, top[i], i + 1));
        lemma_detail_sums_to_score(c, top[i].0, c.teams@.len() as int);
    }
    assert forall|i: int, k: int| 0 <= i < sols@.len() && 0 <= k < sols@[i].bye_detail@.len() implies {
        let v = (#[trigger] sols@[i].bye_detail@[k]).1;
        v == -1 || v == 0 || v == 1 || v == 2
    } by {
        assert(sols@[i].is_solution(c, top[i], i + 1));
        lemma_detail_sums_to_score(c, top[i].0, c.teams@.len() as int);
        let d = detail_view(sols@[i].bye_detail@);
        assert(d[k].1 == sols@[i].bye_detail@[k].1);
    }
}

proof fn lemma_representative_kept(c: &LeagueConfig, ck: Seq<(Seq<usize>, u64)>, q: int) -> (jj: int)
    requires
        0 <= q < ck.len(),
    ensures
        0 <= jj < dedup_keys(c, ck).len(),
        signature(c, dedup_keys(c, ck)[jj].0) == signature(c, ck[q].0),
        ck.contains(dedup_keys(c, ck)[jj]),
{
    let dk = dedup_keys(c, ck);
    lemma_dedup_covers(c, ck);
    lemma_dedup_drawn(c, ck);
    let jj = choose|jj: int| 0 <= jj < dk.len() && signature(c, (#[trigger] dk[jj]).0) == signature(c, ck[q].0);
    let qq = choose|qq: int| 0 <= qq < ck.len() && #[trigger] dk[jj] == #[trigger] ck[qq];
    assert(ck[qq] == dk[jj]);
    jj
}

proof fn lemma_place_in_ranking(c: &LeagueConfig, dk: Seq<(Seq<usize>, u64)>, jj: int) -> (m: int)
    requires
        0 <= jj < dk.len(),
    ensures
        0 <= m < rank_sort(c, dk).len(),
        rank_sort(c, dk)[m] == dk[jj],
        rank_ordered(c, rank_sort(c, dk)),
{
    lemma_rank_sort_keeps(c, dk);
    lemma_rank_sort(c, dk);
    let rk = rank_sort(c, dk);
    let m = choose|m: int| 0 <= m < rk.len() && #[trigger] dk[jj] == #[trigger] rk[m];
    m
}

proof fn lemma_kept_representative(c: &LeagueConfig, perms: Seq<Seq<usize>>, p: Seq<usize>, b: int) -> (r: (
    (Seq<usize>, u64),
    int,
))
    requires
        covers_orderings(perms, c.teams@.len()),
        is_ordering(p, c.teams@.len()),
        !permutation_rejected(c, p),
        0 <= b < host_patterns(c).len(),
    ensures
        candidate_keys(c, perms).contains((p, host_patterns(c)[b])),
        candidate_keys(c, perms).contains(r.0),
        signature(c, r.0.0) == signature(c, p),
        0 <= r.1 < rank_sort(c, dedup_keys(c, candidate_keys(c, perms))).len(),
        rank_sort(c, dedup_keys(c, candidate_keys(c, perms)))[r.1] == r.0,
        rank_ordered(c, rank_sort(c, dedup_keys(c, candidate_keys(c, perms)))),
{
    assert(perms.contains(p));
    let j = choose|j: int| 0 <= j < perms.len() && perms[j] == p;
    lemma_candidate_keys_cover(c, perms, j, b);
    let ck = candidate_keys(c, perms);
    let kp = (p, host_patterns(c)[b]);
    let q = choose|q: int| 0 <= q < ck.len() && ck[q] == kp;
    let jj = lemma_representative_kept(c, ck, q);
    let dk = dedup_keys(c, ck);
    let m = lemma_place_in_ranking(c, dk, jj);
    (dk[jj], m)
}

/// The schedule of candidate `k` ranks no higher than solution `sol`:
/// `sol` has a higher score, or the same score and no higher penalty.
pub open spec fn ranks_no_lower(c: &LeagueConfig, sol: Solution, k: (Seq<usize>, u64)) -> bool {
    sol.score > fairness_score(c, k.0) || (sol.score == fairness_score(c, k.0) && sol.penalty
        <= streak_penalty(c, k.0, k.1))
}

/// Every assignment of teams to labels is tried.  When the orderings tried
/// include every ordering of the teams, then for any ordering `p` whose
/// byes respect the restrictions and any acceptable host pattern, that
/// schedule is a candidate, and the first candidate with the same matchups
/// every week is either returned as one of the solutions, or five solutions
/// are returned and each ranks no lower than it: the solutions are the
/// best five distinct schedules over all orderings.
pub proof fn law_best_five_over_all_orderings(
    c: &LeagueConfig,
    perms: Seq<Seq<usize>>,
    sols: Vec<Solution>,
    p: Seq<usize>,
    b: int,
)
    requires
        scheduler_answer(c, perms, Ok(sols)),
        covers_orderings(perms, c.teams@.len()),
        is_ordering(p, c.teams@.len()),
        !permutation_rejected(c, p),
        0 <= b < host_patterns(c).len(),
    ensures
        candidate_keys(c, perms).contains((p, host_patterns(c)[b])),
        exists|k: (Seq<usize>, u64)|
            {
                &&& #[trigger] candidate_keys(c, perms).contains(k)
                &&& signature(c, k.0) == signature(c, p)
                &&& (exists|i: int| 0 <= i < sols@.len() && (#[trigger] sols@[i]).is_solution(c, k, i + 1)) || (
                sols@.len() == 5 && forall|i: int| 0 <= i < 5 ==> ranks_no_lower(c, #[trigger] sols@[i], k))
            },
{
    let (k, m) = lemma_kept_representative(c, perms, p, b);
    let rk = rank_sort(c, dedup_keys(c, candidate_keys(c, perms)));
    let top = top_keys(c, perms);
    assert(top == first_five(rk));
    if m < 5 {
        assert(top[m] == rk[m]);
        assert(sols@[m].is_solution(c, top[m], m + 1));
    } else {
        assert(top.len() == 5);
        assert forall|i: int| 0 <= i < 5 implies ranks_no_lower(c, #[trigger] sols@[i], k) by {
            assert(top[i] == rk[i]);
            assert(sols@[i].is_solution(c, top[i], i + 1));
            assert(!ranks_before(c, rk[m], rk[i]));
        }
    }
}

/// Starting the scheduler and then receiving its answer: the start marks
/// the wizard running and asks for a run on the configuration as it stands;
/// the answer ends the run on the Results step, with the solutions shown
/// from rank 1, or with no solutions and the error; the configuration is
/// untouched throughout.
pub proof fn law_run_then_complete(
    s0: SwimScheduler,
    s1: SwimScheduler,
    s2: SwimScheduler,
    r: Result<Vec<Solution>, String>,
    a1: Action,
    a2: Action,
)
    requires
        update_effect(s0, s1, Message::RunScheduler, a1),
        update_effect(s1, s2, Message::SchedulerComplete(r), a2),
    ensures
        s1.is_running,
        a1 matches Action::RunScheduler(c) && same_config(c, s0.config),
        a2 is Nothing,
        !s2.is_running,
        s2.step == Some(Step::Results),
        s2.config == s0.config,
        match r {
            Ok(sols) => s2.results == sols && s2.selected_rank == 1 && s2.run_error is None,
            Err(e) => s2.results@.len() == 0 && s2.run_error == Some(e),
        },
{
}

proof fn lemma_step_positions(s: Step)
    ensures
        0 <= step_index(s) < 7,
        all_steps()[step_index(s)] == s,
        forall|k: int| 0 <= k < 7 ==> step_index(#[trigger] all_steps()[k]) == k,
{
    assert(all_steps()[0] == Step::Teams);
    assert(all_steps()[1] == Step::Weeks);
    assert(all_steps()[2] == Step::BaseSchedule);
    assert(all_steps()[3] == Step::ByePreferences);
    assert(all_steps()[4] == Step::ByeRestrictions);
    assert(all_steps()[5] == Step::ScoreExclusions);
    assert(all_steps()[6] == Step::Results);
}

/// Next followed by Back comes back to the step shown before, unless the
/// wizard was already on its last step.
pub proof fn law_next_then_back(s0: SwimScheduler, s1: SwimScheduler, s2: SwimScheduler, a1: Action, a2: Action)
    requires
        update_effect(s0, s1, Message::Next, a1),
        update_effect(s1, s2, Message::Back, a2),
        step_index(shown_step(s0)) < 6,
    ensures
        s2 == (SwimScheduler { step: Some(shown_step(s0)), ..s0 }),
{
    lemma_step_positions(shown_step(s0));
    lemma_step_positions(shown_step(s1));
}

/// Back followed by Next comes back to the step shown before, unless the
/// wizard was on its first step.
pub proof fn law_back_then_next(s0: SwimScheduler, s1: SwimScheduler, s2: SwimScheduler, a1: Action, a2: Action)
    requires
        update_effect(s0, s1, Message::Back, a1),
        update_effect(s1, s2, Message::Next, a2),
        step_index(shown_step(s0)) > 0,
    ensures
        s2 == (SwimScheduler { step: Some(shown_step(s0)), ..s0 }),
{
    lemma_step_positions(shown_step(s0));
    lemma_step_positions(shown_step(s1));
}

/// After a team is added or removed there is one label per team, `A`,
/// `B`, ... (teams past the eighth sharing `H`), and adding never takes the
/// league past six teams.
pub proof fn law_labels_follow_teams(o: SwimScheduler, n: SwimScheduler, m: Message, a: Action)
    requires
        update_effect(o, n, m, a),
        m is AddTeam || m is RemoveTeam,
        o.config.teams@.len() <= 6,
    ensures
        n.config.teams@.len() <= 6,
        (m is AddTeam && team_accepted(o)) || (m matches Message::RemoveTeam(i) && i < o.config.teams@.len())
            ==> str_views(n.config.labels@) == labels_for(n.config.teams@.len()) && n.config.labels@.len()
            == n.config.teams@.len(),
{
    match m {
        Message::AddTeam => {
            if team_accepted(o) {
                assert(str_views(n.config.teams@).len() == n.config.teams@.len());
                assert(str_views(n.config.labels@).len() == n.config.labels@.len());
            }
        },
        Message::RemoveTeam(i) => {
            if i < o.config.teams@.len() {
                assert(str_views(n.config.teams@).len() == n.config.teams@.len());
                assert(str_views(n.config.labels@).len() == n.config.labels@.len());
            }
        },
        _ => {},
    }
}

proof fn lemma_first_slot_push_absent(s: Seq<Seq<char>>, t: Seq<char>)
    requires
        !s.contains(t),
    ensures
        first_slot_name(s, t) == -1,
        first_slot_name(s.push(t), t) == s.len(),
{
    lemma_first_slot_name(s, t);
    if first_slot_name(s, t) >= 0 {
        assert(s[first_slot_name(s, t)] == t);
    }
    assert(s.push(t).drop_last() =~= s);
}

/// Toggling a team's score exclusion twice, when it was not excluded,
/// leaves the exclusion list as it was.
pub proof fn law_toggle_exclusion_twice(
    s0: SwimScheduler,
    s1: SwimScheduler,
    s2: SwimScheduler,
    t1: String,
    t2: String,
    a1: Action,
    a2: Action,
)
    requires
        update_effect(s0, s1, Message::ToggleExclusion(t1), a1),
        update_effect(s1, s2, Message::ToggleExclusion(t2), a2),
        t1@ == t2@,
        !str_views(s0.config.score_excluded@).contains(t1@),
    ensures
        str_views(s2.config.score_excluded@) == str_views(s0.config.score_excluded@),
        s2.config.teams == s0.config.teams,
        s2.config.bye_restrictions == s0.config.bye_restrictions,
{
    let v0 = str_views(s0.config.score_excluded@);
    lemma_first_slot_push_absent(v0, t1@);
    assert(str_views(s1.config.score_excluded@) == v0.push(t1@));
    assert(v0.push(t1@).remove(v0.len() as int) =~= v0);
}


/// The weeks team `t` may not have its bye in: those of its first entry,
/// none when it has no entry.
pub open spec fn restricted_weeks(rv: Seq<(Seq<char>, Seq<u32>)>, t: Seq<char>) -> Seq<u32> {
    let i = first_slot_name(rv.map_values(|e: (Seq<char>, Seq<u32>)| e.0), t);
    if i >= 0 {
        rv[i].1
    } else {
        Seq::empty()
    }
}

proof fn lemma_restricted_weeks_push(rv: Seq<(Seq<char>, Seq<u32>)>, e: (Seq<char>, Seq<u32>), x: Seq<char>)
    requires
        e.0 != x,
    ensures
        restricted_weeks(rv.push(e), x) == restricted_weeks(rv, x),
{
    let keys = rv.map_values(|q: (Seq<char>, Seq<u32>)| q.0);
    let keys2 = rv.push(e).map_values(|q: (Seq<char>, Seq<u32>)| q.0);
    assert(keys2 =~= keys.push(e.0));
    assert(keys.push(e.0).drop_last() =~= keys);
    lemma_first_slot_name(keys, x);
    let i = first_slot_name(keys, x);
    if i >= 0 {
        assert(rv.push(e)[i] == rv[i]);
    }
}

/// Ticking a team's restriction box for a week and then unticking it, when
/// the week was not restricted for that team, leaves every team's
/// restricted weeks as they were.
pub proof fn law_toggle_restriction_twice(
    s0: SwimScheduler,
    s1: SwimScheduler,
    s2: SwimScheduler,
    t1: String,
    t2: String,
    w: u32,
    a1: Action,
    a2: Action,
)
    requires
        update_effect(s0, s1, Message::ToggleRestriction(t1, w), a1),
        update_effect(s1, s2, Message::ToggleRestriction(t2, w), a2),
        t1@ == t2@,
        !restricted_weeks(restrictions_view(s0.config.bye_restrictions@), t1@).contains(w),
    ensures
        forall|x: Seq<char>|
            restricted_weeks(restrictions_view(s2.config.bye_restrictions@), x) == restricted_weeks(
                restrictions_view(s0.config.bye_restrictions@),
                x,
            ),
        s2.config.teams == s0.config.teams,
        s2.config.score_excluded == s0.config.score_excluded,
{
    let t = t1@;
    let rv0 = restrictions_view(s0.config.bye_restrictions@);
    let rv1 = restrictions_view(s1.config.bye_restrictions@);
    let rv2 = restrictions_view(s2.config.bye_restrictions@);
    let keys0 = rv0.map_values(|e: (Seq<char>, Seq<u32>)| e.0);
    lemma_first_slot_name(keys0, t);
    let i = first_slot_name(keys0, t);
    if i >= 0 {
        let l = rv0[i].1;
        assert(keys0[i] == rv0[i].0);
        lemma_first_slot_u32(l, w);
        assert(rv1 == rv0.update(i, (t, l.push(w))));
        let keys1 = rv1.map_values(|e: (Seq<char>, Seq<u32>)| e.0);
        assert(keys1 =~= keys0);
        lemma_first_slot_u32(l.push(w), w);
        assert(l.push(w)[l.len() as int] == w);
        assert(l.push(w).drop_last() =~= l);
        assert(first_slot_u32(l.push(w), w) == l.len());
        assert(toggle_week(l.push(w), w) =~= l);
        assert(rv2 =~= rv0);
    } else {
        assert(rv1 == rv0.push((t, seq![w])));
        let keys1 = rv1.map_values(|e: (Seq<char>, Seq<u32>)| e.0);
        assert(keys1 =~= keys0.push(t));
        assert(keys0.push(t).drop_last() =~= keys0);
        assert(first_slot_name(keys1, t) == rv0.len());
        assert(toggle_week(seq![w], w) =~= Seq::<u32>::empty()) by {
            lemma_first_slot_u32(seq![w], w);
            assert(seq![w].drop_last() =~= Seq::<u32>::empty());
        }
        assert(rv2 =~= rv0.push((t, Seq::<u32>::empty())));
        assert forall|x: Seq<char>| restricted_weeks(rv2, x) == restricted_weeks(rv0, x) by {
            if x == t {
                let keys2 = rv2.map_values(|e: (Seq<char>, Seq<u32>)| e.0);
                assert(keys2 =~= keys0.push(t));
                assert(rv2[rv0.len() as int].1 =~= Seq::<u32>::empty());
            } else {
                lemma_restricted_weeks_push(rv0, (t, Seq::<u32>::empty()), x);
            }
        }
    }
}

/// `x` occurs at most once in `s`.
pub open spec fn at_most_once<A>(s: Seq<A>, x: A) -> bool {
    forall|i: int, j: int| 0 <= i < j < s.len() && s[i] == x ==> s[j] != x
}

proof fn lemma_remove_only<A>(s: Seq<A>, i: int)
    requires
        0 <= i < s.len(),
        at_most_once(s, s[i]),
    ensures
        !s.remove(i).contains(s[i]),
        s.remove(i).to_set() == s.to_set().remove(s[i]),
{
    let x = s[i];
    let r = s.remove(i);
    assert forall|k: int| 0 <= k < r.len() implies r[k] != x by {
        if k < i {
            assert(r[k] == s[k]);
        } else {
            assert(r[k] == s[k + 1]);
        }
    }
    assert forall|y: A| r.to_set().contains(y) <==> s.to_set().remove(x).contains(y) by {
        if r.contains(y) {
            let k = choose|k: int| 0 <= k < r.len() && r[k] == y;
            if k < i {
                assert(s[k] == y);
            } else {
                assert(s[k + 1] == y);
            }
        }
        if s.contains(y) && y != x {
            let k = choose|k: int| 0 <= k < s.len() && s[k] == y;
            if k < i {
                assert(r[k] == y);
            } else {
                assert(r[k - 1] == y);
            }
        }
    }
    assert(r.to_set() =~= s.to_set().remove(x));
}

proof fn lemma_push_absent<A>(s: Seq<A>, x: A)
    requires
        !s.contains(x),
    ensures
        at_most_once(s.push(x), x),
        s.push(x).to_set() == s.to_set().insert(x),
{
    let r = s.push(x);
    assert forall|i: int, j: int| 0 <= i < j < r.len() && r[i] == x implies r[j] != x by {
        assert(r[i] == s[i]);
    }
    assert forall|y: A| r.to_set().contains(y) <==> s.to_set().insert(x).contains(y) by {
        if r.contains(y) && y != x {
            let k = choose|k: int| 0 <= k < r.len() && r[k] == y;
            assert(s[k] == y);
        }
        if s.contains(y) {
            let k = choose|k: int| 0 <= k < s.len() && s[k] == y;
            assert(r[k] == y);
        }
        if y == x {
            assert(r[s.len() as int] == x);
        }
    }
    assert(r.to_set() =~= s.to_set().insert(x));
}

proof fn lemma_toggle_name_set(s: Seq<Seq<char>>, t: Seq<char>)
    requires
        at_most_once(s, t),
    ensures
        at_most_once(toggle_name(s, t), t),
        toggle_name(s, t).to_set() == if s.contains(t) {
            s.to_set().remove(t)
        } else {
            s.to_set().insert(t)
        },
{
    lemma_first_slot_name(s, t);
    let i = first_slot_name(s, t);
    if i >= 0 {
        lemma_remove_only(s, i);
    } else {
        lemma_push_absent(s, t);
    }
}

proof fn lemma_toggle_week_set(l: Seq<u32>, w: u32)
    requires
        at_most_once(l, w),
    ensures
        at_most_once(toggle_week(l, w), w),
        toggle_week(l, w).to_set() == if l.contains(w) {
            l.to_set().remove(w)
        } else {
            l.to_set().insert(w)
        },
{
    lemma_first_slot_u32(l, w);
    if l.contains(w) {
        lemma_remove_only(l, first_slot_u32(l, w));
    } else {
        lemma_push_absent(l, w);
    }
}

proof fn lemma_toggle_restriction_view(rv: Seq<(Seq<char>, Seq<u32>)>, t: Seq<char>, w: u32)
    ensures
        restricted_weeks(toggle_restriction(rv, t, w), t) == toggle_week(restricted_weeks(rv, t), w),
        forall|x: Seq<char>| x != t ==> restricted_weeks(toggle_restriction(rv, t, w), x) == restricted_weeks(rv, x),
{
    let keys = rv.map_values(|e: (Seq<char>, Seq<u32>)| e.0);
    lemma_first_slot_name(keys, t);
    let i = first_slot_name(keys, t);
    let rv1 = toggle_restriction(rv, t, w);
    if i >= 0 {
        assert(keys[i] == rv[i].0);
        let keys1 = rv1.map_values(|e: (Seq<char>, Seq<u32>)| e.0);
        assert(keys1 =~= keys);
        assert forall|x: Seq<char>| x != t implies restricted_weeks(rv1, x) == restricted_weeks(rv, x) by {
            lemma_first_slot_name(keys, x);
            let j = first_slot_name(keys, x);
            if j >= 0 {
                assert(keys[j] == rv[j].0);
                assert(rv1[j] == rv[j]);
            }
        }
    } else {
        assert(rv1 == rv.push((t, seq![w])));
        let keys1 = rv1.map_values(|e: (Seq<char>, Seq<u32>)| e.0);
        assert(keys1 =~= keys.push(t));
        assert(keys.push(t).drop_last() =~= keys);
        assert(first_slot_name(keys1, t) == rv.len());
        assert(restricted_weeks(rv, t) == Seq::<u32>::empty());
        assert(toggle_week(Seq::<u32>::empty(), w) =~= seq![w]);
        assert forall|x: Seq<char>| x != t implies restricted_weeks(rv1, x) == restricted_weeks(rv, x) by {
            lemma_restricted_weeks_push(rv, (t, seq![w]), x);
        }
    }
}

/// Toggling a team's score exclusion flips whether it is excluded and
/// leaves every other team as it was; toggling it again gives back the
/// excluded set (the order of the list may change).  This needs the team
/// listed at most once.
pub proof fn law_toggle_exclusion(
    s0: SwimScheduler,
    s1: SwimScheduler,
    s2: SwimScheduler,
    t1: String,
    t2: String,
    a1: Action,
    a2: Action,
)
    requires
        update_effect(s0, s1, Message::ToggleExclusion(t1), a1),
        update_effect(s1, s2, Message::ToggleExclusion(t2), a2),
        t1@ == t2@,
        at_most_once(str_views(s0.config.score_excluded@), t1@),
    ensures
        str_views(s1.config.score_excluded@).to_set() == if str_views(s0.config.score_excluded@).contains(t1@) {
            str_views(s0.config.score_excluded@).to_set().remove(t1@)
        } else {
            str_views(s0.config.score_excluded@).to_set().insert(t1@)
        },
        str_views(s2.config.score_excluded@).to_set() == str_views(s0.config.score_excluded@).to_set(),
{
    let t = t1@;
    let v0 = str_views(s0.config.score_excluded@);
    let v1 = str_views(s1.config.score_excluded@);
    lemma_toggle_name_set(v0, t);
    lemma_toggle_name_set(v1, t);
    if v0.contains(t) {
        assert(!v1.to_set().contains(t));
        assert(!v1.contains(t)) by {
            if v1.contains(t) {
                assert(v1.to_set().contains(t));
            }
        }
        assert(v0.to_set().remove(t).insert(t) =~= v0.to_set());
    } else {
        assert(v1.to_set().contains(t));
        assert(v1.contains(t));
        assert(v0.to_set().insert(t).remove(t) =~= v0.to_set());
    }
}

/// Toggling a week for a team flips whether the team is restricted from a
/// bye that week and leaves every other team's restricted weeks as they
/// were; toggling it again gives back the team's restricted set (the order
/// of the list may change).  This needs the week listed at most once for
/// the team.
pub proof fn law_toggle_restriction(
    s0: SwimScheduler,
    s1: SwimScheduler,
    s2: SwimScheduler,
    t1: String,
    t2: String,
    w: u32,
    a1: Action,
    a2: Action,
)
    requires
        update_effect(s0, s1, Message::ToggleRestriction(t1, w), a1),
        update_effect(s1, s2, Message::ToggleRestriction(t2, w), a2),
        t1@ == t2@,
        at_most_once(restricted_weeks(restrictions_view(s0.config.bye_restrictions@), t1@), w),
    ensures
        ({
            let l0 = restricted_weeks(restrictions_view(s0.config.bye_restrictions@), t1@);
            restricted_weeks(restrictions_view(s1.config.bye_restrictions@), t1@).to_set() == if l0.contains(w) {
                l0.to_set().remove(w)
            } else {
                l0.to_set().insert(w)
            }
        }),
        restricted_weeks(restrictions_view(s2.config.bye_restrictions@), t1@).to_set() == restricted_weeks(
            restrictions_view(s0.config.bye_restrictions@),
            t1@,
        ).to_set(),
        forall|x: Seq<char>|
            x != t1@ ==> restricted_weeks(restrictions_view(s1.config.bye_restrictions@), x) == restricted_weeks(
                restrictions_view(s0.config.bye_restrictions@),
                x,
            ) && restricted_weeks(restrictions_view(s2.config.bye_restrictions@), x) == restricted_weeks(
                restrictions_view(s0.config.bye_restrictions@),
                x,
            ),
{
    let t = t1@;
    let rv0 = restrictions_view(s0.config.bye_restrictions@);
    let rv1 = restrictions_view(s1.config.bye_restrictions@);
    lemma_toggle_restriction_view(rv0, t, w);
    lemma_toggle_restriction_view(rv1, t, w);
    let l0 = restricted_weeks(rv0, t);
    let l1 = restricted_weeks(rv1, t);
    lemma_toggle_week_set(l0, w);
    lemma_toggle_week_set(l1, w);
    if l0.contains(w) {
        assert(!l1.contains(w)) by {
            if l1.contains(w) {
                assert(l1.to_set().contains(w));
            }
        }
        assert(l0.to_set().remove(w).insert(w) =~= l0.to_set());
    } else {
        assert(l1.to_set().contains(w));
        assert(l1.contains(w));
        assert(l0.to_set().insert(w).remove(w) =~= l0.to_set());
    }
}

/// No team name occurs twice among the preference fields.
pub open spec fn pref_input_keys_distinct(v: Seq<(String, [String; 2])>) -> bool {
    forall|i: int, j: int| 0 <= i < j < v.len() ==> v[i].0@ != v[j].0@
}

/// The wizard's association lists are maps: no key occurs twice.
pub open spec fn state_wf(s: SwimScheduler) -> bool {
    &&& s.config.wf()
    &&& input_keys_distinct(s.base_schedule_inputs@)
    &&& pref_input_keys_distinct(s.pref_inputs@)
}

proof fn lemma_inputs_keys(v: Seq<(u32, String)>, bs: Seq<(u32, Seq<(Seq<char>, Seq<char>)>)>)
    requires
        inputs_view(v) == inputs_of(bs),
        forall|i: int, j: int| 0 <= i < j < bs.len() ==> bs[i].0 != bs[j].0,
    ensures
        input_keys_distinct(v),
{
    assert(inputs_view(v).len() == v.len());
    assert(inputs_of(bs).len() == bs.len());
    assert forall|i: int, j: int| 0 <= i < j < v.len() implies v[i].0 != v[j].0 by {
        assert(inputs_view(v)[i].0 == v[i].0);
        assert(inputs_view(v)[j].0 == v[j].0);
        assert(inputs_of(bs)[i].0 == bs[i].0);
        assert(inputs_of(bs)[j].0 == bs[j].0);
    }
}

proof fn lemma_schedule_keys(v: Seq<(u32, Vec<Matchup>)>, bs: Seq<(u32, Seq<(Seq<char>, Seq<char>)>)>)
    requires
        schedule_view(v) == bs,
        forall|i: int, j: int| 0 <= i < j < bs.len() ==> bs[i].0 != bs[j].0,
    ensures
        schedule_keys_distinct(v),
{
    assert forall|i: int, j: int| 0 <= i < j < v.len() implies v[i].0 != v[j].0 by {
        assert(schedule_view(v)[i].0 == v[i].0);
        assert(schedule_view(v)[j].0 == v[j].0);
    }
}

proof fn lemma_parse_inputs_keys(inputs: Seq<(u32, Seq<char>)>, k: int)
    requires
        0 <= k <= inputs.len(),
        parse_inputs(inputs, k) is Ok,
    ensures
        parse_inputs(inputs, k)->Ok_0.len() == k,
        forall|i: int| 0 <= i < k ==> (#[trigger] parse_inputs(inputs, k)->Ok_0[i]).0 == inputs[i].0,
    decreases k,
{
    if k > 0 {
        lemma_parse_inputs_keys(inputs, k - 1);
        let prev = parse_inputs(inputs, k - 1)->Ok_0;
        let cur = parse_inputs(inputs, k)->Ok_0;
        assert forall|i: int| 0 <= i < k implies (#[trigger] cur[i]).0 == inputs[i].0 by {
            if i < k - 1 {
                assert(cur[i] == prev[i]);
            }
        }
    }
}

proof fn lemma_input_slot(s: Seq<(u32, Seq<char>)>, w: u32)
    ensures
        -1 <= input_slot(s, w) < s.len(),
        input_slot(s, w) >= 0 ==> s[input_slot(s, w)].0 == w,
        input_slot(s, w) == -1 ==> forall|j: int| 0 <= j < s.len() ==> s[j].0 != w,
    decreases s.len(),
{
    if s.len() > 0 {
        lemma_input_slot(s.drop_last(), w);
        assert forall|j: int| 0 <= j < s.len() - 1 implies s.drop_last()[j] == s[j] by {}
    }
}

proof fn lemma_name_slot_absent<T>(s: Seq<(Seq<char>, T)>, k: Seq<char>)
    ensures
        first_slot_name(s.map_values(|e: (Seq<char>, T)| e.0), k) >= 0 ==> s[first_slot_name(
            s.map_values(|e: (Seq<char>, T)| e.0),
            k,
        )].0 == k,
        first_slot_name(s.map_values(|e: (Seq<char>, T)| e.0), k) == -1 ==> forall|j: int| 0 <= j < s.len() ==> s[j].0 != k,
        -1 <= first_slot_name(s.map_values(|e: (Seq<char>, T)| e.0), k) < s.len(),
{
    let keys = s.map_values(|e: (Seq<char>, T)| e.0);
    lemma_first_slot_name(keys, k);
    assert forall|j: int| 0 <= j < s.len() implies keys[j] == s[j].0 by {}
    if first_slot_name(keys, k) == -1 {
        assert forall|j: int| 0 <= j < s.len() implies s[j].0 != k by {
            assert(keys[j] == s[j].0);
        }
    }
}

proof fn lemma_upsert_distinct<T>(s: Seq<(Seq<char>, T)>, k: Seq<char>, v: T)
    requires
        forall|i: int, j: int| 0 <= i < j < s.len() ==> s[i].0 != s[j].0,
    ensures
        forall|i: int, j: int| 0 <= i < j < upsert(s, k, v).len() ==> upsert(s, k, v)[i].0 != upsert(s, k, v)[j].0,
{
    lemma_name_slot_absent(s, k);
}

/// The configuration's maps and the text fields keyed by week or team stay
/// maps: every message keeps each key at most once (a loaded configuration
/// being a map itself).
pub proof fn law_update_keeps_maps(o: SwimScheduler, n: SwimScheduler, m: Message, a: Action)
    requires
        state_wf(o),
        update_effect(o, n, m, a),
        m matches Message::ConfigLoaded(r) ==> (r matches Ok(cfg) ==> cfg.wf()),
    ensures
        state_wf(n),
{
    match m {
        Message::AddTeam => {
            if team_accepted(o) {
                let k = n.config.teams@.len();
                assert(str_views(n.config.teams@).len() == k);
                if k == 5 {
                    lemma_inputs_keys(n.base_schedule_inputs@, five_team_schedule());
                } else if k == 6 {
                    lemma_inputs_keys(n.base_schedule_inputs@, six_team_schedule());
                }
            }
        },
        Message::RemoveTeam(idx) => {
            if idx < o.config.teams@.len() {
                let k = n.config.teams@.len();
                assert(str_views(n.config.teams@).len() == k);
                if k == 5 {
                    lemma_inputs_keys(n.base_schedule_inputs@, five_team_schedule());
                } else if k == 6 {
                    lemma_inputs_keys(n.base_schedule_inputs@, six_team_schedule());
                }
            }
        },
        Message::ConfigLoaded(r) => {
            match r {
                Ok(cfg) => {
                    lemma_inputs_keys(n.base_schedule_inputs@, schedule_view(cfg.base_schedule@));
                    let pt = crate::update::pref_texts(cfg.bye_preferences@);
                    assert(pref_inputs_view(n.pref_inputs@) == pt);
                    assert(pt.len() == cfg.bye_preferences@.len());
                    assert(pref_inputs_view(n.pref_inputs@).len() == n.pref_inputs@.len());
                    assert forall|i: int, j: int| 0 <= i < j < n.pref_inputs@.len() implies n.pref_inputs@[i].0@
                        != n.pref_inputs@[j].0@ by {
                        assert(pref_inputs_view(n.pref_inputs@)[i].0 == n.pref_inputs@[i].0@);
                        assert(pref_inputs_view(n.pref_inputs@)[j].0 == n.pref_inputs@[j].0@);
                        assert(pt[i].0 == cfg.bye_preferences@[i].0@);
                        assert(pt[j].0 == cfg.bye_preferences@[j].0@);
                        assert(cfg.bye_preferences@[i].0@ != cfg.bye_preferences@[j].0@);
                    }
                },
                Err(_) => {},
            }
        },
        Message::ApplyWeeks => {
            match crate::update::parse_weeks(o.weeks_input@) {
                Some(w) => {
                    if w.len() > 0 {
                        lemma_inputs_keys(n.base_schedule_inputs@, schedule_view(o.config.base_schedule@));
                    }
                },
                None => {},
            }
        },
        Message::BaseScheduleInputChanged(w, t) => {
            let iv = inputs_view(o.base_schedule_inputs@);
            lemma_input_slot(iv, w);
            let nv = inputs_view(n.base_schedule_inputs@);
            assert(nv == set_input(iv, w, t@));
            assert(iv.len() == o.base_schedule_inputs@.len());
            assert(nv.len() == n.base_schedule_inputs@.len());
            assert forall|i: int| 0 <= i < iv.len() implies (#[trigger] iv[i]).0 == o.base_schedule_inputs@[i].0 by {}
            assert forall|i: int, j: int| 0 <= i < j < n.base_schedule_inputs@.len() implies n.base_schedule_inputs@[i].0
                != n.base_schedule_inputs@[j].0 by {
                assert(nv[i].0 == n.base_schedule_inputs@[i].0);
                assert(nv[j].0 == n.base_schedule_inputs@[j].0);
                let slot = input_slot(iv, w);
                if slot >= 0 {
                    assert(nv == iv.update(slot, (w, t@)));
                    assert(iv[slot].0 == w);
                    assert(nv[i].0 == iv[i].0);
                    assert(nv[j].0 == iv[j].0);
                } else {
                    assert(nv == iv.push((w, t@)));
                    assert(nv[i].0 == iv[i].0);
                    if j < iv.len() {
                        assert(nv[j].0 == iv[j].0);
                    } else {
                        assert(nv[j].0 == w);
                    }
                }
            }
        },
        Message::ApplyBaseSchedule => {
            let iv = inputs_view(o.base_schedule_inputs@);
            match parse_schedule_inputs(iv) {
                Ok(bs) => {
                    lemma_parse_inputs_keys(iv, iv.len() as int);
                    assert forall|i: int, j: int| 0 <= i < j < bs.len() implies bs[i].0 != bs[j].0 by {
                        assert(iv[i].0 == o.base_schedule_inputs@[i].0);
                        assert(iv[j].0 == o.base_schedule_inputs@[j].0);
                    }
                    lemma_schedule_keys(n.config.base_schedule@, bs);
                },
                Err(_) => {},
            }
        },
        Message::UseDefault5Team => {
            lemma_schedule_keys(n.config.base_schedule@, five_team_schedule());
            lemma_inputs_keys(n.base_schedule_inputs@, five_team_schedule());
        },
        Message::UseDefault6Team => {
            lemma_schedule_keys(n.config.base_schedule@, six_team_schedule());
            lemma_inputs_keys(n.base_schedule_inputs@, six_team_schedule());
        },
        Message::PrefChanged(team, idx, val) => {
            let pv = pref_inputs_view(o.pref_inputs@);
            let fields = crate::update::pref_fields_after(pv, team@, idx, val@);
            assert forall|i: int, j: int| 0 <= i < j < pv.len() implies pv[i].0 != pv[j].0 by {}
            lemma_upsert_distinct(pv, team@, fields);
            let npv = pref_inputs_view(n.pref_inputs@);
            assert forall|i: int, j: int| 0 <= i < j < n.pref_inputs@.len() implies n.pref_inputs@[i].0@
                != n.pref_inputs@[j].0@ by {
                assert(npv[i].0 == n.pref_inputs@[i].0@);
                assert(npv[j].0 == n.pref_inputs@[j].0@);
            }
            match (crate::text::parse_u32(crate::text::trim(fields.0)), crate::text::parse_u32(crate::text::trim(fields.1))) {
                (Some(f), Some(sv)) => {
                    let prv = prefs_view(o.config.bye_preferences@);
                    assert forall|i: int, j: int| 0 <= i < j < prv.len() implies prv[i].0 != prv[j].0 by {}
                    lemma_upsert_distinct(prv, team@, (f, sv));
                    let nprv = prefs_view(n.config.bye_preferences@);
                    assert forall|i: int, j: int| 0 <= i < j < n.config.bye_preferences@.len() implies n.config.bye_preferences@[i].0@
                        != n.config.bye_preferences@[j].0@ by {
                        assert(nprv[i].0 == n.config.bye_preferences@[i].0@);
                        assert(nprv[j].0 == n.config.bye_preferences@[j].0@);
                    }
                },
                _ => {},
            }
        },
        Message::ToggleRestriction(team, week) => {
            let rv = restrictions_view(o.config.bye_restrictions@);
            lemma_name_slot_absent(rv, team@);
            let nrv = restrictions_view(n.config.bye_restrictions@);
            assert(nrv == toggle_restriction(rv, team@, week));
            assert(rv.len() == o.config.bye_restrictions@.len());
            assert(nrv.len() == n.config.bye_restrictions@.len());
            assert forall|i: int, j: int| 0 <= i < j < n.config.bye_restrictions@.len() implies n.config.bye_restrictions@[i].0@
                != n.config.bye_restrictions@[j].0@ by {
                assert(nrv[i].0 == n.config.bye_restrictions@[i].0@);
                assert(nrv[j].0 == n.config.bye_restrictions@[j].0@);
                let slot = first_slot_name(rv.map_values(|e: (Seq<char>, Seq<u32>)| e.0), team@);
                if i < rv.len() {
                    assert(rv[i].0 == o.config.bye_restrictions@[i].0@);
                }
                if j < rv.len() {
                    assert(rv[j].0 == o.config.bye_restrictions@[j].0@);
                }
                if slot >= 0 {
                    assert(nrv[i].0 == rv[i].0);
                    assert(nrv[j].0 == rv[j].0);
                } else {
                    assert(nrv[i].0 == rv[i].0);
                    if j < rv.len() {
                        assert(nrv[j].0 == rv[j].0);
                    } else {
                        assert(nrv[j].0 == team@);
                    }
                }
            }
        },
        _ => {},
    }
}

} // verus!
