//! The scheduler's entry points: every assignment of teams to labels is
//! tried with every acceptable host pattern, and the best five distinct
//! schedules are returned.

use vstd::prelude::*;
use itertools::Itertools;
use crate::config::LeagueConfig;
use crate::plan::{plan_schedule, validation_error, schedule_fits, Plan};
use crate::candidates::{assigns_teams, counts_fit, permutation_candidates, Candidate};
use crate::ranking::{Solution, top_keys, perms_view, rank_candidates, matches_keys, perm_keys, host_patterns, detail_view,
    bye_view, schedule_view};

verus! {

/// What `(0..n).permutations(n)` of the itertools crate yields, in order.
pub uninterp spec fn itertools_permutations(n: nat) -> Seq<Seq<usize>>;

/// `p` is an ordering of `0..n`: `n` distinct indices below `n`.
pub open spec fn is_ordering(p: Seq<usize>, n: nat) -> bool {
    &&& assigns_teams(p, n)
    &&& forall|a: int, b: int| 0 <= a < b < n ==> p[a] != p[b]
}

/// Every element is an ordering of `0..n`.
pub open spec fn all_orderings(perms: Seq<Seq<usize>>, n: nat) -> bool {
    forall|i: int| 0 <= i < perms.len() ==> is_ordering(#[trigger] perms[i], n)
}

/// Every ordering of `0..n` is among `perms`.
pub open spec fn covers_orderings(perms: Seq<Seq<usize>>, n: nat) -> bool {
    forall|p: Seq<usize>| #[trigger] is_ordering(p, n) ==> perms.contains(p)
}

/// `n!`.
pub open spec fn factorial(n: nat) -> nat
    decreases n,
{
    if n == 0 {
        1
    } else {
        n * factorial((n - 1) as nat)
    }
}

/// Calls `Itertools::permutations(0..n, n)` and collects it.  The crate
/// documents that this yields every `n`-permutation of the `n` items, each
/// a `Vec` of length `n`; since the items `0..n` are distinct, the contract
/// claims that the collected vectors are exactly the orderings of `0..n`:
/// each is one, every one occurs, none occurs twice, and there are `n!` of
/// them.  The order they come in (lexicographic in positions) is left to
/// the name.  For `n` above 20 the collection's size hint overflows, so
/// such `n` are left out.
#[verifier::external_body]
fn permutations_of_indices(n: usize) -> (r: Vec<Vec<usize>>)
    requires
        n <= 20,
    ensures
        perms_view(r@) == itertools_permutations(n as nat),
        all_orderings(perms_view(r@), n as nat),
        covers_orderings(perms_view(r@), n as nat),
        perms_view(r@).no_duplicates(),
        r@.len() == factorial(n as nat),
{
    (0..n).permutations(n).collect()
}

/// Every ordering of the label indices `0..n`, each once, in the order the
/// itertools crate yields them; label `l` of an ordering `p` is played by
/// team `p[l]`.
pub fn team_permutations(n: usize) -> (r: Vec<Vec<usize>>)
    requires
        n <= 20,
    ensures
        perms_view(r@) == itertools_permutations(n as nat),
        all_orderings(perms_view(r@), n as nat),
        covers_orderings(perms_view(r@), n as nat),
        perms_view(r@).no_duplicates(),
        r@.len() == factorial(n as nat),
{
    permutations_of_indices(n)
}

/// The scheduler's answer for `c` when the team permutations are `perms`.
pub open spec fn scheduler_answer(c: &LeagueConfig, perms: Seq<Seq<usize>>, r: Result<Vec<Solution>, String>) -> bool {
    match r {
        Ok(sols) => {
            &&& validation_error(c) is None
            &&& sols@.len() == top_keys(c, perms).len()
            &&& forall|i: int| 0 <= i < sols@.len() ==> (#[trigger] sols@[i]).is_solution(c, top_keys(c, perms)[i], i + 1)
        },
        Err(e) => validation_error(c) == Some(e@),
    }
}

/// The inputs on which the scheduler runs without panicking: a checked
/// configuration whose base schedule fits and whose counters fit in `i32`.
pub open spec fn scheduler_can_run(c: &LeagueConfig) -> bool {
    validation_error(c) is None ==> schedule_fits(c) && counts_fit(c)
}

fn all_candidates(c: &LeagueConfig, plan: &Plan, perms: &Vec<Vec<usize>>) -> (r: Vec<Vec<Candidate>>)
    requires
        plan.describes(c),
        counts_fit(c),
        forall|i: int| 0 <= i < perms@.len() ==> assigns_teams(#[trigger] perms@[i]@, c.teams@.len()),
    ensures
        r@.len() == perms@.len(),
        forall|i: int| 0 <= i < perms@.len() ==> matches_keys(c, (#[trigger] r@[i])@, perm_keys(c, perms@[i]@)),
{
    let mut out: Vec<Vec<Candidate>> = Vec::new();
    let mut i: usize = 0;
    while i < perms.len()
        invariant
            i <= perms@.len(),
            plan.describes(c),
            counts_fit(c),
            forall|q: int| 0 <= q < perms@.len() ==> assigns_teams(#[trigger] perms@[q]@, c.teams@.len()),
            out@.len() == i,
            forall|q: int| 0 <= q < i ==> matches_keys(c, (#[trigger] out@[q])@, perm_keys(c, perms@[q]@)),
        decreases perms@.len() - i,
    {
        let cands = permutation_candidates(c, plan, &perms[i]);
        proof {
            let p = perms@[i as int]@;
            assert(plan.valid_bits@ == host_patterns(c));
            if !crate::candidates::permutation_rejected(c, p) {
                let pk = perm_keys(c, p);
                assert(pk.len() == cands@.len());
                assert forall|j: int| 0 <= j < cands@.len() implies (#[trigger] cands@[j]).is_candidate(
                    c,
                    pk[j].0,
                    pk[j].1,
                ) by {
                    assert(pk[j] == (p, host_patterns(c)[j]));
                }
            }
        }
        out.push(cands);
        i = i + 1;
    }
    out
}

/// Finish a run whose candidates were found elsewhere (`per_perm[i]` being
/// those of ordering `perms[i]`, as `permutation_candidates` gives them):
/// the configuration is checked as by `run_scheduler_with`, and the
/// candidates are merged and ranked.  The answer is the one
/// `run_scheduler_with` gives for the same orderings.
pub fn run_scheduler_from(c: &LeagueConfig, perms: &Vec<Vec<usize>>, per_perm: &Vec<Vec<Candidate>>) -> (r: Result<
    Vec<Solution>,
    String,
>)
    requires
        scheduler_can_run(c),
        per_perm@.len() == perms@.len(),
        forall|i: int| 0 <= i < perms@.len() ==> matches_keys(c, (#[trigger] per_perm@[i])@, perm_keys(c, perms@[i]@)),
    ensures
        scheduler_answer(c, perms_view(perms@), r),
{
    let plan = match plan_schedule(c) {
        Ok(plan) => plan,
        Err(e) => {
            return Err(e);
        },
    };
    let sols = rank_candidates(c, &plan, perms, per_perm);
    Ok(sols)
}

/// Run the scheduler with the given orderings of the label indices (each
/// assigns team `p[l]` to label `l`).  Refuses a configuration with fewer
/// than two teams, no weeks, or a label count that differs from the team
/// count; otherwise returns up to five distinct schedules, best first and
/// ranked from 1.
pub fn run_scheduler_with(c: &LeagueConfig, perms: &Vec<Vec<usize>>) -> (r: Result<Vec<Solution>, String>)
    requires
        scheduler_can_run(c),
        forall|i: int| 0 <= i < perms@.len() ==> assigns_teams(#[trigger] perms@[i]@, c.teams@.len()),
    ensures
        scheduler_answer(c, perms_view(perms@), r),
{
    let plan = match plan_schedule(c) {
        Ok(plan) => plan,
        Err(e) => {
            return Err(e);
        },
    };
    let per_perm = all_candidates(c, &plan, perms);
    run_scheduler_from(c, perms, &per_perm)
}

/// The scheduler's answer is determined by the configuration and the
/// orderings tried: two answers for the same inputs fail with the same
/// message, or list the same solutions field by field.  So every way of
/// running it (with or without progress reports, in parallel or not, and
/// again on the same configuration) gives the same result.
pub proof fn law_scheduler_answer_unique(
    c: &LeagueConfig,
    perms: Seq<Seq<usize>>,
    r1: Result<Vec<Solution>, String>,
    r2: Result<Vec<Solution>, String>,
)
    requires
        scheduler_answer(c, perms, r1),
        scheduler_answer(c, perms, r2),
    ensures
        match (r1, r2) {
            (Ok(a), Ok(b)) => {
                &&& a@.len() == b@.len()
                &&& forall|i: int| 0 <= i < a@.len() ==> same_solution(#[trigger] a@[i], b@[i])
            },
            (Err(e1), Err(e2)) => e1@ == e2@,
            _ => false,
        },
{
    match (r1, r2) {
        (Ok(a), Ok(b)) => {
            assert forall|i: int| 0 <= i < a@.len() implies same_solution(#[trigger] a@[i], b@[i]) by {
                let k = top_keys(c, perms)[i];
                assert(a@[i].is_solution(c, k, i + 1));
                assert(b@[i].is_solution(c, k, i + 1));
            }
        },
        _ => {},
    }
}

/// Two solutions hold the same rank, score, penalty, breakdown, bye weeks
/// and named schedule.
pub open spec fn same_solution(a: Solution, b: Solution) -> bool {
    &&& a.rank == b.rank
    &&& a.score == b.score
    &&& a.penalty == b.penalty
    &&& detail_view(a.bye_detail@) == detail_view(b.bye_detail@)
    &&& bye_view(a.bye_assignment@) == bye_view(b.bye_assignment@)
    &&& schedule_view(a.schedule@) == schedule_view(b.schedule@)
}

/// Run the scheduler on `c`, trying every assignment of teams to labels:
/// up to five distinct schedules sorted by fairness score (higher first) and
/// hosting-streak penalty (lower first), or the reason the configuration is
/// refused.
pub fn run_scheduler(c: &LeagueConfig) -> (r: Result<Vec<Solution>, String>)
    requires
        scheduler_can_run(c),
        c.teams@.len() <= 20,
    ensures
        scheduler_answer(c, itertools_permutations(c.teams@.len()), r),
        covers_orderings(itertools_permutations(c.teams@.len()), c.teams@.len()),
        all_orderings(itertools_permutations(c.teams@.len()), c.teams@.len()),
        itertools_permutations(c.teams@.len()).no_duplicates(),
{
    let perms = team_permutations(c.teams.len());
    proof {
        assert forall|i: int| 0 <= i < perms@.len() implies assigns_teams(#[trigger] perms@[i]@, c.teams@.len()) by {
            assert(perms_view(perms@)[i] == perms@[i]@);
        }
    }
    run_scheduler_with(c, &perms)
}

} // verus!
