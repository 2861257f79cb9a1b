//! What one assignment of teams to labels gives: each team's bye week, the
//! fairness score, and for every acceptable host pattern the placed games and
//! their hosting-streak penalty.
//!
//! A permutation `p` maps label `l` to the team at position `p[l]`.  Teams
//! with equal names are one team, identified by their first position.

use vstd::prelude::*;
use crate::config::LeagueConfig;
use crate::plan::{Plan, team_names, sorted_weeks, distinct_weeks, bye_labels, canon, restriction_list, preference, is_excluded, structural_games, lemma_canon};
use crate::host_bits::{host_bit, host_label, games_in_range};
use crate::sorting::{sort_pairs, sort_pairs_exec, sort_u32, dedup_sorted, insert_u32};
use vstd::arithmetic::power2::pow2;

verus! {

/// `p` assigns a team position below `n` to each of `n` labels.
pub open spec fn assigns_teams(p: Seq<usize>, n: nat) -> bool {
    p.len() == n && forall|i: int| 0 <= i < n ==> #[trigger] p[i] < n
}

/// The bye week of each team after the first `wi` week indices (a later
/// week overrides an earlier one for the same team).
pub open spec fn bye_weeks_upto(c: &LeagueConfig, p: Seq<usize>, wi: int) -> Seq<Option<u32>>
    decreases wi,
{
    if wi <= 0 {
        Seq::new(c.teams@.len(), |t: int| None)
    } else {
        let prev = bye_weeks_upto(c, p, wi - 1);
        match bye_labels(c)[wi - 1] {
            Some(li) => prev.update(canon(c, p[li as int] as int), Some(sorted_weeks(c)[wi - 1])),
            None => prev,
        }
    }
}

/// The bye week of each team, indexed by the team's first position.
pub open spec fn bye_weeks(c: &LeagueConfig, p: Seq<usize>) -> Seq<Option<u32>> {
    bye_weeks_upto(c, p, sorted_weeks(c).len() as int)
}

/// No team has its bye in a week it is restricted from.
pub open spec fn byes_respected(c: &LeagueConfig, p: Seq<usize>) -> bool {
    forall|t: int|
        0 <= t < c.teams@.len() ==> match #[trigger] bye_weeks(c, p)[t] {
            Some(w) => !restriction_list(c, team_names(c)[t]).contains(w),
            None => true,
        }
}

/// The permutation is discarded: some team's bye falls in a week it is
/// restricted from.
pub open spec fn permutation_rejected(c: &LeagueConfig, p: Seq<usize>) -> bool {
    !byes_respected(c, p)
}

/// The points of the team at position `i`: 2 for its first-choice bye week,
/// 1 for its second choice, 0 otherwise or when it is excluded.
pub open spec fn team_score(c: &LeagueConfig, p: Seq<usize>, i: int) -> int {
    if is_excluded(c, team_names(c)[i]) {
        0
    } else {
        match bye_weeks(c, p)[canon(c, i)] {
            Some(w) => match preference(c, team_names(c)[i]) {
                Some(pr) => if w == pr.0 {
                    2
                } else if w == pr.1 {
                    1
                } else {
                    0
                },
                None => 0,
            },
            None => 0,
        }
    }
}

/// The points of the teams at the first `m` positions.
pub open spec fn score_upto(c: &LeagueConfig, p: Seq<usize>, m: int) -> int
    decreases m,
{
    if m <= 0 {
        0
    } else {
        score_upto(c, p, m - 1) + team_score(c, p, m - 1)
    }
}

/// The fairness score: the points of every team position.
pub open spec fn fairness_score(c: &LeagueConfig, p: Seq<usize>) -> int {
    score_upto(c, p, c.teams@.len() as int)
}

/// The score breakdown of the team first named at position `t`: -1 when it
/// is excluded, its points when it has a bye, nothing otherwise.
pub open spec fn detail_of(c: &LeagueConfig, p: Seq<usize>, t: int) -> Option<i32> {
    if canon(c, t) != t {
        None
    } else if is_excluded(c, team_names(c)[t]) {
        Some(-1i32)
    } else {
        match bye_weeks(c, p)[t] {
            Some(_) => Some(team_score(c, p, t) as i32),
            None => None,
        }
    }
}

/// Game `k` placed under pattern `bits`: `(week, host position, away position)`.
pub open spec fn placed_game(c: &LeagueConfig, p: Seq<usize>, bits: u64, k: int) -> (u32, usize, usize) {
    let g = structural_games(c)[k];
    let away = if host_bit(bits, k) {
        g.1
    } else {
        g.2
    };
    (sorted_weeks(c)[g.0 as int], p[host_label(g, bits, k) as int], p[away as int])
}

/// All games placed under pattern `bits`, in structural order.
pub open spec fn placed_games(c: &LeagueConfig, p: Seq<usize>, bits: u64) -> Seq<(u32, usize, usize)> {
    Seq::new(structural_games(c).len(), |k: int| placed_game(c, p, bits, k))
}

/// The team first named at position `t` hosts a game in week `w`.
pub open spec fn team_hosts_in(c: &LeagueConfig, p: Seq<usize>, bits: u64, t: int, w: int) -> bool {
    exists|k: int|
        0 <= k < structural_games(c).len() && (#[trigger] placed_game(c, p, bits, k)).0 == w && canon(
            c,
            placed_game(c, p, bits, k).1 as int,
        ) == t
}

/// How many of the first `m` distinct weeks `w` have team `t` hosting in
/// both `w` and `w + 1`.
pub open spec fn team_penalty_upto(c: &LeagueConfig, p: Seq<usize>, bits: u64, t: int, m: int) -> int
    decreases m,
{
    if m <= 0 {
        0
    } else {
        let w = distinct_weeks(c)[m - 1] as int;
        team_penalty_upto(c, p, bits, t, m - 1) + (if team_hosts_in(c, p, bits, t, w) && team_hosts_in(
            c,
            p,
            bits,
            t,
            w + 1,
        ) {
            1int
        } else {
            0int
        })
    }
}

/// The streak penalty of the teams first named below position `m`.
pub open spec fn penalty_upto(c: &LeagueConfig, p: Seq<usize>, bits: u64, m: int) -> int
    decreases m,
{
    if m <= 0 {
        0
    } else {
        penalty_upto(c, p, bits, m - 1) + (if canon(c, m - 1) == m - 1 {
            team_penalty_upto(c, p, bits, m - 1, distinct_weeks(c).len() as int)
        } else {
            0
        })
    }
}

/// The hosting-streak penalty: one for every team and pair of adjacent
/// week numbers in both of which the team hosts.
pub open spec fn streak_penalty(c: &LeagueConfig, p: Seq<usize>, bits: u64) -> int {
    penalty_upto(c, p, bits, c.teams@.len() as int)
}

/// The two values in increasing order.
pub open spec fn unordered(x: usize, y: usize) -> (usize, usize) {
    if x <= y {
        (x, y)
    } else {
        (y, x)
    }
}

/// The unordered team pairs of the first `m` games that fall in week `w`.
pub open spec fn week_pairs_upto(c: &LeagueConfig, p: Seq<usize>, w: u32, m: int) -> Seq<(usize, usize)>
    decreases m,
{
    if m <= 0 {
        Seq::empty()
    } else {
        let prev = week_pairs_upto(c, p, w, m - 1);
        let g = structural_games(c)[m - 1];
        if sorted_weeks(c)[g.0 as int] == w {
            prev.push(
                unordered(canon(c, p[g.1 as int] as int) as usize, canon(c, p[g.2 as int] as int) as usize),
            )
        } else {
            prev
        }
    }
}

/// For each distinct week, the sorted unordered team pairs that meet: two
/// schedules with the same signature have the same matchups every week,
/// whoever hosts.
pub open spec fn signature(c: &LeagueConfig, p: Seq<usize>) -> Seq<Seq<(usize, usize)>> {
    Seq::new(
        distinct_weeks(c).len(),
        |j: int| sort_pairs(week_pairs_upto(c, p, distinct_weeks(c)[j], structural_games(c).len() as int)),
    )
}

/// One candidate schedule: a permutation with one host pattern.
pub struct Candidate {
    pub signature: Vec<Vec<(usize, usize)>>,
    pub score: i32,
    pub penalty: i32,
    pub bye_weeks: Vec<Option<u32>>,
    pub bye_detail: Vec<Option<i32>>,
    pub games: Vec<(u32, usize, usize)>,
}

/// The pair sequences held by a signature.
pub open spec fn signature_view(s: Seq<Vec<(usize, usize)>>) -> Seq<Seq<(usize, usize)>> {
    s.map_values(|v: Vec<(usize, usize)>| v@)
}

impl Candidate {
    /// The candidate is what permutation `p` with host pattern `bits` gives.
    pub open spec fn is_candidate(&self, c: &LeagueConfig, p: Seq<usize>, bits: u64) -> bool {
        &&& assigns_teams(p, c.teams@.len())
        &&& signature_view(self.signature@) == signature(c, p)
        &&& self.score as int == fairness_score(c, p)
        &&& self.penalty as int == streak_penalty(c, p, bits)
        &&& self.bye_weeks@ == bye_weeks(c, p)
        &&& self.bye_detail@ == Seq::new(c.teams@.len(), |t: int| detail_of(c, p, t))
        &&& self.games@ == placed_games(c, p, bits)
    }
}

/// The counters of a plan stay well inside `i32`.
pub open spec fn counts_fit(c: &LeagueConfig) -> bool {
    c.teams@.len() * (c.weeks@.len() + 2) <= i32::MAX
}


pub proof fn lemma_sort_u32_len(s: Seq<u32>)
    ensures
        sort_u32(s).len() == s.len(),
    decreases s.len(),
{
    if s.len() > 0 {
        lemma_sort_u32_len(s.drop_last());
        lemma_insert_u32_len(sort_u32(s.drop_last()), s.last());
    }
}

proof fn lemma_insert_u32_len(s: Seq<u32>, x: u32)
    ensures
        insert_u32(s, x).len() == s.len() + 1,
    decreases s.len(),
{
    if s.len() > 0 {
        lemma_insert_u32_len(s.drop_last(), x);
    }
}

pub proof fn lemma_dedup_len(s: Seq<u32>)
    ensures
        dedup_sorted(s).len() <= s.len(),
    decreases s.len(),
{
    if s.len() > 0 {
        lemma_dedup_len(s.drop_last());
    }
}

/// There are no more distinct weeks than weeks.
pub proof fn lemma_distinct_weeks_len(c: &LeagueConfig)
    ensures
        distinct_weeks(c).len() <= c.weeks@.len(),
        sorted_weeks(c).len() == c.weeks@.len(),
{
    lemma_sort_u32_len(c.weeks@);
    lemma_dedup_len(sorted_weeks(c));
}

/// The per-team bye weeks have one entry per team position.
pub proof fn lemma_bye_weeks_len(c: &LeagueConfig, plan: &Plan, p: Seq<usize>, wi: int)
    requires
        plan.describes(c),
        assigns_teams(p, c.teams@.len()),
        wi <= sorted_weeks(c).len(),
    ensures
        bye_weeks_upto(c, p, wi).len() == c.teams@.len(),
    decreases wi,
{
    if wi > 0 {
        lemma_bye_weeks_len(c, plan, p, wi - 1);
        match bye_labels(c)[wi - 1] {
            Some(li) => {
                assert(plan.byes@[wi - 1] == bye_labels(c)[wi - 1]);
                lemma_canon(c, p[li as int] as int);
            },
            None => {},
        }
    }
}

fn bye_weeks_exec(c: &LeagueConfig, plan: &Plan, p: &Vec<usize>) -> (r: Vec<Option<u32>>)
    requires
        plan.describes(c),
        assigns_teams(p@, c.teams@.len()),
    ensures
        r@ == bye_weeks(c, p@),
{
    let n = plan.n_teams;
    let mut bw: Vec<Option<u32>> = Vec::new();
    let mut t: usize = 0;
    while t < n
        invariant
            t <= n,
            bw@ == Seq::new(t as nat, |i: int| None::<u32>),
        decreases n - t,
    {
        bw.push(None);
        assert(bw@ =~= Seq::new((t + 1) as nat, |i: int| None::<u32>));
        t = t + 1;
    }
    assert(bw@ =~= bye_weeks_upto(c, p@, 0));
    let nw = plan.sorted_weeks.len();
    let mut wi: usize = 0;
    while wi < nw
        invariant
            wi <= nw,
            nw == plan.sorted_weeks@.len(),
            n == plan.n_teams,
            plan.describes(c),
            assigns_teams(p@, c.teams@.len()),
            bw@ == bye_weeks_upto(c, p@, wi as int),
        decreases nw - wi,
    {
        proof {
            lemma_bye_weeks_len(c, plan, p@, wi as int);
        }
        match plan.byes[wi] {
            Some(li) => {
                let pos = p[li];
                let who = plan.canon[pos];
                proof {
                    lemma_canon(c, pos as int);
                }
                bw.set(who, Some(plan.sorted_weeks[wi]));
            },
            None => {},
        }
        wi = wi + 1;
    }
    bw
}

fn vec_contains_u32(v: &Vec<u32>, x: u32) -> (r: bool)
    ensures
        r == v@.contains(x),
{
    let mut i: usize = 0;
    while i < v.len()
        invariant
            i <= v.len(),
            forall|j: int| 0 <= j < i ==> v@[j] != x,
        decreases v.len() - i,
    {
        if v[i] == x {
            return true;
        }
        i = i + 1;
    }
    false
}

fn byes_respected_exec(c: &LeagueConfig, plan: &Plan, p: Ghost<Seq<usize>>, bw: &Vec<Option<u32>>) -> (r: bool)
    requires
        plan.describes(c),
        assigns_teams(p@, c.teams@.len()),
        bw@ == bye_weeks(c, p@),
    ensures
        r == byes_respected(c, p@),
{
    proof {
        lemma_bye_weeks_len(c, plan, p@, sorted_weeks(c).len() as int);
    }
    let n = plan.n_teams;
    let mut t: usize = 0;
    while t < n
        invariant
            t <= n,
            n == c.teams@.len(),
            plan.describes(c),
            bw@ == bye_weeks(c, p@),
            bw@.len() == n,
            forall|q: int|
                0 <= q < t ==> match #[trigger] bye_weeks(c, p@)[q] {
                    Some(w) => !restriction_list(c, team_names(c)[q]).contains(w),
                    None => true,
                },
        decreases n - t,
    {
        match bw[t] {
            Some(w) => {
                if vec_contains_u32(&plan.restricted[t], w) {
                    assert(!match bye_weeks(c, p@)[t as int] {
                        Some(w) => !restriction_list(c, team_names(c)[t as int]).contains(w),
                        None => true,
                    });
                    return false;
                }
            },
            None => {},
        }
        t = t + 1;
    }
    true
}

fn score_exec(c: &LeagueConfig, plan: &Plan, p: Ghost<Seq<usize>>, bw: &Vec<Option<u32>>) -> (r: (i32, Vec<Option<i32>>))
    requires
        plan.describes(c),
        assigns_teams(p@, c.teams@.len()),
        counts_fit(c),
        bw@ == bye_weeks(c, p@),
    ensures
        r.0 as int == fairness_score(c, p@),
        r.1@ == Seq::new(c.teams@.len(), |t: int| detail_of(c, p@, t)),
{
    proof {
        lemma_bye_weeks_len(c, plan, p@, sorted_weeks(c).len() as int);
    }
    let n = plan.n_teams;
    assert(n * 2 <= i32::MAX) by (nonlinear_arith)
        requires
            n * (c.weeks@.len() + 2) <= i32::MAX,
    ;
    let mut score: i32 = 0;
    let mut detail: Vec<Option<i32>> = Vec::new();
    let mut i: usize = 0;
    while i < n
        invariant
            i <= n,
            n == c.teams@.len(),
            n * 2 <= i32::MAX,
            plan.describes(c),
            bw@ == bye_weeks(c, p@),
            bw@.len() == n,
            score as int == score_upto(c, p@, i as int),
            0 <= score <= 2 * i,
            detail@ == Seq::new(i as nat, |t: int| detail_of(c, p@, t)),
        decreases n - i,
    {
        proof {
            lemma_canon(c, i as int);
        }
        let mut s: i32 = 0;
        if !plan.excluded[i] {
            match bw[plan.canon[i]] {
                Some(w) => {
                    match plan.prefs[i] {
                        Some(pr) => {
                            if w == pr.0 {
                                s = 2;
                            } else if w == pr.1 {
                                s = 1;
                            }
                        },
                        None => {},
                    }
                },
                None => {},
            }
        }
        assert(s as int == team_score(c, p@, i as int));
        score = score + s;
        let d: Option<i32> = if plan.canon[i] != i {
            None
        } else if plan.excluded[i] {
            Some(-1i32)
        } else {
            match bw[i] {
                Some(_) => Some(s),
                None => None,
            }
        };
        assert(d == detail_of(c, p@, i as int));
        detail.push(d);
        assert(detail@ =~= Seq::new((i + 1) as nat, |t: int| detail_of(c, p@, t)));
        i = i + 1;
    }
    (score, detail)
}

fn signature_exec(c: &LeagueConfig, plan: &Plan, p: &Vec<usize>) -> (r: Vec<Vec<(usize, usize)>>)
    requires
        plan.describes(c),
        assigns_teams(p@, c.teams@.len()),
    ensures
        signature_view(r@) == signature(c, p@),
{
    let nd = plan.distinct_weeks.len();
    let ng = plan.games.len();
    let mut sig: Vec<Vec<(usize, usize)>> = Vec::new();
    let mut j: usize = 0;
    while j < nd
        invariant
            j <= nd,
            nd == distinct_weeks(c).len(),
            ng == structural_games(c).len(),
            plan.describes(c),
            assigns_teams(p@, c.teams@.len()),
            signature_view(sig@) == signature(c, p@).take(j as int),
        decreases nd - j,
    {
        let w = plan.distinct_weeks[j];
        let mut pairs: Vec<(usize, usize)> = Vec::new();
        let mut k: usize = 0;
        while k < ng
            invariant
                k <= ng,
                ng == structural_games(c).len(),
                plan.describes(c),
                assigns_teams(p@, c.teams@.len()),
                pairs@ == week_pairs_upto(c, p@, w, k as int),
            decreases ng - k,
        {
            let g = plan.games[k];
            assert(g == plan.games@[k as int]);
            assert(g.0 < plan.sorted_weeks@.len() && g.1 < plan.n_teams && g.2 < plan.n_teams);
            if plan.sorted_weeks[g.0] == w {
                let a = plan.canon[p[g.1]];
                let b = plan.canon[p[g.2]];
                let pr = if a <= b {
                    (a, b)
                } else {
                    (b, a)
                };
                pairs.push(pr);
            }
            k = k + 1;
        }
        let sorted = sort_pairs_exec(&pairs);
        let ghost before = sig@;
        sig.push(sorted);
        assert(signature_view(sig@) =~= signature(c, p@).take(j + 1)) by {
            assert(signature_view(sig@) =~= signature_view(before).push(sorted@));
        }
        j = j + 1;
    }
    assert(signature(c, p@).take(nd as int) =~= signature(c, p@));
    sig
}

fn placed_games_exec(c: &LeagueConfig, plan: &Plan, p: &Vec<usize>, bits: u64) -> (r: Vec<(u32, usize, usize)>)
    requires
        plan.describes(c),
        assigns_teams(p@, c.teams@.len()),
    ensures
        r@ == placed_games(c, p@, bits),
        forall|k: int| 0 <= k < r@.len() ==> #[trigger] r@[k].1 < c.teams@.len() && r@[k].2 < c.teams@.len(),
{
    let ng = plan.games.len();
    let mut out: Vec<(u32, usize, usize)> = Vec::new();
    let mut k: usize = 0;
    while k < ng
        invariant
            k <= ng,
            ng == structural_games(c).len(),
            ng < 64,
            plan.describes(c),
            assigns_teams(p@, c.teams@.len()),
            out@ == placed_games(c, p@, bits).take(k as int),
            forall|q: int| 0 <= q < out@.len() ==> #[trigger] out@[q].1 < c.teams@.len() && out@[q].2 < c.teams@.len(),
        decreases ng - k,
    {
        let g = plan.games[k];
        assert(g == plan.games@[k as int]);
        assert(plan.bounded());
        assert(games_in_range(plan.games@, plan.n_teams as nat, plan.sorted_weeks@.len()));
        assert(k < plan.games@.len());
        assert(plan.games@[k as int].0 < plan.sorted_weeks@.len());
        assert(g.0 < plan.sorted_weeks@.len() && g.1 < plan.n_teams && g.2 < plan.n_teams);
        let set = (bits >> (k as u64)) & 1u64 == 1u64;
        let (h, a) = if set {
            (g.2, g.1)
        } else {
            (g.1, g.2)
        };
        let item = (plan.sorted_weeks[g.0], p[h], p[a]);
        assert(item == placed_game(c, p@, bits, k as int));
        out.push(item);
        assert(out@ =~= placed_games(c, p@, bits).take(k + 1));
        k = k + 1;
    }
    assert(placed_games(c, p@, bits).take(ng as int) =~= placed_games(c, p@, bits));
    out
}

fn team_hosts_exec(
    c: &LeagueConfig,
    plan: &Plan,
    p: Ghost<Seq<usize>>,
    bits: Ghost<u64>,
    games: &Vec<(u32, usize, usize)>,
    t: usize,
    w: u64,
) -> (r: bool)
    requires
        plan.describes(c),
        games@ == placed_games(c, p@, bits@),
        forall|k: int| 0 <= k < games@.len() ==> #[trigger] games@[k].1 < c.teams@.len(),
    ensures
        r == team_hosts_in(c, p@, bits@, t as int, w as int),
{
    let mut k: usize = 0;
    while k < games.len()
        invariant
            k <= games.len(),
            plan.describes(c),
            games@ == placed_games(c, p@, bits@),
            forall|q: int| 0 <= q < games@.len() ==> #[trigger] games@[q].1 < c.teams@.len(),
            forall|q: int|
                0 <= q < k ==> !((#[trigger] placed_game(c, p@, bits@, q)).0 == w && canon(
                    c,
                    placed_game(c, p@, bits@, q).1 as int,
                ) == t),
        decreases games.len() - k,
    {
        let g = games[k];
        assert(g == placed_game(c, p@, bits@, k as int));
        if g.0 as u64 == w && plan.canon[g.1] == t {
            return true;
        }
        k = k + 1;
    }
    false
}

fn penalty_exec(
    c: &LeagueConfig,
    plan: &Plan,
    p: Ghost<Seq<usize>>,
    bits: Ghost<u64>,
    games: &Vec<(u32, usize, usize)>,
) -> (r: i32)
    requires
        plan.describes(c),
        counts_fit(c),
        games@ == placed_games(c, p@, bits@),
        forall|k: int| 0 <= k < games@.len() ==> #[trigger] games@[k].1 < c.teams@.len(),
    ensures
        r as int == streak_penalty(c, p@, bits@),
{
    let n = plan.n_teams;
    let nd = plan.distinct_weeks.len();
    proof {
        lemma_distinct_weeks_len(c);
        assert(n * nd <= i32::MAX) by (nonlinear_arith)
            requires
                n * (c.weeks@.len() + 2) <= i32::MAX,
                nd <= c.weeks@.len(),
        ;
    }
    assert(nd <= i32::MAX) by (nonlinear_arith)
        requires
            n * nd <= i32::MAX,
            n >= 2,
    ;
    let mut pen: i32 = 0;
    let mut t: usize = 0;
    while t < n
        invariant
            t <= n,
            n == c.teams@.len(),
            nd == distinct_weeks(c).len(),
            n * nd <= i32::MAX,
            nd <= i32::MAX,
            plan.describes(c),
            games@ == placed_games(c, p@, bits@),
            forall|k: int| 0 <= k < games@.len() ==> #[trigger] games@[k].1 < c.teams@.len(),
            pen as int == penalty_upto(c, p@, bits@, t as int),
            0 <= pen <= t * nd,
        decreases n - t,
    {
        let mut tp: i32 = 0;
        if plan.canon[t] == t {
            let mut j: usize = 0;
            while j < nd
                invariant
                    j <= nd,
                    t < n,
                    nd == distinct_weeks(c).len(),
                    nd <= i32::MAX,
                    plan.describes(c),
                    games@ == placed_games(c, p@, bits@),
                    forall|k: int| 0 <= k < games@.len() ==> #[trigger] games@[k].1 < c.teams@.len(),
                    tp as int == team_penalty_upto(c, p@, bits@, t as int, j as int),
                    0 <= tp <= j,
                decreases nd - j,
            {
                let w = plan.distinct_weeks[j] as u64;
                if team_hosts_exec(c, plan, p, bits, games, t, w) && team_hosts_exec(c, plan, p, bits, games, t, w + 1) {
                    tp = tp + 1;
                }
                j = j + 1;
            }
        }
        proof {
            assert((t + 1) * nd == t * nd + nd) by (nonlinear_arith);
            assert((t + 1) * nd <= n * nd) by (nonlinear_arith)
                requires
                    t + 1 <= n,
            ;
        }
        pen = pen + tp;
        t = t + 1;
    }
    pen
}

/// The candidate schedules of permutation `p` (label `l` played by the team
/// at position `p[l]`): none when some bye falls in a restricted week;
/// otherwise one per acceptable host pattern, in
/// the patterns' order.
pub fn permutation_candidates(c: &LeagueConfig, plan: &Plan, p: &Vec<usize>) -> (r: Vec<Candidate>)
    requires
        plan.describes(c),
        counts_fit(c),
        assigns_teams(p@, c.teams@.len()),
    ensures
        permutation_rejected(c, p@) ==> r@.len() == 0,
        !permutation_rejected(c, p@) ==> r@.len() == plan.valid_bits@.len() && forall|i: int|
            0 <= i < r@.len() ==> (#[trigger] r@[i]).is_candidate(c, p@, plan.valid_bits@[i]),
{
    let bw = bye_weeks_exec(c, plan, p);
    if !byes_respected_exec(c, plan, Ghost(p@), &bw) {
        return Vec::new();
    }
    let (score, detail) = score_exec(c, plan, Ghost(p@), &bw);
    let sig = signature_exec(c, plan, p);
    let mut out: Vec<Candidate> = Vec::new();
    let mut i: usize = 0;
    while i < plan.valid_bits.len()
        invariant
            i <= plan.valid_bits@.len(),
            plan.describes(c),
            counts_fit(c),
            assigns_teams(p@, c.teams@.len()),
            bw@ == bye_weeks(c, p@),
            score as int == fairness_score(c, p@),
            detail@ == Seq::new(c.teams@.len(), |t: int| detail_of(c, p@, t)),
            signature_view(sig@) == signature(c, p@),
            out@.len() == i,
            forall|q: int| 0 <= q < i ==> (#[trigger] out@[q]).is_candidate(c, p@, plan.valid_bits@[q]),
        decreases plan.valid_bits@.len() - i,
    {
        let bits = plan.valid_bits[i];
        let games = placed_games_exec(c, plan, p, bits);
        let penalty = penalty_exec(c, plan, Ghost(p@), Ghost(bits), &games);
        let cand = Candidate {
            signature: clone_signature(&sig),
            score,
            penalty,
            bye_weeks: clone_bye_weeks(&bw),
            bye_detail: clone_detail(&detail),
            games,
        };
        out.push(cand);
        i = i + 1;
    }
    out
}

pub fn clone_signature(s: &Vec<Vec<(usize, usize)>>) -> (r: Vec<Vec<(usize, usize)>>)
    ensures
        signature_view(r@) == signature_view(s@),
{
    let mut r: Vec<Vec<(usize, usize)>> = Vec::new();
    let mut i: usize = 0;
    while i < s.len()
        invariant
            i <= s.len(),
            signature_view(r@) == signature_view(s@).take(i as int),
        decreases s.len() - i,
    {
        let mut v: Vec<(usize, usize)> = Vec::new();
        let mut j: usize = 0;
        while j < s[i].len()
            invariant
                i < s.len(),
                j <= s@[i as int].len(),
                v@ == s@[i as int]@.take(j as int),
            decreases s@[i as int].len() - j,
        {
            v.push(s[i][j]);
            assert(v@ =~= s@[i as int]@.take(j + 1));
            j = j + 1;
        }
        assert(v@ =~= s@[i as int]@);
        let ghost before = r@;
        r.push(v);
        assert(signature_view(r@) =~= signature_view(s@).take(i + 1)) by {
            assert(signature_view(r@) =~= signature_view(before).push(v@));
        }
        i = i + 1;
    }
    assert(signature_view(s@).take(s.len() as int) =~= signature_view(s@));
    r
}

pub fn clone_bye_weeks(v: &Vec<Option<u32>>) -> (r: Vec<Option<u32>>)
    ensures
        r@ == v@,
{
    let mut r: Vec<Option<u32>> = Vec::new();
    let mut i: usize = 0;
    while i < v.len()
        invariant
            i <= v.len(),
            r@ == v@.take(i as int),
        decreases v.len() - i,
    {
        r.push(v[i]);
        assert(r@ =~= v@.take(i + 1));
        i = i + 1;
    }
    assert(v@.take(v.len() as int) =~= v@);
    r
}

pub fn clone_detail(v: &Vec<Option<i32>>) -> (r: Vec<Option<i32>>)
    ensures
        r@ == v@,
{
    let mut r: Vec<Option<i32>> = Vec::new();
    let mut i: usize = 0;
    while i < v.len()
        invariant
            i <= v.len(),
            r@ == v@.take(i as int),
        decreases v.len() - i,
    {
        r.push(v[i]);
        assert(r@ =~= v@.take(i + 1));
        i = i + 1;
    }
    assert(v@.take(v.len() as int) =~= v@);
    r
}

} // verus!
