//! Merging the candidates of all permutations: the first candidate of each
//! signature is kept, the kept ones are ordered by score (higher first) and
//! then penalty (lower first), keeping the earlier of equal ones first, and
//! the best five become named solutions.

use vstd::prelude::*;
use crate::config::LeagueConfig;
use crate::plan::{Plan, team_names, distinct_weeks, structural_games, sorted_weeks};
use crate::candidates::{
    Candidate, permutation_rejected, signature, signature_view, fairness_score,
    streak_penalty, detail_of, bye_weeks, placed_game, lemma_bye_weeks_len, clone_signature, clone_bye_weeks, clone_detail,
};
use crate::host_bits::valid_patterns_below;
use vstd::arithmetic::power2::pow2;

verus! {

/// The host patterns kept for `c`.
pub open spec fn host_patterns(c: &LeagueConfig) -> Seq<u64> {
    valid_patterns_below(structural_games(c), c.teams@.len(), sorted_weeks(c).len(), pow2(structural_games(c).len()))
}

/// The candidates of one permutation, as (permutation, pattern) keys.
pub open spec fn perm_keys(c: &LeagueConfig, p: Seq<usize>) -> Seq<(Seq<usize>, u64)> {
    if permutation_rejected(c, p) {
        Seq::empty()
    } else {
        host_patterns(c).map_values(|b: u64| (p, b))
    }
}

/// The candidates of all permutations, in order.
pub open spec fn candidate_keys(c: &LeagueConfig, perms: Seq<Seq<usize>>) -> Seq<(Seq<usize>, u64)>
    decreases perms.len(),
{
    if perms.len() == 0 {
        Seq::empty()
    } else {
        candidate_keys(c, perms.drop_last()) + perm_keys(c, perms.last())
    }
}

/// The keys with every candidate dropped whose signature an earlier one has.
pub open spec fn dedup_keys(c: &LeagueConfig, keys: Seq<(Seq<usize>, u64)>) -> Seq<(Seq<usize>, u64)>
    decreases keys.len(),
{
    if keys.len() == 0 {
        Seq::empty()
    } else {
        let r = dedup_keys(c, keys.drop_last());
        if exists|i: int| 0 <= i < r.len() && signature(c, #[trigger] r[i].0) == signature(c, keys.last().0) {
            r
        } else {
            r.push(keys.last())
        }
    }
}

/// Candidate `a` ranks strictly before `b`: a higher score, or an equal
/// score with a lower penalty.
pub open spec fn ranks_before(c: &LeagueConfig, a: (Seq<usize>, u64), b: (Seq<usize>, u64)) -> bool {
    fairness_score(c, a.0) > fairness_score(c, b.0) || (fairness_score(c, a.0) == fairness_score(c, b.0)
        && streak_penalty(c, a.0, a.1) < streak_penalty(c, b.0, b.1))
}

/// `x` placed into `s` after every key it does not rank before.
pub open spec fn insert_ranked(c: &LeagueConfig, s: Seq<(Seq<usize>, u64)>, x: (Seq<usize>, u64)) -> Seq<(Seq<usize>, u64)>
    decreases s.len(),
{
    if s.len() == 0 {
        seq![x]
    } else if ranks_before(c, x, s.last()) {
        insert_ranked(c, s.drop_last(), x).push(s.last())
    } else {
        s.push(x)
    }
}

/// `s` in rank order, equal candidates keeping their order.
pub open spec fn rank_sort(c: &LeagueConfig, s: Seq<(Seq<usize>, u64)>) -> Seq<(Seq<usize>, u64)>
    decreases s.len(),
{
    if s.len() == 0 {
        s
    } else {
        insert_ranked(c, rank_sort(c, s.drop_last()), s.last())
    }
}

/// At most the first five.
pub open spec fn first_five<T>(s: Seq<T>) -> Seq<T> {
    if s.len() <= 5 {
        s
    } else {
        s.take(5)
    }
}

/// The candidates that become solutions, best first.
pub open spec fn top_keys(c: &LeagueConfig, perms: Seq<Seq<usize>>) -> Seq<(Seq<usize>, u64)> {
    first_five(rank_sort(c, dedup_keys(c, candidate_keys(c, perms))))
}

/// The candidates `v` are those of `keys`, one for one.
pub open spec fn matches_keys(c: &LeagueConfig, v: Seq<Candidate>, keys: Seq<(Seq<usize>, u64)>) -> bool {
    v.len() == keys.len() && forall|j: int| 0 <= j < v.len() ==> (#[trigger] v[j]).is_candidate(c, keys[j].0, keys[j].1)
}

/// One ranked schedule, with team names.
pub struct Solution {
    /// 1-based rank (1 is best).
    pub rank: usize,
    /// Fairness score over all teams.
    pub score: i32,
    /// Hosting-streak penalty.
    pub penalty: i32,
    /// Per team: 2 first choice, 1 second choice, 0 neither, -1 excluded.
    pub bye_detail: Vec<(String, i32)>,
    /// The week each team has its bye.
    pub bye_assignment: Vec<(String, u32)>,
    /// Per week, the games as (host, away).
    pub schedule: Vec<(u32, Vec<(String, String)>)>,
}

/// How a team's breakdown value reads.
#[derive(Clone, Copy, Debug, PartialEq, Eq, Structural)]
pub enum ByeMark {
    /// Left out of the score (-1).
    Excluded,
    /// Bye in its first choice (2).
    FirstChoice,
    /// Bye in its second choice (1).
    SecondChoice,
    /// Any other value.
    NoPreference,
}

/// The reading of breakdown value `v`.
pub open spec fn bye_mark_of(v: i32) -> ByeMark {
    if v == -1 {
        ByeMark::Excluded
    } else if v == 2 {
        ByeMark::FirstChoice
    } else if v == 1 {
        ByeMark::SecondChoice
    } else {
        ByeMark::NoPreference
    }
}

/// The reading of breakdown value `v`: -1 excluded, 2 first choice, 1
/// second choice, anything else no preference met.
pub fn bye_mark(v: i32) -> (m: ByeMark)
    ensures
        m == bye_mark_of(v),
{
    if v == -1 {
        ByeMark::Excluded
    } else if v == 2 {
        ByeMark::FirstChoice
    } else if v == 1 {
        ByeMark::SecondChoice
    } else {
        ByeMark::NoPreference
    }
}

/// The detail entries of the teams first named below position `m`.
pub open spec fn detail_entries(c: &LeagueConfig, p: Seq<usize>, m: int) -> Seq<(Seq<char>, i32)>
    decreases m,
{
    if m <= 0 {
        Seq::empty()
    } else {
        let prev = detail_entries(c, p, m - 1);
        match detail_of(c, p, m - 1) {
            Some(v) => prev.push((team_names(c)[m - 1], v)),
            None => prev,
        }
    }
}

/// The bye weeks of the teams first named below position `m`.
pub open spec fn bye_entries(c: &LeagueConfig, p: Seq<usize>, m: int) -> Seq<(Seq<char>, u32)>
    decreases m,
{
    if m <= 0 {
        Seq::empty()
    } else {
        let prev = bye_entries(c, p, m - 1);
        match bye_weeks(c, p)[m - 1] {
            Some(w) => prev.push((team_names(c)[m - 1], w)),
            None => prev,
        }
    }
}

/// The named (host, away) games among the first `m` placed games that fall in week `w`.
pub open spec fn week_games_upto(c: &LeagueConfig, p: Seq<usize>, bits: u64, w: u32, m: int) -> Seq<(Seq<char>, Seq<char>)>
    decreases m,
{
    if m <= 0 {
        Seq::empty()
    } else {
        let prev = week_games_upto(c, p, bits, w, m - 1);
        let g = placed_game(c, p, bits, m - 1);
        if g.0 == w {
            prev.push((team_names(c)[g.1 as int], team_names(c)[g.2 as int]))
        } else {
            prev
        }
    }
}

/// Each distinct week with its named games.
pub open spec fn named_schedule(c: &LeagueConfig, p: Seq<usize>, bits: u64) -> Seq<(u32, Seq<(Seq<char>, Seq<char>)>)> {
    Seq::new(
        distinct_weeks(c).len(),
        |j: int| (distinct_weeks(c)[j], week_games_upto(c, p, bits, distinct_weeks(c)[j], structural_games(c).len() as int)),
    )
}

pub open spec fn detail_view(v: Seq<(String, i32)>) -> Seq<(Seq<char>, i32)> {
    v.map_values(|e: (String, i32)| (e.0@, e.1))
}

pub open spec fn bye_view(v: Seq<(String, u32)>) -> Seq<(Seq<char>, u32)> {
    v.map_values(|e: (String, u32)| (e.0@, e.1))
}

pub open spec fn games_view(v: Seq<(String, String)>) -> Seq<(Seq<char>, Seq<char>)> {
    v.map_values(|e: (String, String)| (e.0@, e.1@))
}

pub open spec fn schedule_view(v: Seq<(u32, Vec<(String, String)>)>) -> Seq<(u32, Seq<(Seq<char>, Seq<char>)>)> {
    v.map_values(|e: (u32, Vec<(String, String)>)| (e.0, games_view(e.1@)))
}

impl Solution {
    /// The solution is candidate `key` at rank `rank`, with team names.
    pub open spec fn is_solution(&self, c: &LeagueConfig, key: (Seq<usize>, u64), rank: int) -> bool {
        &&& self.rank == rank
        &&& self.score as int == fairness_score(c, key.0)
        &&& self.penalty as int == streak_penalty(c, key.0, key.1)
        &&& detail_view(self.bye_detail@) == detail_entries(c, key.0, c.teams@.len() as int)
        &&& bye_view(self.bye_assignment@) == bye_entries(c, key.0, c.teams@.len() as int)
        &&& schedule_view(self.schedule@) == named_schedule(c, key.0, key.1)
    }
}


/// The permutations held by a vector of index vectors.
pub open spec fn perms_view(v: Seq<Vec<usize>>) -> Seq<Seq<usize>> {
    v.map_values(|x: Vec<usize>| x@)
}

fn same_signature(a: &Vec<Vec<(usize, usize)>>, b: &Vec<Vec<(usize, usize)>>) -> (r: bool)
    ensures
        r == (signature_view(a@) == signature_view(b@)),
{
    if a.len() != b.len() {
        assert(signature_view(a@).len() != signature_view(b@).len());
        return false;
    }
    let mut i: usize = 0;
    while i < a.len()
        invariant
            i <= a.len(),
            a.len() == b.len(),
            forall|q: int| 0 <= q < i ==> a@[q]@ == b@[q]@,
        decreases a.len() - i,
    {
        let x = &a[i];
        let y = &b[i];
        if x.len() != y.len() {
            assert(signature_view(a@)[i as int] != signature_view(b@)[i as int]);
            return false;
        }
        let mut j: usize = 0;
        while j < x.len()
            invariant
                j <= x.len(),
                x.len() == y.len(),
                i < a.len(),
                a.len() == b.len(),
                x@ == a@[i as int]@,
                y@ == b@[i as int]@,
                forall|q: int| 0 <= q < j ==> x@[q] == y@[q],
            decreases x.len() - j,
        {
            if x[j].0 != y[j].0 || x[j].1 != y[j].1 {
                assert(signature_view(a@)[i as int][j as int] != signature_view(b@)[i as int][j as int]);
                return false;
            }
            j = j + 1;
        }
        assert(x@ =~= y@);
        i = i + 1;
    }
    assert(signature_view(a@) =~= signature_view(b@));
    true
}

fn clone_games(v: &Vec<(u32, usize, usize)>) -> (r: Vec<(u32, usize, usize)>)
    ensures
        r@ == v@,
{
    let mut r: Vec<(u32, usize, usize)> = Vec::new();
    let mut i: usize = 0;
    while i < v.len()
        invariant
            i <= v.len(),
            r@ == v@.take(i as int),
        decreases v.len() - i,
    {
        r.push(v[i]);
        assert(r@ =~= v@.take(i + 1));
        i = i + 1;
    }
    assert(v@.take(v.len() as int) =~= v@);
    r
}

fn clone_candidate(x: &Candidate) -> (r: Candidate)
    ensures
        signature_view(r.signature@) == signature_view(x.signature@),
        r.score == x.score,
        r.penalty == x.penalty,
        r.bye_weeks@ == x.bye_weeks@,
        r.bye_detail@ == x.bye_detail@,
        r.games@ == x.games@,
{
    Candidate {
        signature: clone_signature(&x.signature),
        score: x.score,
        penalty: x.penalty,
        bye_weeks: clone_bye_weeks(&x.bye_weeks),
        bye_detail: clone_detail(&x.bye_detail),
        games: clone_games(&x.games),
    }
}

proof fn lemma_candidate_keys_step(c: &LeagueConfig, perms: Seq<Seq<usize>>, i: int)
    requires
        0 <= i < perms.len(),
    ensures
        candidate_keys(c, perms.take(i + 1)) == candidate_keys(c, perms.take(i)) + perm_keys(c, perms[i]),
{
    assert(perms.take(i + 1).drop_last() =~= perms.take(i));
}

fn dedup_candidates(c: &LeagueConfig, perms: &Vec<Vec<usize>>, per_perm: &Vec<Vec<Candidate>>) -> (kept: Vec<Candidate>)
    requires
        per_perm@.len() == perms@.len(),
        forall|i: int| 0 <= i < perms@.len() ==> matches_keys(c, (#[trigger] per_perm@[i])@, perm_keys(c, perms@[i]@)),
    ensures
        matches_keys(c, kept@, dedup_keys(c, candidate_keys(c, perms_view(perms@)))),
{
    let ghost pv = perms_view(perms@);
    let mut kept: Vec<Candidate> = Vec::new();
    let mut i: usize = 0;
    while i < per_perm.len()
        invariant
            i <= per_perm@.len(),
            per_perm@.len() == perms@.len(),
            pv == perms_view(perms@),
            forall|q: int| 0 <= q < perms@.len() ==> matches_keys(c, (#[trigger] per_perm@[q])@, perm_keys(c, perms@[q]@)),
            matches_keys(c, kept@, dedup_keys(c, candidate_keys(c, pv.take(i as int)))),
        decreases per_perm@.len() - i,
    {
        let cands = &per_perm[i];
        let ghost base = candidate_keys(c, pv.take(i as int));
        let ghost pk = perm_keys(c, pv[i as int]);
        assert(pv[i as int] == perms@[i as int]@);
        assert(matches_keys(c, cands@, pk));
        let mut j: usize = 0;
        while j < cands.len()
            invariant
                j <= cands@.len(),
                matches_keys(c, cands@, pk),
                matches_keys(c, kept@, dedup_keys(c, base + pk.take(j as int))),
            decreases cands@.len() - j,
        {
            let x = &cands[j];
            let ghost dk = dedup_keys(c, base + pk.take(j as int));
            let ghost key = pk[j as int];
            assert((base + pk.take(j + 1)).drop_last() =~= base + pk.take(j as int));
            assert((base + pk.take(j + 1)).last() == key);
            let mut dup = false;
            let mut q: usize = 0;
            while q < kept.len()
                invariant
                    q <= kept@.len(),
                    matches_keys(c, kept@, dk),
                    x.is_candidate(c, key.0, key.1),
                    dup == exists|r: int| 0 <= r < q && signature(c, #[trigger] dk[r].0) == signature(c, key.0),
                decreases kept@.len() - q,
            {
                assert(kept@[q as int].is_candidate(c, dk[q as int].0, dk[q as int].1));
                if same_signature(&kept[q].signature, &x.signature) {
                    dup = true;
                }
                q = q + 1;
            }
            if !dup {
                let y = clone_candidate(x);
                let ghost before = kept@;
                kept.push(y);
                assert(matches_keys(c, kept@, dk.push(key))) by {
                    assert forall|r: int| 0 <= r < kept@.len() implies (#[trigger] kept@[r]).is_candidate(
                        c,
                        dk.push(key)[r].0,
                        dk.push(key)[r].1,
                    ) by {
                        if r < before.len() {
                            assert(kept@[r] == before[r]);
                        }
                    }
                }
            }
            j = j + 1;
        }
        proof {
            assert(pk.take(cands@.len() as int) =~= pk);
            lemma_candidate_keys_step(c, pv, i as int);
        }
        i = i + 1;
    }
    assert(pv.take(per_perm@.len() as int) =~= pv);
    kept
}

fn ranks_before_exec(x: &Candidate, y: &Candidate) -> (r: bool)
    ensures
        r == (x.score > y.score || (x.score == y.score && x.penalty < y.penalty)),
{
    x.score > y.score || (x.score == y.score && x.penalty < y.penalty)
}

proof fn lemma_take_last_key(s: Seq<(Seq<usize>, u64)>, j: int)
    requires
        0 < j <= s.len(),
    ensures
        s.take(j).drop_last() == s.take(j - 1),
        s.take(j).last() == s[j - 1],
        s.skip(j - 1) == seq![s[j - 1]] + s.skip(j),
{
    assert(s.take(j).drop_last() =~= s.take(j - 1));
    assert(s.skip(j - 1) =~= seq![s[j - 1]] + s.skip(j));
}

fn insert_ranked_exec(
    c: &LeagueConfig,
    v: &mut Vec<Candidate>,
    x: Candidate,
    s: Ghost<Seq<(Seq<usize>, u64)>>,
    key: Ghost<(Seq<usize>, u64)>,
)
    requires
        matches_keys(c, old(v)@, s@),
        x.is_candidate(c, key@.0, key@.1),
    ensures
        matches_keys(c, final(v)@, insert_ranked(c, s@, key@)),
{
    let ghost s = s@;
    let ghost key = key@;
    let mut pos: usize = v.len();
    assert(s.take(pos as int) =~= s);
    assert(s.skip(pos as int) =~= Seq::<(Seq<usize>, u64)>::empty());
    while pos > 0 && ranks_before_exec(&x, &v[pos - 1])
        invariant
            pos <= v@.len(),
            matches_keys(c, v@, s),
            x.is_candidate(c, key.0, key.1),
            insert_ranked(c, s, key) == insert_ranked(c, s.take(pos as int), key) + s.skip(pos as int),
        decreases pos,
    {
        proof {
            lemma_take_last_key(s, pos as int);
            assert(v@[pos - 1].is_candidate(c, s[pos - 1].0, s[pos - 1].1));
            assert(ranks_before(c, key, s[pos - 1]));
            assert(insert_ranked(c, s.take(pos as int), key) == insert_ranked(c, s.take(pos - 1), key).push(s[pos - 1]));
            assert(insert_ranked(c, s.take(pos - 1), key).push(s[pos - 1]) + s.skip(pos as int) =~= insert_ranked(
                c,
                s.take(pos - 1),
                key,
            ) + s.skip(pos - 1));
        }
        pos = pos - 1;
    }
    proof {
        if pos > 0 {
            lemma_take_last_key(s, pos as int);
            assert(v@[pos - 1].is_candidate(c, s[pos - 1].0, s[pos - 1].1));
            assert(!ranks_before(c, key, s.take(pos as int).last()));
        }
        assert(insert_ranked(c, s.take(pos as int), key) =~= s.take(pos as int).push(key));
    }
    let ghost before = v@;
    v.insert(pos, x);
    proof {
        let target = insert_ranked(c, s, key);
        assert(target =~= s.take(pos as int).push(key) + s.skip(pos as int));
        assert(v@ == before.insert(pos as int, x));
        assert forall|r: int| 0 <= r < v@.len() implies (#[trigger] v@[r]).is_candidate(c, target[r].0, target[r].1) by {
            if r < pos {
                assert(v@[r] == before[r]);
                assert(target[r] == s[r]);
            } else if r == pos {
                assert(v@[r] == x);
            } else {
                assert(v@[r] == before[r - 1]);
                assert(target[r] == s[r - 1]);
            }
        }
    }
}

fn rank_sort_exec(c: &LeagueConfig, v: &Vec<Candidate>, keys: Ghost<Seq<(Seq<usize>, u64)>>) -> (r: Vec<Candidate>)
    requires
        matches_keys(c, v@, keys@),
    ensures
        matches_keys(c, r@, rank_sort(c, keys@)),
{
    let ghost keys = keys@;
    let mut r: Vec<Candidate> = Vec::new();
    let mut i: usize = 0;
    while i < v.len()
        invariant
            i <= v@.len(),
            matches_keys(c, v@, keys),
            matches_keys(c, r@, rank_sort(c, keys.take(i as int))),
        decreases v@.len() - i,
    {
        proof {
            lemma_take_last_key(keys, (i + 1) as int);
            assert(v@[i as int].is_candidate(c, keys[i as int].0, keys[i as int].1));
        }
        let y = clone_candidate(&v[i]);
        insert_ranked_exec(c, &mut r, y, Ghost(rank_sort(c, keys.take(i as int))), Ghost(keys[i as int]));
        i = i + 1;
    }
    assert(keys.take(v@.len() as int) =~= keys);
    r
}


fn make_solution(c: &LeagueConfig, plan: &Plan, x: &Candidate, key: Ghost<(Seq<usize>, u64)>, rank: usize) -> (r: Solution)
    requires
        plan.describes(c),
        x.is_candidate(c, key@.0, key@.1),
    ensures
        r.is_solution(c, key@, rank as int),
{
    let ghost p = key@.0;
    let ghost bits = key@.1;
    let n = plan.n_teams;
    proof {
        lemma_bye_weeks_len(c, plan, p, sorted_weeks(c).len() as int);
    }
    let mut detail: Vec<(String, i32)> = Vec::new();
    let mut byes: Vec<(String, u32)> = Vec::new();
    let mut t: usize = 0;
    while t < n
        invariant
            t <= n,
            n == c.teams@.len(),
            x.is_candidate(c, p, bits),
            x.bye_weeks@.len() == n,
            detail_view(detail@) == detail_entries(c, p, t as int),
            bye_view(byes@) == bye_entries(c, p, t as int),
        decreases n - t,
    {
        assert(x.bye_detail@[t as int] == detail_of(c, p, t as int));
        match x.bye_detail[t] {
            Some(v) => {
                let ghost before = detail@;
                detail.push((c.teams[t].clone(), v));
                assert(detail_view(detail@) =~= detail_view(before).push((team_names(c)[t as int], v)));
            },
            None => {},
        }
        match x.bye_weeks[t] {
            Some(w) => {
                let ghost before = byes@;
                byes.push((c.teams[t].clone(), w));
                assert(bye_view(byes@) =~= bye_view(before).push((team_names(c)[t as int], w)));
            },
            None => {},
        }
        t = t + 1;
    }
    let nd = plan.distinct_weeks.len();
    let ng = x.games.len();
    let mut sched: Vec<(u32, Vec<(String, String)>)> = Vec::new();
    let mut j: usize = 0;
    while j < nd
        invariant
            j <= nd,
            nd == distinct_weeks(c).len(),
            plan.describes(c),
            x.is_candidate(c, p, bits),
            ng == structural_games(c).len(),
            schedule_view(sched@) == named_schedule(c, p, bits).take(j as int),
        decreases nd - j,
    {
        let w = plan.distinct_weeks[j];
        let mut list: Vec<(String, String)> = Vec::new();
        let mut k: usize = 0;
        while k < ng
            invariant
                k <= ng,
                ng == structural_games(c).len(),
                plan.describes(c),
                x.is_candidate(c, p, bits),
                games_view(list@) == week_games_upto(c, p, bits, w, k as int),
            decreases ng - k,
        {
            let g = x.games[k];
            assert(g == placed_game(c, p, bits, k as int));
            proof {
                let sg = structural_games(c)[k as int];
                assert(plan.games@[k as int] == sg);
                assert(plan.bounded());
                assert(sg.1 < c.teams@.len() && sg.2 < c.teams@.len()) by {
                    assert(crate::host_bits::games_in_range(plan.games@, plan.n_teams as nat, plan.sorted_weeks@.len()));
                    assert(plan.games@[k as int].1 < plan.n_teams);
                }
            }
            if g.0 == w {
                let ghost before = list@;
                list.push((c.teams[g.1].clone(), c.teams[g.2].clone()));
                assert(games_view(list@) =~= games_view(before).push((team_names(c)[g.1 as int], team_names(c)[g.2 as int])));
            }
            k = k + 1;
        }
        let ghost before = sched@;
        sched.push((w, list));
        assert(schedule_view(sched@) =~= named_schedule(c, p, bits).take(j + 1)) by {
            assert(schedule_view(sched@) =~= schedule_view(before).push((w, games_view(list@))));
        }
        j = j + 1;
    }
    assert(named_schedule(c, p, bits).take(nd as int) =~= named_schedule(c, p, bits));
    Solution { rank, score: x.score, penalty: x.penalty, bye_detail: detail, bye_assignment: byes, schedule: sched }
}

/// Merge the candidates of every permutation (`per_perm[i]` being those of
/// `perms[i]`): keep the first candidate of each signature, order the kept
/// ones by score (higher first) then penalty (lower first) with equal ones in
/// their incoming order, and name the best five, ranked from 1.
pub fn rank_candidates(c: &LeagueConfig, plan: &Plan, perms: &Vec<Vec<usize>>, per_perm: &Vec<Vec<Candidate>>) -> (sols: Vec<Solution>)
    requires
        plan.describes(c),
        per_perm@.len() == perms@.len(),
        forall|i: int| 0 <= i < perms@.len() ==> matches_keys(c, (#[trigger] per_perm@[i])@, perm_keys(c, perms@[i]@)),
    ensures
        sols@.len() == top_keys(c, perms_view(perms@)).len(),
        forall|i: int| 0 <= i < sols@.len() ==> (#[trigger] sols@[i]).is_solution(c, top_keys(c, perms_view(perms@))[i], i + 1),
{
    let kept = dedup_candidates(c, perms, per_perm);
    let ghost dk = dedup_keys(c, candidate_keys(c, perms_view(perms@)));
    let sorted = rank_sort_exec(c, &kept, Ghost(dk));
    let ghost rk = rank_sort(c, dk);
    let ghost top = top_keys(c, perms_view(perms@));
    assert(top == first_five(rk));
    let count = if sorted.len() < 5 { sorted.len() } else { 5 };
    assert(top.len() == count);
    let mut sols: Vec<Solution> = Vec::new();
    let mut i: usize = 0;
    while i < count
        invariant
            i <= count,
            count <= sorted@.len(),
            count == top.len(),
            plan.describes(c),
            matches_keys(c, sorted@, rk),
            top == first_five(rk),
            sols@.len() == i,
            forall|q: int| 0 <= q < i ==> (#[trigger] sols@[q]).is_solution(c, top[q], q + 1),
        decreases count - i,
    {
        assert(sorted@[i as int].is_candidate(c, rk[i as int].0, rk[i as int].1));
        assert(top[i as int] == rk[i as int]);
        let sol = make_solution(c, plan, &sorted[i], Ghost(rk[i as int]), i + 1);
        sols.push(sol);
        i = i + 1;
    }
    sols
}

} // verus!
