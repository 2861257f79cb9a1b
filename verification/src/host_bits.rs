//! Enumeration of host-assignment bit patterns over the structural
//! (label-indexed) form of a base schedule.
//!
//! A game is a triple `(week_index, first_label, second_label)`.  Bit `k` of a
//! pattern decides who hosts game `k`: bit clear means the first label hosts,
//! bit set means the second label hosts.

use vstd::prelude::*;
use vstd::arithmetic::power2::pow2;
use vstd::bits::lemma_u64_shl_is_mul;
use vstd::bits::lemma_u64_pow2_no_overflow;

verus! {

/// Whether bit `k` of `bits` is set.
pub open spec fn host_bit(bits: u64, k: int) -> bool {
    (bits >> (k as u64)) & 1u64 == 1u64
}

/// The label that hosts game `g` (the `k`-th game) under pattern `bits`.
pub open spec fn host_label(g: (usize, usize, usize), bits: u64, k: int) -> usize {
    if host_bit(bits, k) { g.2 } else { g.1 }
}

/// How many of the first `upto` games `label` hosts under `bits`.
pub open spec fn hosted_count(games: Seq<(usize, usize, usize)>, bits: u64, label: usize, upto: int) -> nat
    decreases upto,
{
    if upto <= 0 {
        0
    } else {
        hosted_count(games, bits, label, upto - 1) + (if host_label(games[upto - 1], bits, upto - 1) == label {
            1nat
        } else {
            0nat
        })
    }
}

/// Every label hosts between `floor(games / teams)` and one more than that.
pub open spec fn is_balanced(games: Seq<(usize, usize, usize)>, n_teams: nat, bits: u64) -> bool {
    let min_hosts = games.len() / n_teams;
    forall|label: usize|
        label < n_teams ==> min_hosts <= #[trigger] hosted_count(games, bits, label, games.len() as int)
            <= min_hosts + 1
}

/// `label` hosts at least one game in week index `wi` under `bits`.
pub open spec fn hosts_in_week(games: Seq<(usize, usize, usize)>, bits: u64, label: usize, wi: int) -> bool {
    exists|k: int| 0 <= k < games.len() && games[k].0 == wi && #[trigger] host_label(games[k], bits, k) == label
}

/// `label` hosts in three consecutive week indices.
pub open spec fn has_long_streak(games: Seq<(usize, usize, usize)>, n_weeks: nat, bits: u64, label: usize) -> bool {
    exists|wi: int|
        0 <= wi && wi + 2 < n_weeks && #[trigger] hosts_in_week(games, bits, label, wi) && hosts_in_week(
            games,
            bits,
            label,
            wi + 1,
        ) && hosts_in_week(games, bits, label, wi + 2)
}

/// A pattern is kept when it is balanced and no label hosts three weeks running.
pub open spec fn pattern_ok(games: Seq<(usize, usize, usize)>, n_teams: nat, n_weeks: nat, bits: u64) -> bool {
    &&& is_balanced(games, n_teams, bits)
    &&& forall|label: usize| label < n_teams ==> !#[trigger] has_long_streak(games, n_weeks, bits, label)
}

/// The acceptable patterns below `limit`, in increasing order.
pub open spec fn valid_patterns_below(
    games: Seq<(usize, usize, usize)>,
    n_teams: nat,
    n_weeks: nat,
    limit: nat,
) -> Seq<u64>
    decreases limit,
{
    if limit == 0 {
        Seq::empty()
    } else {
        let prev = valid_patterns_below(games, n_teams, n_weeks, (limit - 1) as nat);
        if pattern_ok(games, n_teams, n_weeks, (limit - 1) as u64) {
            prev.push((limit - 1) as u64)
        } else {
            prev
        }
    }
}

/// The games are well-formed for `n_teams` labels over `n_weeks` week slots.
pub open spec fn games_in_range(games: Seq<(usize, usize, usize)>, n_teams: nat, n_weeks: nat) -> bool {
    forall|k: int|
        0 <= k < games.len() ==> #[trigger] games[k].0 < n_weeks && games[k].1 < n_teams && games[k].2
            < n_teams
}

/// Length of the run of consecutive hosting weeks that ends just before `wi`.
pub open spec fn run_before(games: Seq<(usize, usize, usize)>, bits: u64, label: usize, wi: int) -> nat
    decreases wi,
{
    if wi <= 0 {
        0
    } else if hosts_in_week(games, bits, label, wi - 1) {
        run_before(games, bits, label, wi - 1) + 1
    } else {
        0
    }
}

fn count_hosted(games: &Vec<(usize, usize, usize)>, bits: u64, label: usize) -> (r: usize)
    requires
        games.len() < 64,
    ensures
        r == hosted_count(games@, bits, label, games@.len() as int),
{
    let mut count: usize = 0;
    let mut k: usize = 0;
    while k < games.len()
        invariant
            k <= games.len(),
            games.len() < 64,
            count == hosted_count(games@, bits, label, k as int),
            count <= k,
        decreases games.len() - k,
    {
        let g = games[k];
        let host = if (bits >> (k as u64)) & 1u64 == 1u64 {
            g.2
        } else {
            g.1
        };
        if host == label {
            count = count + 1;
        }
        k = k + 1;
    }
    count
}

fn hosts_in_week_exec(games: &Vec<(usize, usize, usize)>, bits: u64, label: usize, wi: usize) -> (r: bool)
    requires
        games.len() < 64,
    ensures
        r == hosts_in_week(games@, bits, label, wi as int),
{
    let mut k: usize = 0;
    while k < games.len()
        invariant
            k <= games.len(),
            games.len() < 64,
            forall|j: int|
                0 <= j < k ==> !(games@[j].0 == wi && #[trigger] host_label(games@[j], bits, j) == label),
        decreases games.len() - k,
    {
        let g = games[k];
        let host = if (bits >> (k as u64)) & 1u64 == 1u64 {
            g.2
        } else {
            g.1
        };
        if g.0 == wi && host == label {
            assert(host_label(games@[k as int], bits, k as int) == label);
            return true;
        }
        k = k + 1;
    }
    false
}

fn label_has_long_streak(games: &Vec<(usize, usize, usize)>, bits: u64, label: usize, n_weeks: usize) -> (r: bool)
    requires
        games.len() < 64,
    ensures
        r == has_long_streak(games@, n_weeks as nat, bits, label),
{
    let mut streak: u32 = 0;
    let mut wi: usize = 0;
    while wi < n_weeks
        invariant
            wi <= n_weeks,
            games.len() < 64,
            streak == run_before(games@, bits, label, wi as int),
            streak < 3,
            forall|j: int|
                0 <= j && j + 2 < wi ==> !(#[trigger] hosts_in_week(games@, bits, label, j) && hosts_in_week(
                    games@,
                    bits,
                    label,
                    j + 1,
                ) && hosts_in_week(games@, bits, label, j + 2)),
        decreases n_weeks - wi,
    {
        let here = hosts_in_week_exec(games, bits, label, wi);
        proof {
            reveal_with_fuel(run_before, 3);
        }
        if here {
            streak = streak + 1;
            if streak >= 3 {
                assert(hosts_in_week(games@, bits, label, wi - 2));
                assert(hosts_in_week(games@, bits, label, wi - 1));
                assert(hosts_in_week(games@, bits, label, (wi - 2) + 2));
                return true;
            }
        } else {
            streak = 0;
        }
        proof {
            if wi >= 2 && hosts_in_week(games@, bits, label, wi - 2) && hosts_in_week(games@, bits, label, wi - 1)
                && here {
                assert(run_before(games@, bits, label, wi as int) >= 2);
            }
        }
        wi = wi + 1;
    }
    proof {
        assert forall|j: int|
            0 <= j && j + 2 < n_weeks implies !(#[trigger] hosts_in_week(games@, bits, label, j) && hosts_in_week(
                games@,
                bits,
                label,
                j + 1,
            ) && hosts_in_week(games@, bits, label, j + 2)) by {}
    }
    false
}

fn pattern_ok_exec(games: &Vec<(usize, usize, usize)>, n_teams: usize, n_weeks: usize, bits: u64) -> (r: bool)
    requires
        games.len() < 64,
        n_teams > 0,
    ensures
        r == pattern_ok(games@, n_teams as nat, n_weeks as nat, bits),
{
    let n = games.len();
    let min_hosts = n / n_teams;
    let max_hosts = min_hosts + 1;
    let mut label: usize = 0;
    while label < n_teams
        invariant
            label <= n_teams,
            n_teams > 0,
            games.len() < 64,
            n == games.len(),
            min_hosts == n / n_teams,
            max_hosts == min_hosts + 1,
            forall|l: usize|
                l < label ==> min_hosts <= #[trigger] hosted_count(games@, bits, l, games@.len() as int)
                    <= max_hosts,
        decreases n_teams - label,
    {
        let hosted = count_hosted(games, bits, label);
        if hosted < min_hosts || hosted > max_hosts {
            return false;
        }
        label = label + 1;
    }
    let mut label: usize = 0;
    while label < n_teams
        invariant
            label <= n_teams,
            games.len() < 64,
            forall|l: usize| l < label ==> !#[trigger] has_long_streak(games@, n_weeks as nat, bits, l),
        decreases n_teams - label,
    {
        if label_has_long_streak(games, bits, label, n_weeks) {
            return false;
        }
        label = label + 1;
    }
    true
}

/// Enumerate every host pattern over the games that keeps hosting balanced and
/// never lets a label host three weeks in a row, in increasing numeric order.
///
/// Because the patterns depend only on which labels play which week, the
/// result is shared by every assignment of teams to labels.
pub fn structural_host_bits(games_struct: &Vec<(usize, usize, usize)>, n_teams: usize, n_weeks: usize) -> (valid: Vec<u64>)
    requires
        games_struct.len() < 64,
        n_teams > 0,
        games_in_range(games_struct@, n_teams as nat, n_weeks as nat),
    ensures
        valid@ == valid_patterns_below(games_struct@, n_teams as nat, n_weeks as nat, pow2(games_struct@.len())),
{
    let n = games_struct.len();
    let limit: u64 = 1u64 << (n as u64);
    proof {
        lemma_u64_pow2_no_overflow(n as nat);
        lemma_u64_shl_is_mul(1u64, n as u64);
    }
    let mut valid_bits: Vec<u64> = Vec::new();
    let mut bits: u64 = 0;
    while bits < limit
        invariant
            bits <= limit,
            limit == pow2(n as nat),
            n == games_struct.len(),
            n < 64,
            n_teams > 0,
            valid_bits@ == valid_patterns_below(games_struct@, n_teams as nat, n_weeks as nat, bits as nat),
        decreases limit - bits,
    {
        if pattern_ok_exec(games_struct, n_teams, n_weeks, bits) {
            valid_bits.push(bits);
        }
        bits = bits + 1;
    }
    valid_bits
}

} // verus!
