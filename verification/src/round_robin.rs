//! What the built-in base schedules promise: in the five-team round robin
//! every pair of labels meets once and every label sits out one week; in the
//! six-team one every pair meets once too and every label plays every
//! week.

use vstd::prelude::*;
use crate::config::{label_name, pair, five_team_schedule, six_team_schedule};

verus! {

/// How many of the first `k` games of `ms` are between `x` and `y`, either
/// way round.
pub open spec fn meetings_in(ms: Seq<(Seq<char>, Seq<char>)>, x: Seq<char>, y: Seq<char>, k: int) -> nat
    decreases k,
{
    if k <= 0 {
        0
    } else {
        meetings_in(ms, x, y, k - 1) + if ms[k - 1] == (x, y) || ms[k - 1] == (y, x) {
            1nat
        } else {
            0nat
        }
    }
}

/// How many games of the first `k` weeks of the schedule are between `x`
/// and `y`.
pub open spec fn meetings(bs: Seq<(u32, Seq<(Seq<char>, Seq<char>)>)>, x: Seq<char>, y: Seq<char>, k: int) -> nat
    decreases k,
{
    if k <= 0 {
        0
    } else {
        meetings(bs, x, y, k - 1) + meetings_in(bs[k - 1].1, x, y, bs[k - 1].1.len() as int)
    }
}

/// How many of the first `k` games of `ms` label `x` plays in.
pub open spec fn games_of(ms: Seq<(Seq<char>, Seq<char>)>, x: Seq<char>, k: int) -> nat
    decreases k,
{
    if k <= 0 {
        0
    } else {
        games_of(ms, x, k - 1) + if ms[k - 1].0 == x || ms[k - 1].1 == x {
            1nat
        } else {
            0nat
        }
    }
}

/// The number of games label `x` plays in week entry `i` of the schedule.
pub open spec fn weekly_games(bs: Seq<(u32, Seq<(Seq<char>, Seq<char>)>)>, x: Seq<char>, i: int) -> nat {
    games_of(bs[i].1, x, bs[i].1.len() as int)
}

/// In how many of the first `k` weeks of the schedule label `x` plays no game.
pub open spec fn sit_outs(bs: Seq<(u32, Seq<(Seq<char>, Seq<char>)>)>, x: Seq<char>, k: int) -> nat
    decreases k,
{
    if k <= 0 {
        0
    } else {
        sit_outs(bs, x, k - 1) + if weekly_games(bs, x, k - 1) == 0 {
            1nat
        } else {
            0nat
        }
    }
}

proof fn lemma_label_names_injective()
    ensures
        forall|i: int, j: int|
            0 <= i < 26 && 0 <= j < 26 ==> (#[trigger] label_name(i) == #[trigger] label_name(j) <==> i == j),
{
    assert forall|i: int, j: int| 0 <= i < 26 && 0 <= j < 26 && label_name(i) == label_name(j) implies i == j by {
        assert(label_name(i)[0] == label_name(j)[0]);
        assert(((('A' as u32) + i) as char) as u32 == ('A' as u32) + i);
        assert(((('A' as u32) + j) as char) as u32 == ('A' as u32) + j);
    }
}

/// The five-team round robin: every two of the labels `A` to `E` meet
/// exactly once over the five weeks, and each label plays at most one game a
/// week and sits out exactly one week (its bye).
pub proof fn law_five_team_round_robin(a: int, b: int)
    requires
        0 <= a < 5,
        0 <= b < 5,
    ensures
        a != b ==> meetings(five_team_schedule(), label_name(a), label_name(b), 5) == 1,
        sit_outs(five_team_schedule(), label_name(a), 5) == 1,
        forall|i: int| 0 <= i < 5 ==> weekly_games(five_team_schedule(), label_name(a), i) <= 1,
{
    lemma_label_names_injective();
    reveal_with_fuel(meetings, 6);
    reveal_with_fuel(meetings_in, 3);
    reveal_with_fuel(sit_outs, 6);
    reveal_with_fuel(games_of, 3);
    let s = five_team_schedule();
    assert(s.len() == 5);
    assert(s[0].1 =~= seq![pair(0, 1), pair(2, 3)]);
    assert(s[1].1 =~= seq![pair(0, 2), pair(3, 4)]);
    assert(s[2].1 =~= seq![pair(0, 3), pair(1, 4)]);
    assert(s[3].1 =~= seq![pair(0, 4), pair(1, 2)]);
    assert(s[4].1 =~= seq![pair(1, 3), pair(2, 4)]);
}

/// The six-team round robin: every two of the labels `A` to `F` meet
/// exactly once over the five weeks, and each label plays exactly one game
/// every week, so no label ever sits out.
pub proof fn law_six_team_round_robin(a: int, b: int)
    requires
        0 <= a < 6,
        0 <= b < 6,
    ensures
        a != b ==> meetings(six_team_schedule(), label_name(a), label_name(b), 5) == 1,
        forall|i: int| 0 <= i < 5 ==> weekly_games(six_team_schedule(), label_name(a), i) == 1,
{
    lemma_label_names_injective();
    reveal_with_fuel(meetings, 6);
    reveal_with_fuel(meetings_in, 4);
    reveal_with_fuel(games_of, 4);
    let s = six_team_schedule();
    assert(s.len() == 5);
    assert(s[0].1 =~= seq![pair(0, 1), pair(2, 5), pair(3, 4)]);
    assert(s[1].1 =~= seq![pair(0, 2), pair(1, 3), pair(4, 5)]);
    assert(s[2].1 =~= seq![pair(0, 3), pair(1, 5), pair(2, 4)]);
    assert(s[3].1 =~= seq![pair(0, 4), pair(1, 2), pair(3, 5)]);
    assert(s[4].1 =~= seq![pair(0, 5), pair(1, 4), pair(2, 3)]);
}

} // verus!
