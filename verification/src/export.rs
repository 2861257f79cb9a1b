//! The plain-text listing of ranked solutions that the Export button writes.

use vstd::prelude::*;
use crate::ranking::Solution;
use crate::plan::first_slot_name;
use crate::sorting::{sort_u32, sort_u32_exec};
use crate::text::{decimal, decimal_signed, chars_of, append_chars, append_str, push_decimal,
    push_decimal_signed, string_from_chars};
use crate::update::{keys_of, key_position};

verus! {

/// The pieces written one after another.
pub open spec fn concat(parts: Seq<Seq<char>>) -> Seq<char>
    decreases parts.len(),
{
    if parts.len() == 0 {
        Seq::empty()
    } else {
        concat(parts.drop_last()) + parts.last()
    }
}

/// The bye week listed for a team, 0 when it has none.
pub open spec fn listed_week(v: Seq<(String, u32)>, t: Seq<char>) -> u32 {
    let i = first_slot_name(keys_of(v), t);
    if i >= 0 {
        v[i].1
    } else {
        0
    }
}

/// The score breakdown listed for a team, 0 when it has none.
pub open spec fn listed_score(v: Seq<(String, i32)>, t: Seq<char>) -> i32 {
    let i = first_slot_name(keys_of(v), t);
    if i >= 0 {
        v[i].1
    } else {
        0
    }
}

/// `  <team>: week <w>  (score <s>)` and a line break.
pub open spec fn team_line(sol: Solution, t: Seq<char>) -> Seq<char> {
    "  "@ + t + ": week "@ + decimal(listed_week(sol.bye_assignment@, t) as nat) + "  (score "@ + decimal_signed(
        listed_score(sol.bye_detail@, t) as int,
    ) + ")\n"@
}

/// `    <host> hosts <away>` and a line break.
pub open spec fn game_line(g: (String, String)) -> Seq<char> {
    "    "@ + g.0@ + " hosts "@ + g.1@ + "\n"@
}

/// The position of the first schedule entry for week `w`, or -1.
pub open spec fn week_entry(s: Seq<(u32, Vec<(String, String)>)>, w: u32) -> int
    decreases s.len(),
{
    if s.len() == 0 {
        -1
    } else {
        let r = week_entry(s.drop_last(), w);
        if r >= 0 {
            r
        } else if s.last().0 == w {
            s.len() - 1
        } else {
            -1
        }
    }
}

/// The games a solution lists for week `w`.
pub open spec fn week_games(sol: Solution, w: u32) -> Seq<(String, String)> {
    let i = week_entry(sol.schedule@, w);
    if i >= 0 {
        sol.schedule@[i].1@
    } else {
        Seq::empty()
    }
}

/// The heading of a week and its games.
pub open spec fn week_block(sol: Solution, w: u32) -> Seq<char> {
    "\n  Week "@ + decimal(w as nat) + "\n"@ + concat(
        Seq::new(week_games(sol, w).len(), |k: int| game_line(week_games(sol, w)[k])),
    )
}

/// One solution: rank, score, each team's bye week and the weekly games.
pub open spec fn solution_block(sol: Solution, teams: Seq<String>, weeks: Seq<u32>) -> Seq<char> {
    "\n==============================\nRank: "@ + decimal(sol.rank as nat) + "\nScore: "@ + decimal_signed(
        sol.score as int,
    ) + "\n\nBye Weeks\n"@ + concat(Seq::new(teams.len(), |t: int| team_line(sol, teams[t]@))) + "\nMatches\n"@
        + concat(Seq::new(weeks.len(), |j: int| week_block(sol, weeks[j])))
}

/// Every solution in turn, its weeks in increasing order.
pub open spec fn results_text(sols: Seq<Solution>, teams: Seq<String>, weeks: Seq<u32>) -> Seq<char> {
    concat(Seq::new(sols.len(), |i: int| solution_block(sols[i], teams, sort_u32(weeks))))
}

proof fn lemma_concat_step(parts: Seq<Seq<char>>, i: int)
    requires
        0 <= i < parts.len(),
    ensures
        concat(parts.take(i + 1)) == concat(parts.take(i)) + parts[i],
{
    assert(parts.take(i + 1).drop_last() =~= parts.take(i));
}

fn push_team_line(out: &mut Vec<char>, sol: &Solution, team: &String)
    ensures
        final(out)@ == old(out)@ + team_line(*sol, team@),
{
    let week: u32 = match key_position(&sol.bye_assignment, team) {
        Some(i) => sol.bye_assignment[i].1,
        None => 0,
    };
    let score: i32 = match key_position(&sol.bye_detail, team) {
        Some(i) => sol.bye_detail[i].1,
        None => 0,
    };
    append_str(out, "  ");
    let t = chars_of(team.as_str());
    append_chars(out, &t);
    append_str(out, ": week ");
    push_decimal(out, week as u64);
    append_str(out, "  (score ");
    push_decimal_signed(out, score as i64);
    append_str(out, ")\n");
    assert(final(out)@ =~= old(out)@ + team_line(*sol, team@));
}

fn push_week_block(out: &mut Vec<char>, sol: &Solution, w: u32)
    ensures
        final(out)@ == old(out)@ + week_block(*sol, w),
{
    let ghost start = out@;
    append_str(out, "\n  Week ");
    push_decimal(out, w as u64);
    append_str(out, "\n");
    let ghost head = out@;
    let mut slot: Option<usize> = None;
    let mut i: usize = 0;
    while i < sol.schedule.len()
        invariant
            i <= sol.schedule@.len(),
            match slot {
                Some(s) => s as int == week_entry(sol.schedule@.take(i as int), w) && s < i,
                None => week_entry(sol.schedule@.take(i as int), w) == -1,
            },
        decreases sol.schedule@.len() - i,
    {
        assert(sol.schedule@.take(i + 1).drop_last() =~= sol.schedule@.take(i as int));
        if slot.is_none() && sol.schedule[i].0 == w {
            slot = Some(i);
        }
        i = i + 1;
    }
    assert(sol.schedule@.take(sol.schedule@.len() as int) =~= sol.schedule@);
    let ghost games = week_games(*sol, w);
    let ghost lines = Seq::new(games.len(), |k: int| game_line(games[k]));
    match slot {
        Some(s) => {
            let list = &sol.schedule[s].1;
            assert(list@ == games);
            let mut k: usize = 0;
            while k < list.len()
                invariant
                    k <= list@.len(),
                    list@ == games,
                    lines == Seq::new(games.len(), |q: int| game_line(games[q])),
                    out@ == head + concat(lines.take(k as int)),
                decreases list@.len() - k,
            {
                proof {
                    lemma_concat_step(lines, k as int);
                }
                append_str(out, "    ");
                let h = chars_of(list[k].0.as_str());
                append_chars(out, &h);
                append_str(out, " hosts ");
                let a = chars_of(list[k].1.as_str());
                append_chars(out, &a);
                append_str(out, "\n");
                assert(lines[k as int] == game_line(list@[k as int]));
                assert(out@ =~= head + concat(lines.take(k + 1)));
                k = k + 1;
            }
            assert(lines.take(list@.len() as int) =~= lines);
        },
        None => {
            assert(lines =~= Seq::<Seq<char>>::empty());
            assert(concat(lines) =~= Seq::<char>::empty());
        },
    }
    assert(out@ =~= start + week_block(*sol, w));
}

fn push_solution_block(out: &mut Vec<char>, sol: &Solution, teams: &Vec<String>, weeks: &Vec<u32>)
    ensures
        final(out)@ == old(out)@ + solution_block(*sol, teams@, weeks@),
{
    let ghost start = out@;
    append_str(out, "\n==============================\nRank: ");
    push_decimal(out, sol.rank as u64);
    append_str(out, "\nScore: ");
    push_decimal_signed(out, sol.score as i64);
    append_str(out, "\n\nBye Weeks\n");
    let ghost head = out@;
    let ghost tlines = Seq::new(teams@.len(), |t: int| team_line(*sol, teams@[t]@));
    let mut t: usize = 0;
    while t < teams.len()
        invariant
            t <= teams@.len(),
            tlines == Seq::new(teams@.len(), |q: int| team_line(*sol, teams@[q]@)),
            out@ == head + concat(tlines.take(t as int)),
        decreases teams@.len() - t,
    {
        proof {
            lemma_concat_step(tlines, t as int);
        }
        push_team_line(out, sol, &teams[t]);
        assert(out@ =~= head + concat(tlines.take(t + 1)));
        t = t + 1;
    }
    assert(tlines.take(teams@.len() as int) =~= tlines);
    append_str(out, "\nMatches\n");
    let ghost mid = out@;
    let ghost wblocks = Seq::new(weeks@.len(), |j: int| week_block(*sol, weeks@[j]));
    let mut j: usize = 0;
    while j < weeks.len()
        invariant
            j <= weeks@.len(),
            wblocks == Seq::new(weeks@.len(), |q: int| week_block(*sol, weeks@[q])),
            out@ == mid + concat(wblocks.take(j as int)),
        decreases weeks@.len() - j,
    {
        proof {
            lemma_concat_step(wblocks, j as int);
        }
        push_week_block(out, sol, weeks[j]);
        assert(out@ =~= mid + concat(wblocks.take(j + 1)));
        j = j + 1;
    }
    assert(wblocks.take(weeks@.len() as int) =~= wblocks);
    assert(out@ =~= start + solution_block(*sol, teams@, weeks@));
}

/// The text listing of the solutions: for each, its rank and score, each
/// team's bye week and score breakdown, and the games week by week in
/// increasing week order.
pub fn format_results(results: &Vec<Solution>, teams: &Vec<String>, weeks: &Vec<u32>) -> (r: String)
    ensures
        r@ == results_text(results@, teams@, weeks@),
{
    let sorted = sort_u32_exec(weeks);
    let ghost blocks = Seq::new(results@.len(), |i: int| solution_block(results@[i], teams@, sort_u32(weeks@)));
    let mut out: Vec<char> = Vec::new();
    let mut i: usize = 0;
    while i < results.len()
        invariant
            i <= results@.len(),
            sorted@ == sort_u32(weeks@),
            blocks == Seq::new(results@.len(), |q: int| solution_block(results@[q], teams@, sort_u32(weeks@))),
            out@ == concat(blocks.take(i as int)),
        decreases results@.len() - i,
    {
        proof {
            lemma_concat_step(blocks, i as int);
        }
        push_solution_block(&mut out, &results[i], teams, &sorted);
        i = i + 1;
    }
    assert(blocks.take(results@.len() as int) =~= blocks);
    string_from_chars(&out)
}

proof fn lemma_concat_append(x: Seq<Seq<char>>, y: Seq<Seq<char>>)
    ensures
        concat(x + y) == concat(x) + concat(y),
    decreases y.len(),
{
    if y.len() == 0 {
        assert(x + y =~= x);
        assert(concat(x) + concat(y) =~= concat(x));
    } else {
        lemma_concat_append(x, y.drop_last());
        assert((x + y).drop_last() =~= x + y.drop_last());
        assert((x + y).last() == y.last());
        assert(concat(x) + concat(y) =~= concat(x) + concat(y.drop_last()) + y.last());
    }
}

/// The export lists every solution, each as its own block, in the order
/// given: the text of two lists one after the other is the text of the
/// first followed by the text of the second; no solutions give no text;
/// and one solution's text opens with the separator line and its rank.
pub proof fn law_export_one_block_per_solution(a: Seq<Solution>, b: Seq<Solution>, teams: Seq<String>, weeks: Seq<u32>)
    ensures
        results_text(a + b, teams, weeks) == results_text(a, teams, weeks) + results_text(b, teams, weeks),
        results_text(Seq::empty(), teams, weeks) == Seq::<char>::empty(),
        forall|s: Solution|
            (#[trigger] results_text(seq![s], teams, weeks)).take(
                ("\n==============================\nRank: "@ + decimal(s.rank as nat)).len() as int,
            ) == "\n==============================\nRank: "@ + decimal(s.rank as nat),
{
    let sw = sort_u32(weeks);
    let ba = Seq::new(a.len(), |i: int| solution_block(a[i], teams, sw));
    let bb = Seq::new(b.len(), |i: int| solution_block(b[i], teams, sw));
    let ab = a + b;
    assert(Seq::new(ab.len(), |i: int| solution_block(ab[i], teams, sw)) =~= ba + bb);
    lemma_concat_append(ba, bb);
    assert(Seq::new(0, |i: int| solution_block(Seq::<Solution>::empty()[i], teams, sw)) =~= Seq::<Seq<char>>::empty());
    assert forall|s: Solution| (#[trigger] results_text(seq![s], teams, weeks)).take(
        ("\n==============================\nRank: "@ + decimal(s.rank as nat)).len() as int,
    ) == "\n==============================\nRank: "@ + decimal(s.rank as nat) by {
        let one = Seq::new(1, |i: int| solution_block(seq![s][i], teams, sw));
        assert(one.drop_last() =~= Seq::<Seq<char>>::empty());
        assert(seq![s][0] == s);
        assert(one.last() == solution_block(s, teams, sw));
        assert(concat(one.drop_last()) == Seq::<char>::empty());
        assert(concat(one) =~= solution_block(s, teams, sw));
        let h = "\n==============================\nRank: "@ + decimal(s.rank as nat);
        let blk = solution_block(s, teams, sw);
        assert(blk.take(h.len() as int) =~= h);
    }
}

} // verus!
