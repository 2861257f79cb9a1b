//! What one conversion undoes: the editable text of a base schedule parses
//! back to that schedule, and the weeks text parses back to the weeks.

use vstd::prelude::*;
use crate::text::{
    occurs_at, find_from, split_from, split_on, trim, trim_start, trim_end, is_white_space, join, decimal,
    digit_char, digits_value, all_digits, is_digit, parse_u32, lemma_trim_start_skip, lemma_trim_end_take,
};
use crate::config::{matchup_text, week_line, inputs_of};
use crate::update::{comma, vs, parse_matchup, parse_pieces, parse_week_text, parse_inputs, parse_schedule_inputs,
    parse_weeks, parse_weeks_from};
use crate::state::weeks_text;

verus! {

proof fn lemma_occurs_shift(x: Seq<char>, y: Seq<char>, p: Seq<char>, j: int)
    requires
        0 <= j,
    ensures
        occurs_at(x + y, p, x.len() + j) == occurs_at(y, p, j),
{
    if j + p.len() <= y.len() {
        assert((x + y).subrange(x.len() + j, x.len() + j + p.len()) =~= y.subrange(j, j + p.len()));
    }
}

proof fn lemma_find_shift(x: Seq<char>, y: Seq<char>, p: Seq<char>, k: int)
    requires
        0 <= k <= y.len(),
        p.len() > 0,
    ensures
        find_from(x + y, p, x.len() + k) == match find_from(y, p, k) {
            Some(i) => Some(i + x.len()),
            None => None::<int>,
        },
    decreases y.len() - k,
{
    lemma_occurs_shift(x, y, p, k);
    if k + p.len() <= y.len() && !occurs_at(y, p, k) {
        lemma_find_shift(x, y, p, k + 1);
    }
}

proof fn lemma_find_result(s: Seq<char>, p: Seq<char>, st: int)
    requires
        0 <= st,
        p.len() > 0,
    ensures
        find_from(s, p, st) matches Some(i) ==> st <= i && i + p.len() <= s.len(),
    decreases s.len() - st,
{
    if st + p.len() <= s.len() && !occurs_at(s, p, st) {
        lemma_find_result(s, p, st + 1);
    }
}

proof fn lemma_split_shift(x: Seq<char>, y: Seq<char>, p: Seq<char>, k: int)
    requires
        0 <= k <= y.len(),
        p.len() > 0,
    ensures
        split_from(x + y, p, x.len() + k) == split_from(y, p, k),
    decreases y.len() - k,
{
    let s = x + y;
    lemma_find_shift(x, y, p, k);
    lemma_find_result(y, p, k);
    match find_from(y, p, k) {
        None => {
            assert(s.subrange(x.len() + k, s.len() as int) =~= y.subrange(k, y.len() as int));
        },
        Some(i) => {
            assert(s.subrange(x.len() + k, x.len() + i) =~= y.subrange(k, i));
            lemma_split_shift(x, y, p, i + p.len());
        },
    }
}

proof fn lemma_find_first(s: Seq<char>, p: Seq<char>, at: int, st: int)
    requires
        0 <= st <= at,
        p.len() > 0,
        occurs_at(s, p, at),
        forall|i: int| st <= i < at ==> !occurs_at(s, p, i),
    ensures
        find_from(s, p, st) == Some(at),
    decreases at - st,
{
    if st < at {
        lemma_find_first(s, p, at, st + 1);
    }
}

proof fn lemma_find_none(s: Seq<char>, p: Seq<char>, st: int)
    requires
        0 <= st,
        p.len() > 0,
        forall|i: int| st <= i ==> !occurs_at(s, p, i),
    ensures
        find_from(s, p, st) is None,
    decreases s.len() - st,
{
    if st + p.len() <= s.len() {
        lemma_find_none(s, p, st + 1);
    }
}

/// A text without `p` is one piece.
proof fn lemma_split_whole(s: Seq<char>, p: Seq<char>)
    requires
        p.len() > 0,
        forall|i: int| 0 <= i ==> !occurs_at(s, p, i),
    ensures
        split_on(s, p) == seq![s],
{
    lemma_find_none(s, p, 0);
    assert(s.subrange(0, s.len() as int) =~= s);
}

/// A text `a + p + b` with no `p` starting inside `a` is `a` and then the pieces of `b`.
proof fn lemma_split_peel(a: Seq<char>, p: Seq<char>, b: Seq<char>)
    requires
        p.len() > 0,
        forall|i: int| 0 <= i < a.len() ==> !occurs_at(a + p + b, p, i),
    ensures
        split_on(a + p + b, p) == seq![a] + split_on(b, p),
{
    let s = a + p + b;
    assert(s.subrange(a.len() as int, (a.len() + p.len()) as int) =~= p);
    lemma_find_first(s, p, a.len() as int, 0);
    assert(s.subrange(0, a.len() as int) =~= a);
    assert(s =~= (a + p) + b);
    lemma_split_shift(a + p, b, p, 0);
}

/// A label that survives being written and read back: not blank, no white
/// space at either end, and no `,` or `vs` in it.
pub open spec fn plain_label(l: Seq<char>) -> bool {
    &&& l.len() > 0
    &&& !is_white_space(l[0])
    &&& !is_white_space(l.last())
    &&& forall|i: int| 0 <= i < l.len() ==> l[i] != ','
    &&& forall|i: int| 0 <= i ==> !occurs_at(l, vs(), i)
}

proof fn lemma_trim_padded(pre: Seq<char>, l: Seq<char>, post: Seq<char>)
    requires
        l.len() > 0,
        !is_white_space(l[0]),
        !is_white_space(l.last()),
        forall|i: int| 0 <= i < pre.len() ==> is_white_space(pre[i]),
        forall|i: int| 0 <= i < post.len() ==> is_white_space(post[i]),
    ensures
        trim(pre + l + post) == l,
{
    let s = pre + l + post;
    assert forall|j: int| 0 <= j < pre.len() implies is_white_space(#[trigger] s[j]) by {
        assert(s[j] == pre[j]);
    }
    lemma_trim_start_skip(s, pre.len() as int);
    let t = s.subrange(pre.len() as int, s.len() as int);
    assert(t =~= l + post);
    assert(trim_start(t) == t) by {
        assert(t[0] == l[0]);
    }
    assert forall|j: int| l.len() <= j < t.len() implies is_white_space(#[trigger] t[j]) by {
        assert(t[j] == post[j - l.len()]);
    }
    lemma_trim_end_take(t, l.len() as int);
    assert(t.subrange(0, l.len() as int) =~= l);
    assert(trim_end(l) == l) by {
        assert(l[l.len() - 1] == l.last());
    }
}

/// One matchup's text, after an optional leading space, reads back as the matchup.
proof fn lemma_matchup_roundtrip(w: u32, pre: Seq<char>, m: (Seq<char>, Seq<char>))
    requires
        pre == Seq::<char>::empty() || pre == seq![' '],
        plain_label(m.0),
        plain_label(m.1),
    ensures
        parse_matchup(w, pre + matchup_text(m)) == Ok::<(Seq<char>, Seq<char>), Seq<char>>(m),
        trim(pre + matchup_text(m)).len() > 0,
{
    let a = pre + m.0 + seq![' '];
    let b = seq![' '] + m.1;
    let s = pre + matchup_text(m);
    assert(s =~= a + vs() + b);
    assert forall|i: int| 0 <= i < a.len() implies !occurs_at(a + vs() + b, vs(), i) by {
        let t = a + vs() + b;
        if occurs_at(t, vs(), i) {
            assert(t.subrange(i, i + 2) == vs());
            assert(t.subrange(i, i + 2)[0] == t[i] && t.subrange(i, i + 2)[1] == t[i + 1]);
            assert(t[i] == 'v' && t[i + 1] == 's');
            if i < pre.len() {
                assert(t[i] == pre[i]);
            } else if i < pre.len() + m.0.len() - 1 {
                let j = i - pre.len();
                assert(t[i] == m.0[j] && t[i + 1] == m.0[j + 1]);
                assert(m.0.subrange(j, j + 2) =~= vs());
                assert(occurs_at(m.0, vs(), j));
            } else if i == pre.len() + m.0.len() - 1 {
                assert(t[i + 1] == ' ');
            } else {
                assert(t[i] == ' ');
            }
        }
    }
    lemma_split_peel(a, vs(), b);
    assert forall|i: int| 0 <= i implies !occurs_at(b, vs(), i) by {
        if occurs_at(b, vs(), i) {
            assert(b.subrange(i, i + 2) == vs());
            assert(b.subrange(i, i + 2)[0] == b[i] && b.subrange(i, i + 2)[1] == b[i + 1]);
            assert(b[i] == 'v' && b[i + 1] == 's');
            if i == 0 {
                assert(b[0] == ' ');
            } else {
                assert(b[i] == m.1[i - 1] && b[i + 1] == m.1[i]);
                assert(m.1.subrange(i - 1, i + 1) =~= vs());
                assert(occurs_at(m.1, vs(), i - 1));
            }
        }
    }
    lemma_split_whole(b, vs());
    let parts = split_on(s, vs());
    assert(parts == seq![a] + seq![b]);
    assert(parts[0] == a && parts[1] == b);
    assert(is_white_space(' '));
    lemma_trim_padded(pre, m.0, seq![' ']);
    assert(a == pre + m.0 + seq![' ']);
    lemma_trim_padded(seq![' '], m.1, Seq::<char>::empty());
    assert(b =~= seq![' '] + m.1 + Seq::<char>::empty());
    lemma_trim_padded(pre, matchup_text(m), Seq::<char>::empty());
    assert(s =~= pre + matchup_text(m) + Seq::<char>::empty());
    assert(matchup_text(m)[0] == m.0[0]);
    assert(matchup_text(m).last() == m.1.last());
}

proof fn lemma_join_front(parts: Seq<Seq<char>>, sep: Seq<char>)
    requires
        parts.len() >= 2,
    ensures
        join(parts, sep) == parts[0] + sep + join(parts.drop_first(), sep),
    decreases parts.len(),
{
    if parts.len() == 2 {
        assert(parts.drop_last() =~= seq![parts[0]]);
        assert(parts.drop_first() =~= seq![parts[1]]);
        assert(join(parts.drop_last(), sep) == parts[0]);
        assert(join(parts.drop_first(), sep) == parts[1]);
    } else {
        let init = parts.drop_last();
        let tail = parts.drop_first();
        lemma_join_front(init, sep);
        assert(init.drop_first() =~= tail.drop_last());
        assert(tail.last() == parts.last());
        assert(init[0] == parts[0]);
        assert(join(parts, sep) == join(init, sep) + sep + parts.last());
        assert(join(tail, sep) == join(tail.drop_last(), sep) + sep + tail.last());
        assert(join(parts, sep) =~= parts[0] + sep + join(tail, sep));
    }
}

/// The pieces of `pre + join(parts, ", ")` cut at commas, for parts
/// without commas: the first part with `pre` before it, then each further
/// part with its leading space.
proof fn lemma_split_joined(pre: Seq<char>, parts: Seq<Seq<char>>)
    requires
        parts.len() > 0,
        forall|i: int| 0 <= i < pre.len() ==> pre[i] != ',',
        forall|k: int, i: int| 0 <= k < parts.len() && 0 <= i < parts[k].len() ==> parts[k][i] != ',',
    ensures
        split_on(pre + join(parts, seq![',', ' ']), comma()) == seq![pre + parts[0]] + Seq::new(
            (parts.len() - 1) as nat,
            |i: int| seq![' '] + parts[i + 1],
        ),
    decreases parts.len(),
{
    let s = pre + join(parts, seq![',', ' ']);
    if parts.len() == 1 {
        assert(join(parts, seq![',', ' ']) == parts[0]);
        assert forall|i: int| 0 <= i implies !occurs_at(s, comma(), i) by {
            if occurs_at(s, comma(), i) {
                assert(s.subrange(i, i + 1) == comma());
                assert(s.subrange(i, i + 1)[0] == s[i]);
                assert(s[i] == ',');
                if i < pre.len() {
                    assert(s[i] == pre[i]);
                } else {
                    assert(s[i] == parts[0][i - pre.len()]);
                }
            }
        }
        lemma_split_whole(s, comma());
        assert(Seq::new(0, |i: int| seq![' '] + parts[i + 1]) =~= Seq::<Seq<char>>::empty());
        assert(seq![s] =~= seq![pre + parts[0]] + Seq::<Seq<char>>::empty());
    } else {
        lemma_join_front(parts, seq![',', ' ']);
        let rest = parts.drop_first();
        let a = pre + parts[0];
        let b = seq![' '] + join(rest, seq![',', ' ']);
        assert(s =~= a + comma() + b);
        assert forall|i: int| 0 <= i < a.len() implies !occurs_at(a + comma() + b, comma(), i) by {
            let t = a + comma() + b;
            if occurs_at(t, comma(), i) {
                assert(t.subrange(i, i + 1) == comma());
                assert(t.subrange(i, i + 1)[0] == t[i]);
                assert(t[i] == ',');
                if i < pre.len() {
                    assert(t[i] == pre[i]);
                } else {
                    assert(t[i] == parts[0][i - pre.len()]);
                }
            }
        }
        lemma_split_peel(a, comma(), b);
        lemma_split_joined(seq![' '], rest);
        assert(split_on(s, comma()) =~= seq![pre + parts[0]] + Seq::new(
            (parts.len() - 1) as nat,
            |i: int| seq![' '] + parts[i + 1],
        ));
    }
}

proof fn lemma_parse_pieces_matchups(w: u32, ms: Seq<(Seq<char>, Seq<char>)>, pieces: Seq<Seq<char>>, k: int)
    requires
        0 <= k <= pieces.len(),
        pieces.len() == ms.len(),
        forall|i: int| 0 <= i < ms.len() ==> plain_label(#[trigger] ms[i].0) && plain_label(ms[i].1),
        forall|i: int| 0 <= i < pieces.len() ==> #[trigger] pieces[i] == (if i == 0 {
            Seq::<char>::empty()
        } else {
            seq![' ']
        }) + matchup_text(ms[i]),
    ensures
        parse_pieces(w, pieces, k) == Ok::<Seq<(Seq<char>, Seq<char>)>, Seq<char>>(ms.take(k)),
    decreases k,
{
    if k == 0 {
        assert(ms.take(0) =~= Seq::<(Seq<char>, Seq<char>)>::empty());
    } else {
        lemma_parse_pieces_matchups(w, ms, pieces, k - 1);
        let pre = if k - 1 == 0 {
            Seq::<char>::empty()
        } else {
            seq![' ']
        };
        assert(pieces[k - 1] == pre + matchup_text(ms[k - 1]));
        lemma_matchup_roundtrip(w, pre, ms[k - 1]);
        assert(ms.take(k - 1).push(ms[k - 1]) =~= ms.take(k));
    }
}

proof fn lemma_week_line_roundtrip(w: u32, ms: Seq<(Seq<char>, Seq<char>)>)
    requires
        forall|i: int| 0 <= i < ms.len() ==> plain_label(#[trigger] ms[i].0) && plain_label(ms[i].1),
    ensures
        parse_week_text(w, week_line(ms)) == Ok::<Seq<(Seq<char>, Seq<char>)>, Seq<char>>(ms),
{
    let texts = ms.map_values(|m: (Seq<char>, Seq<char>)| matchup_text(m));
    if ms.len() == 0 {
        assert(week_line(ms) == Seq::<char>::empty());
        assert forall|i: int| 0 <= i implies !occurs_at(Seq::<char>::empty(), comma(), i) by {}
        lemma_split_whole(Seq::<char>::empty(), comma());
        let pieces = split_on(week_line(ms), comma());
        assert(pieces == seq![Seq::<char>::empty()]);
        assert(trim(pieces[0]).len() == 0) by {
            assert(trim(Seq::<char>::empty()).len() == 0);
        }
        assert(parse_pieces(w, pieces, 0) == Ok::<Seq<(Seq<char>, Seq<char>)>, Seq<char>>(Seq::empty()));
        assert(parse_pieces(w, pieces, 1) == Ok::<Seq<(Seq<char>, Seq<char>)>, Seq<char>>(Seq::empty()));
        assert(ms =~= Seq::<(Seq<char>, Seq<char>)>::empty());
    } else {
        assert forall|k: int, i: int| 0 <= k < texts.len() && 0 <= i < texts[k].len() implies texts[k][i] != ',' by {
            let m = ms[k];
            assert(texts[k] == m.0 + seq![' ', 'v', 's', ' '] + m.1);
            if i < m.0.len() {
                assert(texts[k][i] == m.0[i]);
            } else if i < m.0.len() + 4 {
            } else {
                assert(texts[k][i] == m.1[i - m.0.len() - 4]);
            }
        }
        lemma_split_joined(Seq::<char>::empty(), texts);
        assert(Seq::<char>::empty() + join(texts, seq![',', ' ']) =~= week_line(ms));
        let pieces = split_on(week_line(ms), comma());
        assert forall|i: int| 0 <= i < pieces.len() implies #[trigger] pieces[i] == (if i == 0 {
            Seq::<char>::empty()
        } else {
            seq![' ']
        }) + matchup_text(ms[i]) by {
            if i == 0 {
                assert(pieces[0] == Seq::<char>::empty() + texts[0]);
            } else {
                assert(pieces[i] == seq![' '] + texts[i]);
            }
        }
        assert(pieces.len() == ms.len());
        lemma_parse_pieces_matchups(w, ms, pieces, pieces.len() as int);
        assert(ms.take(ms.len() as int) =~= ms);
        assert(parse_week_text(w, week_line(ms)) == parse_pieces(w, pieces, pieces.len() as int));
    }
}

/// Writing a base schedule as per-week text and parsing the text back gives
/// the schedule again, when every label is plain (not blank, no white space
/// at either end, no `,` and no `vs` in it).
pub proof fn law_schedule_text_roundtrip(bs: Seq<(u32, Seq<(Seq<char>, Seq<char>)>)>)
    requires
        forall|k: int, j: int|
            0 <= k < bs.len() && 0 <= j < bs[k].1.len() ==> plain_label((#[trigger] bs[k].1[j]).0) && plain_label(
                bs[k].1[j].1,
            ),
    ensures
        parse_schedule_inputs(inputs_of(bs)) == Ok::<Seq<(u32, Seq<(Seq<char>, Seq<char>)>)>, Seq<char>>(bs),
{
    lemma_parse_inputs_upto(bs, bs.len() as int);
    assert(bs.take(bs.len() as int) =~= bs);
}

proof fn lemma_parse_inputs_upto(bs: Seq<(u32, Seq<(Seq<char>, Seq<char>)>)>, k: int)
    requires
        0 <= k <= bs.len(),
        forall|q: int, j: int|
            0 <= q < bs.len() && 0 <= j < bs[q].1.len() ==> plain_label((#[trigger] bs[q].1[j]).0) && plain_label(
                bs[q].1[j].1,
            ),
    ensures
        parse_inputs(inputs_of(bs), k) == Ok::<Seq<(u32, Seq<(Seq<char>, Seq<char>)>)>, Seq<char>>(bs.take(k)),
    decreases k,
{
    if k == 0 {
        assert(bs.take(0) =~= Seq::<(u32, Seq<(Seq<char>, Seq<char>)>)>::empty());
    } else {
        lemma_parse_inputs_upto(bs, k - 1);
        let e = bs[k - 1];
        assert(inputs_of(bs)[k - 1] == (e.0, week_line(e.1)));
        assert forall|i: int| 0 <= i < e.1.len() implies plain_label(#[trigger] e.1[i].0) && plain_label(e.1[i].1) by {
            assert(e.1[i] == bs[k - 1].1[i]);
        }
        lemma_week_line_roundtrip(e.0, e.1);
        assert(bs.take(k - 1).push(e) =~= bs.take(k));
    }
}

proof fn lemma_decimal_facts(n: nat)
    ensures
        decimal(n).len() > 0,
        all_digits(decimal(n)),
        digits_value(decimal(n)) == n,
    decreases n,
{
    let d = decimal(n);
    if n < 10 {
        assert(d == seq![digit_char(n)]);
        assert(d.drop_last() =~= Seq::<char>::empty());
        assert(digits_value(d.drop_last()) == 0);
        assert((digit_char(n) as u32) == ('0' as u32) + n);
        assert(d.last() == digit_char(n));
        assert(digits_value(d) == digits_value(d.drop_last()) * 10 + ((d.last() as u32) - ('0' as u32)) as nat);
    } else {
        lemma_decimal_facts(n / 10);
        let prev = decimal(n / 10);
        assert(d == prev.push(digit_char(n % 10)));
        assert(d.drop_last() =~= prev);
        assert(d.last() == digit_char(n % 10));
        assert((digit_char(n % 10) as u32) == ('0' as u32) + n % 10);
        assert(digits_value(d) == digits_value(prev) * 10 + ((d.last() as u32) - ('0' as u32)) as nat);
        assert((n / 10) * 10 + n % 10 == n);
        assert forall|i: int| 0 <= i < d.len() implies is_digit(#[trigger] d[i]) by {
            if i < prev.len() {
                assert(d[i] == prev[i]);
            }
        }
    }
}

proof fn lemma_decimal_parses(n: u32)
    ensures
        parse_u32(decimal(n as nat)) == Some(n),
        forall|i: int| 0 <= i < decimal(n as nat).len() ==> !is_white_space(#[trigger] decimal(n as nat)[i]) && decimal(
            n as nat,
        )[i] != ',',
{
    lemma_decimal_facts(n as nat);
    let d = decimal(n as nat);
    assert(is_digit(d[0]));
    assert forall|i: int| 0 <= i < d.len() implies !is_white_space(#[trigger] d[i]) && d[i] != ',' by {
        assert(is_digit(d[i]));
    }
}

/// Writing the weeks as `1, 2, 3` and parsing the text back gives the weeks
/// again (for at least one week).
pub proof fn law_weeks_text_roundtrip(weeks: Seq<u32>)
    requires
        weeks.len() > 0,
    ensures
        parse_weeks(weeks_text(weeks)) == Some(weeks),
{
    let parts = weeks.map_values(|w: u32| decimal(w as nat));
    assert forall|k: int, i: int| 0 <= k < parts.len() && 0 <= i < parts[k].len() implies parts[k][i] != ',' by {
        lemma_decimal_parses(weeks[k]);
        assert(parts[k] == decimal(weeks[k] as nat));
    }
    lemma_split_joined(Seq::<char>::empty(), parts);
    assert(Seq::<char>::empty() + join(parts, seq![',', ' ']) =~= weeks_text(weeks));
    let pieces = split_on(weeks_text(weeks), comma());
    assert(pieces.len() == weeks.len());
    lemma_parse_weeks_upto(weeks, pieces, pieces.len() as int);
    assert(weeks.take(weeks.len() as int) =~= weeks);
}

proof fn lemma_parse_weeks_upto(weeks: Seq<u32>, pieces: Seq<Seq<char>>, k: int)
    requires
        0 <= k <= pieces.len(),
        pieces.len() == weeks.len(),
        weeks.len() > 0,
        pieces == seq![Seq::<char>::empty() + weeks.map_values(|w: u32| decimal(w as nat))[0]] + Seq::new(
            (weeks.len() - 1) as nat,
            |i: int| seq![' '] + weeks.map_values(|w: u32| decimal(w as nat))[i + 1],
        ),
    ensures
        parse_weeks_from(pieces, k) == Some(weeks.take(k)),
    decreases k,
{
    if k == 0 {
        assert(weeks.take(0) =~= Seq::<u32>::empty());
    } else {
        lemma_parse_weeks_upto(weeks, pieces, k - 1);
        let w = weeks[k - 1];
        lemma_decimal_parses(w);
        let d = decimal(w as nat);
        assert(weeks.map_values(|x: u32| decimal(x as nat))[k - 1] == d);
        let pre = if k - 1 == 0 {
            Seq::<char>::empty()
        } else {
            seq![' ']
        };
        assert(pieces[k - 1] =~= pre + d + Seq::<char>::empty());
        assert(is_white_space(' '));
        lemma_trim_padded(pre, d, Seq::<char>::empty());
        assert(d[0] == d[0]);
        assert(weeks.take(k - 1).push(w) =~= weeks.take(k));
    }
}

} // verus!
