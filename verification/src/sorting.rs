//! Stable insertion sorts, each stated against a recursive specification of
//! the sorted sequence, and removal of repeats from a sorted sequence.

use vstd::prelude::*;

verus! {

/// `x` placed into `s` after every element not greater than it.
pub open spec fn insert_u32(s: Seq<u32>, x: u32) -> Seq<u32>
    decreases s.len(),
{
    if s.len() == 0 {
        seq![x]
    } else if x < s.last() {
        insert_u32(s.drop_last(), x).push(s.last())
    } else {
        s.push(x)
    }
}

/// `s` in non-decreasing order.
pub open spec fn sort_u32(s: Seq<u32>) -> Seq<u32>
    decreases s.len(),
{
    if s.len() == 0 {
        s
    } else {
        insert_u32(sort_u32(s.drop_last()), s.last())
    }
}

/// Lexicographic order on triples.
pub open spec fn triple_lt(a: (usize, usize, usize), b: (usize, usize, usize)) -> bool {
    a.0 < b.0 || (a.0 == b.0 && (a.1 < b.1 || (a.1 == b.1 && a.2 < b.2)))
}

pub open spec fn insert_triple(s: Seq<(usize, usize, usize)>, x: (usize, usize, usize)) -> Seq<(usize, usize, usize)>
    decreases s.len(),
{
    if s.len() == 0 {
        seq![x]
    } else if triple_lt(x, s.last()) {
        insert_triple(s.drop_last(), x).push(s.last())
    } else {
        s.push(x)
    }
}

/// `s` in lexicographic order.
pub open spec fn sort_triples(s: Seq<(usize, usize, usize)>) -> Seq<(usize, usize, usize)>
    decreases s.len(),
{
    if s.len() == 0 {
        s
    } else {
        insert_triple(sort_triples(s.drop_last()), s.last())
    }
}

/// Lexicographic order on pairs.
pub open spec fn pair_lt(a: (usize, usize), b: (usize, usize)) -> bool {
    a.0 < b.0 || (a.0 == b.0 && a.1 < b.1)
}

pub open spec fn insert_pair(s: Seq<(usize, usize)>, x: (usize, usize)) -> Seq<(usize, usize)>
    decreases s.len(),
{
    if s.len() == 0 {
        seq![x]
    } else if pair_lt(x, s.last()) {
        insert_pair(s.drop_last(), x).push(s.last())
    } else {
        s.push(x)
    }
}

/// `s` in lexicographic order.
pub open spec fn sort_pairs(s: Seq<(usize, usize)>) -> Seq<(usize, usize)>
    decreases s.len(),
{
    if s.len() == 0 {
        s
    } else {
        insert_pair(sort_pairs(s.drop_last()), s.last())
    }
}

/// A sorted sequence with each value kept once.
pub open spec fn dedup_sorted(s: Seq<u32>) -> Seq<u32>
    decreases s.len(),
{
    if s.len() == 0 {
        s
    } else {
        let r = dedup_sorted(s.drop_last());
        if r.len() > 0 && r.last() == s.last() {
            r
        } else {
            r.push(s.last())
        }
    }
}

proof fn lemma_take_last<T>(s: Seq<T>, j: int)
    requires
        0 < j <= s.len(),
    ensures
        s.take(j).drop_last() == s.take(j - 1),
        s.take(j).last() == s[j - 1],
        s.skip(j - 1) == seq![s[j - 1]] + s.skip(j),
{
    assert(s.take(j).drop_last() =~= s.take(j - 1));
    assert(s.skip(j - 1) =~= seq![s[j - 1]] + s.skip(j));
}

fn insert_u32_exec(v: &mut Vec<u32>, x: u32)
    ensures
        final(v)@ == insert_u32(old(v)@, x),
{
    let ghost s = v@;
    v.push(x);
    let mut j: usize = v.len() - 1;
    assert(s.take(j as int) =~= s);
    assert(s.skip(j as int) =~= Seq::<u32>::empty());
    assert(v@ =~= s.take(j as int) + seq![x] + s.skip(j as int));
    while j > 0 && v[j - 1] > x
        invariant
            j < v.len(),
            v.len() == s.len() + 1,
            v@ == s.take(j as int) + seq![x] + s.skip(j as int),
            insert_u32(s, x) == insert_u32(s.take(j as int), x) + s.skip(j as int),
        decreases j,
    {
        let prev = v[j - 1];
        proof {
            lemma_take_last(s, j as int);
            assert(prev == s[j - 1]);
            assert(insert_u32(s.take(j as int), x) == insert_u32(s.take(j - 1), x).push(s[j - 1]));
            assert(insert_u32(s.take(j - 1), x).push(s[j - 1]) + s.skip(j as int) =~= insert_u32(s.take(j - 1), x)
                + s.skip(j - 1));
        }
        v.set(j, prev);
        v.set(j - 1, x);
        proof {
            assert(v@ =~= s.take(j - 1) + seq![x] + s.skip(j - 1));
        }
        j = j - 1;
    }
    proof {
        if j > 0 {
            lemma_take_last(s, j as int);
            assert(!(x < s.take(j as int).last()));
        }
        assert(insert_u32(s.take(j as int), x) =~= s.take(j as int) + seq![x]);
    }
}

/// `v` sorted into non-decreasing order.
pub fn sort_u32_exec(v: &Vec<u32>) -> (r: Vec<u32>)
    ensures
        r@ == sort_u32(v@),
{
    let mut r: Vec<u32> = Vec::new();
    let mut i: usize = 0;
    while i < v.len()
        invariant
            i <= v.len(),
            r@ == sort_u32(v@.take(i as int)),
        decreases v.len() - i,
    {
        proof {
            lemma_take_last(v@, (i + 1) as int);
        }
        insert_u32_exec(&mut r, v[i]);
        i = i + 1;
    }
    assert(v@.take(v.len() as int) =~= v@);
    r
}

fn triple_less(a: (usize, usize, usize), b: (usize, usize, usize)) -> (r: bool)
    ensures
        r == triple_lt(a, b),
{
    a.0 < b.0 || (a.0 == b.0 && (a.1 < b.1 || (a.1 == b.1 && a.2 < b.2)))
}

fn pair_less(a: (usize, usize), b: (usize, usize)) -> (r: bool)
    ensures
        r == pair_lt(a, b),
{
    a.0 < b.0 || (a.0 == b.0 && a.1 < b.1)
}

fn insert_triple_exec(v: &mut Vec<(usize, usize, usize)>, x: (usize, usize, usize))
    ensures
        final(v)@ == insert_triple(old(v)@, x),
{
    let ghost s = v@;
    v.push(x);
    let mut j: usize = v.len() - 1;
    assert(s.take(j as int) =~= s);
    assert(s.skip(j as int) =~= Seq::<(usize, usize, usize)>::empty());
    assert(v@ =~= s.take(j as int) + seq![x] + s.skip(j as int));
    while j > 0 && triple_less(x, v[j - 1])
        invariant
            j < v.len(),
            v.len() == s.len() + 1,
            v@ == s.take(j as int) + seq![x] + s.skip(j as int),
            insert_triple(s, x) == insert_triple(s.take(j as int), x) + s.skip(j as int),
        decreases j,
    {
        let prev = v[j - 1];
        proof {
            lemma_take_last(s, j as int);
            assert(prev == s[j - 1]);
            assert(insert_triple(s.take(j as int), x) == insert_triple(s.take(j - 1), x).push(s[j - 1]));
            assert(insert_triple(s.take(j - 1), x).push(s[j - 1]) + s.skip(j as int) =~= insert_triple(
                s.take(j - 1),
                x,
            ) + s.skip(j - 1));
        }
        v.set(j, prev);
        v.set(j - 1, x);
        proof {
            assert(v@ =~= s.take(j - 1) + seq![x] + s.skip(j - 1));
        }
        j = j - 1;
    }
    proof {
        if j > 0 {
            lemma_take_last(s, j as int);
            assert(!triple_lt(x, s.take(j as int).last()));
        }
        assert(insert_triple(s.take(j as int), x) =~= s.take(j as int) + seq![x]);
    }
}

/// `v` sorted into lexicographic order.
pub fn sort_triples_exec(v: &Vec<(usize, usize, usize)>) -> (r: Vec<(usize, usize, usize)>)
    ensures
        r@ == sort_triples(v@),
{
    let mut r: Vec<(usize, usize, usize)> = Vec::new();
    let mut i: usize = 0;
    while i < v.len()
        invariant
            i <= v.len(),
            r@ == sort_triples(v@.take(i as int)),
        decreases v.len() - i,
    {
        proof {
            lemma_take_last(v@, (i + 1) as int);
        }
        insert_triple_exec(&mut r, v[i]);
        i = i + 1;
    }
    assert(v@.take(v.len() as int) =~= v@);
    r
}

fn insert_pair_exec(v: &mut Vec<(usize, usize)>, x: (usize, usize))
    ensures
        final(v)@ == insert_pair(old(v)@, x),
{
    let ghost s = v@;
    v.push(x);
    let mut j: usize = v.len() - 1;
    assert(s.take(j as int) =~= s);
    assert(s.skip(j as int) =~= Seq::<(usize, usize)>::empty());
    assert(v@ =~= s.take(j as int) + seq![x] + s.skip(j as int));
    while j > 0 && pair_less(x, v[j - 1])
        invariant
            j < v.len(),
            v.len() == s.len() + 1,
            v@ == s.take(j as int) + seq![x] + s.skip(j as int),
            insert_pair(s, x) == insert_pair(s.take(j as int), x) + s.skip(j as int),
        decreases j,
    {
        let prev = v[j - 1];
        proof {
            lemma_take_last(s, j as int);
            assert(prev == s[j - 1]);
            assert(insert_pair(s.take(j as int), x) == insert_pair(s.take(j - 1), x).push(s[j - 1]));
            assert(insert_pair(s.take(j - 1), x).push(s[j - 1]) + s.skip(j as int) =~= insert_pair(
                s.take(j - 1),
                x,
            ) + s.skip(j - 1));
        }
        v.set(j, prev);
        v.set(j - 1, x);
        proof {
            assert(v@ =~= s.take(j - 1) + seq![x] + s.skip(j - 1));
        }
        j = j - 1;
    }
    proof {
        if j > 0 {
            lemma_take_last(s, j as int);
            assert(!pair_lt(x, s.take(j as int).last()));
        }
        assert(insert_pair(s.take(j as int), x) =~= s.take(j as int) + seq![x]);
    }
}

/// `v` sorted into lexicographic order.
pub fn sort_pairs_exec(v: &Vec<(usize, usize)>) -> (r: Vec<(usize, usize)>)
    ensures
        r@ == sort_pairs(v@),
{
    let mut r: Vec<(usize, usize)> = Vec::new();
    let mut i: usize = 0;
    while i < v.len()
        invariant
            i <= v.len(),
            r@ == sort_pairs(v@.take(i as int)),
        decreases v.len() - i,
    {
        proof {
            lemma_take_last(v@, (i + 1) as int);
        }
        insert_pair_exec(&mut r, v[i]);
        i = i + 1;
    }
    assert(v@.take(v.len() as int) =~= v@);
    r
}

/// `v` with each repeated value kept once (`v` being sorted, repeats are adjacent).
pub fn dedup_sorted_exec(v: &Vec<u32>) -> (r: Vec<u32>)
    ensures
        r@ == dedup_sorted(v@),
{
    let mut r: Vec<u32> = Vec::new();
    let mut i: usize = 0;
    while i < v.len()
        invariant
            i <= v.len(),
            r@ == dedup_sorted(v@.take(i as int)),
        decreases v.len() - i,
    {
        proof {
            lemma_take_last(v@, (i + 1) as int);
        }
        if r.len() == 0 || r[r.len() - 1] != v[i] {
            r.push(v[i]);
        }
        i = i + 1;
    }
    assert(v@.take(v.len() as int) =~= v@);
    r
}

} // verus!
