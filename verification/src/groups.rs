//! Canonical grouping of a dice list: dice are grouped by face count, the
//! groups are kept sorted by face count ascending, and each group renders as
//! `<count>d<sides>`, joined by commas. An empty list renders as the
//! designated empty-set sentinel.

use vstd::prelude::*;
use crate::dice::Dice;
use crate::text::{dec_str, push_dec, chars_to_string};
use vstd::string::StringExecFns;

verus! {

/// Inserts one die with the given face count into a `(sides, count)` group
/// list, keeping groups ordered by face count ascending.
pub open spec fn insert_side(g: Seq<(usize, usize)>, side: usize) -> Seq<(usize, usize)>
    decreases g.len(),
{
    if g.len() == 0 {
        seq![(side, 1usize)]
    } else if g[0].0 == side {
        seq![(side, (g[0].1 + 1) as usize)] + g.drop_first()
    } else if side < g[0].0 {
        seq![(side, 1usize)] + g
    } else {
        seq![g[0]] + insert_side(g.drop_first(), side)
    }
}

/// The group list of a dice list: every die inserted in turn.
pub open spec fn groups_of(s: Seq<Dice>) -> Seq<(usize, usize)>
    decreases s.len(),
{
    if s.len() == 0 {
        Seq::empty()
    } else {
        insert_side(groups_of(s.drop_last()), s.last().sides)
    }
}

/// Total count of dice recorded in a group list.
pub open spec fn sum_counts(g: Seq<(usize, usize)>) -> int
    decreases g.len(),
{
    if g.len() == 0 {
        0
    } else {
        g[0].1 + sum_counts(g.drop_first())
    }
}

proof fn lemma_sum_counts_nonneg(g: Seq<(usize, usize)>)
    ensures
        sum_counts(g) >= 0,
    decreases g.len(),
{
    if g.len() > 0 {
        lemma_sum_counts_nonneg(g.drop_first());
    }
}

/// No single group counts more dice than the whole list records.
proof fn lemma_count_le_sum(g: Seq<(usize, usize)>, j: int)
    requires
        0 <= j < g.len(),
    ensures
        g[j].1 <= sum_counts(g),
    decreases g.len(),
{
    lemma_sum_counts_nonneg(g.drop_first());
    if j > 0 {
        lemma_count_le_sum(g.drop_first(), j - 1);
    }
}

/// Inserting one die raises the recorded count by exactly one.
proof fn lemma_insert_side_sum(g: Seq<(usize, usize)>, side: usize)
    requires
        sum_counts(g) < usize::MAX,
    ensures
        sum_counts(insert_side(g, side)) == sum_counts(g) + 1,
    decreases g.len(),
{
    let r = insert_side(g, side);
    if g.len() == 0 {
        assert(r.drop_first() =~= Seq::<(usize, usize)>::empty());
        assert(r[0] == (side, 1usize));
        assert(sum_counts(Seq::<(usize, usize)>::empty()) == 0);
        assert(sum_counts(r) == 1);
    } else if g[0].0 == side {
        lemma_sum_counts_nonneg(g.drop_first());
        lemma_count_le_sum(g, 0);
        assert(r.drop_first() =~= g.drop_first());
        assert(r[0] == (side, (g[0].1 + 1) as usize));
        assert(r[0].1 == g[0].1 + 1);
        assert(sum_counts(r) == r[0].1 + sum_counts(r.drop_first()));
    } else if side < g[0].0 {
        assert(r.drop_first() =~= g);
        assert(r[0] == (side, 1usize));
        assert(sum_counts(r) == 1 + sum_counts(g));
    } else {
        lemma_sum_counts_nonneg(g.drop_first());
        lemma_insert_side_sum(g.drop_first(), side);
        assert(r.drop_first() =~= insert_side(g.drop_first(), side));
        assert(r[0] == g[0]);
        assert(sum_counts(r) == g[0].1 + sum_counts(insert_side(g.drop_first(), side)));
    }
}

/// The `<count>d<sides>` token of one group.
pub open spec fn group_token(p: (usize, usize)) -> Seq<char> {
    dec_str(p.1 as nat) + seq!['d'] + dec_str(p.0 as nat)
}

/// Group tokens joined by commas.
pub open spec fn render_join(g: Seq<(usize, usize)>) -> Seq<char>
    decreases g.len(),
{
    if g.len() == 0 {
        Seq::empty()
    } else if g.len() == 1 {
        group_token(g[0])
    } else {
        render_join(g.drop_last()) + seq![','] + group_token(g.last())
    }
}

/// The canonical text of a dice list: grouped by face count ascending, or
/// the empty-set sentinel.
pub open spec fn describe_dice(s: Seq<Dice>) -> Seq<char> {
    if s.len() == 0 {
        "<empty DiceSet>"@
    } else {
        render_join(groups_of(s))
    }
}

/// Inserts one die with the given face count into an executable group list.
fn insert_group(groups: Vec<(usize, usize)>, side: usize) -> (r: Vec<(usize, usize)>)
    requires
        sum_counts(groups@) < usize::MAX,
    ensures
        r@ == insert_side(groups@, side),
{
    let ghost g = groups@;
    let mut out: Vec<(usize, usize)> = Vec::new();
    let mut i: usize = 0;
    proof {
        assert(g.skip(0) =~= g);
        assert(out@ + insert_side(g.skip(0), side) =~= insert_side(g, side));
    }
    while i < groups.len() && groups[i].0 < side
        invariant
            groups@ == g,
            0 <= i <= g.len(),
            out@ =~= g.subrange(0, i as int),
            insert_side(g, side) =~= out@ + insert_side(g.skip(i as int), side),
        decreases g.len() - i,
    {
        proof {
            assert(g.skip(i as int)[0] == g[i as int]);
            assert(g.skip(i as int).drop_first() =~= g.skip(i as int + 1));
        }
        out.push(groups[i]);
        i = i + 1;
        proof {
            assert(out@ =~= g.subrange(0, i as int));
        }
    }
    if i < groups.len() && groups[i].0 == side {
        proof {
            lemma_count_le_sum(g, i as int);
            lemma_sum_counts_nonneg(g);
            assert(g.skip(i as int)[0] == g[i as int]);
            assert(g.skip(i as int).drop_first() =~= g.skip(i as int + 1));
        }
        out.push((side, groups[i].1 + 1));
        i = i + 1;
    } else if i < groups.len() {
        proof {
            assert(g.skip(i as int)[0] == g[i as int]);
        }
        out.push((side, 1));
    } else {
        proof {
            assert(g.skip(i as int) =~= Seq::<(usize, usize)>::empty());
            assert(insert_side(g.skip(i as int), side).drop_first() =~= Seq::<(
                usize,
                usize,
            )>::empty());
        }
        out.push((side, 1));
    }
    while i < groups.len()
        invariant
            groups@ == g,
            0 <= i <= g.len(),
            insert_side(g, side) =~= out@ + g.skip(i as int),
        decreases g.len() - i,
    {
        proof {
            assert(g.skip(i as int)[0] == g[i as int]);
            assert(g.skip(i as int).drop_first() =~= g.skip(i as int + 1));
        }
        out.push(groups[i]);
        i = i + 1;
    }
    proof {
        assert(g.skip(i as int) =~= Seq::<(usize, usize)>::empty());
        assert(out@ =~= out@ + g.skip(i as int));
    }
    out
}

/// Renders the canonical text of a dice list.
pub fn dice_set_text(dice: &Vec<Dice>) -> (s: String)
    ensures
        s@ == describe_dice(dice@),
{
    let ghost ds = dice@;
    let mut groups: Vec<(usize, usize)> = Vec::new();
    let mut i: usize = 0;
    while i < dice.len()
        invariant
            dice@ == ds,
            0 <= i <= ds.len(),
            groups@ == groups_of(ds.subrange(0, i as int)),
            sum_counts(groups@) == i,
        decreases ds.len() - i,
    {
        proof {
            lemma_insert_side_sum(groups@, ds[i as int].sides);
            assert(ds.subrange(0, i as int + 1).drop_last() =~= ds.subrange(0, i as int));
            assert(ds.subrange(0, i as int + 1).last() == ds[i as int]);
        }
        groups = insert_group(groups, dice[i].sides);
        i = i + 1;
    }
    proof {
        assert(ds.subrange(0, ds.len() as int) =~= ds);
    }
    if groups.len() == 0 {
        String::from_str("<empty DiceSet>")
    } else {
        let ghost gs = groups@;
        let mut v: Vec<char> = Vec::new();
        push_dec(&mut v, groups[0].1);
        v.push('d');
        push_dec(&mut v, groups[0].0);
        proof {
            assert(v@ =~= group_token(gs[0]));
            assert(gs.subrange(0, 1)[0] == gs[0]);
            assert(v@ =~= render_join(gs.subrange(0, 1)));
        }
        let mut k: usize = 1;
        while k < groups.len()
            invariant
                groups@ == gs,
                1 <= k <= gs.len(),
                v@ == render_join(gs.subrange(0, k as int)),
            decreases gs.len() - k,
        {
            v.push(',');
            push_dec(&mut v, groups[k].1);
            v.push('d');
            push_dec(&mut v, groups[k].0);
            proof {
                assert(gs.subrange(0, k as int + 1).drop_last() =~= gs.subrange(0, k as int));
                assert(gs.subrange(0, k as int + 1).last() == gs[k as int]);
                assert(v@ =~= render_join(gs.subrange(0, k as int)) + seq![','] + group_token(
                    gs[k as int],
                ));
            }
            k = k + 1;
        }
        proof {
            assert(gs.subrange(0, gs.len() as int) =~= gs);
        }
        chars_to_string(&v)
    }
}


/// Inserting two dice commutes: the grouped list does not depend on the
/// order in which the two arrive.
proof fn lemma_insert_side_comm(g: Seq<(usize, usize)>, a: usize, b: usize)
    ensures
        insert_side(insert_side(g, a), b) == insert_side(insert_side(g, b), a),
    decreases g.len(), (if a <= b { 0int } else { 1int }),
{
    if a == b {
    } else if b < a {
        lemma_insert_side_comm(g, b, a);
    } else {
        // a < b throughout
        if g.len() == 0 {
            let ga = insert_side(g, a);
            let gb = insert_side(g, b);
            assert(ga =~= seq![(a, 1usize)]);
            assert(gb =~= seq![(b, 1usize)]);
            assert(ga.drop_first() =~= Seq::<(usize, usize)>::empty());
            assert(insert_side(Seq::<(usize, usize)>::empty(), b) =~= seq![(b, 1usize)]);
            assert(insert_side(Seq::<(usize, usize)>::empty(), a) =~= seq![(a, 1usize)]);
            assert(gb.drop_first() =~= Seq::<(usize, usize)>::empty());
            assert(insert_side(ga, b) =~= seq![(a, 1usize), (b, 1usize)]);
            assert(insert_side(gb, a) =~= seq![(a, 1usize), (b, 1usize)]);
        } else if a < g[0].0 {
            let ga = insert_side(g, a);
            let gb = insert_side(g, b);
            assert(ga =~= seq![(a, 1usize)] + g);
            assert(ga.drop_first() =~= g);
            assert(insert_side(ga, b) =~= seq![(a, 1usize)] + gb);
            // whichever way b relates to g[0].0, gb starts at or above
            // min(b, g[0].0), which is above a
            if g[0].0 == b {
                assert(gb =~= seq![(b, (g[0].1 + 1) as usize)] + g.drop_first());
                assert(gb[0].0 == b);
            } else if b < g[0].0 {
                assert(gb =~= seq![(b, 1usize)] + g);
                assert(gb[0].0 == b);
            } else {
                assert(gb =~= seq![g[0]] + insert_side(g.drop_first(), b));
                assert(gb[0].0 == g[0].0);
            }
            assert(a < gb[0].0);
            assert(insert_side(gb, a) =~= seq![(a, 1usize)] + gb);
        } else if a == g[0].0 {
            let bumped = (a, (g[0].1 + 1) as usize);
            let ga = insert_side(g, a);
            let gb = insert_side(g, b);
            assert(ga =~= seq![bumped] + g.drop_first());
            assert(ga[0].0 == a);
            assert(ga.drop_first() =~= g.drop_first());
            assert(insert_side(ga, b) =~= seq![bumped] + insert_side(g.drop_first(), b));
            assert(gb =~= seq![g[0]] + insert_side(g.drop_first(), b));
            assert(gb[0] == g[0]);
            assert(gb.drop_first() =~= insert_side(g.drop_first(), b));
            assert(insert_side(gb, a) =~= seq![bumped] + insert_side(g.drop_first(), b));
        } else {
            // g[0].0 < a < b: both insertions keep the head and recurse
            lemma_insert_side_comm(g.drop_first(), a, b);
            let ga = insert_side(g, a);
            let gb = insert_side(g, b);
            assert(ga =~= seq![g[0]] + insert_side(g.drop_first(), a));
            assert(ga[0] == g[0]);
            assert(ga.drop_first() =~= insert_side(g.drop_first(), a));
            assert(insert_side(ga, b) =~= seq![g[0]] + insert_side(
                insert_side(g.drop_first(), a),
                b,
            ));
            assert(gb =~= seq![g[0]] + insert_side(g.drop_first(), b));
            assert(gb[0] == g[0]);
            assert(gb.drop_first() =~= insert_side(g.drop_first(), b));
            assert(insert_side(gb, a) =~= seq![g[0]] + insert_side(
                insert_side(g.drop_first(), b),
                a,
            ));
        }
    }
}

/// Any one die can be set aside and inserted last without changing the
/// grouped list.
proof fn lemma_groups_of_pull(s: Seq<Dice>, j: int)
    requires
        0 <= j < s.len(),
    ensures
        groups_of(s) == insert_side(groups_of(s.remove(j)), s[j].sides),
    decreases s.len(),
{
    if j == s.len() - 1 {
        assert(s.remove(j) =~= s.drop_last());
    } else {
        let t = s.drop_last();
        lemma_groups_of_pull(t, j);
        lemma_insert_side_comm(groups_of(t.remove(j)), s[j].sides, s.last().sides);
        assert(s.remove(j).drop_last() =~= t.remove(j));
        assert(s.remove(j).last() == s.last());
        assert(t[j] == s[j]);
    }
}

/// Two dice lists holding the same multiset of dice group identically.
proof fn lemma_groups_of_multiset(s1: Seq<Dice>, s2: Seq<Dice>)
    requires
        s1.to_multiset() == s2.to_multiset(),
    ensures
        groups_of(s1) == groups_of(s2),
    decreases s1.len(),
{
    broadcast use vstd::seq_lib::group_to_multiset_ensures;

    if s1.len() == 0 {
        assert(s2.len() == s2.to_multiset().len());
    } else {
        let x = s1.last();
        assert(s1.contains(x)) by {
            assert(s1[s1.len() - 1] == x);
        }
        assert(s1.to_multiset().count(x) > 0);
        assert(s2.to_multiset().count(x) > 0);
        assert(s2.contains(x));
        let j = choose|j: int| 0 <= j < s2.len() && s2[j] == x;
        lemma_groups_of_pull(s2, j);
        lemma_groups_of_pull(s1, s1.len() - 1);
        assert(s1.remove(s1.len() - 1) =~= s1.drop_last());
        assert(s1.remove(s1.len() - 1).to_multiset() =~= s2.remove(j).to_multiset());
        lemma_groups_of_multiset(s1.drop_last(), s2.remove(j));
    }
}

/// Law: the canonical text of a dice list depends only on which dice it
/// holds, not on the order they were parsed or merged in — grouping is a
/// commutative merge.
pub proof fn lemma_describe_commutative(s1: Seq<Dice>, s2: Seq<Dice>)
    requires
        s1.to_multiset() == s2.to_multiset(),
    ensures
        describe_dice(s1) == describe_dice(s2),
{
    broadcast use vstd::seq_lib::group_to_multiset_ensures;

    lemma_groups_of_multiset(s1, s2);
    assert(s1.len() == s1.to_multiset().len());
    assert(s2.len() == s2.to_multiset().len());
}

} // verus!
