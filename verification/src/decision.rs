//! Conditional rolls: a `Decision` first rolls a trigger set, compares the
//! trigger outcome against a threshold, and only on success rolls its payoff
//! set (otherwise the outcome is zero). A `DecisionSet` sums the outcomes of
//! its member decisions.

use vstd::prelude::*;
use crate::comparison::Comparison;
use crate::dice::{DiceSet, sum_sides, lemma_sum_sides_lower};
use crate::groups::describe_dice;
use crate::rollable::Rollable;
use crate::sums::sum_int;
use crate::text::{dec_str, dec_string};
use vstd::string::StringExecFns;

verus! {

/// A conditional roll: `if <trigger> <operator> <threshold> then <payoff>`.
///
/// Its outcome bound always equals the payoff's bound, whether or not the
/// condition can realistically be satisfied: the histogram must leave room
/// for the payoff's range even though the realized value is frequently zero.
#[derive(Clone, PartialEq, Debug)]
pub struct Decision {
    pub operator: Comparison,
    pub decision_dice: DiceSet,
    pub decision_value: usize,
    pub dice: DiceSet,
}

impl Decision {
    /// Composes a conditional roll from already-parsed parts.
    pub fn new(operator: Comparison, decision_dice: DiceSet, decision_value: usize, dice: DiceSet)
        -> (d: Decision)
        ensures
            d.operator == operator,
            d.decision_dice.dice@ == decision_dice.dice@,
            d.decision_value == decision_value,
            d.dice.dice@ == dice.dice@,
    {
        Decision { operator, decision_dice, decision_value, dice }
    }

    /// The inert decision: a trigger that can never fire and no payoff.
    pub fn empty() -> (d: Decision)
        ensures
            d.operator == Comparison::LessThan,
            d.decision_dice.dice@ =~= Seq::<crate::dice::Dice>::empty(),
            d.decision_value == 0,
            d.dice.dice@ =~= Seq::<crate::dice::Dice>::empty(),
    {
        Decision {
            operator: Comparison::LessThan,
            decision_dice: DiceSet::empty(),
            decision_value: 0,
            dice: DiceSet::empty(),
        }
    }

    /// The gating operator.
    pub fn operator(&self) -> (r: Comparison)
        ensures
            r == self.operator,
    {
        self.operator
    }

    /// Replaces the gating operator.
    pub fn set_operator(&mut self, op: Comparison)
        ensures
            final(self).operator == op,
            final(self).decision_dice.dice@ == old(self).decision_dice.dice@,
            final(self).decision_value == old(self).decision_value,
            final(self).dice.dice@ == old(self).dice.dice@,
    {
        self.operator = op;
    }

    /// The trigger set.
    pub fn decision_dice(&self) -> (r: DiceSet)
        ensures
            r.dice@ == self.decision_dice.dice@,
    {
        self.decision_dice.duplicate()
    }

    /// Replaces the trigger set.
    pub fn set_decision_dice(&mut self, dice: &DiceSet)
        ensures
            final(self).operator == old(self).operator,
            final(self).decision_dice.dice@ == dice.dice@,
            final(self).decision_value == old(self).decision_value,
            final(self).dice.dice@ == old(self).dice.dice@,
    {
        self.decision_dice = dice.duplicate();
    }

    /// The threshold the trigger outcome is compared against.
    pub fn decision_value(&self) -> (r: usize)
        ensures
            r == self.decision_value,
    {
        self.decision_value
    }

    /// Replaces the threshold.
    pub fn set_decision_value(&mut self, value: usize)
        ensures
            final(self).operator == old(self).operator,
            final(self).decision_dice.dice@ == old(self).decision_dice.dice@,
            final(self).decision_value == value,
            final(self).dice.dice@ == old(self).dice.dice@,
    {
        self.decision_value = value;
    }

    /// The payoff set.
    pub fn dice(&self) -> (r: DiceSet)
        ensures
            r.dice@ == self.dice.dice@,
    {
        self.dice.duplicate()
    }

    /// Replaces the payoff set.
    pub fn set_dice(&mut self, dice: &DiceSet)
        ensures
            final(self).operator == old(self).operator,
            final(self).decision_dice.dice@ == old(self).decision_dice.dice@,
            final(self).decision_value == old(self).decision_value,
            final(self).dice.dice@ == dice.dice@,
    {
        self.dice = dice.duplicate();
    }

    /// Whether the operator accepts every outcome the trigger set can
    /// roll: a well-formed trigger of `n` dice samples sums over
    /// `[n, bound - n]`.
    pub open spec fn trigger_always_fires(&self) -> bool {
        forall|t: int|
            self.decision_dice.dice@.len() <= t && t + self.decision_dice.dice@.len()
                <= sum_sides(self.decision_dice.dice@) ==> self.operator.compare_spec(
                t,
                self.decision_value as int,
            )
    }

    /// Whether the operator rejects every outcome the trigger set can
    /// roll.
    pub open spec fn trigger_never_fires(&self) -> bool {
        forall|t: int|
            self.decision_dice.dice@.len() <= t && t + self.decision_dice.dice@.len()
                <= sum_sides(self.decision_dice.dice@) ==> !self.operator.compare_spec(
                t,
                self.decision_value as int,
            )
    }
}

/// What one sampled outcome of a well-formed decision can be: zero or a sum
/// in the payoff's range; never zero when the trigger is certain to fire
/// and there is a payoff to roll; always zero when the trigger is certain
/// not to fire.
pub open spec fn decision_outcome(d: Decision, o: int) -> bool {
    &&& o == 0 || (d.dice.dice@.len() <= o && o + d.dice.dice@.len() <= sum_sides(d.dice.dice@))
    &&& d.trigger_always_fires() && d.dice.dice@.len() > 0 ==> d.dice.dice@.len() <= o
    &&& d.trigger_never_fires() ==> o == 0
}

impl Rollable for Decision {
    open spec fn wf(&self) -> bool {
        self.decision_dice.wf() && self.dice.wf()
    }

    open spec fn max_spec(&self) -> int {
        sum_sides(self.dice.dice@)
    }

    open spec fn describe(&self) -> Seq<char> {
        "if "@ + describe_dice(self.decision_dice.dice@) + " "@ + self.operator.token_spec()
            + " "@ + dec_str(self.decision_value as nat) + " then "@ + describe_dice(
            self.dice.dice@,
        )
    }

    fn roll(&self, verbose: bool) -> (r: usize)
        ensures
            decision_outcome(*self, r as int),
    {
        let decision_roll = self.decision_dice.roll(verbose);
        let should_roll = self.operator.compare(decision_roll, self.decision_value);
        proof {
            lemma_sum_sides_lower(self.dice.dice@);
        }
        if should_roll {
            self.dice.roll(verbose)
        } else {
            0
        }
    }

    fn max(&self) -> (r: usize) {
        self.dice.max()
    }

    fn to_string(&self) -> (r: String) {
        let mut s = String::from_str("if ");
        let trigger = self.decision_dice.to_string();
        s.append(trigger.as_str());
        s.append(" ");
        let op = self.operator.to_string();
        s.append(op.as_str());
        s.append(" ");
        let threshold = dec_string(self.decision_value);
        s.append(threshold.as_str());
        s.append(" then ");
        let payoff = self.dice.to_string();
        s.append(payoff.as_str());
        s
    }
}

/// The sum of the outcome bounds of a sequence of decisions.
pub open spec fn sum_dec_max(s: Seq<Decision>) -> int
    decreases s.len(),
{
    if s.len() == 0 {
        0
    } else {
        sum_dec_max(s.drop_last()) + sum_sides(s.last().dice.dice@)
    }
}

/// Every decision in the sequence is well-formed.
pub open spec fn all_dec_wf(s: Seq<Decision>) -> bool {
    forall|i: int| 0 <= i < s.len() ==> (#[trigger] s[i]).wf()
}

/// Some decision in the sequence has a positive outcome bound.
pub open spec fn has_pos(s: Seq<Decision>) -> bool
    decreases s.len(),
{
    if s.len() == 0 {
        false
    } else {
        has_pos(s.drop_last()) || sum_sides(s.last().dice.dice@) > 0
    }
}

proof fn lemma_sum_dec_max_nonneg(s: Seq<Decision>)
    ensures
        sum_dec_max(s) >= 0,
    decreases s.len(),
{
    if s.len() > 0 {
        lemma_sum_dec_max_nonneg(s.drop_last());
        crate::dice::lemma_sum_sides_nonneg(s.last().dice.dice@);
    }
}

/// A prefix never sums past the whole sequence.
proof fn lemma_sum_dec_max_prefix(s: Seq<Decision>, i: int)
    requires
        0 <= i <= s.len(),
    ensures
        sum_dec_max(s.subrange(0, i)) <= sum_dec_max(s),
    decreases s.len() - i,
{
    if i == s.len() {
        assert(s.subrange(0, i) =~= s);
    } else {
        lemma_sum_dec_max_prefix(s, i + 1);
        crate::dice::lemma_sum_sides_nonneg(s[i].dice.dice@);
        assert(s.subrange(0, i + 1).drop_last() =~= s.subrange(0, i));
        assert(s.subrange(0, i + 1).last() == s[i]);
    }
}

/// A positive total bound means some member bound is positive.
proof fn lemma_sum_pos_has_pos(s: Seq<Decision>)
    requires
        sum_dec_max(s) > 0,
    ensures
        has_pos(s),
    decreases s.len(),
{
    if s.len() > 0 {
        crate::dice::lemma_sum_sides_nonneg(s.last().dice.dice@);
        if sum_sides(s.last().dice.dice@) == 0 {
            lemma_sum_pos_has_pos(s.drop_last());
        }
    }
}

/// Decision descriptions joined by commas.
pub open spec fn render_decisions(s: Seq<Decision>) -> Seq<char>
    decreases s.len(),
{
    if s.len() == 0 {
        Seq::empty()
    } else if s.len() == 1 {
        s[0].describe()
    } else {
        render_decisions(s.drop_last()) + seq![','] + s.last().describe()
    }
}

/// An ordered collection of decisions, rolled and bounded additively.
#[derive(Clone, PartialEq, Debug)]
pub struct DecisionSet {
    pub decisions: Vec<Decision>,
}

impl Rollable for DecisionSet {
    open spec fn wf(&self) -> bool {
        all_dec_wf(self.decisions@) && sum_dec_max(self.decisions@) <= usize::MAX
    }

    open spec fn max_spec(&self) -> int {
        sum_dec_max(self.decisions@)
    }

    open spec fn describe(&self) -> Seq<char> {
        if self.decisions@.len() == 0 {
            "<empty DecisionSet>"@
        } else {
            render_decisions(self.decisions@)
        }
    }

    fn roll(&self, verbose: bool) -> (r: usize)
        ensures
            r <= sum_dec_max(self.decisions@),
            exists|os: Seq<int>|
                #![trigger sum_int(os)]
                os.len() == self.decisions@.len() && (forall|j: int|
                    0 <= j < os.len() ==> decision_outcome(self.decisions@[j], #[trigger] os[j]))
                    && r == sum_int(os),
    {
        let ghost ds = self.decisions@;
        let mut value: usize = 0;
        let mut i: usize = 0;
        let ghost mut os = Seq::<int>::empty();
        while i < self.decisions.len()
            invariant
                self.decisions@ == ds,
                all_dec_wf(ds),
                sum_dec_max(ds) <= usize::MAX,
                0 <= i <= ds.len(),
                value <= sum_dec_max(ds.subrange(0, i as int)),
                has_pos(ds.subrange(0, i as int)) ==> value < sum_dec_max(
                    ds.subrange(0, i as int),
                ),
                os.len() == i,
                forall|j: int| 0 <= j < i ==> decision_outcome(ds[j], #[trigger] os[j]),
                value == sum_int(os),
            decreases ds.len() - i,
        {
            proof {
                lemma_sum_dec_max_prefix(ds, i as int + 1);
                assert(ds.subrange(0, i as int + 1).drop_last() =~= ds.subrange(0, i as int));
                assert(ds.subrange(0, i as int + 1).last() == ds[i as int]);
            }
            let member = &self.decisions[i];
            let sample = member.roll(verbose);
            proof {
                crate::dice::lemma_sum_sides_nonneg(member.dice.dice@);
                if sample != 0 && member.dice.dice@.len() == 0 {
                    assert(sum_sides(member.dice.dice@) == 0);
                }
                let os0 = os;
                os = os.push(sample as int);
                assert(os.drop_last() =~= os0);
                assert(os.last() == sample as int);
            }
            value = value + sample;
            i = i + 1;
        }
        proof {
            assert(ds.subrange(0, ds.len() as int) =~= ds);
            if sum_dec_max(ds) > 0 {
                lemma_sum_pos_has_pos(ds);
            }
            assert(os.len() == ds.len() && (forall|j: int|
                0 <= j < os.len() ==> decision_outcome(ds[j], #[trigger] os[j])) && value
                == sum_int(os));
        }
        value
    }

    fn max(&self) -> (r: usize) {
        let ghost ds = self.decisions@;
        let mut value: usize = 0;
        let mut i: usize = 0;
        while i < self.decisions.len()
            invariant
                self.decisions@ == ds,
                all_dec_wf(ds),
                sum_dec_max(ds) <= usize::MAX,
                0 <= i <= ds.len(),
                value == sum_dec_max(ds.subrange(0, i as int)),
            decreases ds.len() - i,
        {
            proof {
                lemma_sum_dec_max_prefix(ds, i as int + 1);
                lemma_sum_dec_max_nonneg(ds.subrange(0, i as int));
                assert(ds.subrange(0, i as int + 1).drop_last() =~= ds.subrange(0, i as int));
                assert(ds.subrange(0, i as int + 1).last() == ds[i as int]);
            }
            let bound = self.decisions[i].max();
            value = value + bound;
            i = i + 1;
        }
        proof {
            assert(ds.subrange(0, ds.len() as int) =~= ds);
        }
        value
    }

    fn to_string(&self) -> (r: String) {
        let ghost ds = self.decisions@;
        if self.decisions.len() == 0 {
            String::from_str("<empty DecisionSet>")
        } else {
            let first = self.decisions[0].to_string();
            let mut s = first;
            proof {
                assert(ds.subrange(0, 1)[0] == ds[0]);
                assert(s@ =~= render_decisions(ds.subrange(0, 1)));
            }
            let mut k: usize = 1;
            while k < self.decisions.len()
                invariant
                    self.decisions@ == ds,
                    1 <= k <= ds.len(),
                    s@ == render_decisions(ds.subrange(0, k as int)),
                decreases ds.len() - k,
            {
                s.append(",");
                let next = self.decisions[k].to_string();
                s.append(next.as_str());
                proof {
                    assert(ds.subrange(0, k as int + 1).drop_last() =~= ds.subrange(0, k as int));
                    assert(ds.subrange(0, k as int + 1).last() == ds[k as int]);
                    reveal_strlit(",");
                    assert(","@ =~= seq![',']);
                }
                k = k + 1;
            }
            proof {
                assert(ds.subrange(0, ds.len() as int) =~= ds);
            }
            s
        }
    }
}

} // verus!
