//! Single dice and additive sets of dice.
//!
//! A `Dice` is a uniform discrete random variable over `1..sides` (the face
//! count itself is excluded by the sampling range). A `DiceSet` sums one
//! sample from every member; a die with one face or fewer contributes no
//! randomness and is elided at the set-construction boundary, never held
//! inside a set.

use vstd::prelude::*;
use crate::rollable::Rollable;
use crate::text::dec_str;
use crate::groups::{describe_dice, dice_set_text};

verus! {

/// A single die with a fixed face count.
#[derive(Clone, Copy, PartialEq, Eq, Structural, Debug)]
pub struct Dice {
    pub sides: usize,
}

/// Sum of the face counts of a sequence of dice.
pub open spec fn sum_sides(s: Seq<Dice>) -> int
    decreases s.len(),
{
    if s.len() == 0 {
        0
    } else {
        sum_sides(s.drop_last()) + s.last().sides
    }
}

/// Every die in the sequence has at least two faces.
pub open spec fn all_wf(s: Seq<Dice>) -> bool {
    forall|i: int| 0 <= i < s.len() ==> (#[trigger] s[i]).sides >= 2
}

pub proof fn lemma_sum_sides_nonneg(s: Seq<Dice>)
    ensures
        sum_sides(s) >= 0,
    decreases s.len(),
{
    if s.len() > 0 {
        lemma_sum_sides_nonneg(s.drop_last());
    }
}

/// A prefix never sums past the whole sequence.
proof fn lemma_sum_sides_prefix(s: Seq<Dice>, i: int)
    requires
        0 <= i <= s.len(),
    ensures
        sum_sides(s.subrange(0, i)) <= sum_sides(s),
    decreases s.len() - i,
{
    if i == s.len() {
        assert(s.subrange(0, i) =~= s);
    } else {
        lemma_sum_sides_prefix(s, i + 1);
        assert(s.subrange(0, i + 1).drop_last() =~= s.subrange(0, i));
        assert(s.subrange(0, i + 1).last() == s[i]);
    }
}

/// With every die at two faces or more, the sum of face counts is at least
/// twice the number of dice.
pub proof fn lemma_sum_sides_lower(s: Seq<Dice>)
    requires
        all_wf(s),
    ensures
        sum_sides(s) >= 2 * s.len(),
    decreases s.len(),
{
    if s.len() > 0 {
        assert(all_wf(s.drop_last())) by {
            assert(forall|i: int|
                0 <= i < s.len() - 1 ==> s.drop_last()[i] == (#[trigger] s[i]));
        }
        lemma_sum_sides_lower(s.drop_last());
    }
}

/// Law: a set built from `n` dice of `s` faces each has outcome bound
/// exactly `n * s`. Together with the contract of `DiceSet::roll`, every
/// sampled roll of such a set lies between `n` and `n * s - n`.
pub proof fn lemma_uniform_set_max(dice: Seq<Dice>, s: usize)
    requires
        forall|i: int| 0 <= i < dice.len() ==> (#[trigger] dice[i]).sides == s,
    ensures
        sum_sides(dice) == dice.len() * s,
    decreases dice.len(),
{
    if dice.len() == 0 {
        assert(0 * s == 0);
    } else {
        assert(forall|i: int|
            0 <= i < dice.len() - 1 ==> dice.drop_last()[i] == (#[trigger] dice[i]));
        lemma_uniform_set_max(dice.drop_last(), s);
        assert(dice.len() * s == (dice.len() - 1) * s + s) by (nonlinear_arith);
    }
}

/// Relies on `rand::distributions::Uniform::from(1..sides)` together with
/// `Distribution::sample` on a fresh `rand::thread_rng()`: the distribution
/// samples uniformly from the half-open range `[1, sides)` and its
/// construction panics unless `1 < sides`.
#[verifier::external_body]
fn sample_uniform(sides: usize) -> (r: usize)
    requires
        sides >= 2,
    ensures
        1 <= r < sides,
{
    let distribution = rand::distributions::Uniform::from(1..sides);
    let mut rng: rand::rngs::ThreadRng = rand::thread_rng();
    rand::distributions::Distribution::sample(&distribution, &mut rng)
}

impl Dice {
    /// A die with the given face count; degenerate face counts (below two)
    /// are rejected at the set-construction boundary and never reach here.
    pub fn new(sides: usize) -> (d: Dice)
        requires
            sides >= 2,
        ensures
            d.sides == sides,
    {
        Dice { sides }
    }

    /// Replaces the face count.
    pub fn set_sides(&mut self, sides: usize)
        requires
            sides >= 2,
        ensures
            final(self).sides == sides,
    {
        self.sides = sides;
    }

    /// The face count.
    pub fn sides(&self) -> (r: usize)
        ensures
            r == self.sides,
    {
        self.sides
    }
}

impl Rollable for Dice {
    open spec fn wf(&self) -> bool {
        self.sides >= 2
    }

    open spec fn max_spec(&self) -> int {
        self.sides as int
    }

    open spec fn describe(&self) -> Seq<char> {
        seq!['d'] + dec_str(self.sides as nat)
    }

    fn roll(&self, verbose: bool) -> (r: usize)
        ensures
            1 <= r < self.sides,
    {
        proof {
            assert(self.wf());
            assert(self.sides >= 2);
        }
        let r = sample_uniform(self.sides);
        proof {
            assert(self.max_spec() == self.sides as int);
        }
        r
    }

    fn max(&self) -> (r: usize) {
        self.sides
    }

    fn to_string(&self) -> (r: String) {
        let mut v: Vec<char> = Vec::new();
        v.push('d');
        crate::text::push_dec(&mut v, self.sides);
        proof {
            assert(v@ =~= seq!['d'] + dec_str(self.sides as nat));
        }
        crate::text::chars_to_string(&v)
    }
}

/// An additive collection of dice: a roll is the sum of one sample from
/// every member.
#[derive(Clone, PartialEq, Debug)]
pub struct DiceSet {
    pub dice: Vec<Dice>,
}

/// The dice of a sequence of sets, flattened in order.
pub open spec fn concat_dice(sets: Seq<DiceSet>) -> Seq<Dice>
    decreases sets.len(),
{
    if sets.len() == 0 {
        Seq::empty()
    } else {
        concat_dice(sets.drop_last()) + sets.last().dice@
    }
}

impl DiceSet {
    /// The set with no dice.
    pub fn empty() -> (r: DiceSet)
        ensures
            r.dice@ =~= Seq::<Dice>::empty(),
    {
        DiceSet { dice: Vec::new() }
    }

    /// Flattens several sets into one, keeping the dice in order.
    pub fn from_sets(sets: Vec<DiceSet>) -> (r: DiceSet)
        ensures
            r.dice@ == concat_dice(sets@),
    {
        let ghost ss = sets@;
        let mut dice: Vec<Dice> = Vec::new();
        let mut t: usize = 0;
        while t < sets.len()
            invariant
                sets@ == ss,
                0 <= t <= ss.len(),
                dice@ == concat_dice(ss.subrange(0, t as int)),
            decreases ss.len() - t,
        {
            let member = &sets[t];
            let mut j: usize = 0;
            while j < member.dice.len()
                invariant
                    sets@ == ss,
                    0 <= t < ss.len(),
                    member.dice@ == ss[t as int].dice@,
                    0 <= j <= member.dice@.len(),
                    dice@ == concat_dice(ss.subrange(0, t as int)) + member.dice@.subrange(
                        0,
                        j as int,
                    ),
                decreases member.dice@.len() - j,
            {
                dice.push(member.dice[j]);
                proof {
                    assert(member.dice@.subrange(0, j as int + 1) =~= member.dice@.subrange(
                        0,
                        j as int,
                    ).push(member.dice@[j as int]));
                }
                j = j + 1;
            }
            proof {
                assert(member.dice@.subrange(0, member.dice@.len() as int) =~= member.dice@);
                assert(ss.subrange(0, t as int + 1).drop_last() =~= ss.subrange(0, t as int));
                assert(ss.subrange(0, t as int + 1).last() == ss[t as int]);
            }
            t = t + 1;
        }
        proof {
            assert(ss.subrange(0, ss.len() as int) =~= ss);
        }
        DiceSet { dice }
    }

    /// A copy of the set; the member dice are plain values.
    pub fn duplicate(&self) -> (r: DiceSet)
        ensures
            r.dice@ == self.dice@,
    {
        let mut dice: Vec<Dice> = Vec::new();
        let mut i: usize = 0;
        while i < self.dice.len()
            invariant
                0 <= i <= self.dice@.len(),
                dice@ == self.dice@.subrange(0, i as int),
            decreases self.dice@.len() - i,
        {
            dice.push(self.dice[i]);
            proof {
                assert(self.dice@.subrange(0, i as int + 1) =~= self.dice@.subrange(
                    0,
                    i as int,
                ).push(self.dice@[i as int]));
            }
            i = i + 1;
        }
        proof {
            assert(self.dice@.subrange(0, self.dice@.len() as int) =~= self.dice@);
        }
        DiceSet { dice }
    }

    /// The canonical text of the set (the member dice grouped by face
    /// count).
    pub fn to_str(&self) -> (r: String)
        ensures
            r@ == self.describe(),
    {
        self.to_string()
    }

    /// Whether the set satisfies its structural invariant: every member die
    /// has at least two faces and the outcome bound fits the machine word.
    pub fn check_wf(&self) -> (b: bool)
        ensures
            b == self.wf(),
    {
        let ghost ds = self.dice@;
        let mut total: usize = 0;
        let mut i: usize = 0;
        while i < self.dice.len()
            invariant
                self.dice@ == ds,
                0 <= i <= ds.len(),
                all_wf(ds.subrange(0, i as int)),
                total == sum_sides(ds.subrange(0, i as int)),
            decreases ds.len() - i,
        {
            let die = self.dice[i];
            if die.sides < 2 {
                proof {
                    assert(!all_wf(ds)) by {
                        assert(ds[i as int].sides < 2);
                    }
                }
                return false;
            }
            let next = total.checked_add(die.sides);
            proof {
                assert(ds.subrange(0, i as int + 1).drop_last() =~= ds.subrange(0, i as int));
                assert(ds.subrange(0, i as int + 1).last() == ds[i as int]);
                assert(all_wf(ds.subrange(0, i as int + 1))) by {
                    assert(forall|j: int|
                        0 <= j < i + 1 ==> ds.subrange(0, i as int + 1)[j] == (#[trigger] ds[j]));
                }
            }
            match next {
                Some(v) => {
                    total = v;
                },
                None => {
                    proof {
                        lemma_sum_sides_prefix(ds, i as int + 1);
                    }
                    return false;
                },
            }
            i = i + 1;
        }
        proof {
            assert(ds.subrange(0, ds.len() as int) =~= ds);
        }
        true
    }
}

impl Rollable for DiceSet {
    open spec fn wf(&self) -> bool {
        all_wf(self.dice@) && sum_sides(self.dice@) <= usize::MAX
    }

    open spec fn max_spec(&self) -> int {
        sum_sides(self.dice@)
    }

    open spec fn describe(&self) -> Seq<char> {
        describe_dice(self.dice@)
    }

    fn roll(&self, verbose: bool) -> (r: usize)
        ensures
            self.dice@.len() <= r,
            r + self.dice@.len() <= sum_sides(self.dice@),
    {
        let ghost ds = self.dice@;
        let mut value: usize = 0;
        let mut i: usize = 0;
        proof {
            lemma_sum_sides_lower(ds);
        }
        while i < self.dice.len()
            invariant
                self.dice@ == ds,
                all_wf(ds),
                sum_sides(ds) <= usize::MAX,
                0 <= i <= ds.len(),
                i <= value,
                value + i <= sum_sides(ds.subrange(0, i as int)),
            decreases ds.len() - i,
        {
            proof {
                lemma_sum_sides_prefix(ds, i as int + 1);
                assert(ds.subrange(0, i as int + 1).drop_last() =~= ds.subrange(0, i as int));
                assert(ds.subrange(0, i as int + 1).last() == ds[i as int]);
            }
            let die = &self.dice[i];
            let sample = die.roll(verbose);
            value = value + sample;
            i = i + 1;
        }
        proof {
            assert(ds.subrange(0, ds.len() as int) =~= ds);
        }
        value
    }

    fn max(&self) -> (r: usize) {
        let ghost ds = self.dice@;
        let mut value: usize = 0;
        let mut i: usize = 0;
        while i < self.dice.len()
            invariant
                self.dice@ == ds,
                sum_sides(ds) <= usize::MAX,
                0 <= i <= ds.len(),
                value == sum_sides(ds.subrange(0, i as int)),
            decreases ds.len() - i,
        {
            proof {
                lemma_sum_sides_prefix(ds, i as int + 1);
                lemma_sum_sides_nonneg(ds.subrange(0, i as int));
                assert(ds.subrange(0, i as int + 1).drop_last() =~= ds.subrange(0, i as int));
                assert(ds.subrange(0, i as int + 1).last() == ds[i as int]);
            }
            value = value + self.dice[i].sides;
            i = i + 1;
        }
        proof {
            assert(ds.subrange(0, ds.len() as int) =~= ds);
        }
        value
    }

    fn to_string(&self) -> (r: String) {
        dice_set_text(&self.dice)
    }
}

} // verus!
