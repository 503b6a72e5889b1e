//! Model tests: comparison operators, dice and dice sets, decisions, and
//! the canonical text of each.

use dice_lib::Comparison;
use dice_lib::Decision;
use dice_lib::DecisionSet;
use dice_lib::Dice;
use dice_lib::DiceSet;
use dice_lib::Rollable;
use dice_lib::do_comparison;
use dice_lib::parse_dice;

#[test]
fn test_comparison_parse() {
    assert_eq!(Comparison::from_str("<"), Ok(Comparison::LessThan));
    assert_eq!(Comparison::from_str(">"), Ok(Comparison::GreaterThan));
    assert_eq!(Comparison::from_str("<="), Ok(Comparison::LessEqual));
    assert_eq!(Comparison::from_str(">="), Ok(Comparison::GreaterEqual));
    assert_eq!(Comparison::from_str("="), Ok(Comparison::Equal));
    assert_eq!(Comparison::from_str("=="), Ok(Comparison::Equal));
    // every other token is an invalid-operator error
    assert_eq!(Comparison::from_str("!"), Err(()));
    assert_eq!(Comparison::from_str("<>"), Err(()));
    assert_eq!(Comparison::from_str(""), Err(()));
    assert_eq!(Comparison::from_str("==="), Err(()));
}

#[test]
fn test_comparison_format() {
    assert_eq!(Comparison::LessThan.to_string(), "<");
    assert_eq!(Comparison::GreaterThan.to_string(), ">");
    assert_eq!(Comparison::LessEqual.to_string(), "<=");
    assert_eq!(Comparison::GreaterEqual.to_string(), ">=");
    // `=` parses to Equal but Equal renders back as `==`
    assert_eq!(Comparison::Equal.to_string(), "==");
    let parsed = Comparison::from_str("=").unwrap();
    assert_eq!(parsed.to_string(), "==");
}

#[test]
fn test_comparison_compare() {
    assert!(Comparison::LessThan.compare(3, 4));
    assert!(!Comparison::LessThan.compare(4, 4));
    assert!(Comparison::GreaterThan.compare(5, 4));
    assert!(!Comparison::GreaterThan.compare(4, 4));
    assert!(Comparison::LessEqual.compare(4, 4));
    assert!(!Comparison::LessEqual.compare(5, 4));
    assert!(Comparison::GreaterEqual.compare(4, 4));
    assert!(!Comparison::GreaterEqual.compare(3, 4));
    assert!(Comparison::Equal.compare(4, 4));
    assert!(!Comparison::Equal.compare(3, 4));
    assert!(do_comparison(Comparison::Equal, 7, 7));
}

#[test]
fn test_comparison_iter() {
    let all = Comparison::iter();
    assert_eq!(all.len(), 5);
    assert_eq!(all[0], Comparison::LessEqual);
    assert_eq!(all[1], Comparison::GreaterEqual);
    assert_eq!(all[2], Comparison::LessThan);
    assert_eq!(all[3], Comparison::GreaterThan);
    assert_eq!(all[4], Comparison::Equal);
}

#[test]
fn test_die_roll_range() {
    // a die samples uniformly from 1..sides: the face count itself is
    // excluded by the sampling range
    for sides in [2usize, 3, 6, 20] {
        let die = Dice::new(sides);
        assert_eq!(die.max(), sides);
        assert_eq!(die.sides(), sides);
        for _ in 0..2000 {
            let roll = die.roll(false);
            assert!(1 <= roll && roll <= sides - 1);
        }
    }
}

#[test]
fn test_die_two_faces_always_one() {
    // the boundary case: with two faces the only sample is 1
    let die = Dice::new(2);
    for _ in 0..100 {
        assert_eq!(die.roll(false), 1);
    }
}

#[test]
fn test_die_set_sides() {
    let mut die = Dice::new(4);
    die.set_sides(8);
    assert_eq!(die.sides(), 8);
    assert_eq!(die.to_string(), "d8");
}

#[test]
fn test_dice_set_max_and_roll_range() {
    // a set of n dice with s faces has max n*s and rolls within
    // [n, n*s - n]
    let set = parse_dice("3d6".to_string());
    assert_eq!(set.max(), 18);
    for _ in 0..2000 {
        let roll = set.roll(false);
        assert!(3 <= roll && roll <= 15);
    }
}

#[test]
fn test_dice_set_describe() {
    assert_eq!(parse_dice("1d20".to_string()).to_str(), "1d20");
    // grouping merges dice with the same face count
    assert_eq!(parse_dice("2d6,1d6".to_string()).to_str(), "3d6");
    // groups are ordered by face count ascending
    assert_eq!(parse_dice("2d8,1d4".to_string()).to_str(), "1d4,2d8");
    assert_eq!(parse_dice("10d20".to_string()).to_str(), "10d20");
}

#[test]
fn test_describe_commutative_merge() {
    // the canonical text depends only on which dice a set holds
    let left = parse_dice("1d6,2d4".to_string());
    let right = parse_dice("1d4,1d6,1d4".to_string());
    assert_eq!(left.to_str(), right.to_str());
    assert_eq!(left.to_str(), "2d4,1d6");
}

#[test]
fn test_dice_set_empty() {
    // a one-faced die contributes no randomness and is elided entirely,
    // and a zero-count term contributes no dice
    assert_eq!(parse_dice("1d1".to_string()).to_str(), "<empty DiceSet>");
    assert_eq!(parse_dice("0d6".to_string()).to_str(), "<empty DiceSet>");
    let empty = DiceSet::empty();
    assert_eq!(empty.to_str(), "<empty DiceSet>");
    assert_eq!(empty.max(), 0);
    assert_eq!(empty.roll(false), 0);
}

#[test]
fn test_dice_set_parser_tolerance() {
    // the parser ignores junk and keeps every term it can find
    let set = parse_dice("x2d6y,zz1d4+9q".to_string());
    assert_eq!(set.to_str(), "1d4,2d6");
    // the offset suffix is captured and discarded
    assert_eq!(parse_dice("1d4+2".to_string()).to_str(), "1d4");
    assert_eq!(parse_dice("".to_string()).to_str(), "<empty DiceSet>");
    assert_eq!(parse_dice("d6".to_string()).to_str(), "<empty DiceSet>");
}

#[test]
fn test_dice_set_from_string_and_from_sets() {
    let a = DiceSet::from_string("2d6");
    let b = DiceSet::from_string("1d4");
    let merged = DiceSet::from_sets(vec![a, b]);
    assert_eq!(merged.to_str(), "1d4,2d6");
    assert_eq!(merged.max(), 16);
}

#[test]
fn test_decision_max_and_rolls() {
    // the decision's bound equals the payoff's bound whether or not the
    // trigger can fire
    let d = parse_dice("1d20".to_string());
    let decision = Decision::new(Comparison::GreaterThan, d.clone(), 12, d.clone());
    assert_eq!(decision.max(), 20);

    // over many trials the fraction of nonzero outcomes approximates the
    // chance that a d20 trigger roll (uniform over 1..=19) exceeds 12
    let trials = 100000;
    let mut nonzero = 0usize;
    for _ in 0..trials {
        let roll = decision.roll(false);
        assert!(roll <= 19);
        if roll != 0 {
            nonzero += 1;
        }
    }
    let fraction = nonzero as f64 / trials as f64;
    let expected = 7.0 / 19.0;
    assert!((fraction - expected).abs() < 0.02);
}

#[test]
fn test_decision_always_fires() {
    // a trigger that always satisfies the comparison always rolls the
    // payoff: the outcome is never zero
    let trigger = parse_dice("1d20".to_string());
    let payoff = parse_dice("2d6".to_string());
    let decision = Decision::new(Comparison::GreaterEqual, trigger, 1, payoff);
    for _ in 0..200 {
        let roll = decision.roll(false);
        assert!(2 <= roll && roll <= 10);
    }
}

#[test]
fn test_decision_never_fires() {
    // a trigger that can never fire always yields zero
    let d = parse_dice("1d6".to_string());
    let decision = Decision::new(Comparison::GreaterThan, d.clone(), 100, d.clone());
    for _ in 0..100 {
        assert_eq!(decision.roll(false), 0);
    }
    assert_eq!(decision.max(), 6);
}

#[test]
fn test_decision_accessors() {
    let mut decision = Decision::empty();
    assert_eq!(decision.operator(), Comparison::LessThan);
    assert_eq!(decision.decision_value(), 0);
    assert_eq!(decision.dice().to_str(), "<empty DiceSet>");

    decision.set_operator(Comparison::GreaterEqual);
    decision.set_decision_value(11);
    decision.set_decision_dice(&parse_dice("1d20".to_string()));
    decision.set_dice(&parse_dice("2d6".to_string()));
    assert_eq!(decision.operator(), Comparison::GreaterEqual);
    assert_eq!(decision.decision_value(), 11);
    assert_eq!(decision.decision_dice().to_str(), "1d20");
    assert_eq!(decision.dice().to_str(), "2d6");
    assert_eq!(
        decision.to_string(),
        "if 1d20 >= 11 then 2d6"
    );
}

#[test]
fn test_decision_set() {
    let d6 = parse_dice("1d6".to_string());
    let d20 = parse_dice("1d20".to_string());
    let first = Decision::new(Comparison::LessEqual, d20.clone(), 20, d6.clone());
    let second = Decision::new(Comparison::GreaterThan, d20.clone(), 0, d20.clone());
    let set = DecisionSet { decisions: vec![first, second] };
    assert_eq!(set.max(), 26);
    assert_eq!(
        set.to_string(),
        "if 1d20 <= 20 then 1d6,if 1d20 > 0 then 1d20"
    );
    for _ in 0..500 {
        let roll = set.roll(false);
        // both triggers always fire: each payoff contributes at least one
        assert!(2 <= roll && roll < 26);
    }

    let empty = DecisionSet { decisions: vec![] };
    assert_eq!(empty.to_string(), "<empty DecisionSet>");
    assert_eq!(empty.max(), 0);
    assert_eq!(empty.roll(false), 0);
}
