use dice::roll::RollError;
use dice::rollspec::{parse, RollSpec};

#[test]
fn single_die_stays_within_its_sides() {
    for size in [1i64, 2, 6, 20, 100, 9_999_999, 10_000_000] {
        let r = parse(&format!("{}", size)).unwrap();
        for _ in 0..200 {
            let roll = r.roll().unwrap();
            assert_eq!(roll.rolls.len(), 1);
            assert!(roll.rolls[0] >= 1 && roll.rolls[0] <= size);
            assert_eq!(roll.sum, roll.rolls[0]);
        }
    }
}

#[test]
fn one_sided_dice_always_give_one() {
    let roll = parse("5d1+2").unwrap().roll().unwrap();
    assert_eq!(roll.rolls, vec![1, 1, 1, 1, 1]);
    assert_eq!(roll.sum, 7);
}

#[test]
fn drop_lowest_sums_the_three_highest() {
    let r = parse("4d6d1").unwrap();
    for _ in 0..200 {
        let roll = r.roll().unwrap();
        assert_eq!(roll.rolls.len(), 4);
        assert!(roll.rolls.windows(2).all(|w| w[0] <= w[1]));
        assert_eq!(roll.sum, roll.rolls[1] + roll.rolls[2] + roll.rolls[3]);
    }
    let roll = r.tally(vec![3, 1, 6, 2]).unwrap();
    assert_eq!(roll.rolls, vec![1, 2, 3, 6]);
    assert_eq!(roll.sum, 11);
}

#[test]
fn keep_lowest_adds_the_modifier_to_the_lower_die() {
    let r = parse("2d20K1+7").unwrap();
    for _ in 0..200 {
        let roll = r.roll().unwrap();
        assert_eq!(roll.rolls.len(), 2);
        assert_eq!(roll.sum, roll.rolls[0].min(roll.rolls[1]) + 7);
    }
    assert_eq!(r.tally(vec![15, 4]).unwrap().sum, 11);
}

#[test]
fn each_rule_selects_its_dice() {
    let rolls = vec![5, 2, 6, 1, 4];
    assert_eq!(parse("5d6k2").unwrap().tally(rolls.clone()).unwrap().sum, 11);
    assert_eq!(parse("5d6d2").unwrap().tally(rolls.clone()).unwrap().sum, 15);
    assert_eq!(parse("5d6D2").unwrap().tally(rolls.clone()).unwrap().sum, 7);
    assert_eq!(parse("5d6K2").unwrap().tally(rolls.clone()).unwrap().sum, 3);
    assert_eq!(parse("5d6-3").unwrap().tally(rolls.clone()).unwrap().sum, 15);
}

#[test]
fn first_count_set_decides() {
    let r = RollSpec { num: 4, size: 6, keep_high: 1, keep_low: 0, drop_low: 2, drop_high: 0, modifier: 0 };
    assert_eq!(r.tally(vec![1, 2, 3, 4]).unwrap().sum, 4);
    let r = RollSpec { keep_high: 0, drop_high: 1, ..r };
    assert_eq!(r.tally(vec![1, 2, 3, 4]).unwrap().sum, 7);
}

#[test]
fn keeping_every_high_die_sums_them_all() {
    let r = parse("4d6k4+1").unwrap();
    let roll = r.tally(vec![2, 6, 3, 3]).unwrap();
    assert_eq!(roll.sum, 15);
    for _ in 0..100 {
        let roll = r.roll().unwrap();
        assert_eq!(roll.sum, roll.rolls.iter().sum::<i64>() + 1);
    }
}

#[test]
fn counts_equal_to_the_dice_are_allowed() {
    assert_eq!(parse("3d6d3").unwrap().tally(vec![1, 2, 3]).unwrap().sum, 0);
    assert_eq!(parse("3d6K3").unwrap().tally(vec![1, 2, 3]).unwrap().sum, 6);
}

#[test]
fn counts_above_the_dice_are_refused() {
    for t in ["2d6k3", "2d6K3", "2d6d3", "2d6D3"] {
        let r = parse(t).unwrap();
        assert_eq!(r.roll().unwrap_err(), RollError::Range);
        assert_eq!(r.tally(vec![1, 2]).unwrap_err(), RollError::Range);
    }
}

#[test]
fn sizes_below_one_are_refused() {
    let r = RollSpec { num: 1, size: 0, keep_high: 0, keep_low: 0, drop_low: 0, drop_high: 0, modifier: 0 };
    assert_eq!(r.roll().unwrap_err(), RollError::Range);
    let r = RollSpec { size: -4, ..r };
    assert_eq!(r.roll().unwrap_err(), RollError::Range);
}

#[test]
fn no_dice_give_the_modifier() {
    let roll = parse("0d6+3").unwrap().roll().unwrap();
    assert!(roll.rolls.is_empty());
    assert_eq!(roll.sum, 3);
}

#[test]
fn totals_beyond_i64_are_refused() {
    let r = parse("2d9223372036854775807").unwrap();
    assert_eq!(r.tally(vec![i64::MAX, 1]).unwrap_err(), RollError::Overflow);
    let r = parse("2d9223372036854775807-5").unwrap();
    assert_eq!(r.tally(vec![i64::MAX, 5]).unwrap().sum, i64::MAX);
}

#[test]
fn dice_do_not_always_show_their_size() {
    let r = parse("1d6").unwrap();
    let mut seen = [false; 7];
    for _ in 0..300 {
        let v = r.roll().unwrap().rolls[0];
        seen[v as usize] = true;
    }
    assert!(seen.iter().filter(|s| **s).count() >= 2);
}

#[test]
fn dropping_every_die_leaves_the_modifier() {
    let roll = parse("3d6d3-2").unwrap().roll().unwrap();
    assert_eq!(roll.rolls.len(), 3);
    assert!(roll.rolls.iter().all(|v| *v >= 1 && *v <= 6));
    assert_eq!(roll.sum, -2);
}

#[test]
fn one_sided_dice_with_a_drop() {
    let roll = parse("4d1d1+2").unwrap().roll().unwrap();
    assert_eq!(roll.rolls, vec![1, 1, 1, 1]);
    assert_eq!(roll.sum, 5);
}
