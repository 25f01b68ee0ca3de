use iron_dice::{RollResult, Roller};

fn parsed(notation: &str) -> Roller {
    notation.parse().unwrap()
}

#[test]
fn plain_total_is_the_sum_of_the_faces() {
    let result = parsed("3d6").evaluate(vec![1, 2, 3]);
    assert_eq!(result.dice, vec![1, 2, 3]);
    assert!(result.successes.is_empty());
    assert_eq!(result.outcome, 6);
}

#[test]
fn modifier_is_added_to_the_sum() {
    assert_eq!(parsed("3d6+4").evaluate(vec![1, 2, 3]).outcome, 10);
    assert_eq!(parsed("3d6-4").evaluate(vec![1, 2, 3]).outcome, 2);
    assert_eq!(parsed("1d20-20").evaluate(vec![1]).outcome, -19);
}

#[test]
fn no_dice_give_the_modifier_alone() {
    assert_eq!(Roller::new(0, 6).evaluate(vec![]).outcome, 0);
    assert_eq!(Roller::new(0, 6).modifier(Some(-3)).evaluate(vec![]).outcome, -3);
}

#[test]
fn successes_are_counted_by_threshold() {
    let result = parsed("3d6 sc5").evaluate(vec![1, 5, 6]);
    assert_eq!(result.dice, vec![1, 5, 6]);
    assert_eq!(result.successes, vec![0, 1, 1]);
    assert_eq!(result.outcome, 2);
}

#[test]
fn modifier_is_left_out_when_successes_are_counted() {
    assert_eq!(parsed("3d6+4 sc5").evaluate(vec![1, 5, 6]).outcome, 2);
}

#[test]
fn success_value_replaces_the_count_whatever_the_threshold() {
    let result = parsed("2d6 sc5 sv:1:7 sv:6:3").evaluate(vec![1, 6, 5, 2]);
    assert_eq!(result.successes, vec![7, 3, 1, 0]);
    assert_eq!(result.outcome, 11);
}

#[test]
fn failure_value_counts_only_under_the_threshold() {
    let result = parsed("2d6 sc5 fv:2:-3 fv:6:-9").evaluate(vec![2, 6, 3]);
    assert_eq!(result.successes, vec![-3, 1, 0]);
    assert_eq!(result.outcome, -2);
}

#[test]
fn success_value_comes_before_failure_value() {
    let result = parsed("1d6 sc5 sv:2:4 fv:2:-3").evaluate(vec![2]);
    assert_eq!(result.successes, vec![4]);
    assert_eq!(result.outcome, 4);
}

#[test]
fn every_face_in_the_success_table() {
    let roller = parsed("d6 sc1 sv:1:2 sv:2:2 sv:3:2 sv:4:2 sv:5:2 sv:6:2");
    for face in 1..=6 {
        assert_eq!(roller.evaluate(vec![face]).outcome, 2);
    }
}

#[test]
fn every_face_in_the_failure_table() {
    let roller = parsed("d6 sc7 fv:1:-2 fv:2:-2 fv:3:-2 fv:4:-2 fv:5:-2 fv:6:-2");
    for face in 1..=6 {
        assert_eq!(roller.evaluate(vec![face]).outcome, -2);
    }
}

#[test]
fn largest_values_are_selected() {
    assert_eq!(parsed("4d6 max2").evaluate(vec![3, 1, 6, 2]).outcome, 9);
    assert_eq!(parsed("4d6 max1").evaluate(vec![3, 1, 6, 2]).outcome, 6);
    assert_eq!(parsed("4d6 max0").evaluate(vec![3, 1, 6, 2]).outcome, 0);
}

#[test]
fn smallest_values_are_selected() {
    assert_eq!(parsed("4d6 min2").evaluate(vec![3, 1, 6, 2]).outcome, 3);
    assert_eq!(parsed("4d6 min3").evaluate(vec![3, 1, 6, 2]).outcome, 6);
}

#[test]
fn middle_values_are_selected() {
    // ascending 1 2 3 6: one value is passed over
    assert_eq!(parsed("4d6 mid2").evaluate(vec![3, 1, 6, 2]).outcome, 5);
    // ascending 1 2 2 3 4 5 6: two values are passed over
    assert_eq!(parsed("7d6 mid3").evaluate(vec![6, 2, 5, 1, 4, 2, 3]).outcome, 9);
    // three values left over: one is passed over
    assert_eq!(parsed("4d6 mid1").evaluate(vec![3, 1, 6, 2]).outcome, 2);
}

#[test]
fn selection_takes_what_there_is() {
    assert_eq!(parsed("2d6 max3").evaluate(vec![2, 5]).outcome, 7);
    assert_eq!(parsed("2d6 min3").evaluate(vec![2, 5]).outcome, 7);
    assert_eq!(parsed("2d6 mid3").evaluate(vec![2, 5]).outcome, 7);
    assert_eq!(parsed("2d6 max3").evaluate(vec![]).outcome, 0);
}

#[test]
fn selection_leaves_the_modifier_out() {
    assert_eq!(parsed("3d6+4 max2").evaluate(vec![1, 2, 3]).outcome, 5);
}

#[test]
fn the_last_selection_decides() {
    let dice = vec![1, 2, 3, 4, 6];
    assert_eq!(parsed("5d6 max2 min2").evaluate(dice.clone()).outcome, 3);
    assert_eq!(parsed("5d6 min2 max2").evaluate(dice.clone()).outcome, 3);
    assert_eq!(parsed("5d6 max2 min2 mid1").evaluate(dice.clone()).outcome, 3);
    assert_eq!(parsed("5d6 mid3 max1").evaluate(dice).outcome, 9);
}

#[test]
fn selection_counts_weights_where_successes_are_counted() {
    let result = parsed("4d6 sc4 max3 sv:6:5 fv:1:-2").evaluate(vec![6, 1, 4, 2]);
    assert_eq!(result.successes, vec![5, -2, 1, 0]);
    assert_eq!(result.outcome, 6);
    let result = parsed("4d6 sc4 min2 sv:6:5 fv:1:-2").evaluate(vec![6, 1, 4, 2]);
    assert_eq!(result.outcome, -2);
}

#[test]
fn large_faces_do_not_overflow() {
    let result = Roller::new(3, u32::MAX).evaluate(vec![u32::MAX, u32::MAX, u32::MAX]);
    assert_eq!(result.outcome, 3 * (u32::MAX as i128));
}

#[test]
fn large_weights_do_not_overflow() {
    let roller = Roller::new(2, 6)
        .success_threshold(Some(1))
        .add_success_values(Some(vec![(1, i32::MAX), (2, i32::MIN)]));
    assert_eq!(roller.evaluate(vec![1, 1]).outcome, 2 * (i32::MAX as i128));
    assert_eq!(roller.evaluate(vec![2, 2]).outcome, 2 * (i32::MIN as i128));
}

#[test]
fn weigh_follows_the_tables() {
    let roller = parsed("1d6 sc4 sv:6:5 fv:1:-2");
    assert_eq!(roller.weigh(4, 6), 5);
    assert_eq!(roller.weigh(4, 5), 1);
    assert_eq!(roller.weigh(4, 4), 1);
    assert_eq!(roller.weigh(4, 3), 0);
    assert_eq!(roller.weigh(4, 1), -2);
}

#[test]
fn roll_result_new_has_no_successes() {
    let result = RollResult::new(vec![4, 2], 6);
    assert_eq!(result.dice, vec![4, 2]);
    assert!(result.successes.is_empty());
    assert_eq!(result.outcome, 6);
}

#[test]
fn roll_result_successes_replaces_the_weights() {
    let result = RollResult::new(vec![4, 2], 1).successes(vec![1, 0]);
    assert_eq!(result.dice, vec![4, 2]);
    assert_eq!(result.successes, vec![1, 0]);
    assert_eq!(result.outcome, 1);
}
