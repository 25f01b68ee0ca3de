use iron_dice::Roller;

fn parsed(notation: &str) -> Roller {
    notation.parse().unwrap()
}

#[test]
fn faces_lie_between_one_and_the_sides() {
    let mut r = parsed("10d4");
    for _ in 0..200 {
        let result = r.roll();
        assert_eq!(result.dice.len(), 10);
        assert!(result.dice.iter().all(|face| 1 <= *face && *face <= 4));
    }
}

#[test]
fn faces_are_drawn_not_copied_from_the_sides() {
    let mut r = parsed("1d1000");
    let mut below = false;
    for _ in 0..200 {
        let faces = r.roll_one();
        assert_eq!(faces.len(), 1);
        assert!(1 <= faces[0] && faces[0] <= 1000);
        if faces[0] < 1000 {
            below = true;
        }
    }
    assert!(below);
}

#[test]
fn a_die_with_one_side_shows_one() {
    let mut r = parsed("5d1+2");
    let result = r.roll();
    assert_eq!(result.dice, vec![1, 1, 1, 1, 1]);
    assert_eq!(result.outcome, 7);
}

#[test]
fn no_dice_roll_nothing() {
    let mut r = Roller::new(0, 6).modifier(Some(-3));
    let result = r.roll();
    assert!(result.dice.is_empty());
    assert_eq!(result.outcome, -3);
    let mut r = Roller::new(0, 0);
    let result = r.roll();
    assert!(result.dice.is_empty());
    assert_eq!(result.outcome, 0);
}

#[test]
fn plain_total_is_the_sum_plus_the_modifier() {
    let mut r = parsed("4d8-5");
    for _ in 0..200 {
        let result = r.roll();
        assert_eq!(result.dice.len(), 4);
        let sum: i128 = result.dice.iter().map(|face| *face as i128).sum();
        assert_eq!(result.outcome, sum - 5);
        assert!(result.outcome >= 4 - 5 && result.outcome <= 32 - 5);
    }
}

#[test]
fn roll_one_stops_on_the_first_face_under_the_threshold() {
    let mut r = parsed("1d6 ex4");
    for _ in 0..500 {
        let faces = r.roll_one();
        let (last, before) = faces.split_last().unwrap();
        assert!(*last < 4);
        assert!(before.iter().all(|face| *face >= 4));
    }
}

#[test]
fn roll_one_without_threshold_throws_once() {
    let mut r = parsed("3d6");
    for _ in 0..100 {
        assert_eq!(r.roll_one().len(), 1);
    }
}

#[test]
fn a_die_with_one_side_under_a_higher_threshold_rests_at_once() {
    let mut r = parsed("1d1 ex2");
    for _ in 0..50 {
        let result = r.roll();
        assert_eq!(result.dice, vec![1]);
        assert_eq!(result.outcome, 1);
    }
    let mut r = parsed("4d1 max3 min2 mid1");
    let result = r.roll();
    assert_eq!(result.dice, vec![1, 1, 1, 1]);
    assert_eq!(result.outcome, 1);
}

#[test]
fn a_threshold_above_the_sides_never_explodes() {
    let mut r = parsed("2d6 ex7");
    for _ in 0..200 {
        assert_eq!(r.roll().dice.len(), 2);
    }
}

#[test]
fn every_die_comes_to_rest_once() {
    let mut r = parsed("5d6 ex5");
    for _ in 0..300 {
        let result = r.roll();
        let rested = result.dice.iter().filter(|face| **face < 5).count();
        assert_eq!(rested, 5);
        assert!(*result.dice.last().unwrap() < 5);
        let sum: i128 = result.dice.iter().map(|face| *face as i128).sum();
        assert_eq!(result.outcome, sum);
    }
}

#[test]
fn success_weights_are_zero_or_one_without_tables() {
    let mut r = parsed("6d6 sc4");
    for _ in 0..300 {
        let result = r.roll();
        assert_eq!(result.successes.len(), result.dice.len());
        for (face, weight) in result.dice.iter().zip(result.successes.iter()) {
            assert_eq!(*weight, if *face >= 4 { 1 } else { 0 });
        }
        let reached = result.dice.iter().filter(|face| **face >= 4).count();
        assert_eq!(result.outcome, reached as i128);
    }
}

#[test]
fn rolling_changes_nothing_but_the_generator() {
    let mut r = parsed("3d6+1 ex6 sc5 max2 min1 mid1 sv:6:2 fv:1:-1");
    for _ in 0..20 {
        r.roll();
        r.roll_one();
    }
    assert_eq!(r, parsed("3d6+1 ex6 sc5 max2 min1 mid1 sv:6:2 fv:1:-1"));
    assert_eq!(r.success_values.get(&6), Some(&2));
    assert_eq!(r.failure_values.get(&1), Some(&-1));
    assert_eq!(r.success_values.len(), 1);
    assert_eq!(r.failure_values.len(), 1);
}

#[test]
fn a_roll_is_counted_as_evaluate_counts_it() {
    let mut r = parsed("6d6 ex6 sc4 mid3 sv:6:3 fv:1:-2");
    for _ in 0..200 {
        let rolled = r.roll();
        let counted = r.evaluate(rolled.dice.clone());
        assert_eq!(rolled.dice, counted.dice);
        assert_eq!(rolled.successes, counted.successes);
        assert_eq!(rolled.outcome, counted.outcome);
    }
}

#[test]
fn mid_is_centred_in_the_ascending_order() {
    let mut r = parsed("8d6 mid3");
    for _ in 0..200 {
        let result = r.roll();
        let mut sorted = result.dice.clone();
        sorted.sort();
        let expected: i128 = sorted.iter().skip(2).take(3).map(|face| *face as i128).sum();
        assert_eq!(result.outcome, expected);
    }
}
