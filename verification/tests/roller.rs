use iron_dice::Roller;

#[test]
fn roller_standard() {
    let r: Roller = String::from("3d6").parse().unwrap();
    assert_eq!(r.dice, 3);
    assert_eq!(r.sides, 6);

    let mut r: Roller = String::from("3d6").parse().unwrap();
    let roll_result = r.roll();
    assert_eq!(roll_result.dice.len(), 3);
    for die in roll_result.dice {
        assert!(die > 0 && die < 7);
    }
    assert!(roll_result.outcome > 0 && roll_result.outcome < 19);
}

#[test]
fn roller_single_die() {
    let r: Roller = String::from("d10").parse().unwrap();
    assert_eq!(r.dice, 1);
    assert_eq!(r.sides, 10);

    let mut r: Roller = String::from("d20").parse().unwrap();
    for _ in 1..=1000 {
        let roll_result = r.roll();
        assert_eq!(roll_result.dice.len(), 1);
        assert!(roll_result.outcome > 0 && roll_result.outcome < 21);
    }
}

#[test]
fn roller_standard_and_modifier() {
    let r: Roller = String::from("3d6+4").parse().unwrap();
    assert_eq!(r.dice, 3);
    assert_eq!(r.sides, 6);
    assert_eq!(r.modifier, Some(4));
}

#[test]
fn roller_standard_and_negative_modifier() {
    let r: Roller = String::from("3d6-4").parse().unwrap();
    assert_eq!(r.dice, 3);
    assert_eq!(r.sides, 6);
    assert_eq!(r.modifier, Some(-4));
}

#[test]
fn roller_single_die_with_modifier() {
    let r: Roller = String::from("d6-4").parse().unwrap();
    assert_eq!(r.dice, 1);
    assert_eq!(r.sides, 6);
    assert_eq!(r.modifier, Some(-4));
}

#[test]
fn roller_success_threshold() {
    let r: Roller = String::from("3d6 sc5").parse().unwrap();
    assert_eq!(r.dice, 3);
    assert_eq!(r.sides, 6);
    assert_eq!(r.success_threshold, Some(5));
}

#[test]
fn roller_explode_threshold() {
    let r: Roller = String::from("3d6 ex4").parse().unwrap();
    assert_eq!(r.dice, 3);
    assert_eq!(r.sides, 6);
    assert_eq!(r.explode_threshold, Some(4));
}

#[test]
fn roller_max_x_of_y() {
    let r: Roller = String::from("4d6 max3").parse().unwrap();
    assert_eq!(r.dice, 4);
    assert_eq!(r.sides, 6);
    assert_eq!(r.take_max, Some(3));
}

#[test]
fn roller_standard_with_modifier() {
    let mut r: Roller = String::from("1d20+20").parse().unwrap();
    for _ in 1..=1000 {
        let roll_result = r.roll();
        assert_eq!(roll_result.dice.len(), 1);
        assert!(roll_result.outcome > 20 && roll_result.outcome < 41);
    }
}

#[test]
fn roller_standard_with_negative_modifier() {
    let mut r: Roller = String::from("1d20-20").parse().unwrap();
    for _ in 1..=1000 {
        let roll_result = r.roll();
        assert_eq!(roll_result.dice.len(), 1);
        assert!(roll_result.outcome > -20 && roll_result.outcome < 1);
    }
}

#[test]
fn roller_standard_single_die_with_negative_modifier() {
    let mut r: Roller = String::from("d20-20").parse().unwrap();
    for _ in 1..=1000 {
        let roll_result = r.roll();
        assert_eq!(roll_result.dice.len(), 1);
        assert!(roll_result.outcome > -20 && roll_result.outcome < 1);
    }
}

#[test]
fn roller_standard_success_counting() {
    let mut r: Roller = String::from("6d6 sc1").parse().unwrap();
    for _ in 1..=1000 {
        let roll_result = r.roll();
        assert_eq!(roll_result.outcome, 6);
    }
}

#[test]
fn roller_standard_exploding() {
    let mut r: Roller = String::from("1d6 ex6").parse().unwrap();
    for _ in 1..=1000 {
        let roll_result = r.roll();
        roll_result
            .dice
            .iter()
            .take(roll_result.dice.len() - 1)
            .for_each(|x| assert!(*x == 6));
        assert!(*roll_result.dice.last().unwrap() < 6);
    }
}

#[test]
fn roller_exploding_success_threshold() {
    let mut r: Roller = String::from("1d6 ex6 sc6").parse().unwrap();
    for _ in 1..=1000 {
        let roll_result = r.roll();
        roll_result
            .successes
            .iter()
            .take(roll_result.successes.len() - 1)
            .for_each(|x| assert!(*x == 1));
        assert!(*roll_result.successes.last().unwrap() == 0);
    }
}
