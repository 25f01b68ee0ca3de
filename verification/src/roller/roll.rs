//! Rolling: the dice are thrown, then counted.

use crate::roll_result::RollResult;
use crate::roller::Roller;
use crate::source::draw;
use crate::tally::{
    face_values, lemma_total_bounds, sum, sum_largest, sum_middle, sum_smallest, total,
};
use vstd::prelude::*;
use vstd::std_specs::hash::group_hash_axioms;

verus! {

impl Roller {
    /// What a die that shows `face` counts for under `threshold`.
    pub fn weigh(&self, threshold: u32, face: u32) -> (weight: i32)
        ensures
            weight == self@.weight(threshold, face),
    {
        broadcast use group_hash_axioms;

        match self.success_values.get(&face) {
            Some(weight) => *weight,
            None => {
                if face >= threshold {
                    1
                } else {
                    match self.failure_values.get(&face) {
                        Some(weight) => *weight,
                        None => 0,
                    }
                }
            },
        }
    }

    /// Whether a die that shows `face` is rolled once more.
    pub fn explodes(&self, face: u32) -> (again: bool)
        ensures
            again == self@.explodes(face),
    {
        match self.explode_threshold {
            None => false,
            Some(threshold) => face >= threshold,
        }
    }

    /// Throws one die: it is rolled again after every face that reaches the
    /// explode threshold and rests on the first face that does not. The
    /// faces are returned in the order they came up. Where no face of the
    /// die explodes that is one face. A die is left unfinished only where
    /// all its faces exploded and have filled the longest vector there can
    /// be.
    pub fn roll_one(&mut self) -> (faces: Vec<u32>)
        requires
            old(self).sides >= 1,
        ensures
            final(self)@ == old(self)@,
            old(self)@.in_range(faces@),
            old(self)@.is_chain(faces@) || (faces@.len() == usize::MAX && old(
                self,
            )@.can_explode() && forall|i: int|
                0 <= i < faces@.len() ==> old(self)@.explodes(#[trigger] faces@[i])),
            !old(self)@.can_explode() ==> faces@.len() == 1,
    {
        let ghost notation = self@;
        let mut faces: Vec<u32> = Vec::new();
        loop
            invariant_except_break
                forall|i: int| 0 <= i < faces@.len() ==> notation.explodes(#[trigger] faces@[i]),
            invariant
                self@ == notation,
                notation.sides >= 1,
                notation.in_range(faces@),
            ensures
                notation.is_chain(faces@) || (faces@.len() == usize::MAX && notation.can_explode()
                    && forall|i: int|
                    0 <= i < faces@.len() ==> notation.explodes(#[trigger] faces@[i])),
                !notation.can_explode() ==> faces@.len() == 1,
            decreases usize::MAX - faces@.len(),
        {
            if faces.len() == usize::MAX {
                // every face so far has exploded, so some face can
                assert(notation.explodes(faces@[0]));
                break ;
            }
            let face = draw(&mut self.rng, self.sides);
            faces.push(face);

            // the die rests if there is no threshold or the face is under it
            if !self.explodes(face) {
                assert(!notation.can_explode() ==> faces@.len() == 1) by {
                    if faces@.len() > 1 {
                        assert(notation.explodes(faces@[0]));
                    }
                }
                break ;
            }
        }
        faces
    }

    /// Generates a roll result: every die is thrown, with its explosions,
    /// and the faces are counted as `evaluate` counts them. Only the
    /// generator changes. Where no face of the die explodes there is one
    /// face per die; a roll without features totals the sum of its faces
    /// plus the modifier. A roll is left unfinished only where some face can
    /// explode and the faces have filled the longest vector there can be.
    pub fn roll(&mut self) -> (result: RollResult)
        requires
            old(self).dice == 0 || old(self).sides >= 1,
        ensures
            final(self)@ == old(self)@,
            old(self)@.in_range(result.dice@),
            old(self)@.is_roll(result.dice@) || (result.dice@.len() == usize::MAX && old(
                self,
            )@.can_explode()),
            !old(self)@.can_explode() ==> result.dice@.len() == old(self).dice,
            result.successes@ == old(self)@.successes(result.dice@),
            result.outcome == old(self)@.outcome(result.dice@),
            old(self)@.is_plain() ==> result.dice@.len() == old(self).dice
                && result.successes@.len() == 0 && result.outcome == total(
                face_values(result.dice@),
            ) + old(self)@.shift(),
    {
        let ghost notation = self@;
        let mut results: Vec<u32> = Vec::new();

        // rolling dice and getting raw results
        let mut thrown: u32 = 0;
        while thrown < self.dice
            invariant
                self@ == notation,
                notation.dice == 0 || notation.sides >= 1,
                thrown <= notation.dice,
                notation.in_range(results@),
                notation.is_roll_of(thrown as nat, results@) || (results@.len() == usize::MAX
                    && notation.can_explode()),
            decreases notation.dice - thrown,
        {
            let mut die_results = self.roll_one();
            proof {
                if notation.is_roll_of(thrown as nat, results@) && notation.is_chain(die_results@) {
                    notation.lemma_roll_grows(thrown as nat, results@, die_results@);
                }
            }
            results.append(&mut die_results);
            // a vector is never longer than `usize::MAX`
            assert(results@.len() == results.len());
            thrown = thrown + 1;
        }
        proof {
            if !notation.can_explode() {
                notation.lemma_rested_all(results@);
            }
        }
        self.evaluate(results)
    }

    /// Counts dice that have been thrown: the success weights, and the total
    /// after the modifier and the selections.
    pub fn evaluate(&self, dice: Vec<u32>) -> (result: RollResult)
        ensures
            result.dice@ == dice@,
            result.successes@ == self@.successes(dice@),
            result.outcome == self@.outcome(dice@),
    {
        // considering success counting, and the values to count by
        let mut successes: Vec<i32> = Vec::new();
        let mut counted: Vec<i64> = Vec::new();
        let mut i: usize = 0;
        assert(successes@ =~= self@.successes(dice@.take(0)));
        assert(counted@ =~= self@.counted(dice@.take(0)));
        while i < dice.len()
            invariant
                i <= dice.len(),
                successes@ == self@.successes(dice@.take(i as int)),
                counted@ == self@.counted(dice@.take(i as int)),
            decreases dice.len() - i,
        {
            match self.success_threshold {
                None => {
                    counted.push(dice[i] as i64);
                },
                Some(threshold) => {
                    let weight = self.weigh(threshold, dice[i]);
                    successes.push(weight);
                    counted.push(weight as i64);
                },
            }
            assert(successes@ =~= self@.successes(dice@.take(i + 1)));
            assert(counted@ =~= self@.counted(dice@.take(i + 1)));
            i = i + 1;
        }
        assert(dice@.take(i as int) == dice@);

        // standard roll
        let plain = sum(&counted);
        let mut outcome: i128 = plain;
        if self.success_threshold.is_none() {
            if let Some(modifier) = self.modifier {
                proof {
                    lemma_total_bounds(counted@, 0, 0xFFFF_FFFF);
                    assert(counted@.len() * 0xFFFF_FFFF <= 0xFFFF_FFFF_FFFF_FFFF * 0xFFFF_FFFF)
                        by (nonlinear_arith)
                        requires
                            counted@.len() <= 0xFFFF_FFFF_FFFF_FFFF,
                    ;
                }
                outcome = plain + modifier as i128;
            }
        }
        assert(outcome == self@.base(dice@));

        // considering max
        if let Some(count) = self.take_max {
            outcome = sum_largest(&counted, count);
        }
        // considering min
        if let Some(count) = self.take_min {
            outcome = sum_smallest(&counted, count);
        }
        // considering mid
        if let Some(count) = self.take_mid {
            outcome = sum_middle(&counted, count);
        }
        RollResult::new(dice, outcome).successes(successes)
    }
}

} // verus!
