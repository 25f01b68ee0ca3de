//! The roller: a notation together with the generator it rolls with.

use crate::grammar::with_entries;
use crate::notation::Notation;
use rand::rngs::ThreadRng;
use std::collections::HashMap;
use vstd::prelude::*;

pub mod equality;
pub mod parse;
pub mod roll;

verus! {

/// A die roller engine. Made from a notation such as `"3d6"` or `"d20"`, it
/// produces one roll result per call of `roll`.
#[derive(Debug)]
pub struct Roller {
    /// Number of dice to throw.
    pub dice: u32,
    /// Number of sides per die.
    pub sides: u32,
    /// Optional modifier per roll.
    pub modifier: Option<i32>,
    /// Optional success threshold per roll.
    pub success_threshold: Option<u32>,
    /// Optional explode threshold per die.
    pub explode_threshold: Option<u32>,
    /// Random number generator.
    pub rng: ThreadRng,
    /// Number of the largest values to count.
    pub take_max: Option<u32>,
    /// Number of the smallest values to count.
    pub take_min: Option<u32>,
    /// Number of the values in the middle to count.
    pub take_mid: Option<u32>,
    /// Weights by face that replace the success count.
    pub success_values: HashMap<u32, i32>,
    /// Weights by face for the faces under the success threshold.
    pub failure_values: HashMap<u32, i32>,
}

impl View for Roller {
    type V = Notation;

    open spec fn view(&self) -> Notation {
        Notation {
            dice: self.dice,
            sides: self.sides,
            modifier: self.modifier,
            success_threshold: self.success_threshold,
            explode_threshold: self.explode_threshold,
            take_max: self.take_max,
            take_min: self.take_min,
            take_mid: self.take_mid,
            success_values: self.success_values@,
            failure_values: self.failure_values@,
        }
    }
}

impl Roller {
    /// Creates a simple roller.
    pub fn new(dice: u32, sides: u32) -> (roller: Self)
        ensures
            roller@ == Notation::plain(dice, sides),
    {
        Self {
            dice,
            sides,
            modifier: None,
            success_threshold: None,
            explode_threshold: None,
            take_max: None,
            take_min: None,
            take_mid: None,
            rng: rand::thread_rng(),
            success_values: HashMap::new(),
            failure_values: HashMap::new(),
        }
    }

    /// The same roller with the given modifier.
    pub fn modifier(self, modifier: Option<i32>) -> (roller: Self)
        ensures
            roller@ == (Notation { modifier, ..self@ }),
    {
        let mut roller = self;
        roller.modifier = modifier;
        roller
    }

    /// The same roller with the given success threshold.
    pub fn success_threshold(self, success_threshold: Option<u32>) -> (roller: Self)
        ensures
            roller@ == (Notation { success_threshold, ..self@ }),
    {
        let mut roller = self;
        roller.success_threshold = success_threshold;
        roller
    }

    /// The same roller with the given explode threshold.
    pub fn explode_threshold(self, explode_threshold: Option<u32>) -> (roller: Self)
        ensures
            roller@ == (Notation { explode_threshold, ..self@ }),
    {
        let mut roller = self;
        roller.explode_threshold = explode_threshold;
        roller
    }

    /// The same roller counting the given number of largest values.
    pub fn take_max(self, take_max: Option<u32>) -> (roller: Self)
        ensures
            roller@ == (Notation { take_max, ..self@ }),
    {
        let mut roller = self;
        roller.take_max = take_max;
        roller
    }

    /// The same roller counting the given number of smallest values.
    pub fn take_min(self, take_min: Option<u32>) -> (roller: Self)
        ensures
            roller@ == (Notation { take_min, ..self@ }),
    {
        let mut roller = self;
        roller.take_min = take_min;
        roller
    }

    /// The same roller counting the given number of middle values.
    pub fn take_mid(self, take_mid: Option<u32>) -> (roller: Self)
        ensures
            roller@ == (Notation { take_mid, ..self@ }),
    {
        let mut roller = self;
        roller.take_mid = take_mid;
        roller
    }

    /// Puts the given entries into the table of success values, one after
    /// the other; without entries, empties the table.
    pub fn add_success_values(self, values: Option<Vec<(u32, i32)>>) -> (roller: Self)
        ensures
            roller@ == (Notation {
                success_values: match values {
                    Some(entries) => with_entries(self@.success_values, entries@),
                    None => Map::empty(),
                },
                ..self@
            }),
    {
        broadcast use vstd::std_specs::hash::group_hash_axioms;

        let ghost start = self@;
        let mut roller = self;
        match values {
            Some(entries) => {
                let mut i: usize = 0;
                while i < entries.len()
                    invariant
                        i <= entries.len(),
                        roller@ == (Notation {
                            success_values: with_entries(
                                start.success_values,
                                entries@.take(i as int),
                            ),
                            ..start
                        }),
                    decreases entries.len() - i,
                {
                    assert(entries@.take(i + 1).drop_last() == entries@.take(i as int));
                    roller.success_values.insert(entries[i].0, entries[i].1);
                    i = i + 1;
                }
                assert(entries@.take(i as int) == entries@);
            },
            None => {
                roller.success_values.clear();
            },
        }
        roller
    }

    /// Puts the given entries into the table of failure values, one after
    /// the other; without entries, empties the table.
    pub fn add_failure_values(self, values: Option<Vec<(u32, i32)>>) -> (roller: Self)
        ensures
            roller@ == (Notation {
                failure_values: match values {
                    Some(entries) => with_entries(self@.failure_values, entries@),
                    None => Map::empty(),
                },
                ..self@
            }),
    {
        broadcast use vstd::std_specs::hash::group_hash_axioms;

        let ghost start = self@;
        let mut roller = self;
        match values {
            Some(entries) => {
                let mut i: usize = 0;
                while i < entries.len()
                    invariant
                        i <= entries.len(),
                        roller@ == (Notation {
                            failure_values: with_entries(
                                start.failure_values,
                                entries@.take(i as int),
                            ),
                            ..start
                        }),
                    decreases entries.len() - i,
                {
                    assert(entries@.take(i + 1).drop_last() == entries@.take(i as int));
                    roller.failure_values.insert(entries[i].0, entries[i].1);
                    i = i + 1;
                }
                assert(entries@.take(i as int) == entries@);
            },
            None => {
                roller.failure_values.clear();
            },
        }
        roller
    }
}

} // verus!
