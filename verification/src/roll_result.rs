use vstd::prelude::*;

verus! {

/// What one roll produced.
#[derive(Debug)]
pub struct RollResult {
    /// The faces that came up, in the order they were rolled.
    pub dice: Vec<u32>,
    /// One weight per die when successes are counted, empty otherwise.
    pub successes: Vec<i32>,
    /// The total of the roll.
    pub outcome: i128,
}

impl RollResult {
    /// A result with the given dice and total, and no success weights.
    pub fn new(dice: Vec<u32>, outcome: i128) -> (result: Self)
        ensures
            result.dice@ == dice@,
            result.successes@ == Seq::<i32>::empty(),
            result.outcome == outcome,
    {
        Self { dice, outcome, successes: Vec::new() }
    }

    /// The same result with its success weights replaced.
    pub fn successes(self, successes: Vec<i32>) -> (result: Self)
        ensures
            result.dice@ == self.dice@,
            result.successes@ == successes@,
            result.outcome == self.outcome,
    {
        let mut result = self;
        result.successes = successes;
        result
    }
}

} // verus!
