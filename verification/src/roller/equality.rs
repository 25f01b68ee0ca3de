//! When two rollers count as equal.

use crate::grammar::parse;
use crate::notation::Notation;
use crate::roll_err::RollerErr;
use crate::roller::Roller;
use vstd::prelude::*;
use vstd::std_specs::cmp::PartialEqSpec;

verus! {

/// Two rollers are equal when they throw the same dice in the same way:
/// dice, sides, modifier, the two thresholds and the three selections agree.
/// Neither the generators nor the tables of values are compared.
impl PartialEq for Roller {
    fn eq(&self, other: &Roller) -> (equal: bool) {
        self.dice == other.dice && self.sides == other.sides && self.modifier == other.modifier
            && self.success_threshold == other.success_threshold && self.explode_threshold
            == other.explode_threshold && self.take_max == other.take_max && self.take_min
            == other.take_min && self.take_mid == other.take_mid
    }
}

impl vstd::std_specs::cmp::PartialEqSpecImpl for Roller {
    open spec fn obeys_eq_spec() -> bool {
        true
    }

    open spec fn eq_spec(&self, other: &Roller) -> bool {
        &&& self.dice == other.dice
        &&& self.sides == other.sides
        &&& self.modifier == other.modifier
        &&& self.success_threshold == other.success_threshold
        &&& self.explode_threshold == other.explode_threshold
        &&& self.take_max == other.take_max
        &&& self.take_min == other.take_min
        &&& self.take_mid == other.take_mid
    }
}

/// Two rollers read from the same notation hold the same notation and are
/// equal, whatever state their generators are in.
pub proof fn lemma_same_notation_same_roller(text: Seq<char>, first: Roller, second: Roller)
    requires
        parse(text) == Ok::<Notation, RollerErr>(first@),
        parse(text) == Ok::<Notation, RollerErr>(second@),
    ensures
        first@ == second@,
        first.eq_spec(&second),
{
}

} // verus!
