//! What a dice notation asks for, and what a roll of it is worth.

use crate::tally::{face_values, largest, middle, smallest, total};
use vstd::prelude::*;

verus! {

/// The content of a dice notation: everything a roller holds except its
/// source of chance.
pub struct Notation {
    /// Number of dice to throw.
    pub dice: u32,
    /// Number of sides per die.
    pub sides: u32,
    /// Added to the sum of the faces of a plain roll.
    pub modifier: Option<i32>,
    /// A face that reaches it counts as a success.
    pub success_threshold: Option<u32>,
    /// A face that reaches it makes its die roll once more.
    pub explode_threshold: Option<u32>,
    /// Count the largest values only.
    pub take_max: Option<u32>,
    /// Count the smallest values only.
    pub take_min: Option<u32>,
    /// Count the values in the middle only.
    pub take_mid: Option<u32>,
    /// The weight of a face, whatever the threshold says.
    pub success_values: Map<u32, i32>,
    /// The weight of a face that stays under the threshold.
    pub failure_values: Map<u32, i32>,
}

impl Notation {
    /// `dice` dice of `sides` sides and nothing else.
    pub open spec fn plain(dice: u32, sides: u32) -> Notation {
        Notation {
            dice,
            sides,
            modifier: None,
            success_threshold: None,
            explode_threshold: None,
            take_max: None,
            take_min: None,
            take_mid: None,
            success_values: Map::empty(),
            failure_values: Map::empty(),
        }
    }

    /// Whether the notation asks for a roll that can be thrown and that
    /// stays under the ceiling: at least one die, at least one side, and
    /// dice times sides no more than 2000.
    pub open spec fn is_valid(self) -> bool {
        &&& self.dice >= 1
        &&& self.sides >= 1
        &&& self.dice * self.sides <= 2000
    }

    /// Whether a die that shows `face` is rolled once more.
    pub open spec fn explodes(self, face: u32) -> bool {
        match self.explode_threshold {
            None => false,
            Some(threshold) => face >= threshold,
        }
    }

    /// Whether some face of the die explodes: there is an explode threshold
    /// and it is no more than the number of sides.
    pub open spec fn can_explode(self) -> bool {
        match self.explode_threshold {
            None => false,
            Some(threshold) => threshold <= self.sides,
        }
    }

    /// Every face lies between 1 and the number of sides.
    pub open spec fn in_range(self, faces: Seq<u32>) -> bool {
        forall|i: int| 0 <= i < faces.len() ==> 1 <= #[trigger] faces[i] <= self.sides
    }

    /// The faces of one die: it is rolled again after every face that
    /// explodes, and rests on the first face that does not.
    pub open spec fn is_chain(self, faces: Seq<u32>) -> bool {
        &&& faces.len() >= 1
        &&& forall|i: int| 0 <= i < faces.len() - 1 ==> self.explodes(#[trigger] faces[i])
        &&& !self.explodes(faces.last())
    }

    /// How many dice came to rest: the number of faces that do not explode.
    pub open spec fn rested(self, faces: Seq<u32>) -> nat
        decreases faces.len(),
    {
        if faces.len() == 0 {
            0
        } else if self.explodes(faces.last()) {
            self.rested(faces.drop_last())
        } else {
            self.rested(faces.drop_last()) + 1
        }
    }

    /// How many times a die was rolled once more: the number of faces that
    /// explode.
    pub open spec fn explosions(self, faces: Seq<u32>) -> nat
        decreases faces.len(),
    {
        if faces.len() == 0 {
            0
        } else if self.explodes(faces.last()) {
            self.explosions(faces.drop_last()) + 1
        } else {
            self.explosions(faces.drop_last())
        }
    }

    /// The faces of `count` dice one after the other, each die followed by
    /// the faces of its explosions: `count` faces come to rest, and the last
    /// face is one of them.
    pub open spec fn is_roll_of(self, count: nat, faces: Seq<u32>) -> bool {
        &&& self.in_range(faces)
        &&& self.rested(faces) == count
        &&& faces.len() > 0 ==> !self.explodes(faces.last())
    }

    /// The faces of a complete roll of this notation.
    pub open spec fn is_roll(self, faces: Seq<u32>) -> bool {
        self.is_roll_of(self.dice as nat, faces)
    }

    /// The dice that rest among two runs of faces are those of the first run
    /// and those of the second.
    pub proof fn lemma_rested_add(self, first: Seq<u32>, second: Seq<u32>)
        ensures
            self.rested(first + second) == self.rested(first) + self.rested(second),
        decreases second.len(),
    {
        if second.len() == 0 {
            assert(first + second == first);
        } else {
            assert((first + second).drop_last() == first + second.drop_last());
            self.lemma_rested_add(first, second.drop_last());
        }
    }

    /// Every face either leaves its die at rest or makes it roll once more.
    pub proof fn lemma_rested_or_exploded(self, faces: Seq<u32>)
        ensures
            self.rested(faces) + self.explosions(faces) == faces.len(),
        decreases faces.len(),
    {
        if faces.len() > 0 {
            self.lemma_rested_or_exploded(faces.drop_last());
        }
    }

    /// Faces that all explode leave no die at rest.
    pub proof fn lemma_rested_none(self, faces: Seq<u32>)
        requires
            forall|i: int| 0 <= i < faces.len() ==> self.explodes(#[trigger] faces[i]),
        ensures
            self.rested(faces) == 0,
        decreases faces.len(),
    {
        if faces.len() > 0 {
            self.lemma_rested_none(faces.drop_last());
        }
    }

    /// Faces of which none explodes are so many dice at rest.
    pub proof fn lemma_rested_all(self, faces: Seq<u32>)
        requires
            forall|i: int| 0 <= i < faces.len() ==> !self.explodes(#[trigger] faces[i]),
        ensures
            self.rested(faces) == faces.len(),
        decreases faces.len(),
    {
        if faces.len() > 0 {
            self.lemma_rested_all(faces.drop_last());
        }
    }

    /// Where no die is at rest, every face explodes.
    pub proof fn lemma_none_rested(self, faces: Seq<u32>)
        requires
            self.rested(faces) == 0,
        ensures
            forall|i: int| 0 <= i < faces.len() ==> self.explodes(#[trigger] faces[i]),
        decreases faces.len(),
    {
        if faces.len() > 0 {
            self.lemma_none_rested(faces.drop_last());
            assert forall|i: int| 0 <= i < faces.len() implies self.explodes(
                #[trigger] faces[i],
            ) by {
                if i < faces.len() - 1 {
                    assert(faces[i] == faces.drop_last()[i]);
                }
            }
        }
    }

    /// The faces of one die leave exactly that die at rest.
    pub proof fn lemma_rested_chain(self, faces: Seq<u32>)
        requires
            self.is_chain(faces),
        ensures
            self.rested(faces) == 1,
    {
        self.lemma_rested_none(faces.drop_last());
    }

    /// After the faces of `count` dice, the faces of one more die make the
    /// faces of `count + 1` dice.
    pub proof fn lemma_roll_grows(self, count: nat, faces: Seq<u32>, chain: Seq<u32>)
        requires
            self.is_roll_of(count, faces),
            self.is_chain(chain),
            self.in_range(chain),
        ensures
            self.is_roll_of(count + 1, faces + chain),
    {
        self.lemma_rested_add(faces, chain);
        self.lemma_rested_chain(chain);
        assert((faces + chain).last() == chain.last());
    }

    /// What a die that shows `face` counts for under `threshold`: its entry
    /// in the table of success values if it has one; else 1 if it reaches the
    /// threshold; else its entry in the table of failure values if it has
    /// one; else 0.
    pub open spec fn weight(self, threshold: u32, face: u32) -> i32 {
        if self.success_values.contains_key(face) {
            self.success_values[face]
        } else if face >= threshold {
            1
        } else if self.failure_values.contains_key(face) {
            self.failure_values[face]
        } else {
            0
        }
    }

    /// One weight per face where successes are counted, nothing otherwise.
    pub open spec fn successes(self, faces: Seq<u32>) -> Seq<i32> {
        match self.success_threshold {
            None => Seq::empty(),
            Some(threshold) => Seq::new(faces.len(), |i: int| self.weight(threshold, faces[i])),
        }
    }

    /// The values a roll is counted by: the weights where successes are
    /// counted, the faces otherwise.
    pub open spec fn counted(self, faces: Seq<u32>) -> Seq<i64> {
        match self.success_threshold {
            None => face_values(faces),
            Some(threshold) => Seq::new(
                faces.len(),
                |i: int| self.weight(threshold, faces[i]) as i64,
            ),
        }
    }

    /// What the modifier adds to the sum of the faces.
    pub open spec fn shift(self) -> int {
        match self.modifier {
            None => 0,
            Some(modifier) => modifier as int,
        }
    }

    /// Whether the notation selects some of the values of a roll.
    pub open spec fn selects(self) -> bool {
        self.take_max is Some || self.take_min is Some || self.take_mid is Some
    }

    /// Whether the notation has no feature: it neither counts successes nor
    /// explodes nor selects.
    pub open spec fn is_plain(self) -> bool {
        self.success_threshold is None && self.explode_threshold is None && !self.selects()
    }

    /// The total before any selection: the sum of the weights where
    /// successes are counted, else the sum of the faces plus the modifier.
    pub open spec fn base(self, faces: Seq<u32>) -> int {
        match self.success_threshold {
            Some(_) => total(self.counted(faces)),
            None => total(self.counted(faces)) + self.shift(),
        }
    }

    /// The total of a roll that showed `faces`. A selection replaces the
    /// total before it: the largest values first, then the smallest, then
    /// those in the middle, so of several selections the last one decides.
    pub open spec fn outcome(self, faces: Seq<u32>) -> int {
        let counted = self.counted(faces);
        let after_max = match self.take_max {
            None => self.base(faces),
            Some(count) => largest(counted, count as nat),
        };
        let after_min = match self.take_min {
            None => after_max,
            Some(count) => smallest(counted, count as nat),
        };
        match self.take_mid {
            None => after_min,
            Some(count) => middle(counted, count as nat),
        }
    }
}

} // verus!
