//! The grammar of the dice notation: which roll a text asks for.
//!
//! A notation is a run of tokens separated by single spaces. The first token
//! is the core, `[N]dM[+C]` or `[N]dM[-C]`; every token after it may switch a
//! feature on. A token that switches nothing on is passed over.

use crate::notation::Notation;
use crate::roll_err::RollerErr;
use crate::text::{as_i32, as_u32, holds, nonempty, number_within, pieces, without};
use vstd::prelude::*;

verus! {

/// Dice times sides may not be more than this.
pub const CEILING: u64 = 2000;

/// The character between two tokens.
pub open spec fn token_separators() -> Seq<char> {
    seq![' ']
}

/// The characters between the numbers of the core token.
pub open spec fn core_separators() -> Seq<char> {
    seq!['d', '+', '-']
}

/// The character between the fields of a table entry.
pub open spec fn field_separators() -> Seq<char> {
    seq![':']
}

/// Marks the success threshold, as in `sc5`.
pub open spec fn success_marker() -> Seq<char> {
    seq!['s', 'c']
}

/// Marks the explode threshold, as in `ex6`.
pub open spec fn explode_marker() -> Seq<char> {
    seq!['e', 'x']
}

/// Marks the number of largest values to count, as in `max3`.
pub open spec fn max_marker() -> Seq<char> {
    seq!['m', 'a', 'x']
}

/// Marks the number of smallest values to count, as in `min3`.
pub open spec fn min_marker() -> Seq<char> {
    seq!['m', 'i', 'n']
}

/// Marks the number of middle values to count, as in `mid3`.
pub open spec fn mid_marker() -> Seq<char> {
    seq!['m', 'i', 'd']
}

/// Marks an entry of the table of success values, as in `sv:6:2`.
pub open spec fn success_value_marker() -> Seq<char> {
    seq!['s', 'v']
}

/// Marks an entry of the table of failure values, as in `fv:1:-1`.
pub open spec fn failure_value_marker() -> Seq<char> {
    seq!['f', 'v']
}

/// The tokens of a notation.
pub open spec fn tokens(text: Seq<char>) -> Seq<Seq<char>> {
    pieces(text, token_separators())
}

/// The core token: the first token, with a `1` put before it where it
/// begins with `d`, so that `d20` reads as `1d20`.
pub open spec fn core_token(text: Seq<char>) -> Seq<char> {
    let first = tokens(text)[0];
    if first.len() > 0 && first[0] == 'd' {
        seq!['1'] + first
    } else {
        first
    }
}

/// What stands in the core token between `d`, `+` and `-`.
pub open spec fn core_parts(text: Seq<char>) -> Seq<Seq<char>> {
    nonempty(pieces(core_token(text), core_separators()))
}

/// The tokens after the core token.
pub open spec fn feature_tokens(text: Seq<char>) -> Seq<Seq<char>> {
    tokens(text).skip(1)
}

/// The first of the tokens that holds `marker`.
pub open spec fn first_holding(tokens: Seq<Seq<char>>, marker: Seq<char>) -> Option<Seq<char>>
    decreases tokens.len(),
{
    if tokens.len() == 0 {
        None
    } else if holds(tokens[0], marker) {
        Some(tokens[0])
    } else {
        first_holding(tokens.skip(1), marker)
    }
}

/// The count that the feature `marker` is given: the first feature token
/// that holds the marker decides, and gives the number that is left of it
/// once the marker is taken out. No such token, or no number, is no count.
pub open spec fn count_of(text: Seq<char>, marker: Seq<char>) -> Option<u32> {
    match first_holding(feature_tokens(text), marker) {
        None => None,
        Some(token) => as_u32(without(token, marker)),
    }
}

/// The table entry that a token such as `sv:6:2` writes: after the first
/// colon a face, after the second its weight. What follows a third colon is
/// not read.
pub open spec fn entry_of(token: Seq<char>) -> Option<(u32, i32)> {
    let fields = pieces(token, field_separators());
    if fields.len() >= 3 {
        match (as_u32(fields[1]), as_i32(fields[2])) {
            (Some(face), Some(weight)) => Some((face, weight)),
            _ => None,
        }
    } else {
        None
    }
}

/// The entries that the tokens holding `marker` write, in the order of the
/// tokens. A token that writes no entry is passed over.
pub open spec fn entries_of(tokens: Seq<Seq<char>>, marker: Seq<char>) -> Seq<(u32, i32)>
    decreases tokens.len(),
{
    if tokens.len() == 0 {
        Seq::<(u32, i32)>::empty()
    } else {
        let before = entries_of(tokens.drop_last(), marker);
        match entry_of(tokens.last()) {
            Some(entry) if holds(tokens.last(), marker) => before.push(entry),
            _ => before,
        }
    }
}

/// The table after the entries have been put in one after the other: of two
/// entries for one face the later one stays.
pub open spec fn with_entries(table: Map<u32, i32>, entries: Seq<(u32, i32)>) -> Map<u32, i32>
    decreases entries.len(),
{
    if entries.len() == 0 {
        table
    } else {
        with_entries(table, entries.drop_last()).insert(entries.last().0, entries.last().1)
    }
}

/// The entries for the table `marker`, in the order of their tokens, which
/// is the order in which they are put in. Of two tokens for one face the
/// one that stands later in the notation therefore decides.
pub open spec fn table_entries(text: Seq<char>, marker: Seq<char>) -> Seq<(u32, i32)> {
    entries_of(feature_tokens(text), marker)
}

/// The table `marker` of a notation.
pub open spec fn table_of(text: Seq<char>, marker: Seq<char>) -> Map<u32, i32> {
    with_entries(Map::empty(), table_entries(text, marker))
}

/// The modifier that the core token gives to the number `amount`: the
/// number itself, or its negative where a `-` stands anywhere in the core.
pub open spec fn signed_modifier(text: Seq<char>, amount: nat) -> int {
    if core_token(text).contains('-') {
        -(amount as int)
    } else {
        amount as int
    }
}

/// The roll that a notation asks for.
///
/// The core token must hold two or three numbers between its `d`, `+` and
/// `-`: the dice, a number that a `u32` holds; the sides and, if there is a
/// third, the modifier, numbers that an `i32` holds. There must be at least
/// one die, and it must have at least one side. Anything else is `Generic`.
/// Dice times sides above the ceiling is `PossibleOverflow`. A notation that
/// is read therefore always asks for a roll that can be thrown.
pub open spec fn parse(text: Seq<char>) -> Result<Notation, RollerErr> {
    let parts = core_parts(text);
    if parts.len() != 2 && parts.len() != 3 {
        Err(RollerErr::Generic)
    } else {
        let dice = as_u32(parts[0]);
        let sides = number_within(parts[1], 0x7FFF_FFFF);
        let amount = if parts.len() == 3 {
            number_within(parts[2], 0x7FFF_FFFF)
        } else {
            Some(0nat)
        };
        if dice is None || sides is None || amount is None {
            Err(RollerErr::Generic)
        } else if dice->0 == 0 || sides->0 == 0 {
            Err(RollerErr::Generic)
        } else if dice->0 * sides->0 > CEILING {
            Err(RollerErr::PossibleOverflow)
        } else {
            Ok(
                Notation {
                    dice: dice->0,
                    sides: sides->0 as u32,
                    modifier: if parts.len() == 3 {
                        Some(signed_modifier(text, amount->0) as i32)
                    } else {
                        None
                    },
                    success_threshold: count_of(text, success_marker()),
                    explode_threshold: count_of(text, explode_marker()),
                    take_max: count_of(text, max_marker()),
                    take_min: count_of(text, min_marker()),
                    take_mid: count_of(text, mid_marker()),
                    success_values: table_of(text, success_value_marker()),
                    failure_values: table_of(text, failure_value_marker()),
                },
            )
        }
    }
}

} // verus!
