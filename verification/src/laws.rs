//! Laws that every notation and every roll obey.

use crate::grammar::{
    core_parts, core_separators, core_token, parse, signed_modifier, token_separators, tokens,
    CEILING,
};
use crate::notation::Notation;
use crate::roll_err::RollerErr;
use crate::tally::{
    ascending, descending, face_values, lemma_ascending, lemma_descending, lemma_total_bounds,
    middle_offset, taken, total,
};
use crate::text::{
    decimal, free_of, is_digit, is_number, lemma_number_is_free, lemma_number_reads,
    lemma_pieces_first, lemma_pieces_last, lemma_pieces_whole, nonempty, pieces,
};
use vstd::prelude::*;

verus! {

/// How many of the faces reach the threshold.
pub open spec fn reaching(faces: Seq<u32>, threshold: u32) -> nat
    decreases faces.len(),
{
    if faces.len() == 0 {
        0
    } else if faces.last() >= threshold {
        reaching(faces.drop_last(), threshold) + 1
    } else {
        reaching(faces.drop_last(), threshold)
    }
}

/// A roll without features shows one face per die, each between 1 and the
/// number of sides, and its total is the sum of the faces plus the modifier:
/// no less than one per die and no more than the sides of every die, the
/// modifier added.
pub proof fn lemma_plain_roll(notation: Notation, faces: Seq<u32>)
    requires
        notation.is_plain(),
        notation.is_roll(faces),
    ensures
        faces.len() == notation.dice,
        forall|i: int| 0 <= i < faces.len() ==> 1 <= #[trigger] faces[i] <= notation.sides,
        notation.outcome(faces) == total(face_values(faces)) + notation.shift(),
        notation.dice + notation.shift() <= notation.outcome(faces) <= notation.dice
            * notation.sides + notation.shift(),
{
    notation.lemma_rested_all(faces);
    let values = face_values(faces);
    lemma_total_bounds(values, 1, notation.sides as int);
}

/// A roll shows one face per die and one more for every explosion, in no
/// case fewer faces than there are dice. Where no face of the die explodes
/// that is one face per die.
pub proof fn lemma_roll_length(notation: Notation, faces: Seq<u32>)
    requires
        notation.is_roll(faces),
    ensures
        faces.len() == notation.dice + notation.explosions(faces),
        faces.len() >= notation.dice,
        !notation.can_explode() ==> faces.len() == notation.dice,
{
    notation.lemma_rested_or_exploded(faces);
    if !notation.can_explode() {
        notation.lemma_rested_all(faces);
    }
}

/// The faces of a single die: every face before the last reaches the
/// explode threshold, and the last one stays under it.
pub proof fn lemma_single_die(notation: Notation, faces: Seq<u32>)
    requires
        notation.dice == 1,
        notation.is_roll(faces),
    ensures
        notation.is_chain(faces),
{
    notation.lemma_none_rested(faces.drop_last());
    assert forall|i: int| 0 <= i < faces.len() - 1 implies notation.explodes(
        #[trigger] faces[i],
    ) by {
        assert(faces[i] == faces.drop_last()[i]);
    }
}

/// A single die that explodes on its highest face: every face before the
/// last is the highest face, and the last one is lower.
pub proof fn lemma_single_die_highest(notation: Notation, faces: Seq<u32>)
    requires
        notation.dice == 1,
        notation.explode_threshold == Some(notation.sides),
        notation.is_roll(faces),
    ensures
        faces.len() >= 1,
        forall|i: int| 0 <= i < faces.len() - 1 ==> #[trigger] faces[i] == notation.sides,
        faces.last() < notation.sides,
{
    lemma_single_die(notation, faces);
    assert forall|i: int| 0 <= i < faces.len() - 1 implies #[trigger] faces[i]
        == notation.sides by {
        assert(notation.explodes(faces[i]));
    }
}

/// Counting successes without tables: there is one weight per face, 1 for a
/// face that reaches the threshold and 0 for any other, and the total is the
/// number of faces that reach the threshold. With a threshold of 1 or less
/// that is every face of the roll.
pub proof fn lemma_success_count(notation: Notation, faces: Seq<u32>)
    requires
        notation.success_threshold is Some,
        notation.success_values == Map::<u32, i32>::empty(),
        notation.failure_values == Map::<u32, i32>::empty(),
        !notation.selects(),
    ensures
        notation.successes(faces).len() == faces.len(),
        forall|i: int|
            0 <= i < faces.len() ==> #[trigger] notation.successes(faces)[i] == (if faces[i]
                >= notation.success_threshold->0 {
                1i32
            } else {
                0i32
            }),
        notation.outcome(faces) == reaching(faces, notation.success_threshold->0),
        notation.success_threshold->0 <= 1 && notation.in_range(faces) ==> notation.outcome(faces)
            == faces.len(),
    decreases faces.len(),
{
    let threshold = notation.success_threshold->0;
    if faces.len() > 0 {
        let front = faces.drop_last();
        lemma_success_count(notation, front);
        assert(notation.counted(faces).drop_last() =~= notation.counted(front));
        if threshold <= 1 && notation.in_range(faces) {
            assert forall|i: int| 0 <= i < front.len() implies 1 <= #[trigger] front[i]
                <= notation.sides by {
                assert(front[i] == faces[i]);
            }
        }
    }
}

/// Where every face of a roll has the same weight, the total of counting
/// successes is that weight once per face.
pub proof fn lemma_uniform_weight(notation: Notation, faces: Seq<u32>, weight: i32)
    requires
        notation.success_threshold is Some,
        !notation.selects(),
        forall|i: int|
            0 <= i < faces.len() ==> notation.weight(
                notation.success_threshold->0,
                #[trigger] faces[i],
            ) == weight,
    ensures
        notation.outcome(faces) == faces.len() * weight,
{
    let values = notation.counted(faces);
    assert forall|i: int| 0 <= i < values.len() implies weight <= #[trigger] values[i]
        <= weight by {
        assert(values[i] == notation.weight(notation.success_threshold->0, faces[i]));
    }
    lemma_total_bounds(values, weight as int, weight as int);
}

/// A table of success values that gives every face of a roll the same
/// weight decides the total, whatever the faces are and whatever the
/// threshold is: the weight once per face.
pub proof fn lemma_success_table_decides(notation: Notation, faces: Seq<u32>, weight: i32)
    requires
        notation.success_threshold is Some,
        !notation.selects(),
        forall|i: int|
            0 <= i < faces.len() ==> notation.success_values.contains_key(#[trigger] faces[i])
                && notation.success_values[faces[i]] == weight,
    ensures
        notation.outcome(faces) == faces.len() * weight,
{
    lemma_uniform_weight(notation, faces, weight);
}

/// Under a threshold above every face, a table of failure values that gives
/// every face of a roll the same weight decides the total, as long as the
/// table of success values names none of the faces: the weight once per
/// face.
pub proof fn lemma_failure_table_decides(notation: Notation, faces: Seq<u32>, weight: i32)
    requires
        notation.success_threshold is Some,
        notation.success_threshold->0 > notation.sides,
        notation.in_range(faces),
        !notation.selects(),
        forall|i: int|
            0 <= i < faces.len() ==> !notation.success_values.contains_key(#[trigger] faces[i])
                && notation.failure_values.contains_key(faces[i])
                && notation.failure_values[faces[i]] == weight,
    ensures
        notation.outcome(faces) == faces.len() * weight,
{
    lemma_uniform_weight(notation, faces, weight);
}

/// Selecting the largest values: the total is the sum of the first `count`
/// values, or of all where there are fewer, once the counted values are put
/// in an order in which none is followed by a larger one. Without success
/// counting the counted values are the faces.
pub proof fn lemma_take_max(notation: Notation, faces: Seq<u32>, count: u32)
    requires
        notation.take_max == Some(count),
        notation.take_min is None,
        notation.take_mid is None,
    ensures
        notation.outcome(faces) == total(
            descending(notation.counted(faces)).take(taken(count as nat, faces.len()) as int),
        ),
        count <= faces.len() ==> taken(count as nat, faces.len()) == count,
        descending(notation.counted(faces)).to_multiset() == notation.counted(
            faces,
        ).to_multiset(),
        forall|i: int, j: int|
            0 <= i < j < faces.len() ==> descending(notation.counted(faces))[i] >= descending(
                notation.counted(faces),
            )[j],
        notation.success_threshold is None ==> notation.counted(faces) == face_values(faces),
{
    lemma_descending(notation.counted(faces));
}

/// Selecting the smallest values: the total is the sum of the first `count`
/// values, or of all where there are fewer, once the counted values are put
/// in an order in which none is followed by a smaller one. Without success
/// counting the counted values are the faces.
pub proof fn lemma_take_min(notation: Notation, faces: Seq<u32>, count: u32)
    requires
        notation.take_min == Some(count),
        notation.take_mid is None,
    ensures
        notation.outcome(faces) == total(
            ascending(notation.counted(faces)).take(taken(count as nat, faces.len()) as int),
        ),
        count <= faces.len() ==> taken(count as nat, faces.len()) == count,
        ascending(notation.counted(faces)).to_multiset() == notation.counted(faces).to_multiset(),
        forall|i: int, j: int|
            0 <= i < j < faces.len() ==> ascending(notation.counted(faces))[i] <= ascending(
                notation.counted(faces),
            )[j],
        notation.success_threshold is None ==> notation.counted(faces) == face_values(faces),
{
    lemma_ascending(notation.counted(faces));
}

/// Selecting the middle values: the counted values are put in an order in
/// which none is followed by a smaller one; half of the values that `count`
/// leaves over, rounded down, are passed over at the start, and the total
/// is the sum of the next `count` values. Where there are fewer than
/// `count` values, it is the sum of all.
pub proof fn lemma_take_mid(notation: Notation, faces: Seq<u32>, count: u32)
    requires
        notation.take_mid == Some(count),
    ensures
        notation.outcome(faces) == total(
            ascending(notation.counted(faces)).subrange(
                middle_offset(count as nat, faces.len()) as int,
                middle_offset(count as nat, faces.len()) as int + taken(
                    count as nat,
                    faces.len(),
                ) as int,
            ),
        ),
        count <= faces.len() ==> middle_offset(count as nat, faces.len()) == (faces.len() - count)
            / 2 && taken(count as nat, faces.len()) == count,
        count > faces.len() ==> middle_offset(count as nat, faces.len()) == 0 && taken(
            count as nat,
            faces.len(),
        ) == faces.len(),
        ascending(notation.counted(faces)).to_multiset() == notation.counted(faces).to_multiset(),
        forall|i: int, j: int|
            0 <= i < j < faces.len() ==> ascending(notation.counted(faces))[i] <= ascending(
                notation.counted(faces),
            )[j],
        notation.success_threshold is None ==> notation.counted(faces) == face_values(faces),
{
    lemma_ascending(notation.counted(faces));
}

/// How many dice the digits before the `d` ask for: one where there are
/// none.
pub open spec fn dice_asked(dice: Seq<char>) -> nat {
    if dice.len() == 0 {
        1
    } else {
        decimal(dice)
    }
}

/// What may follow the core token: nothing, or a space and anything.
pub open spec fn is_tail(rest: Seq<char>) -> bool {
    rest.len() == 0 || rest[0] == ' '
}

/// The digits before the `d` of the core token: those that are written, or
/// a `1` where none is.
pub open spec fn dice_read(dice: Seq<char>) -> Seq<char> {
    if dice.len() == 0 {
        seq!['1']
    } else {
        dice
    }
}

/// A token without a space, followed by nothing or by a space and anything,
/// is the first token.
proof fn lemma_first_token(core: Seq<char>, rest: Seq<char>)
    requires
        free_of(core, token_separators()),
        is_tail(rest),
    ensures
        tokens(core + rest)[0] == core,
{
    if rest.len() == 0 {
        assert(core + rest == core);
        lemma_pieces_whole(core, token_separators());
    } else {
        assert(core + rest == core + seq![' '] + rest.skip(1));
        assert(token_separators()[0] == ' ');
        lemma_pieces_first(core, ' ', rest.skip(1), token_separators());
    }
}

/// Neither a digit, nor any of `d`, `+` and `-`, is a space.
proof fn lemma_core_has_no_space(core: Seq<char>)
    requires
        forall|i: int|
            0 <= i < core.len() ==> is_digit(#[trigger] core[i]) || core[i] == 'd' || core[i]
                == '+' || core[i] == '-',
    ensures
        free_of(core, token_separators()),
{
}

/// Two numbers with a `d` between them are the two parts of a core token.
proof fn lemma_two_parts(dice: Seq<char>, sides: Seq<char>)
    requires
        is_number(dice),
        is_number(sides),
    ensures
        nonempty(pieces(dice + seq!['d'] + sides, core_separators())) == seq![dice, sides],
{
    let separators = core_separators();
    assert(separators[0] == 'd');
    lemma_number_is_free(dice, separators);
    lemma_number_is_free(sides, separators);
    lemma_pieces_whole(dice, separators);
    lemma_pieces_last(dice, 'd', sides, separators);
    let parts = pieces(dice + seq!['d'] + sides, separators);
    assert(parts == seq![dice].push(sides));
    assert(parts.drop_last() == seq![dice]);
    assert(seq![dice].drop_last() == Seq::<Seq<char>>::empty());
    assert(seq![dice].last() == dice);
    assert(nonempty(Seq::<Seq<char>>::empty()) == Seq::<Seq<char>>::empty());
    assert(nonempty(seq![dice]) =~= seq![dice]);
    assert(nonempty(parts) =~= seq![dice, sides]);
}

/// Two numbers with a `d` between them, then a sign and a third number,
/// are the three parts of a core token.
proof fn lemma_three_parts(dice: Seq<char>, sides: Seq<char>, sign: char, amount: Seq<char>)
    requires
        is_number(dice),
        is_number(sides),
        is_number(amount),
        sign == '+' || sign == '-',
    ensures
        nonempty(pieces(dice + seq!['d'] + sides + seq![sign] + amount, core_separators()))
            == seq![dice, sides, amount],
{
    let separators = core_separators();
    assert(separators[1] == '+');
    assert(separators[2] == '-');
    lemma_two_parts(dice, sides);
    lemma_number_is_free(amount, separators);
    let head = dice + seq!['d'] + sides;
    lemma_pieces_last(head, sign, amount, separators);
    let parts = pieces(head + seq![sign] + amount, separators);
    assert(parts.drop_last() == pieces(head, separators));
    assert(nonempty(parts) =~= seq![dice, sides, amount]);
}

/// A notation that is read asks for at least one die of at least one side,
/// and for no more than the ceiling allows.
pub proof fn lemma_parse_is_valid(text: Seq<char>)
    ensures
        parse(text) matches Ok(notation) ==> notation.is_valid(),
{
}

/// A notation that begins with `NdM` or `dM`, followed by nothing or by a
/// space and anything, asks for `N` dice, or for one where `N` is not
/// written, of `M` sides, without a modifier. It is refused as malformed
/// where `N` or `M` is zero; else it is read with success as long as dice
/// times sides is no more than the ceiling, and refused as a possible
/// overflow otherwise.
pub proof fn lemma_parse_dice_and_sides(dice: Seq<char>, sides: Seq<char>, rest: Seq<char>)
    requires
        dice.len() == 0 || is_number(dice),
        is_number(sides),
        dice_asked(dice) <= u32::MAX,
        decimal(sides) <= i32::MAX,
        is_tail(rest),
    ensures
        dice_asked(dice) == 0 || decimal(sides) == 0 ==> parse(dice + seq!['d'] + sides + rest)
            == Err::<Notation, RollerErr>(RollerErr::Generic),
        dice_asked(dice) >= 1 && decimal(sides) >= 1 && dice_asked(dice) * decimal(sides)
            <= CEILING ==> (parse(dice + seq!['d'] + sides + rest) matches Ok(notation)
            && notation.dice == dice_asked(dice) && notation.sides == decimal(sides)
            && notation.modifier is None),
        dice_asked(dice) >= 1 && decimal(sides) >= 1 && dice_asked(dice) * decimal(sides)
            > CEILING ==> parse(dice + seq!['d'] + sides + rest) == Err::<Notation, RollerErr>(
            RollerErr::PossibleOverflow,
        ),
{
    let core = dice + seq!['d'] + sides;
    let text = core + rest;
    lemma_core_has_no_space(core);
    lemma_first_token(core, rest);
    let read = dice_read(dice);
    assert(core_token(text) == read + seq!['d'] + sides) by {
        if dice.len() == 0 {
            assert(core[0] == 'd');
            assert(seq!['1'] + core =~= read + seq!['d'] + sides);
        } else {
            assert(is_digit(dice[0]));
            assert(core[0] == dice[0]);
        }
    }
    assert(is_number(read) && decimal(read) == dice_asked(dice)) by {
        if dice.len() == 0 {
            assert(read.drop_last() == Seq::<char>::empty());
            assert(decimal(read.drop_last()) == 0);
        }
    }
    lemma_two_parts(read, sides);
    assert(core_parts(text) == seq![read, sides]);
    lemma_number_reads(read, 0xFFFF_FFFF);
    lemma_number_reads(sides, 0x7FFF_FFFF);
}

/// A notation that begins with `NdM+C` or `NdM-C`, with or without the `N`,
/// followed by nothing or by a space and anything, asks for `N` dice, or
/// for one where `N` is not written, of `M` sides, and for the modifier
/// `C` after a `+`, its negative after a `-`. It is refused as malformed
/// where `N` or `M` is zero; else it is read with success as long as dice
/// times sides is no more than the ceiling, and refused as a possible
/// overflow otherwise.
pub proof fn lemma_parse_modifier(
    dice: Seq<char>,
    sides: Seq<char>,
    sign: char,
    amount: Seq<char>,
    rest: Seq<char>,
)
    requires
        dice.len() == 0 || is_number(dice),
        is_number(sides),
        is_number(amount),
        sign == '+' || sign == '-',
        dice_asked(dice) <= u32::MAX,
        decimal(sides) <= i32::MAX,
        decimal(amount) <= i32::MAX,
        is_tail(rest),
    ensures
        dice_asked(dice) == 0 || decimal(sides) == 0 ==> parse(
            dice + seq!['d'] + sides + seq![sign] + amount + rest,
        ) == Err::<Notation, RollerErr>(RollerErr::Generic),
        dice_asked(dice) >= 1 && decimal(sides) >= 1 && dice_asked(dice) * decimal(sides)
            <= CEILING ==> (parse(dice + seq!['d'] + sides + seq![sign] + amount + rest)
            matches Ok(notation) && notation.dice == dice_asked(dice) && notation.sides
            == decimal(sides) && notation.modifier == Some(
            if sign == '-' {
                (-(decimal(amount) as int)) as i32
            } else {
                decimal(amount) as i32
            },
        )),
        dice_asked(dice) >= 1 && decimal(sides) >= 1 && dice_asked(dice) * decimal(sides)
            > CEILING ==> parse(dice + seq!['d'] + sides + seq![sign] + amount + rest)
            == Err::<Notation, RollerErr>(RollerErr::PossibleOverflow),
{
    let core = dice + seq!['d'] + sides + seq![sign] + amount;
    let text = core + rest;
    lemma_core_has_no_space(core);
    lemma_first_token(core, rest);
    let read = dice_read(dice);
    let read_core = read + seq!['d'] + sides + seq![sign] + amount;
    assert(core_token(text) == read_core) by {
        if dice.len() == 0 {
            assert(core[0] == 'd');
            assert(seq!['1'] + core =~= read_core);
        } else {
            assert(is_digit(dice[0]));
            assert(core[0] == dice[0]);
        }
    }
    assert(is_number(read) && decimal(read) == dice_asked(dice)) by {
        if dice.len() == 0 {
            assert(read.drop_last() == Seq::<char>::empty());
            assert(decimal(read.drop_last()) == 0);
        }
    }
    lemma_three_parts(read, sides, sign, amount);
    assert(core_parts(text) == seq![read, sides, amount]);
    lemma_number_reads(read, 0xFFFF_FFFF);
    lemma_number_reads(sides, 0x7FFF_FFFF);
    lemma_number_reads(amount, 0x7FFF_FFFF);
    assert(read_core.contains('-') == (sign == '-')) by {
        let at = read.len() + 1 + sides.len();
        assert(read_core[at as int] == sign);
        if sign == '+' {
            assert forall|i: int| 0 <= i < read_core.len() implies read_core[i] != '-' by {
                if i < read.len() {
                    assert(is_digit(read[i]));
                } else if i == read.len() {
                } else if i < at {
                    assert(is_digit(sides[i - read.len() - 1]));
                } else if i == at {
                } else {
                    assert(is_digit(amount[i - at - 1]));
                }
            }
        }
    }
    assert(signed_modifier(text, decimal(amount)) == (if sign == '-' {
        -(decimal(amount) as int)
    } else {
        decimal(amount) as int
    }));
}

} // verus!
