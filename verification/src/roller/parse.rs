//! Reading a notation into a roller.

use crate::grammar::{
    core_parts, core_separators, core_token, count_of, entries_of, explode_marker,
    failure_value_marker, feature_tokens, field_separators, first_holding, max_marker,
    mid_marker, min_marker, parse, success_marker, success_value_marker, table_entries,
    table_of, token_separators, tokens, CEILING,
};
use crate::notation::Notation;
use crate::roll_err::RollerErr;
use crate::roller::Roller;
use crate::text::{
    chars_of, contains, copy_of, is_one_of, lemma_pieces_nonempty, read_i32, read_u32,
    read_within, split, split_nonempty, strip, texts,
};
use vstd::prelude::*;

verus! {

/// The tokens of a notation.
fn tokens_of(descriptor: &str) -> (parts: Vec<Vec<char>>)
    ensures
        texts(parts@) == tokens(descriptor@),
        parts@.len() >= 1,
{
    let chars = chars_of(descriptor);
    let spaces = vec![' '];
    assert(spaces@ =~= token_separators());
    proof {
        lemma_pieces_nonempty(descriptor@, token_separators());
    }
    split(&chars, &spaces)
}

/// The count that the feature `marker` is given in a notation.
fn parse_count(descriptor: &str, marker: &Vec<char>) -> (count: Option<u32>)
    ensures
        count == count_of(descriptor@, marker@),
{
    let parts = tokens_of(descriptor);
    let ghost features = feature_tokens(descriptor@);
    let mut i: usize = 1;
    assert(features.skip(0) == features);
    while i < parts.len()
        invariant
            1 <= i <= parts.len(),
            texts(parts@) == tokens(descriptor@),
            features == feature_tokens(descriptor@),
            first_holding(features.skip(i - 1), marker@) == first_holding(features, marker@),
        decreases parts.len() - i,
    {
        let ghost left = features.skip(i - 1);
        assert(left[0] == parts@[i as int]@);
        assert(left.skip(1) == features.skip(i as int));
        if contains(&parts[i], marker) {
            let rest = strip(&parts[i], marker);
            return read_u32(&rest);
        }
        i = i + 1;
    }
    None
}

/// The entries for the table `marker` in a notation, in the order of their
/// tokens.
fn parse_entries(descriptor: &str, marker: &Vec<char>) -> (entries: Vec<(u32, i32)>)
    ensures
        entries@ == table_entries(descriptor@, marker@),
{
    let parts = tokens_of(descriptor);
    let colon = vec![':'];
    assert(colon@ =~= field_separators());
    let ghost features = feature_tokens(descriptor@);
    let mut entries: Vec<(u32, i32)> = Vec::new();
    let mut i: usize = 1;
    assert(entries@ =~= entries_of(features.take(0), marker@));
    while i < parts.len()
        invariant
            1 <= i <= parts.len(),
            texts(parts@) == tokens(descriptor@),
            features == feature_tokens(descriptor@),
            colon@ == field_separators(),
            entries@ == entries_of(features.take(i - 1), marker@),
        decreases parts.len() - i,
    {
        proof {
            assert(features.take(i as int).drop_last() == features.take(i - 1));
            assert(features.take(i as int).last() == parts@[i as int]@);
        }
        if contains(&parts[i], marker) {
            let fields = split(&parts[i], &colon);
            if fields.len() >= 3 {
                assert(texts(fields@)[1] == fields@[1]@);
                assert(texts(fields@)[2] == fields@[2]@);
                let face = read_u32(&fields[1]);
                let weight = read_i32(&fields[2]);
                if let (Some(face), Some(weight)) = (face, weight) {
                    entries.push((face, weight));
                }
            }
        }
        i = i + 1;
    }
    assert(features.take(i - 1) == features);
    entries
}

impl Roller {
    /// The success threshold that a notation gives.
    pub fn parse_success_descriptor(descriptor: &str) -> (threshold: Option<u32>)
        ensures
            threshold == count_of(descriptor@, success_marker()),
    {
        let marker = vec!['s', 'c'];
        assert(marker@ =~= success_marker());
        parse_count(descriptor, &marker)
    }

    /// The explode threshold that a notation gives.
    pub fn parse_explode_descriptor(descriptor: &str) -> (threshold: Option<u32>)
        ensures
            threshold == count_of(descriptor@, explode_marker()),
    {
        let marker = vec!['e', 'x'];
        assert(marker@ =~= explode_marker());
        parse_count(descriptor, &marker)
    }

    /// The number of largest values that a notation asks to count.
    pub fn parse_take_max_descriptor(descriptor: &str) -> (count: Option<u32>)
        ensures
            count == count_of(descriptor@, max_marker()),
    {
        let marker = vec!['m', 'a', 'x'];
        assert(marker@ =~= max_marker());
        parse_count(descriptor, &marker)
    }

    /// The number of smallest values that a notation asks to count.
    pub fn parse_take_min_descriptor(descriptor: &str) -> (count: Option<u32>)
        ensures
            count == count_of(descriptor@, min_marker()),
    {
        let marker = vec!['m', 'i', 'n'];
        assert(marker@ =~= min_marker());
        parse_count(descriptor, &marker)
    }

    /// The number of middle values that a notation asks to count.
    pub fn parse_take_mid_descriptor(descriptor: &str) -> (count: Option<u32>)
        ensures
            count == count_of(descriptor@, mid_marker()),
    {
        let marker = vec!['m', 'i', 'd'];
        assert(marker@ =~= mid_marker());
        parse_count(descriptor, &marker)
    }

    /// The entries that a notation gives for the table of success values, in
    /// the order of their tokens; nothing where there is no entry.
    pub fn parse_success_values(descriptor: &str) -> (values: Option<Vec<(u32, i32)>>)
        ensures
            match values {
                Some(entries) => entries@.len() > 0 && entries@ == table_entries(
                    descriptor@,
                    success_value_marker(),
                ),
                None => table_entries(descriptor@, success_value_marker()).len() == 0,
            },
    {
        let marker = vec!['s', 'v'];
        assert(marker@ =~= success_value_marker());
        let entries = parse_entries(descriptor, &marker);
        if entries.len() == 0 {
            None
        } else {
            Some(entries)
        }
    }

    /// The entries that a notation gives for the table of failure values, in
    /// the order of their tokens; nothing where there is no entry.
    pub fn parse_failure_values(descriptor: &str) -> (values: Option<Vec<(u32, i32)>>)
        ensures
            match values {
                Some(entries) => entries@.len() > 0 && entries@ == table_entries(
                    descriptor@,
                    failure_value_marker(),
                ),
                None => table_entries(descriptor@, failure_value_marker()).len() == 0,
            },
    {
        let marker = vec!['f', 'v'];
        assert(marker@ =~= failure_value_marker());
        let entries = parse_entries(descriptor, &marker);
        if entries.len() == 0 {
            None
        } else {
            Some(entries)
        }
    }

    /// Reads a notation such as `"4d6+2 ex6 max3"` into a roller: the roller
    /// that the grammar describes, or the error that it gives. A roller that
    /// is read throws at least one die of at least one side, and no more
    /// than the ceiling allows.
    pub fn from_str(descriptor: &str) -> (result: Result<Roller, RollerErr>)
        ensures
            match result {
                Ok(roller) => parse(descriptor@) == Ok::<Notation, RollerErr>(roller@),
                Err(err) => parse(descriptor@) == Err::<Notation, RollerErr>(err),
            },
            result matches Ok(roller) ==> roller@.is_valid(),
    {
        let parts = tokens_of(descriptor);
        assert(texts(parts@)[0] == parts@[0]@);

        // handling single die scenario
        let mut core: Vec<char> = Vec::new();
        if parts[0].len() > 0 && parts[0][0] == 'd' {
            core.push('1');
        }
        let mut first = copy_of(&parts[0]);
        core.append(&mut first);
        assert(core@ =~= core_token(descriptor@));

        // handling negative modifier
        let negative = is_one_of('-', &core);

        // tokenisation of the core
        let separators = vec!['d', '+', '-'];
        assert(separators@ =~= core_separators());
        let numbers = split_nonempty(&core, &separators);
        assert(texts(numbers@) == core_parts(descriptor@));

        let success_descriptor = Roller::parse_success_descriptor(descriptor);
        let explode_descriptor = Roller::parse_explode_descriptor(descriptor);
        let take_max_descriptor = Roller::parse_take_max_descriptor(descriptor);
        let take_min_descriptor = Roller::parse_take_min_descriptor(descriptor);
        let take_mid_descriptor = Roller::parse_take_mid_descriptor(descriptor);
        let success_values_descriptor = Roller::parse_success_values(descriptor);
        let failure_values_descriptor = Roller::parse_failure_values(descriptor);

        if numbers.len() != 2 && numbers.len() != 3 {
            return Err(RollerErr::Generic);
        }
        assert(texts(numbers@)[0] == numbers@[0]@);
        assert(texts(numbers@)[1] == numbers@[1]@);
        let dice = match read_u32(&numbers[0]) {
            Some(dice) => dice,
            None => {
                return Err(RollerErr::Generic);
            },
        };
        let sides = match read_within(&numbers[1], 0x7FFF_FFFF) {
            Some(sides) => sides,
            None => {
                return Err(RollerErr::Generic);
            },
        };
        let modifier: Option<i32> = if numbers.len() == 3 {
            assert(texts(numbers@)[2] == numbers@[2]@);
            match read_within(&numbers[2], 0x7FFF_FFFF) {
                Some(amount) => {
                    if negative {
                        Some(0 - amount as i32)
                    } else {
                        Some(amount as i32)
                    }
                },
                None => {
                    return Err(RollerErr::Generic);
                },
            }
        } else {
            None
        };

        if dice == 0 || sides == 0 {
            return Err(RollerErr::Generic);
        }
        assert(dice * sides <= 0xFFFF_FFFF * 0x7FFF_FFFF) by (nonlinear_arith)
            requires
                0 <= dice <= 0xFFFF_FFFF,
                0 <= sides <= 0x7FFF_FFFF,
        ;
        if dice as u64 * sides as u64 > CEILING {
            return Err(RollerErr::PossibleOverflow);
        }
        let roller = Roller::new(dice, sides).modifier(modifier).success_threshold(
            success_descriptor,
        ).explode_threshold(explode_descriptor).take_max(take_max_descriptor).take_min(
            take_min_descriptor,
        ).take_mid(take_mid_descriptor).add_success_values(
            success_values_descriptor,
        ).add_failure_values(failure_values_descriptor);
        proof {
            assert(roller@.success_values == table_of(descriptor@, success_value_marker()));
            assert(roller@.failure_values == table_of(descriptor@, failure_value_marker()));
        }
        Ok(roller)
    }
}

/// For idiomatic parsing: `text.parse::<Roller>()` reads `text` as
/// `Roller::from_str` does.
impl std::str::FromStr for Roller {
    type Err = RollerErr;

    fn from_str(descriptor: &str) -> (result: Result<Roller, RollerErr>)
        ensures
            match result {
                Ok(roller) => parse(descriptor@) == Ok::<Notation, RollerErr>(roller@),
                Err(err) => parse(descriptor@) == Err::<Notation, RollerErr>(err),
            },
            result matches Ok(roller) ==> roller@.is_valid(),
    {
        Roller::from_str(descriptor)
    }
}

} // verus!
