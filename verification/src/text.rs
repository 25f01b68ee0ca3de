//! Reading text character by character: pieces between separators, markers
//! inside a piece, and decimal numbers.

use vstd::prelude::*;

verus! {

/// The pieces of `text` between its separators, in order. A text with `n`
/// separators has `n + 1` pieces, some of which may be empty: reading one
/// more character either starts a new piece or lengthens the last one.
pub open spec fn pieces(text: Seq<char>, separators: Seq<char>) -> Seq<Seq<char>>
    decreases text.len(),
{
    if text.len() == 0 {
        seq![Seq::<char>::empty()]
    } else {
        let before = pieces(text.drop_last(), separators);
        if separators.contains(text.last()) {
            before.push(Seq::<char>::empty())
        } else {
            before.drop_last().push(before.last().push(text.last()))
        }
    }
}

/// The pieces that are not empty, in order.
pub open spec fn nonempty(pieces: Seq<Seq<char>>) -> Seq<Seq<char>>
    decreases pieces.len(),
{
    if pieces.len() == 0 {
        Seq::<Seq<char>>::empty()
    } else if pieces.last().len() == 0 {
        nonempty(pieces.drop_last())
    } else {
        nonempty(pieces.drop_last()).push(pieces.last())
    }
}

/// Whether `marker` stands in `text` at index `at`.
pub open spec fn holds_at(text: Seq<char>, marker: Seq<char>, at: int) -> bool {
    &&& 0 <= at
    &&& at + marker.len() <= text.len()
    &&& text.subrange(at, at + marker.len()) == marker
}

/// Whether `marker` stands somewhere in `text`.
pub open spec fn holds(text: Seq<char>, marker: Seq<char>) -> bool {
    exists|at: int| holds_at(text, marker, at)
}

/// `text` with every occurrence of `marker` taken out, found from left to
/// right, an occurrence starting no earlier than where the one before ended.
pub open spec fn without(text: Seq<char>, marker: Seq<char>) -> Seq<char>
    decreases text.len(),
{
    if marker.len() == 0 || text.len() < marker.len() {
        text
    } else if holds_at(text, marker, 0) {
        without(text.skip(marker.len() as int), marker)
    } else {
        seq![text[0]] + without(text.skip(1), marker)
    }
}

/// Whether `c` is one of the ten decimal digits.
pub open spec fn is_digit(c: char) -> bool {
    '0' <= c <= '9'
}

/// The number a decimal digit stands for.
pub open spec fn digit(c: char) -> nat {
    (c as u32 - '0' as u32) as nat
}

/// Whether `digits` is one decimal digit or more, and nothing else.
pub open spec fn is_number(digits: Seq<char>) -> bool {
    &&& digits.len() > 0
    &&& forall|i: int| 0 <= i < digits.len() ==> is_digit(#[trigger] digits[i])
}

/// The number that decimal digits write.
pub open spec fn decimal(digits: Seq<char>) -> nat
    decreases digits.len(),
{
    if digits.len() == 0 {
        0
    } else {
        decimal(digits.drop_last()) * 10 + digit(digits.last())
    }
}

/// The number that `text` writes without a sign or after a `+`, if it is a
/// number and no more than `limit`.
pub open spec fn number_within(text: Seq<char>, limit: nat) -> Option<nat> {
    let digits = if text.len() > 0 && text[0] == '+' {
        text.skip(1)
    } else {
        text
    };
    if is_number(digits) && decimal(digits) <= limit {
        Some(decimal(digits))
    } else {
        None
    }
}

/// The number that `text` writes, if it is one that a `u32` holds: decimal
/// digits, with or without a `+` before them.
pub open spec fn as_u32(text: Seq<char>) -> Option<u32> {
    match number_within(text, 0xFFFF_FFFF) {
        Some(value) => Some(value as u32),
        None => None,
    }
}

/// The number that `text` writes, if it is one that an `i32` holds: decimal
/// digits, with or without a `+` or a `-` before them.
pub open spec fn as_i32(text: Seq<char>) -> Option<i32> {
    if text.len() > 0 && text[0] == '-' {
        let digits = text.skip(1);
        if is_number(digits) && decimal(digits) <= 0x8000_0000 {
            Some((-(decimal(digits) as int)) as i32)
        } else {
            None
        }
    } else {
        match number_within(text, 0x7FFF_FFFF) {
            Some(value) => Some(value as i32),
            None => None,
        }
    }
}

/// What each part holds.
pub open spec fn texts(parts: Seq<Vec<char>>) -> Seq<Seq<char>> {
    Seq::new(parts.len(), |i: int| parts[i]@)
}

/// A text always has a first piece.
pub proof fn lemma_pieces_nonempty(text: Seq<char>, separators: Seq<char>)
    ensures
        pieces(text, separators).len() >= 1,
    decreases text.len(),
{
    if text.len() > 0 {
        lemma_pieces_nonempty(text.drop_last(), separators);
    }
}

/// Whether none of the characters of `text` is a separator.
pub open spec fn free_of(text: Seq<char>, separators: Seq<char>) -> bool {
    forall|i: int| 0 <= i < text.len() ==> !separators.contains(#[trigger] text[i])
}

/// A text without separators is one piece.
pub proof fn lemma_pieces_whole(text: Seq<char>, separators: Seq<char>)
    requires
        free_of(text, separators),
    ensures
        pieces(text, separators) == seq![text],
    decreases text.len(),
{
    if text.len() == 0 {
        assert(text == Seq::<char>::empty());
    } else {
        let front = text.drop_last();
        assert forall|i: int| 0 <= i < front.len() implies !separators.contains(
            #[trigger] front[i],
        ) by {
            assert(front[i] == text[i]);
        }
        lemma_pieces_whole(front, separators);
        assert(front.push(text.last()) == text);
        assert(seq![front].drop_last().push(text) =~= seq![text]);
    }
}

/// After a separator, a text without separators is one more piece.
pub proof fn lemma_pieces_last(head: Seq<char>, by: char, tail: Seq<char>, separators: Seq<char>)
    requires
        separators.contains(by),
        free_of(tail, separators),
    ensures
        pieces(head + seq![by] + tail, separators) == pieces(head, separators).push(tail),
    decreases tail.len(),
{
    let text = head + seq![by] + tail;
    if tail.len() == 0 {
        assert(text.drop_last() == head);
        assert(tail == Seq::<char>::empty());
    } else {
        let front = tail.drop_last();
        assert forall|i: int| 0 <= i < front.len() implies !separators.contains(
            #[trigger] front[i],
        ) by {
            assert(front[i] == tail[i]);
        }
        lemma_pieces_last(head, by, front, separators);
        assert(text.drop_last() == head + seq![by] + front);
        assert(text.last() == tail.last());
        let before = pieces(head, separators).push(front);
        assert(before.drop_last() == pieces(head, separators));
        assert(front.push(tail.last()) == tail);
    }
}

/// Before the first separator, a text without separators is the first of at
/// least two pieces.
pub proof fn lemma_pieces_first(head: Seq<char>, by: char, rest: Seq<char>, separators: Seq<char>)
    requires
        separators.contains(by),
        free_of(head, separators),
    ensures
        pieces(head + seq![by] + rest, separators).len() >= 2,
        pieces(head + seq![by] + rest, separators)[0] == head,
    decreases rest.len(),
{
    let text = head + seq![by] + rest;
    if rest.len() == 0 {
        assert(text.drop_last() == head);
        lemma_pieces_whole(head, separators);
    } else {
        lemma_pieces_first(head, by, rest.drop_last(), separators);
        assert(text.drop_last() == head + seq![by] + rest.drop_last());
    }
}

/// A number is free of any separators that are not digits.
pub proof fn lemma_number_is_free(digits: Seq<char>, separators: Seq<char>)
    requires
        is_number(digits),
        forall|i: int| 0 <= i < separators.len() ==> !is_digit(#[trigger] separators[i]),
    ensures
        free_of(digits, separators),
{
}

/// A number that is no more than the limit reads as itself.
pub proof fn lemma_number_reads(digits: Seq<char>, limit: nat)
    requires
        is_number(digits),
        decimal(digits) <= limit,
    ensures
        number_within(digits, limit) == Some(decimal(digits)),
{
    assert(is_digit(digits[0]));
}

/// The characters of `text`, one by one.
pub fn chars_of(text: &str) -> (chars: Vec<char>)
    ensures
        chars@ == text@,
{
    let mut chars: Vec<char> = Vec::new();
    let iter = text.chars();
    for c in it: iter
        invariant
            chars@ == it.history(),
    {
        chars.push(c);
    }
    chars
}

/// Whether `c` is one of `among`.
pub fn is_one_of(c: char, among: &Vec<char>) -> (found: bool)
    ensures
        found == among@.contains(c),
{
    let mut i: usize = 0;
    while i < among.len()
        invariant
            i <= among.len(),
            forall|k: int| 0 <= k < i ==> among@[k] != c,
        decreases among.len() - i,
    {
        if among[i] == c {
            return true;
        }
        i = i + 1;
    }
    false
}

/// Splits `text` at every separator.
pub fn split(text: &Vec<char>, separators: &Vec<char>) -> (parts: Vec<Vec<char>>)
    ensures
        texts(parts@) == pieces(text@, separators@),
{
    let mut parts: Vec<Vec<char>> = Vec::new();
    let mut part: Vec<char> = Vec::new();
    let mut i: usize = 0;
    assert(texts(parts@).push(part@) =~= pieces(text@.take(0), separators@));
    while i < text.len()
        invariant
            i <= text.len(),
            texts(parts@).push(part@) == pieces(text@.take(i as int), separators@),
        decreases text.len() - i,
    {
        let c = text[i];
        let ghost done = texts(parts@);
        let ghost open = part@;
        proof {
            assert(text@.take(i + 1).drop_last() == text@.take(i as int));
            assert(done.push(open).drop_last() == done);
        }
        if is_one_of(c, separators) {
            parts.push(part);
            part = Vec::new();
            assert(texts(parts@) =~= done.push(open));
        } else {
            part.push(c);
        }
        i = i + 1;
    }
    proof {
        assert(text@.take(i as int) == text@);
    }
    let ghost done = texts(parts@);
    parts.push(part);
    assert(texts(parts@) =~= done.push(part@));
    parts
}

/// Splits `text` at every separator and keeps the parts that are not empty.
pub fn split_nonempty(text: &Vec<char>, separators: &Vec<char>) -> (parts: Vec<Vec<char>>)
    ensures
        texts(parts@) == nonempty(pieces(text@, separators@)),
{
    let all = split(text, separators);
    let ghost every = texts(all@);
    let mut parts: Vec<Vec<char>> = Vec::new();
    let mut i: usize = 0;
    assert(texts(parts@) =~= nonempty(every.take(0)));
    while i < all.len()
        invariant
            i <= all.len(),
            texts(all@) == every,
            texts(parts@) == nonempty(every.take(i as int)),
        decreases all.len() - i,
    {
        let ghost done = texts(parts@);
        proof {
            assert(every.take(i + 1).drop_last() == every.take(i as int));
            assert(every.take(i + 1).last() == all@[i as int]@);
        }
        if all[i].len() > 0 {
            let part = copy_of(&all[i]);
            parts.push(part);
            assert(texts(parts@) =~= done.push(part@));
        }
        i = i + 1;
    }
    proof {
        assert(every.take(i as int) == every);
    }
    parts
}

/// The same characters in a vector of their own.
pub fn copy_of(text: &Vec<char>) -> (copy: Vec<char>)
    ensures
        copy@ == text@,
{
    let mut copy: Vec<char> = Vec::new();
    let mut i: usize = 0;
    while i < text.len()
        invariant
            i <= text.len(),
            copy@ == text@.take(i as int),
        decreases text.len() - i,
    {
        copy.push(text[i]);
        assert(text@.take(i + 1) == text@.take(i as int).push(text@[i as int]));
        i = i + 1;
    }
    assert(text@.take(i as int) == text@);
    copy
}

/// Whether `marker` stands in `text` at index `at`.
pub fn starts_at(text: &Vec<char>, marker: &Vec<char>, at: usize) -> (found: bool)
    ensures
        found == holds_at(text@, marker@, at as int),
{
    if at > text.len() || marker.len() > text.len() - at {
        return false;
    }
    let ghost window = text@.subrange(at as int, at + marker@.len());
    let mut k: usize = 0;
    while k < marker.len()
        invariant
            k <= marker.len(),
            at + marker.len() <= text.len(),
            window == text@.subrange(at as int, at + marker@.len()),
            forall|j: int| 0 <= j < k ==> window[j] == marker@[j],
        decreases marker.len() - k,
    {
        if text[at + k] != marker[k] {
            assert(window[k as int] != marker@[k as int]);
            return false;
        }
        k = k + 1;
    }
    assert(window =~= marker@);
    true
}

/// Whether `marker` stands somewhere in `text`.
pub fn contains(text: &Vec<char>, marker: &Vec<char>) -> (found: bool)
    ensures
        found == holds(text@, marker@),
{
    let mut at: usize = 0;
    while at < text.len()
        invariant
            at <= text.len(),
            forall|k: int| 0 <= k < at ==> !holds_at(text@, marker@, k),
        decreases text.len() - at,
    {
        if starts_at(text, marker, at) {
            return true;
        }
        at = at + 1;
    }
    starts_at(text, marker, at)
}

/// `text` with every occurrence of `marker` taken out.
pub fn strip(text: &Vec<char>, marker: &Vec<char>) -> (rest: Vec<char>)
    ensures
        rest@ == without(text@, marker@),
{
    if marker.len() == 0 {
        return copy_of(text);
    }
    let mut rest: Vec<char> = Vec::new();
    let mut at: usize = 0;
    assert(text@.skip(0) == text@);
    while at < text.len()
        invariant
            at <= text.len(),
            marker.len() > 0,
            rest@ + without(text@.skip(at as int), marker@) == without(text@, marker@),
        decreases text.len() - at,
    {
        let ghost left = text@.skip(at as int);
        proof {
            if at + marker@.len() <= text@.len() {
                assert(left.subrange(0, marker@.len() as int) =~= text@.subrange(
                    at as int,
                    at + marker@.len(),
                ));
            }
            assert(holds_at(text@, marker@, at as int) == holds_at(left, marker@, 0));
        }
        if starts_at(text, marker, at) {
            assert(holds_at(left, marker@, 0));
            assert(left.skip(marker@.len() as int) == text@.skip(at + marker@.len()));
            at = at + marker.len();
        } else {
            assert(!holds_at(left, marker@, 0));
            assert(left.skip(1) == text@.skip(at + 1));
            proof {
                if left.len() < marker@.len() {
                    assert(without(left.skip(1), marker@) == left.skip(1));
                    assert(left =~= seq![left[0]] + left.skip(1));
                }
            }
            let ghost kept = rest@;
            rest.push(text[at]);
            assert(rest@ =~= kept + seq![left[0]]);
            assert(rest@ + without(left.skip(1), marker@) =~= kept + (seq![left[0]] + without(
                left.skip(1),
                marker@,
            )));
            at = at + 1;
        }
    }
    assert(rest@ + Seq::<char>::empty() =~= rest@);
    rest
}

/// Reads the decimal digits of `text` from index `from` to its end: the
/// number they write if they are a number and it is no more than `limit`.
fn read_digits(text: &Vec<char>, from: usize, limit: u32) -> (value: Option<u32>)
    requires
        from <= text.len(),
    ensures
        value == (if is_number(text@.skip(from as int)) && decimal(text@.skip(from as int))
            <= limit {
            Some(decimal(text@.skip(from as int)) as u32)
        } else {
            None
        }),
{
    let ghost digits = text@.skip(from as int);
    if from == text.len() {
        return None;
    }
    // the number read so far, or `limit + 1` once it is above the limit
    let mut value: u64 = 0;
    let mut i: usize = from;
    assert(text@.subrange(from as int, i as int) =~= Seq::<char>::empty());
    while i < text.len()
        invariant
            from <= i <= text.len(),
            digits == text@.skip(from as int),
            forall|k: int| from <= k < i ==> is_digit(#[trigger] text@[k]),
            decimal(text@.subrange(from as int, i as int)) <= limit ==> value == decimal(
                text@.subrange(from as int, i as int),
            ),
            decimal(text@.subrange(from as int, i as int)) > limit ==> value == limit + 1,
        decreases text.len() - i,
    {
        let c = text[i];
        if c < '0' || c > '9' {
            assert(!is_digit(digits[i - from]));
            return None;
        }
        proof {
            let next = text@.subrange(from as int, i + 1);
            assert(next.drop_last() == text@.subrange(from as int, i as int));
            assert(next.last() == text@[i as int]);
        }
        if value <= limit as u64 {
            value = value * 10 + (c as u32 - '0' as u32) as u64;
            if value > limit as u64 {
                value = limit as u64 + 1;
            }
        }
        i = i + 1;
    }
    assert(text@.subrange(from as int, i as int) == digits);
    assert(is_number(digits)) by {
        assert forall|k: int| 0 <= k < digits.len() implies is_digit(#[trigger] digits[k]) by {
            assert(digits[k] == text@[from + k]);
        }
    }
    if value <= limit as u64 {
        Some(value as u32)
    } else {
        None
    }
}

/// Reads a number without a sign or after a `+`, no more than `limit`.
pub fn read_within(text: &Vec<char>, limit: u32) -> (value: Option<u32>)
    ensures
        value matches Some(n) ==> number_within(text@, limit as nat) == Some(n as nat),
        value is None ==> number_within(text@, limit as nat) is None,
{
    if text.len() > 0 && text[0] == '+' {
        read_digits(text, 1, limit)
    } else {
        assert(text@.skip(0) == text@);
        read_digits(text, 0, limit)
    }
}

/// Reads a number that a `u32` holds.
pub fn read_u32(text: &Vec<char>) -> (value: Option<u32>)
    ensures
        value == as_u32(text@),
{
    read_within(text, 0xFFFF_FFFF)
}

/// Reads a number that an `i32` holds.
pub fn read_i32(text: &Vec<char>) -> (value: Option<i32>)
    ensures
        value == as_i32(text@),
{
    if text.len() > 0 && text[0] == '-' {
        match read_digits(text, 1, 0x8000_0000) {
            Some(magnitude) => Some((0 - magnitude as i64) as i32),
            None => None,
        }
    } else {
        match read_within(text, 0x7FFF_FFFF) {
            Some(value) => Some(value as i32),
            None => None,
        }
    }
}

} // verus!
