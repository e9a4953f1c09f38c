//! Decimal text and pieces of messages.
use vstd::prelude::*;

verus! {

/// The character of a digit below ten.
pub open spec fn digit_char(digit: nat) -> char {
    if digit == 0 {
        '0'
    } else if digit == 1 {
        '1'
    } else if digit == 2 {
        '2'
    } else if digit == 3 {
        '3'
    } else if digit == 4 {
        '4'
    } else if digit == 5 {
        '5'
    } else if digit == 6 {
        '6'
    } else if digit == 7 {
        '7'
    } else if digit == 8 {
        '8'
    } else {
        '9'
    }
}

/// A number in decimal, without leading zeros.
pub open spec fn decimal(value: nat) -> Seq<char>
    decreases value,
{
    if value < 10 {
        seq![digit_char(value)]
    } else {
        decimal(value / 10).push(digit_char(value % 10))
    }
}

/// A signed number in decimal, with a minus sign below zero.
pub open spec fn signed_decimal(value: int) -> Seq<char> {
    if value < 0 {
        seq!['-'] + decimal((-value) as nat)
    } else {
        decimal(value as nat)
    }
}

/// Appends the digit `digit` to `text`.
fn push_digit(text: &mut String, digit: u64)
    requires
        digit < 10,
    ensures
        final(text)@ == old(text)@.push(digit_char(digit as nat)),
{
    let piece: &str = match digit {
        0 => "0",
        1 => "1",
        2 => "2",
        3 => "3",
        4 => "4",
        5 => "5",
        6 => "6",
        7 => "7",
        8 => "8",
        _ => "9",
    };
    proof {
        reveal_strlit("0");
        reveal_strlit("1");
        reveal_strlit("2");
        reveal_strlit("3");
        reveal_strlit("4");
        reveal_strlit("5");
        reveal_strlit("6");
        reveal_strlit("7");
        reveal_strlit("8");
        reveal_strlit("9");
        assert(piece@ =~= seq![digit_char(digit as nat)]);
    }
    text.append(piece);
    assert(text@ =~= old(text)@.push(digit_char(digit as nat)));
}

/// Appends `value` in decimal to `text`.
pub fn push_decimal(text: &mut String, value: u64)
    ensures
        final(text)@ == old(text)@ + decimal(value as nat),
    decreases value,
{
    if value < 10 {
        push_digit(text, value);
    } else {
        push_decimal(text, value / 10);
        push_digit(text, value % 10);
    }
    assert(text@ =~= old(text)@ + decimal(value as nat));
}

/// Appends `value` in decimal to `text`.
pub fn push_size(text: &mut String, value: usize)
    ensures
        final(text)@ == old(text)@ + decimal(value as nat),
{
    push_decimal(text, value as u64);
}

/// Appends `value` in decimal to `text`, with its sign.
pub fn push_signed(text: &mut String, value: i64)
    ensures
        final(text)@ == old(text)@ + signed_decimal(value as int),
{
    if value < 0 {
        proof {
            reveal_strlit("-");
        }
        text.append("-");
        assert(text@ =~= old(text)@ + seq!['-']);
        let magnitude: u64 = if value == i64::MIN {
            0x8000_0000_0000_0000
        } else {
            (-value) as u64
        };
        push_decimal(text, magnitude);
    } else {
        push_decimal(text, value as u64);
    }
    assert(text@ =~= old(text)@ + signed_decimal(value as int));
}

/// The character of a hexadecimal digit.
pub open spec fn hex_char(digit: nat) -> char {
    if digit < 10 {
        digit_char(digit)
    } else if digit == 10 {
        'a'
    } else if digit == 11 {
        'b'
    } else if digit == 12 {
        'c'
    } else if digit == 13 {
        'd'
    } else if digit == 14 {
        'e'
    } else {
        'f'
    }
}

/// The last `width` hexadecimal digits of a number.
pub open spec fn hex_digits(value: nat, width: nat) -> Seq<char>
    decreases width,
{
    if width == 0 {
        Seq::empty()
    } else {
        hex_digits(value / 16, (width - 1) as nat).push(hex_char(value % 16))
    }
}

fn push_hex_digit(line: &mut String, value: u64)
    requires
        value < 16,
    ensures
        final(line)@ == old(line)@.push(hex_char(value as nat)),
{
    if value < 10 {
        push_decimal(line, value);
        proof {
            assert(decimal(value as nat) =~= seq![digit_char(value as nat)]);
        }
    } else {
        let piece: &str = match value {
            10 => "a",
            11 => "b",
            12 => "c",
            13 => "d",
            14 => "e",
            _ => "f",
        };
        proof {
            reveal_strlit("a");
            reveal_strlit("b");
            reveal_strlit("c");
            reveal_strlit("d");
            reveal_strlit("e");
            reveal_strlit("f");
            assert(piece@ =~= seq![hex_char(value as nat)]);
        }
        line.append(piece);
    }
    assert(line@ =~= old(line)@.push(hex_char(value as nat)));
}

/// Appends the last `width` hexadecimal digits of `value` to `line`.
pub fn push_hex(line: &mut String, value: u64, width: usize)
    ensures
        final(line)@ == old(line)@ + hex_digits(value as nat, width as nat),
    decreases width,
{
    if width > 0 {
        push_hex(line, value / 16, width - 1);
        push_hex_digit(line, value % 16);
    }
    assert(line@ =~= old(line)@ + hex_digits(value as nat, width as nat));
}

/// The characters of `text`.
pub fn chars_of(text: &str) -> (list: Vec<char>)
    ensures
        list@ == text@,
{
    let mut list: Vec<char> = Vec::new();
    for letter in letters: text.chars()
        invariant
            letters.seq() == text@,
            list@ == text@.take(letters.index() as int),
    {
        list.push(letter);
        assert(list@ =~= text@.take(letters.index() as int + 1));
    }
    assert(text@.take(text@.len() as int) =~= text@);
    list
}

/// Whether `left` comes before `right`, character by character.
pub open spec fn before(left: Seq<char>, right: Seq<char>) -> bool
    decreases left.len(),
{
    if right.len() == 0 {
        false
    } else if left.len() == 0 {
        true
    } else if left[0] != right[0] {
        left[0] < right[0]
    } else {
        before(left.drop_first(), right.drop_first())
    }
}

/// Of two texts one comes before the other, unless they are the same.
pub proof fn before_is_total(left: Seq<char>, right: Seq<char>)
    ensures
        before(left, right) || before(right, left) || left == right,
        !(before(left, right) && before(right, left)),
        !before(left, left),
    decreases left.len(),
{
    if left.len() > 0 {
        before_is_total(left.drop_first(), left.drop_first());
    }
    if left.len() == 0 && right.len() == 0 {
        assert(left =~= right);
    } else if left.len() > 0 && right.len() > 0 && left[0] == right[0] {
        before_is_total(left.drop_first(), right.drop_first());
        if left.drop_first() == right.drop_first() {
            assert(left =~= seq![left[0]] + left.drop_first());
            assert(right =~= seq![right[0]] + right.drop_first());
        }
    }
}

/// What comes before a second text that comes before a third comes before the third.
pub proof fn before_is_transitive(first: Seq<char>, second: Seq<char>, third: Seq<char>)
    requires
        before(first, second),
        before(second, third),
    ensures
        before(first, third),
    decreases first.len(),
{
    if first.len() > 0 && second.len() > 0 && third.len() > 0 && first[0] == second[0] && second[0] == third[0] {
        before_is_transitive(first.drop_first(), second.drop_first(), third.drop_first());
    }
}

proof fn before_skips(left: Seq<char>, right: Seq<char>, count: int)
    requires
        0 <= count <= left.len(),
        count <= right.len(),
        forall|i: int| 0 <= i < count ==> left[i] == right[i],
    ensures
        before(left, right) == before(left.skip(count), right.skip(count)),
    decreases count,
{
    if count == 0 {
        assert(left.skip(0) =~= left);
        assert(right.skip(0) =~= right);
    } else {
        before_skips(left.drop_first(), right.drop_first(), count - 1);
        assert(left.drop_first().skip(count - 1) =~= left.skip(count));
        assert(right.drop_first().skip(count - 1) =~= right.skip(count));
    }
}

fn precedes(left: char, right: char) -> (answer: bool)
    ensures
        answer == (left < right),
{
    (left as u32) < (right as u32)
}

/// Whether `left` comes before `right`, character by character.
pub fn comes_before(left: &str, right: &str) -> (answer: bool)
    ensures
        answer == before(left@, right@),
{
    let one = chars_of(left);
    let other = chars_of(right);
    let mut place: usize = 0;
    while place < one.len() && place < other.len() && one[place] == other[place]
        invariant
            one@ == left@,
            other@ == right@,
            place <= one@.len(),
            place <= other@.len(),
            forall|i: int| 0 <= i < place ==> left@[i] == right@[i],
        decreases one@.len() - place,
    {
        place = place + 1;
    }
    proof {
        before_skips(left@, right@, place as int);
        let a = left@.skip(place as int);
        let b = right@.skip(place as int);
        if place < left@.len() {
            assert(a[0] == left@[place as int]);
        }
        if place < right@.len() {
            assert(b[0] == right@[place as int]);
        }
    }
    if place >= other.len() {
        false
    } else if place >= one.len() {
        true
    } else {
        precedes(one[place], other[place])
    }
}

/// Whether `text` begins with `start`.
pub open spec fn begins(text: Seq<char>, start: Seq<char>) -> bool {
    start.len() <= text.len() && text.take(start.len() as int) == start
}

/// Whether `text` ends with `end`.
pub open spec fn ends(text: Seq<char>, end: Seq<char>) -> bool {
    end.len() <= text.len() && text.skip(text.len() - end.len()) == end
}

/// What is left of `text` behind `start`, if it begins with it.
pub open spec fn behind(text: Seq<char>, start: Seq<char>) -> Option<Seq<char>> {
    if begins(text, start) {
        Some(text.skip(start.len() as int))
    } else {
        None
    }
}

/// What is left of `text` ahead of `end`, if it ends with it.
pub open spec fn ahead(text: Seq<char>, end: Seq<char>) -> Option<Seq<char>> {
    if ends(text, end) {
        Some(text.take(text.len() - end.len()))
    } else {
        None
    }
}

/// Whether two results are the same text, or both none.
pub open spec fn same_text(found: Option<String>, expected: Option<Seq<char>>) -> bool {
    match expected {
        Some(words) => found matches Some(found) && found@ == words,
        None => found is None,
    }
}

/// Whether the characters of `part` stand in `whole` from `place` on.
fn stands_at(whole: &Vec<char>, part: &Vec<char>, place: usize) -> (answer: bool)
    requires
        place + part@.len() <= whole@.len(),
    ensures
        answer == (whole@.subrange(place as int, place + part@.len()) == part@),
{
    let count: usize = part.len();
    let size: usize = whole.len();
    for index in 0..count
        invariant
            count == part@.len(),
            size == whole@.len(),
            place + count <= size,
            forall|i: int| 0 <= i < index ==> whole@[place + i] == part@[i],
    {
        if whole[place + index] != part[index] {
            assert(whole@.subrange(place as int, place + part@.len())[index as int] != part@[index as int]);
            return false;
        }
    }
    assert(whole@.subrange(place as int, place + part@.len()) =~= part@);
    true
}

/// Whether `text` ends with `end`.
pub fn ends_with(text: &str, end: &str) -> (answer: bool)
    ensures
        answer == ends(text@, end@),
{
    let whole = chars_of(text);
    let part = chars_of(end);
    if part.len() > whole.len() {
        return false;
    }
    let place: usize = whole.len() - part.len();
    assert(text@.skip(place as int) =~= whole@.subrange(place as int, place + part@.len()));
    stands_at(&whole, &part, place)
}

/// What is left of `text` behind `start`, if it begins with it.
pub fn without_start(text: &str, start: &str) -> (rest: Option<String>)
    ensures
        same_text(rest, behind(text@, start@)),
{
    let whole = chars_of(text);
    let part = chars_of(start);
    if part.len() > whole.len() {
        return None;
    }
    assert(text@.take(start@.len() as int) =~= whole@.subrange(0, part@.len() as int));
    if !stands_at(&whole, &part, 0) {
        return None;
    }
    let rest = String::from_str(text.substring_char(part.len(), whole.len()));
    assert(rest@ =~= text@.skip(start@.len() as int));
    Some(rest)
}

/// What is left of `text` ahead of `end`, if it ends with it.
pub fn without_end(text: &str, end: &str) -> (rest: Option<String>)
    ensures
        same_text(rest, ahead(text@, end@)),
{
    if !ends_with(text, end) {
        return None;
    }
    let count: usize = text.unicode_len() - end.unicode_len();
    let rest = String::from_str(text.substring_char(0, count));
    assert(rest@ =~= text@.take(text@.len() - end@.len()));
    Some(rest)
}

/// Different numbers are written differently.
pub proof fn decimals_tell_apart(one: nat, other: nat)
    requires
        decimal(one) == decimal(other),
    ensures
        one == other,
    decreases one,
{
    if one >= 10 && other >= 10 {
        assert(decimal(one).drop_last() =~= decimal(one / 10));
        assert(decimal(other).drop_last() =~= decimal(other / 10));
        assert(decimal(one).last() == digit_char(one % 10));
        assert(decimal(other).last() == digit_char(other % 10));
        decimals_tell_apart(one / 10, other / 10);
    } else if one >= 10 {
        decimal_has_digits(one / 10);
        assert(decimal(one) == decimal(one / 10).push(digit_char(one % 10)));
        assert(decimal(other) == seq![digit_char(other)]);
        assert(decimal(one).len() == decimal(one / 10).len() + 1);
    } else if other >= 10 {
        decimal_has_digits(other / 10);
        assert(decimal(other) == decimal(other / 10).push(digit_char(other % 10)));
        assert(decimal(one) == seq![digit_char(one)]);
        assert(decimal(other).len() == decimal(other / 10).len() + 1);
    } else {
        assert(decimal(one)[0] == digit_char(one));
        assert(decimal(other)[0] == digit_char(other));
    }
}

proof fn decimal_has_digits(value: nat)
    ensures
        decimal(value).len() > 0,
{
}

/// A number is written with digits alone.
pub proof fn decimal_is_digits(value: nat)
    ensures
        decimal(value).len() > 0,
        forall|i: int| 0 <= i < decimal(value).len() ==> '0' <= #[trigger] decimal(value)[i] && decimal(value)[i] <= '9',
    decreases value,
{
    if value >= 10 {
        decimal_is_digits(value / 10);
    }
}

/// Numbers one behind the other, with commas between them.
pub open spec fn items(values: Seq<usize>) -> Seq<char>
    decreases values.len(),
{
    if values.len() == 0 {
        Seq::empty()
    } else if values.len() == 1 {
        decimal(values[0] as nat)
    } else {
        items(values.drop_last()) + ", "@ + decimal(values.last() as nat)
    }
}

/// Numbers in square brackets, with commas between them.
pub open spec fn listed(values: Seq<usize>) -> Seq<char> {
    "["@ + items(values) + "]"@
}

/// Appends numbers in square brackets, with commas between them.
pub fn push_list(text: &mut String, values: &Vec<usize>)
    ensures
        final(text)@ == old(text)@ + listed(values@),
{
    let ghost before = text@;
    text.append("[");
    let count: usize = values.len();
    for index in 0..count
        invariant
            count == values@.len(),
            text@ =~= before + "["@ + items(values@.take(index as int)),
    {
        proof {
            let now = values@.take(index + 1);
            assert(now.drop_last() =~= values@.take(index as int));
            assert(now.last() == values@[index as int]);
        }
        if index > 0 {
            text.append(", ");
        }
        push_size(text, values[index]);
    }
    assert(values@.take(count as int) =~= values@);
    text.append("]");
    assert(text@ =~= before + listed(values@));
}

} // verus!
