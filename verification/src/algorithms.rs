//! The cuBLASLt algorithms chosen for the GEMM shapes of a run, and the files that keep them between
//! runs.
//!
//! A choice comes from timing the heuristic's candidates on the shape's own operands, which costs
//! about a second on the first step of a run. A file taken over at startup spares it: a run that
//! has met its shapes before times none of them.
//!
//! A choice belongs to the GPU it was timed on, so every device keeps a table of its own and a
//! file keeps a section for every kind of GPU that wrote to it. Two kinds of card in one machine
//! then each find theirs, rather than each saving over the other's and timing everything again.
use crate::text;
use vstd::prelude::*;

verus! {

/// First line of a file of chosen algorithms, followed by a section for every key: the line the key
/// writes, which starts with `KEY_PREFIX`, and a line per shape, the fields that name the shape
/// and the eight words of the algorithm in hexadecimal. A file of one section is what a build
/// before the sections wrote.
pub const MATMUL_HEADER: &'static str = "mmh3 cuBLASLt matmul algorithms";

/// First line of a file of algorithms chosen for NVFP4 shapes.
pub const NVFP4_HEADER: &'static str = "mmh3 cuBLASLt NVFP4 algorithms";

/// How every key line starts, which no line of numbers does.
pub const KEY_PREFIX: &'static str = "cuBLASLt ";

/// White space, as Unicode has it.
pub open spec fn is_space(letter: char) -> bool {
    let code = letter as u32;
    ||| 0x09 <= code <= 0x0d
    ||| code == 0x20
    ||| code == 0x85
    ||| code == 0xa0
    ||| code == 0x1680
    ||| 0x2000 <= code <= 0x200a
    ||| code == 0x2028
    ||| code == 0x2029
    ||| code == 0x202f
    ||| code == 0x205f
    ||| code == 0x3000
}

fn space(letter: char) -> (answer: bool)
    ensures
        answer == is_space(letter),
{
    let code: u32 = letter as u32;
    (0x09 <= code && code <= 0x0d) || code == 0x20 || code == 0x85 || code == 0xa0 || code == 0x1680 || (0x2000 <= code
        && code <= 0x200a) || code == 0x2028 || code == 0x2029 || code == 0x202f || code == 0x205f || code == 0x3000
}

/// Whether a text holds nothing but white space.
pub open spec fn is_blank(text: Seq<char>) -> bool {
    forall|i: int| 0 <= i < text.len() ==> is_space(#[trigger] text[i])
}

/// How many characters from `start` on are white space, or are none.
pub open spec fn run(text: Seq<char>, start: int, white: bool) -> int
    decreases text.len() - start,
{
    if 0 <= start < text.len() && is_space(text[start]) == white {
        1 + run(text, start + 1, white)
    } else {
        0
    }
}

proof fn run_is_inside(text: Seq<char>, start: int, white: bool)
    requires
        0 <= start <= text.len(),
    ensures
        0 <= run(text, start, white) <= text.len() - start,
        forall|i: int| start <= i < start + run(text, start, white) ==> is_space(#[trigger] text[i]) == white,
        start + run(text, start, white) < text.len() ==> is_space(text[start + run(text, start, white)]) != white,
    decreases text.len() - start,
{
    if start < text.len() && is_space(text[start]) == white {
        run_is_inside(text, start + 1, white);
    }
}

/// The words of `text` from `start` on: the stretches between white space.
pub open spec fn words(text: Seq<char>, start: int) -> Seq<Seq<char>>
    decreases text.len() - start,
{
    let first = start + run(text, start, true);
    let end = first + run(text, first, false);
    if 0 <= start <= first < end <= text.len() {
        seq![text.subrange(first, end)] + words(text, end)
    } else {
        Seq::empty()
    }
}

/// Whether `letter` is a digit of `radix`, which is ten or sixteen.
pub open spec fn is_digit(letter: char, radix: int) -> bool {
    ||| '0' <= letter <= '9'
    ||| radix == 16 && ('a' <= letter <= 'f' || 'A' <= letter <= 'F')
}

/// The value of a digit.
pub open spec fn digit_value(letter: char) -> int {
    if '0' <= letter <= '9' {
        letter as int - '0' as int
    } else if 'a' <= letter <= 'f' {
        letter as int - 'a' as int + 10
    } else {
        letter as int - 'A' as int + 10
    }
}

/// The value of a text of digits.
pub open spec fn digits_value(text: Seq<char>, radix: int) -> int
    decreases text.len(),
{
    if text.len() == 0 {
        0
    } else {
        digits_value(text.drop_last(), radix) * radix + digit_value(text.last())
    }
}

/// The value of a text that is one or more digits.
pub open spec fn unsigned_value(text: Seq<char>, radix: int) -> Option<int> {
    if text.len() > 0 && forall|i: int| 0 <= i < text.len() ==> is_digit(#[trigger] text[i], radix) {
        Some(digits_value(text, radix))
    } else {
        None
    }
}

/// The number a decimal text with or without a sign says, if it is one of 64 bits.
pub open spec fn signed_word(text: Seq<char>) -> Option<i64> {
    let negative = text.len() > 0 && text[0] == '-';
    let digits = if text.len() > 0 && (text[0] == '-' || text[0] == '+') {
        text.drop_first()
    } else {
        text
    };
    match unsigned_value(digits, 10) {
        None => None,
        Some(value) => {
            let number = if negative {
                -value
            } else {
                value
            };
            if i64::MIN <= number <= i64::MAX {
                Some(number as i64)
            } else {
                None
            }
        },
    }
}

/// The number a hexadecimal text says, with or without a plus sign, if it is one of 64 bits.
pub open spec fn hex_word(text: Seq<char>) -> Option<u64> {
    let digits = if text.len() > 0 && text[0] == '+' {
        text.drop_first()
    } else {
        text
    };
    match unsigned_value(digits, 16) {
        None => None,
        Some(value) => if value <= u64::MAX {
            Some(value as u64)
        } else {
            None
        },
    }
}

proof fn run_exact(text: Seq<char>, start: int, white: bool, length: int)
    requires
        0 <= start,
        0 <= length,
        start + length <= text.len(),
        forall|i: int| start <= i < start + length ==> is_space(#[trigger] text[i]) == white,
        start + length < text.len() ==> is_space(text[start + length]) != white,
    ensures
        run(text, start, white) == length,
    decreases length,
{
    if length > 0 {
        run_exact(text, start + 1, white, length - 1);
    }
}

/// A stretch of `text` from `start` to `end` of one kind, white space or none.
fn run_end(letters: &Vec<char>, start: usize, white: bool) -> (end: usize)
    requires
        start <= letters@.len(),
    ensures
        end == start + run(letters@, start as int, white),
        start <= end <= letters@.len(),
{
    let mut end: usize = start;
    while end < letters.len() && space(letters[end]) == white
        invariant
            start <= end <= letters@.len(),
            forall|i: int| start <= i < end ==> is_space(#[trigger] letters@[i]) == white,
        decreases letters@.len() - end,
    {
        end = end + 1;
    }
    proof {
        run_exact(letters@, start as int, white, end - start);
    }
    end
}

/// Where the words of a text are.
fn word_ranges(letters: &Vec<char>) -> (ranges: Vec<(usize, usize)>)
    ensures
        ranges@.len() == words(letters@, 0).len(),
        forall|k: int|
            0 <= k < ranges@.len() ==> {
                &&& (#[trigger] ranges@[k]).0 <= ranges@[k].1 <= letters@.len()
                &&& letters@.subrange(ranges@[k].0 as int, ranges@[k].1 as int) == words(letters@, 0)[k]
            },
{
    let mut ranges: Vec<(usize, usize)> = Vec::new();
    let mut start: usize = 0;
    let mut more = true;
    let ghost all = words(letters@, 0);
    let ghost mut done: Seq<Seq<char>> = Seq::empty();
    assert(done + all =~= all);
    while more
        invariant
            start <= letters@.len(),
            all == words(letters@, 0),
            more ==> all == done + words(letters@, start as int),
            !more ==> all == done,
            ranges@.len() == done.len(),
            forall|k: int|
                0 <= k < ranges@.len() ==> {
                    &&& (#[trigger] ranges@[k]).0 <= ranges@[k].1 <= letters@.len()
                    &&& letters@.subrange(ranges@[k].0 as int, ranges@[k].1 as int) == done[k]
                },
        decreases letters@.len() - start, (if more { 1int } else { 0int }),
    {
        let first: usize = run_end(letters, start, true);
        let end: usize = run_end(letters, first, false);
        if first < end {
            let ghost word = letters@.subrange(first as int, end as int);
            proof {
                assert(done + (seq![word] + words(letters@, end as int)) =~= done.push(word) + words(
                    letters@,
                    end as int,
                ));
                done = done.push(word);
            }
            ranges.push((first, end));
            start = end;
        } else {
            proof {
                assert(words(letters@, start as int) =~= Seq::empty());
                assert(done + words(letters@, start as int) =~= done);
            }
            more = false;
        }
    }
    ranges
}

fn digit(letter: char, radix: u64) -> (value: Option<u64>)
    requires
        radix == 10 || radix == 16,
    ensures
        match value {
            Some(value) => is_digit(letter, radix as int) && value == digit_value(letter) && value < radix,
            None => !is_digit(letter, radix as int),
        },
{
    let code: u32 = letter as u32;
    if 0x30 <= code && code <= 0x39 {
        Some((code - 0x30) as u64)
    } else if radix == 16 && 0x61 <= code && code <= 0x66 {
        Some((code - 0x61 + 10) as u64)
    } else if radix == 16 && 0x41 <= code && code <= 0x46 {
        Some((code - 0x41 + 10) as u64)
    } else {
        None
    }
}

proof fn digits_value_grows(text: Seq<char>, radix: int, count: int)
    requires
        radix >= 1,
        0 <= count <= text.len(),
        forall|i: int| 0 <= i < text.len() ==> is_digit(#[trigger] text[i], radix),
    ensures
        0 <= digits_value(text.take(count), radix) <= digits_value(text, radix),
    decreases text.len(),
{
    if text.len() == 0 {
        assert(text.take(count) =~= text);
    } else {
        let shorter = text.drop_last();
        assert(forall|i: int| 0 <= i < shorter.len() ==> shorter[i] == text[i]);
        assert(is_digit(text[text.len() - 1], radix));
        assert(digit_value(text.last()) >= 0);
        if count == text.len() {
            digits_value_grows(shorter, radix, count - 1);
            assert(text.take(count) =~= text);
            assert(shorter.take(count - 1) =~= shorter);
            assert(digits_value(shorter, radix) * radix >= 0) by (nonlinear_arith)
                requires
                    digits_value(shorter, radix) >= 0,
                    radix >= 1,
            ;
        } else {
            digits_value_grows(shorter, radix, count);
            assert(shorter.take(count) =~= text.take(count));
            assert(digits_value(shorter, radix) * radix >= digits_value(shorter, radix)) by (nonlinear_arith)
                requires
                    digits_value(shorter, radix) >= 0,
                    radix >= 1,
            ;
        }
    }
}

/// The value of the digits from `start` to `end`, if they are some and say no more than `limit`.
fn magnitude(letters: &Vec<char>, start: usize, end: usize, radix: u64, limit: u64) -> (value: Option<u64>)
    requires
        start <= end <= letters@.len(),
        radix == 10 || radix == 16,
    ensures
        match unsigned_value(letters@.subrange(start as int, end as int), radix as int) {
            None => value is None,
            Some(number) => if number <= limit {
                value == Some(number as u64) && number >= 0
            } else {
                value is None
            },
        },
{
    let ghost text = letters@.subrange(start as int, end as int);
    if start == end {
        return None;
    }
    let mut value: u64 = 0;
    assert(text.take(0) =~= Seq::empty());
    for place in start..end
        invariant
            start <= end <= letters@.len(),
            radix == 10 || radix == 16,
            text == letters@.subrange(start as int, end as int),
            text.len() == end - start,
            value == digits_value(text.take(place - start), radix as int),
            value <= limit,
            forall|i: int| 0 <= i < place - start ==> is_digit(#[trigger] text[i], radix as int),
    {
        let ghost longer = text.take(place + 1 - start);
        proof {
            assert(longer.drop_last() =~= text.take(place - start));
            assert(longer.last() == letters@[place as int]);
            assert(text[place - start] == letters@[place as int]);
        }
        match digit(letters[place], radix) {
            None => {
                return None;
            },
            Some(found) => {
                proof {
                    assert(value * radix <= 0xffff_ffff_ffff_ffff * 16) by (nonlinear_arith)
                        requires
                            value <= 0xffff_ffff_ffff_ffff,
                            radix <= 16,
                    ;
                }
                let next: u128 = value as u128 * radix as u128 + found as u128;
                if next > limit as u128 {
                    proof {
                        if unsigned_value(text, radix as int) is Some {
                            digits_value_grows(text, radix as int, place + 1 - start);
                        }
                    }
                    return None;
                }
                value = next as u64;
            },
        }
    }
    proof {
        assert(text.take(end - start) =~= text);
    }
    Some(value)
}

fn signed(letters: &Vec<char>, start: usize, end: usize) -> (number: Option<i64>)
    requires
        start <= end <= letters@.len(),
    ensures
        number == signed_word(letters@.subrange(start as int, end as int)),
{
    let ghost text = letters@.subrange(start as int, end as int);
    if start == end {
        return None;
    }
    let first: char = letters[start];
    assert(first == text[0]);
    proof {
        assert(text.drop_first() =~= letters@.subrange(start + 1, end as int));
    }
    if first == '-' {
        match magnitude(letters, start + 1, end, 10, 0x8000_0000_0000_0000) {
            None => None,
            Some(value) => if value == 0x8000_0000_0000_0000 {
                Some(i64::MIN)
            } else {
                Some(-(value as i64))
            },
        }
    } else {
        let from: usize = if first == '+' {
            start + 1
        } else {
            start
        };
        match magnitude(letters, from, end, 10, 0x7fff_ffff_ffff_ffff) {
            None => None,
            Some(value) => Some(value as i64),
        }
    }
}

fn hex(letters: &Vec<char>, start: usize, end: usize) -> (number: Option<u64>)
    requires
        start <= end <= letters@.len(),
    ensures
        number == hex_word(letters@.subrange(start as int, end as int)),
{
    let ghost text = letters@.subrange(start as int, end as int);
    if start == end {
        return None;
    }
    assert(letters@[start as int] == text[0]);
    proof {
        assert(text.drop_first() =~= letters@.subrange(start + 1, end as int));
    }
    let from: usize = if letters[start] == '+' {
        start + 1
    } else {
        start
    };
    magnitude(letters, from, end, 16, u64::MAX)
}

/// The numbers that name a shape, and the words of the algorithm chosen for it.
pub struct Choice {
    pub named: Vec<i64>,
    pub data: [u64; 8],
}

/// What an entry of `fields` numbers and eight words says, unless it is damaged.
pub open spec fn parsed(entry: Seq<char>, fields: int) -> Option<(Seq<i64>, Seq<u64>)> {
    let columns = words(entry, 0);
    if columns.len() != fields + 8 {
        None
    } else if exists|k: int| 0 <= k < fields && signed_word(#[trigger] columns[k]) is None {
        None
    } else if exists|k: int| fields <= k < fields + 8 && hex_word(#[trigger] columns[k]) is None {
        None
    } else {
        Some(
            (
                Seq::new(fields as nat, |k: int| signed_word(columns[k])->0),
                Seq::new(8, |k: int| hex_word(columns[fields + k])->0),
            ),
        )
    }
}

/// What an entry of `fields` numbers and eight words says, unless it is damaged.
pub fn parse(entry: &str, fields: usize) -> (choice: Option<Choice>)
    requires
        fields + 8 <= usize::MAX,
    ensures
        match parsed(entry@, fields as int) {
            None => choice is None,
            Some((named, data)) => choice matches Some(choice) && choice.named@ == named && choice.data@ == data,
        },
{
    let letters = text::chars_of(entry);
    let columns = word_ranges(&letters);
    let ghost spelled = words(entry@, 0);
    if columns.len() != fields + 8 {
        return None;
    }
    let mut named: Vec<i64> = Vec::new();
    for k in 0..fields
        invariant
            fields + 8 <= usize::MAX,
            columns@.len() == fields + 8,
            letters@ == entry@,
            spelled == words(entry@, 0),
            spelled.len() == columns@.len(),
            forall|i: int|
                0 <= i < columns@.len() ==> {
                    &&& (#[trigger] columns@[i]).0 <= columns@[i].1 <= letters@.len()
                    &&& letters@.subrange(columns@[i].0 as int, columns@[i].1 as int) == spelled[i]
                },
            named@.len() == k,
            forall|i: int| 0 <= i < k ==> signed_word(#[trigger] spelled[i]) == Some(named@[i]),
    {
        let (start, end) = columns[k];
        assert(letters@.subrange(columns@[k as int].0 as int, columns@[k as int].1 as int) == spelled[k as int]);
        match signed(&letters, start, end) {
            None => {
                assert(signed_word(spelled[k as int]) is None);
                return None;
            },
            Some(number) => {
                named.push(number);
            },
        }
    }
    let mut data: [u64; 8] = [0u64; 8];
    for k in 0..8usize
        invariant
            fields + 8 <= usize::MAX,
            columns@.len() == fields + 8,
            letters@ == entry@,
            spelled == words(entry@, 0),
            spelled.len() == columns@.len(),
            forall|i: int|
                0 <= i < columns@.len() ==> {
                    &&& (#[trigger] columns@[i]).0 <= columns@[i].1 <= letters@.len()
                    &&& letters@.subrange(columns@[i].0 as int, columns@[i].1 as int) == spelled[i]
                },
            data@.len() == 8,
            forall|i: int| fields <= i < fields + k ==> hex_word(#[trigger] spelled[i]) == Some(data@[i - fields]),
    {
        let (start, end) = columns[fields + k];
        assert(letters@.subrange(columns@[fields + k].0 as int, columns@[fields + k].1 as int) == spelled[fields + k]);
        match hex(&letters, start, end) {
            None => {
                assert(hex_word(spelled[fields + k]) is None);
                return None;
            },
            Some(word) => {
                data[k] = word;
            },
        }
    }
    proof {
        assert(parsed(entry@, fields as int) is Some);
        assert(named@ =~= (parsed(entry@, fields as int)->0).0);
        assert forall|k: int| 0 <= k < 8 implies data@[k] == hex_word(spelled[fields + k])->0 by {
            assert(hex_word(spelled[fields + k]) == Some(data@[fields + k - fields]));
        }
        assert(data@ =~= (parsed(entry@, fields as int)->0).1);
    }
    Some(Choice { named, data })
}

/// `tokens`, each behind a blank.
pub open spec fn spaced(tokens: Seq<Seq<char>>) -> Seq<char>
    decreases tokens.len(),
{
    if tokens.len() == 0 {
        Seq::empty()
    } else {
        spaced(tokens.drop_last()) + seq![' '] + tokens.last()
    }
}

/// `tokens`, with a blank between two.
pub open spec fn joined(tokens: Seq<Seq<char>>) -> Seq<char> {
    if tokens.len() == 0 {
        Seq::empty()
    } else {
        spaced(tokens).drop_first()
    }
}

/// The numbers of a shape as they are written.
pub open spec fn named_tokens(named: Seq<i64>) -> Seq<Seq<char>> {
    Seq::new(named.len(), |k: int| text::signed_decimal(named[k] as int))
}

/// The words of an algorithm as they are written.
pub open spec fn data_tokens(data: Seq<u64>) -> Seq<Seq<char>> {
    Seq::new(data.len(), |k: int| text::hex_digits(data[k] as nat, 16))
}

/// The entry of a shape, without the end of its line.
pub open spec fn entry_text(named: Seq<i64>, data: Seq<u64>) -> Seq<char> {
    joined(named_tokens(named)) + spaced(data_tokens(data))
}

/// The line of an entry.
pub fn line(named: &Vec<i64>, data: &[u64; 8]) -> (line: String)
    ensures
        line@ == entry_text(named@, data@).push('\n'),
{
    let mut line = String::new();
    let count: usize = named.len();
    proof {
        reveal_strlit(" ");
        reveal_strlit("\n");
        assert(named_tokens(named@).take(0) =~= Seq::empty());
        assert(data_tokens(data@).take(0) =~= Seq::empty());
    }
    for k in 0..count
        invariant
            count == named@.len(),
            " "@ =~= seq![' '],
            line@ == joined(named_tokens(named@).take(k as int)),
    {
        let ghost before = named_tokens(named@).take(k as int);
        let ghost after = named_tokens(named@).take(k + 1);
        if k > 0 {
            line.append(" ");
        }
        text::push_signed(&mut line, named[k]);
        proof {
            assert(after.drop_last() =~= before);
            assert(after.last() == text::signed_decimal(named@[k as int] as int));
            if k > 0 {
                spaced_starts_with_a_blank(before);
                assert(line@ =~= spaced(after).drop_first());
            } else {
                assert(spaced(before) =~= Seq::empty());
                assert(line@ =~= spaced(after).drop_first());
            }
        }
    }
    proof {
        assert(named_tokens(named@).take(count as int) =~= named_tokens(named@));
    }
    let ghost head = line@;
    assert(line@ =~= head + spaced(data_tokens(data@).take(0)));
    for k in 0..8usize
        invariant
            data@.len() == 8,
            " "@ =~= seq![' '],
            line@ == head + spaced(data_tokens(data@).take(k as int)),
    {
        let ghost before = data_tokens(data@).take(k as int);
        let ghost after = data_tokens(data@).take(k + 1);
        line.append(" ");
        text::push_hex(&mut line, data[k], 16);
        proof {
            assert(after.drop_last() =~= before);
            assert(line@ =~= head + spaced(after));
        }
    }
    proof {
        assert(data_tokens(data@).take(8) =~= data_tokens(data@));
    }
    line.append("\n");
    proof {
        assert("\n"@ =~= seq!['\n']);
        assert(line@ =~= entry_text(named@, data@).push('\n'));
    }
    line
}

proof fn spaced_starts_with_a_blank(tokens: Seq<Seq<char>>)
    requires
        tokens.len() > 0,
    ensures
        spaced(tokens).len() > 0,
        spaced(tokens)[0] == ' ',
    decreases tokens.len(),
{
    if tokens.len() > 1 {
        spaced_starts_with_a_blank(tokens.drop_last());
        assert(spaced(tokens)[0] == spaced(tokens.drop_last())[0]);
    } else {
        assert(spaced(tokens.drop_last()) =~= Seq::empty());
    }
}

/// Whether a text is a word: some characters, none of them white space.
pub open spec fn is_word(text: Seq<char>) -> bool {
    text.len() > 0 && forall|i: int| 0 <= i < text.len() ==> !is_space(#[trigger] text[i])
}

proof fn word_at(text: Seq<char>, start: int, first: int, end: int)
    requires
        0 <= start <= first < end <= text.len(),
        forall|i: int| start <= i < first ==> is_space(#[trigger] text[i]),
        forall|i: int| first <= i < end ==> !is_space(#[trigger] text[i]),
        end < text.len() ==> is_space(text[end]),
    ensures
        words(text, start) == seq![text.subrange(first, end)] + words(text, end),
{
    run_exact(text, start, true, first - start);
    run_exact(text, first, false, end - first);
}

proof fn no_words(text: Seq<char>, start: int)
    requires
        0 <= start <= text.len(),
        forall|i: int| start <= i < text.len() ==> is_space(#[trigger] text[i]),
    ensures
        words(text, start) == Seq::<Seq<char>>::empty(),
{
    run_exact(text, start, true, text.len() - start);
}

/// The words of `text` behind `done`, where `tokens` follow, each behind a blank, and then `tail`.
proof fn words_of_spaced(text: Seq<char>, done: Seq<char>, tokens: Seq<Seq<char>>, tail: Seq<char>)
    requires
        text == done + spaced(tokens) + tail,
        forall|k: int| 0 <= k < tokens.len() ==> is_word(#[trigger] tokens[k]),
        forall|i: int| 0 <= i < tail.len() ==> is_space(#[trigger] tail[i]),
    ensures
        words(text, done.len() as int) == tokens,
    decreases tokens.len(),
{
    let start = done.len() as int;
    if tokens.len() == 0 {
        assert(spaced(tokens) =~= Seq::empty());
        assert forall|i: int| start <= i < text.len() implies is_space(#[trigger] text[i]) by {
            assert(text[i] == tail[i - start]);
        }
        no_words(text, start);
    } else {
        let first = tokens[0];
        let rest = tokens.drop_first();
        spaced_from_the_front(tokens);
        assert(is_word(tokens[0]));
        let next = done + seq![' '] + first;
        assert(text =~= next + spaced(rest) + tail);
        let end = next.len() as int;
        assert forall|i: int| start + 1 <= i < end implies !is_space(#[trigger] text[i]) by {
            assert(text[i] == first[i - start - 1]);
        }
        assert forall|i: int| start <= i < start + 1 implies is_space(#[trigger] text[i]) by {
            assert(text[i] == ' ');
        }
        if end < text.len() {
            if rest.len() > 0 {
                spaced_starts_with_a_blank(rest);
                assert(text[end] == spaced(rest)[0]);
            } else {
                assert(spaced(rest) =~= Seq::empty());
                assert(text[end] == tail[0]);
            }
        }
        word_at(text, start, start + 1, end);
        assert(text.subrange(start + 1, end) =~= first);
        assert forall|k: int| 0 <= k < rest.len() implies is_word(#[trigger] rest[k]) by {
            assert(rest[k] == tokens[k + 1]);
        }
        words_of_spaced(text, next, rest, tail);
        assert(seq![first] + rest =~= tokens);
    }
}

proof fn spaced_from_the_front(tokens: Seq<Seq<char>>)
    requires
        tokens.len() > 0,
    ensures
        spaced(tokens) == seq![' '] + tokens[0] + spaced(tokens.drop_first()),
    decreases tokens.len(),
{
    if tokens.len() == 1 {
        assert(spaced(tokens.drop_last()) =~= Seq::empty());
        assert(spaced(tokens.drop_first()) =~= Seq::empty());
        assert(spaced(tokens) =~= seq![' '] + tokens[0] + spaced(tokens.drop_first()));
    } else {
        let shorter = tokens.drop_last();
        spaced_from_the_front(shorter);
        assert(shorter.drop_first() =~= tokens.drop_first().drop_last());
        assert(spaced(tokens) =~= seq![' '] + tokens[0] + spaced(tokens.drop_first()));
    }
}

proof fn spaced_joins(left: Seq<Seq<char>>, right: Seq<Seq<char>>)
    ensures
        spaced(left + right) == spaced(left) + spaced(right),
    decreases right.len(),
{
    if right.len() == 0 {
        assert(left + right =~= left);
        assert(spaced(left) + spaced(right) =~= spaced(left));
    } else {
        spaced_joins(left, right.drop_last());
        assert((left + right).drop_last() =~= left + right.drop_last());
        assert(spaced(left + right) =~= spaced(left) + spaced(right));
    }
}

/// The words of a joined list, which starts with its first word rather than with a blank.
proof fn words_of_joined(tokens: Seq<Seq<char>>, tail: Seq<char>)
    requires
        tokens.len() > 0,
        forall|k: int| 0 <= k < tokens.len() ==> is_word(#[trigger] tokens[k]),
        forall|i: int| 0 <= i < tail.len() ==> is_space(#[trigger] tail[i]),
    ensures
        words(joined(tokens) + tail, 0) == tokens,
{
    let first = tokens[0];
    let rest = tokens.drop_first();
    let text = joined(tokens) + tail;
    spaced_from_the_front(tokens);
    assert(text =~= first + spaced(rest) + tail);
    assert(is_word(tokens[0]));
    let end = first.len() as int;
    assert forall|i: int| 0 <= i < end implies !is_space(#[trigger] text[i]) by {
        assert(text[i] == first[i]);
    }
    if end < text.len() {
        if rest.len() > 0 {
            spaced_starts_with_a_blank(rest);
            assert(text[end] == spaced(rest)[0]);
        } else {
            assert(spaced(rest) =~= Seq::empty());
            assert(text[end] == tail[0]);
        }
    }
    word_at(text, 0, 0, end);
    assert(text.subrange(0, end) =~= first);
    assert forall|k: int| 0 <= k < rest.len() implies is_word(#[trigger] rest[k]) by {
        assert(rest[k] == tokens[k + 1]);
    }
    words_of_spaced(text, first, rest, tail);
    assert(seq![first] + rest =~= tokens);
}

proof fn decimal_is_digits(value: nat)
    ensures
        text::decimal(value).len() > 0,
        forall|i: int|
            0 <= i < text::decimal(value).len() ==> '0' <= #[trigger] text::decimal(value)[i] && text::decimal(value)[i]
                <= '9',
        digits_value(text::decimal(value), 10) == value,
    decreases value,
{
    let spelled = text::decimal(value);
    reveal_with_fuel(digits_value, 2);
    if value < 10 {
        assert(spelled.drop_last() =~= Seq::empty());
        assert(spelled.last() == text::digit_char(value));
    } else {
        decimal_is_digits(value / 10);
        assert(spelled.drop_last() =~= text::decimal(value / 10));
        assert(spelled.last() == text::digit_char(value % 10));
    }
}

proof fn signed_decimal_reads_back(value: i64)
    ensures
        signed_word(text::signed_decimal(value as int)) == Some(value),
        is_word(text::signed_decimal(value as int)),
{
    let spelled = text::signed_decimal(value as int);
    if value < 0 {
        let magnitude = (-(value as int)) as nat;
        decimal_is_digits(magnitude);
        assert(spelled.drop_first() =~= text::decimal(magnitude));
        assert forall|i: int| 0 <= i < spelled.len() implies !is_space(#[trigger] spelled[i]) by {
            if i > 0 {
                assert(spelled[i] == text::decimal(magnitude)[i - 1]);
            }
        }
        assert forall|i: int| 0 <= i < text::decimal(magnitude).len() implies is_digit(
            #[trigger] text::decimal(magnitude)[i],
            10,
        ) by {}
    } else {
        decimal_is_digits(value as nat);
        assert('0' <= spelled[0] && spelled[0] <= '9');
        assert forall|i: int| 0 <= i < spelled.len() implies is_digit(#[trigger] spelled[i], 10) by {}
    }
}

proof fn hex_is_digits(value: nat, width: nat)
    requires
        value < vstd::arithmetic::power::pow(16, width),
    ensures
        text::hex_digits(value, width).len() == width,
        forall|i: int| 0 <= i < width ==> is_digit(#[trigger] text::hex_digits(value, width)[i], 16),
        forall|i: int| 0 <= i < width ==> !is_space(#[trigger] text::hex_digits(value, width)[i]),
        digits_value(text::hex_digits(value, width), 16) == value,
    decreases width,
{
    let spelled = text::hex_digits(value, width);
    vstd::arithmetic::power::lemma_pow0(16);
    if width > 0 {
        let shorter = (width - 1) as nat;
        assert(vstd::arithmetic::power::pow(16, width) == 16 * vstd::arithmetic::power::pow(16, shorter)) by {
            reveal(vstd::arithmetic::power::pow);
        }
        hex_is_digits(value / 16, shorter);
        assert(spelled.drop_last() =~= text::hex_digits(value / 16, shorter));
        assert(spelled.last() == text::hex_char(value % 16));
        assert forall|i: int| 0 <= i < width implies is_digit(#[trigger] spelled[i], 16) && !is_space(spelled[i]) by {
            if i < shorter {
                assert(spelled[i] == text::hex_digits(value / 16, shorter)[i]);
            }
        }
    }
}

proof fn hex_reads_back(word: u64)
    ensures
        hex_word(text::hex_digits(word as nat, 16)) == Some(word),
        is_word(text::hex_digits(word as nat, 16)),
{
    assert(vstd::arithmetic::power::pow(16, 16) == 0x1_0000_0000_0000_0000) by {
        reveal_with_fuel(vstd::arithmetic::power::pow, 17);
    }
    hex_is_digits(word as nat, 16);
    let spelled = text::hex_digits(word as nat, 16);
    assert(is_digit(spelled[0], 16));
}

proof fn tokens_are_words(named: Seq<i64>, data: Seq<u64>)
    ensures
        forall|k: int|
            0 <= k < named.len() + data.len() ==> is_word(#[trigger] (named_tokens(named) + data_tokens(data))[k]),
{
    let numbers = named_tokens(named);
    let hexes = data_tokens(data);
    let tokens = numbers + hexes;
    assert forall|k: int| 0 <= k < tokens.len() implies is_word(#[trigger] tokens[k]) by {
        if k < named.len() {
            signed_decimal_reads_back(named[k]);
            assert(tokens[k] == numbers[k]);
        } else {
            hex_reads_back(data[k - named.len()]);
            assert(tokens[k] == hexes[k - named.len()]);
        }
    }
}

proof fn words_of_an_entry(named: Seq<i64>, data: Seq<u64>, tail: Seq<char>)
    requires
        is_blank(tail),
    ensures
        words(entry_text(named, data) + tail, 0) == named_tokens(named) + data_tokens(data),
{
    let numbers = named_tokens(named);
    let hexes = data_tokens(data);
    let tokens = numbers + hexes;
    tokens_are_words(named, data);
    if named.len() == 0 {
        let text = entry_text(named, data) + tail;
        assert(tokens =~= hexes);
        assert(text =~= Seq::empty() + spaced(tokens) + tail);
        words_of_spaced(text, Seq::empty(), tokens, tail);
    } else {
        spaced_joins(numbers, hexes);
        spaced_starts_with_a_blank(numbers);
        assert(joined(tokens) =~= entry_text(named, data));
        words_of_joined(tokens, tail);
    }
}

/// An entry that was written for a shape is read back as that shape and its algorithm, with or without
/// the white space behind it, and as nothing where another number of fields is asked for.
pub proof fn an_entry_reads_back(named: Seq<i64>, data: Seq<u64>, tail: Seq<char>)
    requires
        data.len() == 8,
        is_blank(tail),
    ensures
        parsed(entry_text(named, data) + tail, named.len() as int) == Some((named, data)),
        forall|fields: int|
            fields != named.len() ==> (#[trigger] parsed(entry_text(named, data) + tail, fields)) is None,
{
    let numbers = named_tokens(named);
    let hexes = data_tokens(data);
    let tokens = numbers + hexes;
    words_of_an_entry(named, data, tail);
    let columns = words(entry_text(named, data) + tail, 0);
    assert forall|k: int| 0 <= k < named.len() implies signed_word(#[trigger] columns[k]) == Some(named[k]) by {
        signed_decimal_reads_back(named[k]);
        assert(columns[k] == numbers[k]);
    }
    assert forall|k: int| named.len() <= k < named.len() + 8 implies hex_word(#[trigger] columns[k]) == Some(
        data[k - named.len()],
    ) by {
        hex_reads_back(data[k - named.len()]);
        assert(columns[k] == hexes[k - named.len()]);
    }
    let read = parsed(entry_text(named, data) + tail, named.len() as int)->0;
    assert(read.0 =~= named);
    assert forall|k: int| 0 <= k < 8 implies read.1[k] == data[k] by {
        assert(hex_word(columns[named.len() + k]) == Some(data[k]));
    }
    assert(read.1 =~= data);
}

/// The line of an entry has one line break, at its end, and loses nothing else when it is trimmed.
pub proof fn a_line_ends_once(named: Seq<i64>, data: Seq<u64>)
    requires
        data.len() == 8,
    ensures
        forall|i: int| 0 <= i < entry_text(named, data).len() ==> (#[trigger] entry_text(named, data)[i]) != '\n',
        entry_text(named, data).len() > 0,
        !is_space(entry_text(named, data).last()),
        trimmed_end(entry_text(named, data).push('\n')) == entry_text(named, data),
{
    let numbers = named_tokens(named);
    let hexes = data_tokens(data);
    let tokens = numbers + hexes;
    let entry = entry_text(named, data);
    let whole = spaced(tokens);
    tokens_are_words(named, data);
    spaced_joins(numbers, hexes);
    spaced_is_one_line(tokens);
    spaced_starts_with_a_blank(hexes);
    if named.len() == 0 {
        assert(tokens =~= hexes);
        assert(entry =~= whole);
    } else {
        spaced_starts_with_a_blank(numbers);
        assert(entry =~= whole.drop_first());
        assert forall|i: int| 0 <= i < entry.len() implies (#[trigger] entry[i]) != '\n' by {
            assert(entry[i] == whole[i + 1]);
        }
    }
    assert(entry.last() == whole.last());
    assert(entry.push('\n').drop_last() =~= entry);
    reveal_with_fuel(trimmed_end, 3);
}

/// The shape an entry is of: all of it but its last eight columns, as blanks part them.
pub open spec fn shape(entry: Seq<char>, columns: nat) -> Option<Seq<char>>
    decreases columns,
{
    if columns == 0 {
        Some(entry)
    } else if exists|place: int| last_blank(entry, place) {
        shape(entry.take(choose|place: int| last_blank(entry, place)), (columns - 1) as nat)
    } else {
        None
    }
}

/// Whether the last blank of `text` is at `place`.
pub open spec fn last_blank(text: Seq<char>, place: int) -> bool {
    &&& 0 <= place < text.len()
    &&& text[place] == ' '
    &&& forall|later: int| place < later < text.len() ==> text[later] != ' '
}

/// Where the shape of an entry ends.
fn shape_end(letters: &Vec<char>) -> (end: Option<usize>)
    ensures
        match shape(letters@, 8) {
            None => end is None,
            Some(kept) => end matches Some(end) && end <= letters@.len() && letters@.take(end as int) == kept,
        },
{
    let mut end: usize = letters.len();
    let mut left: usize = 8;
    assert(letters@.take(end as int) =~= letters@);
    while left > 0
        invariant
            end <= letters@.len(),
            left <= 8,
            shape(letters@, 8) == shape(letters@.take(end as int), left as nat),
        decreases left,
    {
        let ghost cut = letters@.take(end as int);
        let mut place: usize = end;
        while place > 0 && letters[place - 1] != ' '
            invariant
                place <= end <= letters@.len(),
                cut == letters@.take(end as int),
                forall|later: int| place <= later < end ==> cut[later] != ' ',
            decreases place,
        {
            place = place - 1;
        }
        if place == 0 {
            assert(forall|at: int| !last_blank(cut, at));
            return None;
        }
        proof {
            assert(last_blank(cut, place - 1));
            let chosen = choose|at: int| last_blank(cut, at);
            assert(chosen == place - 1);
            assert(cut.take(place - 1) =~= letters@.take(place - 1));
        }
        end = place - 1;
        left = left - 1;
    }
    Some(end)
}

/// Whether two entries are of one shape.
fn same_shape(left: &str, right: &str) -> (same: bool)
    ensures
        same == (shape(left@, 8) == shape(right@, 8)),
{
    let one = text::chars_of(left);
    let other = text::chars_of(right);
    match (shape_end(&one), shape_end(&other)) {
        (None, None) => true,
        (Some(end), Some(other_end)) => {
            if end != other_end {
                proof {
                    let a = shape(left@, 8)->0;
                    let b = shape(right@, 8)->0;
                    assert(a.len() == end && b.len() == other_end);
                }
                return false;
            }
            for place in 0..end
                invariant
                    one@ == left@,
                    other@ == right@,
                    end == other_end,
                    end <= one@.len(),
                    end <= other@.len(),
                    shape(left@, 8) == Some(left@.take(end as int)),
                    shape(right@, 8) == Some(right@.take(end as int)),
                    forall|i: int| 0 <= i < place ==> left@[i] == right@[i],
            {
                if one[place] != other[place] {
                    proof {
                        let a = left@.take(end as int);
                        let b = right@.take(end as int);
                        assert(a[place as int] != b[place as int]);
                    }
                    return false;
                }
            }
            assert(left@.take(end as int) =~= right@.take(end as int));
            true
        },
        _ => false,
    }
}

/// The text without the white space at its end.
pub open spec fn trimmed_end(text: Seq<char>) -> Seq<char>
    decreases text.len(),
{
    if text.len() > 0 && is_space(text.last()) {
        trimmed_end(text.drop_last())
    } else {
        text
    }
}

fn trim_end(text: &String) -> (trimmed: String)
    ensures
        trimmed@ == trimmed_end(text@),
{
    let letters = text::chars_of(text.as_str());
    let mut end: usize = letters.len();
    assert(text@.take(end as int) =~= text@);
    while end > 0 && space(letters[end - 1])
        invariant
            letters@ == text@,
            end <= letters@.len(),
            trimmed_end(text@) == trimmed_end(text@.take(end as int)),
        decreases end,
    {
        assert(text@.take(end as int).drop_last() =~= text@.take(end - 1));
        end = end - 1;
    }
    let trimmed = String::from_str(text.as_str().substring_char(0, end));
    assert(trimmed@ =~= text@.take(end as int));
    trimmed
}

/// How many characters of `text` come before a new line.
pub open spec fn line_length(text: Seq<char>) -> nat
    decreases text.len(),
{
    if text.len() == 0 || text[0] == '\n' {
        0
    } else {
        1 + line_length(text.drop_first())
    }
}

/// A line without the carriage return at its end.
pub open spec fn without_return(line: Seq<char>) -> Seq<char> {
    if line.len() > 0 && line.last() == '\r' {
        line.drop_last()
    } else {
        line
    }
}

proof fn line_length_is(text: Seq<char>, length: int)
    requires
        0 <= length <= text.len(),
        forall|i: int| 0 <= i < length ==> text[i] != '\n',
        length < text.len() ==> text[length] == '\n',
    ensures
        line_length(text) == length,
    decreases length,
{
    if length > 0 {
        line_length_is(text.drop_first(), length - 1);
    }
}

proof fn line_length_fits(text: Seq<char>)
    ensures
        line_length(text) <= text.len(),
        forall|i: int| 0 <= i < line_length(text) ==> text[i] != '\n',
        line_length(text) < text.len() ==> text[line_length(text) as int] == '\n',
    decreases text.len(),
{
    if text.len() > 0 && text[0] != '\n' {
        line_length_fits(text.drop_first());
        assert forall|i: int| 0 <= i < line_length(text) implies text[i] != '\n' by {
            if i > 0 {
                assert(text[i] == text.drop_first()[i - 1]);
            }
        }
    }
}

/// The lines of `text`, each without the new line, or the carriage return and the new line, that ends
/// it. The last one need not be ended.
pub open spec fn lines(text: Seq<char>) -> Seq<Seq<char>>
    decreases text.len(),
{
    let length = line_length(text) as int;
    if text.len() == 0 {
        Seq::empty()
    } else if length < text.len() {
        seq![without_return(text.take(length))] + lines(text.skip(length + 1))
    } else {
        seq![text]
    }
}

/// The texts of a list of strings.
pub open spec fn texts(list: Seq<String>) -> Seq<Seq<char>> {
    list.map_values(|item: String| item@)
}

fn split_lines(text: &str) -> (list: Vec<String>)
    ensures
        texts(list@) == lines(text@),
{
    let letters = text::chars_of(text);
    let size: usize = letters.len();
    let mut list: Vec<String> = Vec::new();
    let mut start: usize = 0;
    assert(text@.skip(0) =~= text@);
    assert(texts(list@) + lines(text@) =~= lines(text@));
    while start < size
        invariant
            letters@ == text@,
            size == letters@.len(),
            start <= size,
            lines(text@) == texts(list@) + lines(text@.skip(start as int)),
        decreases size - start,
    {
        let ghost rest = text@.skip(start as int);
        let ghost done = texts(list@);
        let mut end: usize = start;
        while end < size && letters[end] != '\n'
            invariant
                letters@ == text@,
                size == letters@.len(),
                start <= end <= size,
                rest == text@.skip(start as int),
                forall|i: int| 0 <= i < end - start ==> rest[i] != '\n',
            decreases size - end,
        {
            end = end + 1;
        }
        proof {
            if end < size {
                assert(rest[end - start] == '\n');
            }
            line_length_is(rest, end - start);
        }
        let cut: usize = if end < size && end > start && letters[end - 1] == '\r' {
            end - 1
        } else {
            end
        };
        let line = String::from_str(text.substring_char(start, cut));
        let next: usize = if end < size {
            end + 1
        } else {
            size
        };
        proof {
            let whole = rest.take(end - start);
            if end > start {
                assert(whole.last() == text@[end - 1]);
            }
            if end < size {
                assert(line@ =~= without_return(whole));
                assert(rest.skip(end - start + 1) =~= text@.skip(next as int));
            } else {
                assert(line@ =~= rest);
                assert(lines(text@.skip(next as int)) =~= Seq::empty());
            }
            assert(lines(rest) =~= seq![line@] + lines(text@.skip(next as int)));
        }
        let ghost before = list@;
        list.push(line);
        proof {
            assert(texts(list@) =~= done + seq![line@]);
            assert(done + (seq![line@] + lines(text@.skip(next as int))) =~= texts(list@) + lines(
                text@.skip(next as int),
            ));
        }
        start = next;
    }
    proof {
        assert(lines(text@.skip(start as int)) =~= Seq::empty());
        assert(texts(list@) + lines(text@.skip(start as int)) =~= texts(list@));
    }
    list
}

/// A key and the entries under it.
pub type Kept = (Seq<char>, Seq<Seq<char>>);

/// The entries under `key`, if there are any.
pub open spec fn entries_of(list: Seq<Kept>, key: Seq<char>) -> Option<Seq<Seq<char>>>
    decreases list.len(),
{
    if list.len() == 0 {
        None
    } else if list.last().0 == key {
        Some(list.last().1)
    } else {
        entries_of(list.drop_last(), key)
    }
}

/// `list` with `entries` under `key`, in place of those there were, and in the order of the keys.
pub open spec fn with_entries(list: Seq<Kept>, key: Seq<char>, entries: Seq<Seq<char>>) -> Seq<Kept>
    decreases list.len(),
{
    if list.len() == 0 {
        seq![(key, entries)]
    } else if list.last().0 == key {
        list.drop_last().push((key, entries))
    } else if text::before(list.last().0, key) {
        list.push((key, entries))
    } else {
        with_entries(list.drop_last(), key, entries).push(list.last())
    }
}

/// Whether the keys are in order, each once.
pub open spec fn in_order(list: Seq<Kept>) -> bool {
    forall|i: int, j: int| 0 <= i < j < list.len() ==> text::before(#[trigger] list[i].0, #[trigger] list[j].0)
}

proof fn in_order_shorter(list: Seq<Kept>)
    requires
        in_order(list),
        list.len() > 0,
    ensures
        in_order(list.drop_last()),
{
    let shorter = list.drop_last();
    assert forall|i: int, j: int| 0 <= i < j < shorter.len() implies text::before(
        #[trigger] shorter[i].0,
        #[trigger] shorter[j].0,
    ) by {
        assert(text::before(list[i].0, list[j].0));
    }
}

/// What is put under a key is found there, everything else stays as it was, and the keys stay in order.
pub proof fn entries_are_where_they_were_put(
    list: Seq<Kept>,
    key: Seq<char>,
    entries: Seq<Seq<char>>,
    other: Seq<char>,
)
    requires
        in_order(list),
    ensures
        in_order(with_entries(list, key, entries)),
        entries_of(with_entries(list, key, entries), key) == Some(entries),
        other != key ==> entries_of(with_entries(list, key, entries), other) == entries_of(list, other),
        forall|k: int|
            0 <= k < with_entries(list, key, entries).len() ==> (#[trigger] with_entries(list, key, entries)[k]).0 == key
                || exists|l: int| 0 <= l < list.len() && list[l] == with_entries(list, key, entries)[k],
    decreases list.len(),
{
    let all = with_entries(list, key, entries);
    if list.len() == 0 {
        reveal_with_fuel(entries_of, 2);
        assert(all.drop_last() =~= Seq::empty());
    } else {
        let shorter = list.drop_last();
        in_order_shorter(list);
        if list.last().0 == key {
            assert(all.drop_last() =~= shorter);
            assert forall|i: int, j: int| 0 <= i < j < all.len() implies text::before(
                #[trigger] all[i].0,
                #[trigger] all[j].0,
            ) by {
                assert(text::before(list[i].0, list[j].0));
            }
            assert forall|k: int| 0 <= k < all.len() implies (#[trigger] all[k]).0 == key || exists|l: int|
                0 <= l < list.len() && list[l] == all[k] by {
                if k < shorter.len() {
                    assert(list[k] == all[k]);
                }
            }
        } else if text::before(list.last().0, key) {
            assert(all.drop_last() =~= list);
            assert forall|i: int, j: int| 0 <= i < j < all.len() implies text::before(
                #[trigger] all[i].0,
                #[trigger] all[j].0,
            ) by {
                if j < list.len() {
                    assert(text::before(list[i].0, list[j].0));
                } else if i < list.len() - 1 {
                    assert(text::before(list[i].0, list[list.len() - 1].0));
                    text::before_is_transitive(list[i].0, list.last().0, key);
                }
            }
            assert forall|k: int| 0 <= k < all.len() implies (#[trigger] all[k]).0 == key || exists|l: int|
                0 <= l < list.len() && list[l] == all[k] by {
                if k < list.len() {
                    assert(list[k] == all[k]);
                }
            }
        } else {
            entries_are_where_they_were_put(shorter, key, entries, other);
            let inner = with_entries(shorter, key, entries);
            assert(all.drop_last() =~= inner);
            text::before_is_total(list.last().0, key);
            assert forall|i: int, j: int| 0 <= i < j < all.len() implies text::before(
                #[trigger] all[i].0,
                #[trigger] all[j].0,
            ) by {
                if j < inner.len() {
                    assert(text::before(inner[i].0, inner[j].0));
                } else {
                    assert(inner[i].0 == key || exists|l: int| 0 <= l < shorter.len() && shorter[l] == inner[i]);
                    if inner[i].0 != key {
                        let l = choose|l: int| 0 <= l < shorter.len() && shorter[l] == inner[i];
                        assert(text::before(list[l].0, list[list.len() - 1].0));
                    }
                }
            }
            assert forall|k: int| 0 <= k < all.len() implies (#[trigger] all[k]).0 == key || exists|l: int|
                0 <= l < list.len() && list[l] == all[k] by {
                if k < inner.len() {
                    assert(inner[k].0 == key || exists|l: int| 0 <= l < shorter.len() && shorter[l] == inner[k]);
                    if inner[k].0 != key {
                        let l = choose|l: int| 0 <= l < shorter.len() && shorter[l] == inner[k];
                        assert(list[l] == all[k]);
                    }
                } else {
                    assert(list[list.len() - 1] == all[k]);
                }
            }
        }
    }
}

/// Whether `line` names a key.
pub open spec fn is_key(line: Seq<char>) -> bool {
    KEY_PREFIX@.len() <= line.len() && line.take(KEY_PREFIX@.len() as int) == KEY_PREFIX@
}

/// The sections of the first `count` lines, and the key they end under.
pub open spec fn read_lines(list: Seq<Seq<char>>, count: int) -> (Seq<Kept>, Option<Seq<char>>)
    decreases count,
{
    if count <= 0 {
        (Seq::empty(), None)
    } else {
        let (kept, current) = read_lines(list, count - 1);
        let line = list[count - 1];
        if is_key(line) {
            (
                match entries_of(kept, line) {
                    Some(_) => kept,
                    None => with_entries(kept, line, Seq::empty()),
                },
                Some(line),
            )
        } else {
            match current {
                Some(key) => if is_blank(line) {
                    (kept, current)
                } else {
                    (with_entries(kept, key, entries_of(kept, key)->0.push(line)), current)
                },
                None => (kept, current),
            }
        }
    }
}

/// The sections of `text` by key, and none from a damaged file or from one written under another
/// header.
pub open spec fn sections_in(text: Seq<char>, header: Seq<char>) -> Seq<Kept> {
    let list = lines(text);
    if list.len() == 0 || list[0] != header {
        Seq::empty()
    } else {
        read_lines(list.drop_first(), list.len() - 1).0
    }
}

/// `list` with the sections `saved` in place of its own of the same keys.
pub open spec fn extended(list: Seq<Kept>, saved: Seq<Kept>) -> Seq<Kept>
    decreases saved.len(),
{
    if saved.len() == 0 {
        list
    } else {
        with_entries(extended(list, saved.drop_last()), saved.last().0, saved.last().1)
    }
}

/// `entries`, each on a line of its own.
pub open spec fn entry_lines(entries: Seq<Seq<char>>) -> Seq<char>
    decreases entries.len(),
{
    if entries.len() == 0 {
        Seq::empty()
    } else {
        entry_lines(entries.drop_last()) + entries.last() + seq!['\n']
    }
}

/// The sections as a file keeps them, without its header.
pub open spec fn section_lines(list: Seq<Kept>) -> Seq<char>
    decreases list.len(),
{
    if list.len() == 0 {
        Seq::empty()
    } else {
        section_lines(list.drop_last()) + list.last().0 + seq!['\n'] + entry_lines(list.last().1)
    }
}

/// The text of a file of sections.
pub open spec fn file_text(header: Seq<char>, list: Seq<Kept>) -> Seq<char> {
    header + seq!['\n'] + section_lines(list)
}

/// The entries of one kind of GPU under the key it writes.
pub struct Section {
    pub key: String,
    pub entries: Vec<String>,
}

/// The sections of a file, in the order of their keys.
pub struct Sections {
    list: Vec<Section>,
}

impl View for Section {
    type V = Kept;

    open spec fn view(&self) -> Kept {
        (self.key@, texts(self.entries@))
    }
}

impl View for Sections {
    type V = Seq<Kept>;

    closed spec fn view(&self) -> Seq<Kept> {
        self.list@.map_values(|section: Section| section@)
    }
}

fn starts_a_section(line: &str) -> (answer: bool)
    ensures
        answer == is_key(line@),
{
    let letters = text::chars_of(line);
    let prefix = text::chars_of(KEY_PREFIX);
    if letters.len() < prefix.len() {
        return false;
    }
    let count: usize = prefix.len();
    for place in 0..count
        invariant
            letters@ == line@,
            prefix@ == KEY_PREFIX@,
            count == prefix@.len(),
            count <= letters@.len(),
            forall|i: int| 0 <= i < place ==> letters@[i] == prefix@[i],
    {
        if letters[place] != prefix[place] {
            assert(line@.take(count as int)[place as int] != prefix@[place as int]);
            return false;
        }
    }
    assert(line@.take(count as int) =~= prefix@);
    true
}

fn blank(line: &str) -> (answer: bool)
    ensures
        answer == is_blank(line@),
{
    let letters = text::chars_of(line);
    let count: usize = letters.len();
    for place in 0..count
        invariant
            letters@ == line@,
            count == letters@.len(),
            forall|i: int| 0 <= i < place ==> is_space(#[trigger] letters@[i]),
    {
        if !space(letters[place]) {
            assert(!is_space(line@[place as int]));
            return false;
        }
    }
    true
}

proof fn entries_at(list: Seq<Kept>, index: int)
    requires
        in_order(list),
        0 <= index < list.len(),
    ensures
        entries_of(list, list[index].0) == Some(list[index].1),
    decreases list.len(),
{
    if index < list.len() - 1 {
        in_order_shorter(list);
        assert(text::before(list[index].0, list[list.len() - 1].0));
        text::before_is_total(list[index].0, list.last().0);
        entries_at(list.drop_last(), index);
    }
}

proof fn no_entries(list: Seq<Kept>, key: Seq<char>)
    requires
        forall|i: int| 0 <= i < list.len() ==> (#[trigger] list[i]).0 != key,
    ensures
        entries_of(list, key) is None,
    decreases list.len(),
{
    if list.len() > 0 {
        assert(list[list.len() - 1].0 != key);
        let shorter = list.drop_last();
        assert forall|i: int| 0 <= i < shorter.len() implies (#[trigger] shorter[i]).0 != key by {
            assert(list[i].0 != key);
        }
        no_entries(shorter, key);
    }
}

impl Sections {
    /// The keys are in order, each once.
    pub open spec fn valid(self) -> bool {
        in_order(self@)
    }

    pub fn new() -> (sections: Sections)
        ensures
            sections.valid(),
            sections@ == Seq::<Kept>::empty(),
    {
        let sections = Sections { list: Vec::new() };
        assert(sections@ =~= Seq::empty());
        sections
    }

    pub fn len(&self) -> (count: usize)
        ensures
            count == self@.len(),
    {
        self.list.len()
    }

    pub fn is_empty(&self) -> (empty: bool)
        ensures
            empty == (self@.len() == 0),
    {
        self.list.len() == 0
    }

    fn find(&self, key: &String) -> (found: Option<usize>)
        requires
            self.valid(),
        ensures
            match found {
                Some(index) => index < self@.len() && self@[index as int].0 == key@,
                None => forall|i: int| 0 <= i < self@.len() ==> (#[trigger] self@[i]).0 != key@,
            },
    {
        let count: usize = self.list.len();
        for index in 0..count
            invariant
                count == self.list@.len(),
                forall|i: int| 0 <= i < index ==> (#[trigger] self@[i]).0 != key@,
        {
            assert(self@[index as int].0 == self.list@[index as int].key@);
            if self.list[index].key == *key {
                return Some(index);
            }
        }
        None
    }

    /// The entries under `key`.
    pub fn get(&self, key: &str) -> (entries: Option<&Vec<String>>)
        requires
            self.valid(),
        ensures
            match entries_of(self@, key@) {
                None => entries is None,
                Some(kept) => entries matches Some(entries) && texts(entries@) == kept,
            },
    {
        match self.find(&String::from_str(key)) {
            None => {
                proof {
                    no_entries(self@, key@);
                }
                None
            },
            Some(index) => {
                proof {
                    entries_at(self@, index as int);
                }
                Some(&self.list[index].entries)
            },
        }
    }

    /// The section at `index` of the order.
    pub fn at(&self, index: usize) -> (section: &Section)
        requires
            index < self@.len(),
        ensures
            section@ == self@[index as int],
    {
        &self.list[index]
    }

    /// Puts `entries` under `key`, in place of those there were.
    pub fn put(&mut self, key: String, entries: Vec<String>)
        requires
            old(self).valid(),
        ensures
            final(self).valid(),
            final(self)@ == with_entries(old(self)@, key@, texts(entries@)),
    {
        let ghost before = self@;
        let ghost kept = texts(entries@);
        let mut place: usize = self.list.len();
        proof {
            entries_are_where_they_were_put(before, key@, kept, key@);
            assert(before.take(place as int) =~= before);
            assert(with_entries(before, key@, kept) + before.skip(place as int) =~= with_entries(before, key@, kept));
        }
        while place > 0 && text::comes_before(key.as_str(), self.list[place - 1].key.as_str())
            invariant
                self@ == before,
                in_order(before),
                place <= before.len(),
                with_entries(before, key@, kept) == with_entries(before.take(place as int), key@, kept) + before.skip(
                    place as int,
                ),
            decreases place,
        {
            proof {
                let shorter = before.take(place as int);
                assert(before[place - 1].0 == self.list@[place - 1].key@);
                assert(shorter.drop_last() =~= before.take(place - 1));
                text::before_is_total(shorter.last().0, key@);
                assert(with_entries(shorter, key@, kept) + before.skip(place as int) =~= with_entries(
                    before.take(place - 1),
                    key@,
                    kept,
                ) + before.skip(place - 1));
            }
            place = place - 1;
        }
        proof {
            let shorter = before.take(place as int);
            if place > 0 {
                assert(before[place - 1].0 == self.list@[place - 1].key@);
                text::before_is_total(shorter.last().0, key@);
            }
        }
        if place > 0 && self.list[place - 1].key == key {
            proof {
                let shorter = before.take(place as int);
                assert(with_entries(before, key@, kept) =~= before.update(place - 1, (key@, kept)));
            }
            self.list.set(place - 1, Section { key, entries });
            assert(self@ =~= before.update(place - 1, (key@, kept)));
        } else {
            proof {
                assert(with_entries(before, key@, kept) =~= before.insert(place as int, (key@, kept)));
            }
            self.list.insert(place, Section { key, entries });
            assert(self@ =~= before.insert(place as int, (key@, kept)));
        }
    }
}

proof fn put_in_place(list: Seq<Kept>, index: int, entries: Seq<Seq<char>>)
    requires
        in_order(list),
        0 <= index < list.len(),
    ensures
        with_entries(list, list[index].0, entries) == list.update(index, (list[index].0, entries)),
    decreases list.len(),
{
    let key = list[index].0;
    if index == list.len() - 1 {
        assert(with_entries(list, key, entries) =~= list.update(index, (key, entries)));
    } else {
        in_order_shorter(list);
        assert(text::before(list[index].0, list[list.len() - 1].0));
        text::before_is_total(key, list.last().0);
        put_in_place(list.drop_last(), index, entries);
        assert(list.drop_last()[index] == list[index]);
        assert(with_entries(list, key, entries) =~= list.update(index, (key, entries)));
    }
}

impl Sections {
    /// Adds `entry` to the section of `key`.
    fn append(&mut self, key: &String, entry: String)
        requires
            old(self).valid(),
            entries_of(old(self)@, key@) is Some,
        ensures
            final(self).valid(),
            final(self)@ == with_entries(old(self)@, key@, entries_of(old(self)@, key@)->0.push(entry@)),
    {
        let ghost before = self@;
        match self.find(key) {
            None => {
                proof {
                    no_entries(before, key@);
                }
            },
            Some(index) => {
                proof {
                    entries_at(before, index as int);
                    put_in_place(before, index as int, before[index as int].1.push(entry@));
                    entries_are_where_they_were_put(before, key@, before[index as int].1.push(entry@), key@);
                }
                self.list[index].entries.push(entry);
                proof {
                    let after = self.list@[index as int];
                    assert(texts(after.entries@) =~= before[index as int].1.push(entry@));
                    assert(self@ =~= before.update(index as int, (key@, before[index as int].1.push(entry@))));
                }
            },
        }
    }
}

proof fn read_lines_are_sound(list: Seq<Seq<char>>, count: int)
    requires
        0 <= count <= list.len(),
    ensures
        in_order(read_lines(list, count).0),
        read_lines(list, count).1 matches Some(key) ==> entries_of(read_lines(list, count).0, key) is Some,
    decreases count,
{
    if count > 0 {
        read_lines_are_sound(list, count - 1);
        let (kept, current) = read_lines(list, count - 1);
        let line = list[count - 1];
        entries_are_where_they_were_put(kept, line, Seq::empty(), line);
        if let Some(key) = current {
            entries_are_where_they_were_put(kept, key, entries_of(kept, key)->0.push(line), key);
        }
    }
}

/// The sections of `text` by key, and none from a damaged file or from one written under another
/// header.
pub fn sections(text: &str, header: &str) -> (found: Sections)
    ensures
        found.valid(),
        found@ == sections_in(text@, header@),
{
    let list = split_lines(text);
    let mut found = Sections::new();
    let ghost all = lines(text@);
    assert(list@.len() == all.len());
    if list.len() == 0 {
        return found;
    }
    assert(all[0] == list@[0]@);
    if list[0] != String::from_str(header) {
        return found;
    }
    let ghost rest = all.drop_first();
    let mut current: Option<usize> = None;
    let count: usize = list.len();
    for place in 1..count
        invariant
            count == list@.len(),
            texts(list@) == all,
            rest == all.drop_first(),
            found.valid(),
            found@ == read_lines(rest, place - 1).0,
            match current {
                None => read_lines(rest, place - 1).1 is None,
                Some(at) => at < count && read_lines(rest, place - 1).1 == Some(list@[at as int]@),
            },
    {
        let line = &list[place];
        proof {
            assert(rest[place - 1] == all[place as int]);
            assert(all[place as int] == list@[place as int]@);
            read_lines_are_sound(rest, place - 1);
        }
        if starts_a_section(line.as_str()) {
            if found.get(line.as_str()).is_none() {
                let none: Vec<String> = Vec::new();
                assert(texts(none@) =~= Seq::empty());
                found.put(line.clone(), none);
            }
            current = Some(place);
        } else if let Some(at) = current {
            if !blank(line.as_str()) {
                found.append(&list[at], line.clone());
            }
        }
    }
    assert(count - 1 == all.len() - 1);
    found
}

fn push_section(written: &mut String, section: &Section)
    ensures
        final(written)@ == old(written)@ + section@.0 + seq!['\n'] + entry_lines(section@.1),
{
    proof {
        reveal_strlit("\n");
        assert("\n"@ =~= seq!['\n']);
    }
    written.append(section.key.as_str());
    written.append("\n");
    let ghost head = written@;
    let ghost entries = section@.1;
    let count: usize = section.entries.len();
    assert(entries.take(0) =~= Seq::empty());
    assert(head + entry_lines(entries.take(0)) =~= head);
    for place in 0..count
        invariant
            count == section.entries@.len(),
            entries == texts(section.entries@),
            "\n"@ =~= seq!['\n'],
            written@ == head + entry_lines(entries.take(place as int)),
    {
        written.append(section.entries[place].as_str());
        written.append("\n");
        proof {
            let more = entries.take(place + 1);
            assert(more.drop_last() =~= entries.take(place as int));
            assert(more.last() == section.entries@[place as int]@);
            assert(written@ =~= head + entry_lines(more));
        }
    }
    assert(entries.take(count as int) =~= entries);
}

/// The text of `text`'s file with the sections of `saved` in place of its own of the same keys, and
/// every other one kept, so that a GPU this process does not have loses nothing by its saving.
pub fn merged(text: &str, header: &str, saved: Sections) -> (written: String)
    requires
        saved.valid(),
    ensures
        written@ == file_text(header@, extended(sections_in(text@, header@), saved@)),
{
    let mut all = sections(text, header);
    let ghost first = all@;
    let ghost list = saved@;
    assert(list.take(0) =~= Seq::empty());
    for section in kept: saved.list
        invariant
            all.valid(),
            kept.seq() == saved.list@,
            list == saved@,
            all@ == extended(first, list.take(kept.index() as int)),
    {
        let ghost place = kept.index() as int;
        proof {
            let more = list.take(place + 1);
            assert(more.drop_last() =~= list.take(place));
            assert(more.last() == section@);
        }
        all.put(section.key, section.entries);
    }
    assert(list.take(list.len() as int) =~= list);
    proof {
        reveal_strlit("\n");
        assert("\n"@ =~= seq!['\n']);
    }
    let mut written = String::from_str(header);
    written.append("\n");
    let ghost head = written@;
    let ghost whole = all@;
    let count: usize = all.list.len();
    assert(whole.take(0) =~= Seq::empty());
    assert(head + section_lines(whole.take(0)) =~= head);
    for place in 0..count
        invariant
            count == all.list@.len(),
            whole == all@,
            written@ == head + section_lines(whole.take(place as int)),
    {
        push_section(&mut written, &all.list[place]);
        proof {
            let more = whole.take(place + 1);
            assert(more.drop_last() =~= whole.take(place as int));
            assert(more.last() == all.list@[place as int]@);
            assert(written@ =~= head + section_lines(more));
        }
    }
    assert(whole.take(count as int) =~= whole);
    written
}

/// The text to write into a file that holds `existing`, or is not there, so that it holds `saved`
/// beside the sections of other keys, or nothing where it already does.
pub fn updated(existing: Option<&str>, header: &str, saved: Sections) -> (written: Option<String>)
    requires
        saved.valid(),
    ensures
        ({
            let before = match existing {
                Some(text) => text@,
                None => Seq::<char>::empty(),
            };
            let after = file_text(header@, extended(sections_in(before, header@), saved@));
            if existing is Some && before == after {
                written is None
            } else {
                written matches Some(written) && written@ == after
            }
        }),
{
    proof {
        reveal_strlit("");
    }
    let before = match existing {
        Some(text) => text,
        None => "",
    };
    assert(existing is None ==> before@ =~= Seq::empty());
    let after = merged(before, header, saved);
    if existing.is_some() && String::from_str(before) == after {
        None
    } else {
        Some(after)
    }
}

/// Whether a line comes back as it was written: it holds no new line, and no carriage return at its
/// end.
pub open spec fn is_plain(line: Seq<char>) -> bool {
    &&& forall|i: int| 0 <= i < line.len() ==> line[i] != '\n'
    &&& line.len() > 0 ==> line.last() != '\r'
}

/// Whether `line` can be an entry of a section.
pub open spec fn is_entry(line: Seq<char>) -> bool {
    is_plain(line) && !is_blank(line) && !is_key(line)
}

/// Whether a section's key reads as a key and its entries as entries.
pub open spec fn is_section(section: Kept) -> bool {
    &&& is_plain(section.0)
    &&& is_key(section.0)
    &&& forall|k: int| 0 <= k < section.1.len() ==> is_entry(#[trigger] section.1[k])
}

/// Whether the sections can be kept in a file.
pub open spec fn can_be_kept(list: Seq<Kept>) -> bool {
    in_order(list) && forall|i: int| 0 <= i < list.len() ==> is_section(#[trigger] list[i])
}

proof fn lines_of_a_line(line: Seq<char>, rest: Seq<char>)
    requires
        is_plain(line),
    ensures
        lines(line + seq!['\n'] + rest) == seq![line] + lines(rest),
{
    let text = line + seq!['\n'] + rest;
    assert(text[line.len() as int] == '\n');
    assert forall|i: int| 0 <= i < line.len() implies text[i] != '\n' by {
        assert(text[i] == line[i]);
    }
    line_length_is(text, line.len() as int);
    assert(text.take(line.len() as int) =~= line);
    assert(text.skip(line.len() as int + 1) =~= rest);
}

proof fn lines_of_entries(entries: Seq<Seq<char>>, rest: Seq<char>)
    requires
        forall|k: int| 0 <= k < entries.len() ==> is_entry(#[trigger] entries[k]),
    ensures
        lines(entry_lines(entries) + rest) == entries + lines(rest),
    decreases entries.len(),
{
    if entries.len() == 0 {
        assert(entry_lines(entries) + rest =~= rest);
        assert(entries + lines(rest) =~= lines(rest));
    } else {
        let shorter = entries.drop_last();
        let last = entries.last();
        assert(is_entry(entries[entries.len() - 1]));
        assert forall|k: int| 0 <= k < shorter.len() implies is_entry(#[trigger] shorter[k]) by {
            assert(is_entry(entries[k]));
        }
        let more = last + seq!['\n'] + rest;
        lines_of_entries(shorter, more);
        lines_of_a_line(last, rest);
        assert(entry_lines(entries) + rest =~= entry_lines(shorter) + more);
        assert(shorter + (seq![last] + lines(rest)) =~= entries + lines(rest));
    }
}

/// The lines of the sections: each key and its entries.
pub open spec fn listed(list: Seq<Kept>) -> Seq<Seq<char>>
    decreases list.len(),
{
    if list.len() == 0 {
        Seq::empty()
    } else {
        listed(list.drop_last()) + (seq![list.last().0] + list.last().1)
    }
}

proof fn lines_of_sections(list: Seq<Kept>, rest: Seq<char>)
    requires
        can_be_kept(list),
    ensures
        lines(section_lines(list) + rest) == listed(list) + lines(rest),
    decreases list.len(),
{
    if list.len() == 0 {
        assert(section_lines(list) + rest =~= rest);
        assert(listed(list) + lines(rest) =~= lines(rest));
    } else {
        let shorter = list.drop_last();
        let (key, entries) = list.last();
        assert(is_section(list[list.len() - 1]));
        kept_shorter(list);
        let more = key + seq!['\n'] + (entry_lines(entries) + rest);
        lines_of_sections(shorter, more);
        lines_of_a_line(key, entry_lines(entries) + rest);
        lines_of_entries(entries, rest);
        assert(section_lines(list) + rest =~= section_lines(shorter) + more);
        assert(listed(shorter) + (seq![key] + (entries + lines(rest))) =~= listed(list) + lines(rest));
    }
}

proof fn kept_shorter(list: Seq<Kept>)
    requires
        can_be_kept(list),
        list.len() > 0,
    ensures
        can_be_kept(list.drop_last()),
{
    in_order_shorter(list);
    let shorter = list.drop_last();
    assert forall|i: int| 0 <= i < shorter.len() implies is_section(#[trigger] shorter[i]) by {
        assert(is_section(list[i]));
    }
}

proof fn read_lines_of_a_prefix(list: Seq<Seq<char>>, more: Seq<Seq<char>>, count: int)
    requires
        0 <= count <= list.len(),
    ensures
        read_lines(list + more, count) == read_lines(list, count),
    decreases count,
{
    if count > 0 {
        read_lines_of_a_prefix(list, more, count - 1);
        assert((list + more)[count - 1] == list[count - 1]);
    }
}

proof fn read_entries(kept: Seq<Kept>, key: Seq<char>, head: Seq<Seq<char>>, entries: Seq<Seq<char>>, count: int)
    requires
        0 <= count <= entries.len(),
        forall|k: int| 0 <= k < entries.len() ==> is_entry(#[trigger] entries[k]),
        read_lines(head, head.len() as int) == (kept.push((key, Seq::<Seq<char>>::empty())), Some(key)),
    ensures
        read_lines(head + entries, head.len() + count) == (kept.push((key, entries.take(count))), Some(key)),
    decreases count,
{
    if count == 0 {
        read_lines_of_a_prefix(head, entries, head.len() as int);
        assert(entries.take(0) =~= Seq::empty());
    } else {
        read_entries(kept, key, head, entries, count - 1);
        let line = entries[count - 1];
        assert(is_entry(entries[count - 1]));
        assert((head + entries)[head.len() + count - 1] == line);
        let before = kept.push((key, entries.take(count - 1)));
        assert(entries.take(count - 1).push(line) =~= entries.take(count));
        assert(before.drop_last() =~= kept);
        assert(before.last() == (key, entries.take(count - 1)));
        assert(entries_of(before, key) == Some(entries.take(count - 1)));
        assert(with_entries(before, key, entries.take(count)) == kept.push((key, entries.take(count))));
    }
}

proof fn sections_read_back(list: Seq<Kept>)
    requires
        can_be_kept(list),
    ensures
        read_lines(listed(list), listed(list).len() as int).0 == list,
    decreases list.len(),
{
    if list.len() == 0 {
        assert(read_lines(listed(list), 0).0 =~= list);
    } else {
        let shorter = list.drop_last();
        let (key, entries) = list.last();
        assert(is_section(list[list.len() - 1]));
        kept_shorter(list);
        sections_read_back(shorter);
        let before = listed(shorter);
        let head = before.push(key);
        read_lines_of_a_prefix(before, seq![key], before.len() as int);
        assert(before + seq![key] =~= head);
        assert(head[head.len() - 1] == key);
        assert forall|i: int| 0 <= i < shorter.len() implies (#[trigger] shorter[i]).0 != key by {
            assert(text::before(list[i].0, list[list.len() - 1].0));
            text::before_is_total(list[i].0, key);
        }
        no_entries(shorter, key);
        if shorter.len() > 0 {
            assert(text::before(list[list.len() - 2].0, list[list.len() - 1].0));
            assert(shorter.last() == list[list.len() - 2]);
            text::before_is_total(shorter.last().0, key);
        }
        assert(with_entries(shorter, key, Seq::empty()) =~= shorter.push((key, Seq::<Seq<char>>::empty())));
        assert(read_lines(head, head.len() as int) == (shorter.push((key, Seq::<Seq<char>>::empty())), Some(key)));
        read_entries(shorter, key, head, entries, entries.len() as int);
        assert(head + entries =~= listed(list));
        assert(entries.take(entries.len() as int) =~= entries);
        assert(shorter.push((key, entries)) =~= list);
    }
}

/// A file of sections is read back as the sections it was written with.
pub proof fn a_file_reads_back(header: Seq<char>, list: Seq<Kept>)
    requires
        is_plain(header),
        can_be_kept(list),
    ensures
        sections_in(file_text(header, list), header) == list,
{
    let text = file_text(header, list);
    lines_of_a_line(header, section_lines(list));
    lines_of_sections(list, Seq::empty());
    assert(section_lines(list) + Seq::<char>::empty() =~= section_lines(list));
    assert(listed(list) + lines(Seq::empty()) =~= listed(list));
    assert(lines(text) == seq![header] + listed(list));
    assert(lines(text).drop_first() =~= listed(list));
    sections_read_back(list);
}

proof fn extended_finds(list: Seq<Kept>, saved: Seq<Kept>, key: Seq<char>)
    requires
        in_order(list),
        in_order(saved),
    ensures
        in_order(extended(list, saved)),
        entries_of(extended(list, saved), key) == (match entries_of(saved, key) {
            Some(entries) => Some(entries),
            None => entries_of(list, key),
        }),
    decreases saved.len(),
{
    if saved.len() > 0 {
        in_order_shorter(saved);
        extended_finds(list, saved.drop_last(), key);
        entries_are_where_they_were_put(
            extended(list, saved.drop_last()),
            saved.last().0,
            saved.last().1,
            key,
        );
    }
}

proof fn extended_can_be_kept(list: Seq<Kept>, saved: Seq<Kept>)
    requires
        can_be_kept(list),
        can_be_kept(saved),
    ensures
        can_be_kept(extended(list, saved)),
    decreases saved.len(),
{
    if saved.len() > 0 {
        kept_shorter(saved);
        extended_can_be_kept(list, saved.drop_last());
        let before = extended(list, saved.drop_last());
        let (key, entries) = saved.last();
        assert(is_section(saved[saved.len() - 1]));
        put_can_be_kept(before, key, entries);
    }
}

proof fn put_can_be_kept(list: Seq<Kept>, key: Seq<char>, entries: Seq<Seq<char>>)
    requires
        can_be_kept(list),
        is_section((key, entries)),
    ensures
        can_be_kept(with_entries(list, key, entries)),
{
    let all = with_entries(list, key, entries);
    entries_are_where_they_were_put(list, key, entries, key);
    assert forall|k: int| 0 <= k < all.len() implies is_section(#[trigger] all[k]) by {
        if all[k].0 == key {
            entries_at(all, k);
            assert(all[k] == (key, entries));
        } else {
            let l = choose|l: int| 0 <= l < list.len() && list[l] == all[k];
            assert(is_section(list[l]));
        }
    }
}

proof fn sections_are_in_order(text: Seq<char>, header: Seq<char>)
    ensures
        in_order(sections_in(text, header)),
{
    let list = lines(text);
    if list.len() > 0 {
        read_lines_are_sound(list.drop_first(), list.len() - 1);
    }
}

proof fn lines_are_plain(text: Seq<char>)
    requires
        forall|i: int| 0 <= i < text.len() ==> text[i] != '\r',
    ensures
        forall|k: int| 0 <= k < lines(text).len() ==> is_plain(#[trigger] lines(text)[k]),
    decreases text.len(),
{
    let length = line_length(text) as int;
    line_length_fits(text);
    if text.len() > 0 && length < text.len() {
        let (first, rest) = (text.take(length), text.skip(length + 1));
        assert forall|i: int| 0 <= i < rest.len() implies rest[i] != '\r' by {
            assert(rest[i] == text[i + length + 1]);
        }
        lines_are_plain(rest);
        assert(first.len() > 0 ==> first.last() == text[length - 1]);
        assert forall|k: int| 0 <= k < lines(text).len() implies is_plain(#[trigger] lines(text)[k]) by {
            if k > 0 {
                assert(lines(text)[k] == lines(rest)[k - 1]);
            }
        }
    }
}

proof fn plain_lines_can_be_kept(list: Seq<Seq<char>>, count: int)
    requires
        0 <= count <= list.len(),
        forall|k: int| 0 <= k < list.len() ==> is_plain(#[trigger] list[k]),
    ensures
        can_be_kept(read_lines(list, count).0),
    decreases count,
{
    if count > 0 {
        plain_lines_can_be_kept(list, count - 1);
        read_lines_are_sound(list, count - 1);
        let (kept, current) = read_lines(list, count - 1);
        let line = list[count - 1];
        assert(is_plain(list[count - 1]));
        if is_key(line) {
            put_can_be_kept(kept, line, Seq::empty());
        } else if let Some(key) = current {
            if !is_blank(line) {
                let place = index_of_key(kept, key);
                let entries = entries_of(kept, key)->0;
                entries_at(kept, place);
                assert(is_section(kept[place]));
                put_can_be_kept(kept, key, entries.push(line));
            }
        }
    }
}

/// The sections of a text without carriage returns can be kept, and can be saved to.
pub proof fn a_text_without_returns_can_be_kept(text: Seq<char>, header: Seq<char>, saved: Seq<Kept>)
    requires
        forall|i: int| 0 <= i < text.len() ==> text[i] != '\r',
        can_be_kept(saved),
    ensures
        can_be_kept(sections_in(text, header)),
        can_be_kept(extended(sections_in(text, header), saved)),
{
    let list = lines(text);
    lines_are_plain(text);
    if list.len() > 0 && list[0] == header {
        let rest = list.drop_first();
        assert forall|k: int| 0 <= k < rest.len() implies is_plain(#[trigger] rest[k]) by {
            assert(is_plain(list[k + 1]));
        }
        plain_lines_can_be_kept(rest, rest.len() as int);
    }
    extended_can_be_kept(sections_in(text, header), saved);
}

/// A save keeps the sections of other GPUs: what is read from a file that was saved to are the sections
/// that were saved, and of every other key what the file held before.
pub proof fn a_save_keeps_other_sections(text: Seq<char>, header: Seq<char>, saved: Seq<Kept>, key: Seq<char>)
    requires
        is_plain(header),
        in_order(saved),
        can_be_kept(extended(sections_in(text, header), saved)),
    ensures
        ({
            let before = sections_in(text, header);
            let after = sections_in(file_text(header, extended(before, saved)), header);
            &&& after == extended(before, saved)
            &&& entries_of(after, key) == (match entries_of(saved, key) {
                Some(entries) => Some(entries),
                None => entries_of(before, key),
            })
        }),
{
    let before = sections_in(text, header);
    sections_are_in_order(text, header);
    a_file_reads_back(header, extended(before, saved));
    extended_finds(before, saved, key);
}

proof fn put_again(list: Seq<Kept>, key: Seq<char>, entries: Seq<Seq<char>>)
    requires
        in_order(list),
        entries_of(list, key) == Some(entries),
    ensures
        with_entries(list, key, entries) == list,
    decreases list.len(),
{
    if list.last().0 == key {
        assert(list.drop_last().push((key, entries)) =~= list);
    } else {
        in_order_shorter(list);
        put_again(list.drop_last(), key, entries);
        let place = index_of_key(list.drop_last(), key);
        assert(text::before(list[place].0, list[list.len() - 1].0));
        text::before_is_total(key, list.last().0);
        assert(list.drop_last().push(list.last()) =~= list);
    }
}

proof fn index_of_key(list: Seq<Kept>, key: Seq<char>) -> (place: int)
    requires
        entries_of(list, key) is Some,
    ensures
        0 <= place < list.len(),
        list[place].0 == key,
    decreases list.len(),
{
    if list.last().0 == key {
        list.len() - 1
    } else {
        index_of_key(list.drop_last(), key)
    }
}

proof fn extended_again(list: Seq<Kept>, saved: Seq<Kept>)
    requires
        in_order(list),
        forall|i: int| 0 <= i < saved.len() ==> entries_of(list, (#[trigger] saved[i]).0) == Some(saved[i].1),
    ensures
        extended(list, saved) == list,
    decreases saved.len(),
{
    if saved.len() > 0 {
        let shorter = saved.drop_last();
        assert forall|i: int| 0 <= i < shorter.len() implies entries_of(list, (#[trigger] shorter[i]).0) == Some(
            shorter[i].1,
        ) by {
            assert(entries_of(list, saved[i].0) == Some(saved[i].1));
        }
        extended_again(list, shorter);
        assert(entries_of(list, saved[saved.len() - 1].0) == Some(saved[saved.len() - 1].1));
        put_again(list, saved.last().0, saved.last().1);
    }
}

/// Saving again what a file already holds leaves its text as it is, so nothing is written.
pub proof fn a_save_is_written_once(text: Seq<char>, header: Seq<char>, saved: Seq<Kept>)
    requires
        is_plain(header),
        in_order(saved),
        can_be_kept(extended(sections_in(text, header), saved)),
    ensures
        ({
            let once = file_text(header, extended(sections_in(text, header), saved));
            file_text(header, extended(sections_in(once, header), saved)) == once
        }),
{
    let before = sections_in(text, header);
    let all = extended(before, saved);
    sections_are_in_order(text, header);
    a_save_keeps_other_sections(text, header, saved, Seq::empty());
    extended_finds(before, saved, Seq::empty());
    assert forall|i: int| 0 <= i < saved.len() implies entries_of(all, (#[trigger] saved[i]).0) == Some(
        saved[i].1,
    ) by {
        entries_at(saved, i);
        extended_finds(before, saved, saved[i].0);
    }
    extended_again(all, saved);
}

/// The algorithm chosen for a plain GEMM. The fields before the words are the key of the choice,
/// and the words are the algorithm as cuBLASLt hands it over.
pub struct Algorithm {
    pub kind: i64,
    pub bias: i64,
    pub m: i64,
    pub n: i64,
    pub k: i64,
    pub data: [u64; 8],
}

impl Algorithm {
    /// The numbers that name the shape.
    pub open spec fn named(self) -> Seq<i64> {
        seq![self.kind, self.bias, self.m, self.n, self.k]
    }

    /// The line of the choice.
    pub fn line(&self) -> (text: String)
        ensures
            text@ == entry_text(self.named(), self.data@).push('\n'),
    {
        let named: Vec<i64> = vec![self.kind, self.bias, self.m, self.n, self.k];
        assert(named@ =~= self.named());
        line(&named, &self.data)
    }

    /// What an entry says, unless it is damaged.
    pub fn parse(entry: &str) -> (algorithm: Option<Algorithm>)
        ensures
            match parsed(entry@, 5) {
                None => algorithm is None,
                Some((named, data)) => algorithm matches Some(algorithm) && algorithm.named() == named
                    && algorithm.data@ == data,
            },
    {
        match parse(entry, 5) {
            None => None,
            Some(choice) => {
                let algorithm = Algorithm {
                    kind: choice.named[0],
                    bias: choice.named[1],
                    m: choice.named[2],
                    n: choice.named[3],
                    k: choice.named[4],
                    data: choice.data,
                };
                assert(algorithm.named() =~= choice.named@);
                Some(algorithm)
            },
        }
    }
}

/// The algorithm chosen for an NVFP4 GEMM of `m × k` activations and `n` outputs.
pub struct Nvfp4Algorithm {
    pub m: i64,
    pub n: i64,
    pub k: i64,
    pub data: [u64; 8],
}

impl Nvfp4Algorithm {
    /// The numbers that name the shape.
    pub open spec fn named(self) -> Seq<i64> {
        seq![self.m, self.n, self.k]
    }

    /// The line of the choice.
    pub fn line(&self) -> (text: String)
        ensures
            text@ == entry_text(self.named(), self.data@).push('\n'),
    {
        let named: Vec<i64> = vec![self.m, self.n, self.k];
        assert(named@ =~= self.named());
        line(&named, &self.data)
    }

    /// What an entry says, unless it is damaged.
    pub fn parse(entry: &str) -> (algorithm: Option<Nvfp4Algorithm>)
        ensures
            match parsed(entry@, 3) {
                None => algorithm is None,
                Some((named, data)) => algorithm matches Some(algorithm) && algorithm.named() == named
                    && algorithm.data@ == data,
            },
    {
        match parse(entry, 3) {
            None => None,
            Some(choice) => {
                let algorithm = Nvfp4Algorithm {
                    m: choice.named[0],
                    n: choice.named[1],
                    k: choice.named[2],
                    data: choice.data,
                };
                assert(algorithm.named() =~= choice.named@);
                Some(algorithm)
            },
        }
    }
}

/// How many devices this process may have chosen algorithms on, of the `count` there are.
pub fn devices(count: Option<usize>) -> (devices: usize)
    ensures
        devices == (match count {
            Some(count) => crate::arithmetic::min(count as int, crate::device::MAX_DEVICES as int),
            None => 0,
        }),
{
    match count {
        Some(count) => crate::arithmetic::least(count, crate::device::MAX_DEVICES),
        None => 0,
    }
}

/// Sections being taken over by the devices whose keys they name.
pub struct Loading {
    pub taken: usize,
    pub counted: Vec<String>,
}

/// Whether `entries` all say a choice of `fields` numbers.
pub open spec fn all_parse(entries: Seq<Seq<char>>, fields: int) -> bool {
    forall|k: int| 0 <= k < entries.len() ==> parsed(#[trigger] entries[k], fields) is Some
}

impl Loading {
    pub fn new() -> (loading: Loading)
        ensures
            loading.taken == 0,
            loading.counted@ == Seq::<String>::empty(),
    {
        Loading { taken: 0, counted: Vec::new() }
    }

    /// What a device of the key `key` takes over, the choices of its section, unless there is none or
    /// an entry of it is damaged. A section two devices share is counted once.
    pub fn take(&mut self, sections: &Sections, key: &str, fields: usize) -> (choices: Option<Vec<Choice>>)
        requires
            sections.valid(),
            fields + 8 <= usize::MAX,
            entries_of(sections@, key@) matches Some(entries) ==> old(self).taken + entries.len() <= usize::MAX,
        ensures
            match entries_of(sections@, key@) {
                None => choices is None && *final(self) == *old(self),
                Some(entries) => if all_parse(entries, fields as int) {
                    &&& choices matches Some(choices)
                    &&& choices@.len() == entries.len()
                    &&& forall|k: int|
                        0 <= k < entries.len() ==> parsed(#[trigger] entries[k], fields as int) == Some(
                            (choices@[k].named@, choices@[k].data@),
                        )
                    &&& if texts(old(self).counted@).contains(key@) {
                        *final(self) == *old(self)
                    } else {
                        &&& final(self).taken == old(self).taken + entries.len()
                        &&& texts(final(self).counted@) == texts(old(self).counted@).push(key@)
                    }
                } else {
                    choices is None && *final(self) == *old(self)
                },
            },
    {
        let entries = match sections.get(key) {
            None => {
                return None;
            },
            Some(entries) => entries,
        };
        let ghost kept = texts(entries@);
        let mut choices: Vec<Choice> = Vec::new();
        let count: usize = entries.len();
        for place in 0..count
            invariant
                count == entries@.len(),
                kept == texts(entries@),
                fields + 8 <= usize::MAX,
                entries_of(sections@, key@) == Some(kept),
                *self == *old(self),
                choices@.len() == place,
                forall|k: int|
                    0 <= k < place ==> parsed(#[trigger] kept[k], fields as int) == Some(
                        (choices@[k].named@, choices@[k].data@),
                    ),
        {
            assert(kept[place as int] == entries@[place as int]@);
            match parse(entries[place].as_str(), fields) {
                None => {
                    assert(parsed(kept[place as int], fields as int) is None);
                    return None;
                },
                Some(choice) => {
                    choices.push(choice);
                },
            }
        }
        let name = String::from_str(key);
        let known: usize = self.counted.len();
        for place in 0..known
            invariant
                known == self.counted@.len(),
                count == entries@.len(),
                kept == texts(entries@),
                kept.len() == count,
                entries_of(sections@, key@) == Some(kept),
                *self == *old(self),
                name@ == key@,
                choices@.len() == count,
                all_parse(kept, fields as int),
                forall|k: int|
                    0 <= k < count ==> parsed(#[trigger] kept[k], fields as int) == Some(
                        (choices@[k].named@, choices@[k].data@),
                    ),
                forall|k: int| 0 <= k < place ==> (#[trigger] self.counted@[k])@ != key@,
        {
            if self.counted[place] == name {
                assert(texts(self.counted@)[place as int] == key@);
                return Some(choices);
            }
        }
        assert forall|k: int| 0 <= k < known implies #[trigger] texts(self.counted@)[k] != key@ by {
            assert(self.counted@[k]@ != key@);
        }
        self.taken = self.taken + count;
        self.counted.push(name);
        assert(texts(self.counted@) =~= texts(old(self).counted@).push(key@));
        Some(choices)
    }
}

/// `entries` with the first `count` of `chosen` behind them, of those whose shape has none yet.
pub open spec fn with_choices(entries: Seq<Seq<char>>, chosen: Seq<Seq<char>>, count: int) -> Seq<Seq<char>>
    decreases count,
{
    if count <= 0 {
        entries
    } else {
        let before = with_choices(entries, chosen, count - 1);
        let entry = trimmed_end(chosen[count - 1]);
        if exists|k: int| 0 <= k < before.len() && shape(#[trigger] before[k], 8) == shape(entry, 8) {
            before
        } else {
            before.push(entry)
        }
    }
}

/// `sorted` with `entry` behind everything that does not come after it.
pub open spec fn sorted_in(sorted: Seq<Seq<char>>, entry: Seq<char>) -> Seq<Seq<char>>
    decreases sorted.len(),
{
    if sorted.len() == 0 || !text::before(entry, sorted.last()) {
        sorted.push(entry)
    } else {
        sorted_in(sorted.drop_last(), entry).push(sorted.last())
    }
}

/// The entries in the order of their texts.
pub open spec fn sorted(entries: Seq<Seq<char>>) -> Seq<Seq<char>>
    decreases entries.len(),
{
    if entries.len() == 0 {
        entries
    } else {
        sorted_in(sorted(entries.drop_last()), entries.last())
    }
}

/// Whether no entry comes before one that it stands behind.
pub open spec fn is_sorted(entries: Seq<Seq<char>>) -> bool {
    forall|i: int, j: int| 0 <= i < j < entries.len() ==> !text::before(#[trigger] entries[j], #[trigger] entries[i])
}

proof fn sorted_in_sorts(list: Seq<Seq<char>>, entry: Seq<char>)
    requires
        is_sorted(list),
    ensures
        is_sorted(sorted_in(list, entry)),
        sorted_in(list, entry).to_multiset() =~= list.to_multiset().insert(entry),
        sorted_in(list, entry).len() == list.len() + 1,
        forall|k: int|
            0 <= k < sorted_in(list, entry).len() ==> (#[trigger] sorted_in(list, entry)[k]) == entry || list.contains(
                sorted_in(list, entry)[k],
            ),
    decreases list.len(),
{
    broadcast use vstd::seq_lib::group_to_multiset_ensures;

    let all = sorted_in(list, entry);
    if list.len() == 0 || !text::before(entry, list.last()) {
        assert forall|i: int, j: int| 0 <= i < j < all.len() implies !text::before(
            #[trigger] all[j],
            #[trigger] all[i],
        ) by {
            if j < list.len() {
                assert(!text::before(list[j], list[i]));
            } else if i < list.len() - 1 {
                assert(!text::before(list[list.len() - 1], list[i]));
                if text::before(entry, list[i]) {
                    text::before_is_total(list[i], list.last());
                    if list[i] != list.last() {
                        text::before_is_transitive(entry, list[i], list.last());
                    }
                }
            }
        }
        assert forall|k: int| 0 <= k < all.len() implies (#[trigger] all[k]) == entry || list.contains(all[k]) by {
            if k < list.len() {
                assert(list[k] == all[k]);
            }
        }
    } else {
        let shorter = list.drop_last();
        assert forall|i: int, j: int| 0 <= i < j < shorter.len() implies !text::before(
            #[trigger] shorter[j],
            #[trigger] shorter[i],
        ) by {
            assert(!text::before(list[j], list[i]));
        }
        sorted_in_sorts(shorter, entry);
        let inner = sorted_in(shorter, entry);
        assert(list =~= shorter.push(list.last()));
        text::before_is_total(entry, list.last());
        assert forall|i: int, j: int| 0 <= i < j < all.len() implies !text::before(
            #[trigger] all[j],
            #[trigger] all[i],
        ) by {
            if j < inner.len() {
                assert(!text::before(inner[j], inner[i]));
            } else {
                assert(inner[i] == entry || shorter.contains(inner[i]));
                if inner[i] != entry {
                    let l = choose|l: int| 0 <= l < shorter.len() && shorter[l] == inner[i];
                    assert(!text::before(list[list.len() - 1], list[l]));
                }
            }
        }
        assert forall|k: int| 0 <= k < all.len() implies (#[trigger] all[k]) == entry || list.contains(all[k]) by {
            if k < inner.len() {
                assert(inner[k] == entry || shorter.contains(inner[k]));
                if inner[k] != entry {
                    let l = choose|l: int| 0 <= l < shorter.len() && shorter[l] == inner[k];
                    assert(list[l] == all[k]);
                }
            } else {
                assert(list[list.len() - 1] == all[k]);
            }
        }
    }
}

/// Sorting keeps every entry as often as it was there, in the order of their texts.
pub proof fn sorting_keeps_the_entries(entries: Seq<Seq<char>>)
    ensures
        is_sorted(sorted(entries)),
        sorted(entries).to_multiset() =~= entries.to_multiset(),
        sorted(entries).len() == entries.len(),
    decreases entries.len(),
{
    broadcast use vstd::seq_lib::group_to_multiset_ensures;

    if entries.len() > 0 {
        sorting_keeps_the_entries(entries.drop_last());
        sorted_in_sorts(sorted(entries.drop_last()), entries.last());
        assert(entries =~= entries.drop_last().push(entries.last()));
    }
}

/// Entries that are the same but for their order are the same once they are sorted.
pub proof fn sorting_forgets_the_order(one: Seq<Seq<char>>, other: Seq<Seq<char>>)
    requires
        one.to_multiset() == other.to_multiset(),
    ensures
        sorted(one) == sorted(other),
{
    let leads = |left: Seq<char>, right: Seq<char>| !text::before(right, left);
    sorting_keeps_the_entries(one);
    sorting_keeps_the_entries(other);
    assert(vstd::relations::total_ordering(leads)) by {
        assert forall|x: Seq<char>| #[trigger] leads(x, x) by {
            text::before_is_total(x, x);
        }
        assert forall|x: Seq<char>, y: Seq<char>| #[trigger] leads(x, y) && #[trigger] leads(y, x) implies x == y by {
            text::before_is_total(x, y);
        }
        assert forall|x: Seq<char>, y: Seq<char>, z: Seq<char>| #[trigger] leads(x, y) && #[trigger] leads(
            y,
            z,
        ) implies leads(x, z) by {
            text::before_is_total(x, y);
            text::before_is_total(y, z);
            if text::before(z, x) && x != y {
                text::before_is_transitive(z, x, y);
            }
        }
        assert forall|x: Seq<char>, y: Seq<char>| #[trigger] leads(x, y) || #[trigger] leads(y, x) by {
            text::before_is_total(x, y);
        }
    }
    vstd::seq_lib::lemma_sorted_unique(sorted(one), sorted(other), leads);
}

/// Whether no two of the lines name the same shape.
pub open spec fn names_apart(chosen: Seq<Seq<char>>) -> bool {
    forall|i: int, j: int|
        0 <= i < j < chosen.len() ==> shape(trimmed_end(#[trigger] chosen[i]), 8) != shape(
            trimmed_end(#[trigger] chosen[j]),
            8,
        )
}

/// Whether an entry is of the shape of one of `entries`.
pub open spec fn is_known(entries: Seq<Seq<char>>, entry: Seq<char>) -> bool {
    exists|k: int| 0 <= k < entries.len() && shape(#[trigger] entries[k], 8) == shape(entry, 8)
}

/// The first `count` of `chosen` whose shapes are not among those of `entries`.
spec fn unknown(entries: Seq<Seq<char>>, chosen: Seq<Seq<char>>, count: int) -> Seq<Seq<char>>
    decreases count,
{
    if count <= 0 {
        Seq::empty()
    } else {
        let before = unknown(entries, chosen, count - 1);
        let entry = trimmed_end(chosen[count - 1]);
        if is_known(entries, entry) {
            before
        } else {
            before.push(entry)
        }
    }
}

proof fn unknown_is_chosen(entries: Seq<Seq<char>>, chosen: Seq<Seq<char>>, count: int, k: int)
    requires
        0 <= count <= chosen.len(),
        0 <= k < unknown(entries, chosen, count).len(),
    ensures
        exists|i: int| 0 <= i < count && unknown(entries, chosen, count)[k] == trimmed_end(#[trigger] chosen[i]),
    decreases count,
{
    if count > 0 {
        let before = unknown(entries, chosen, count - 1);
        if k < before.len() {
            unknown_is_chosen(entries, chosen, count - 1, k);
            let i = choose|i: int| 0 <= i < count - 1 && before[k] == trimmed_end(#[trigger] chosen[i]);
            assert(unknown(entries, chosen, count)[k] == trimmed_end(chosen[i]));
        } else {
            assert(unknown(entries, chosen, count)[k] == trimmed_end(chosen[count - 1]));
        }
    }
}

proof fn choices_are_unknown(entries: Seq<Seq<char>>, chosen: Seq<Seq<char>>, count: int)
    requires
        names_apart(chosen),
        0 <= count <= chosen.len(),
    ensures
        with_choices(entries, chosen, count) == entries + unknown(entries, chosen, count),
    decreases count,
{
    if count <= 0 {
        assert(entries + unknown(entries, chosen, count) =~= entries);
    } else {
        choices_are_unknown(entries, chosen, count - 1);
        let fresh = unknown(entries, chosen, count - 1);
        let before = with_choices(entries, chosen, count - 1);
        let entry = trimmed_end(chosen[count - 1]);
        assert(is_known(before, entry) == is_known(entries, entry)) by {
            if is_known(entries, entry) {
                let k = choose|k: int| 0 <= k < entries.len() && shape(#[trigger] entries[k], 8) == shape(entry, 8);
                assert(before[k] == entries[k]);
            }
            if is_known(before, entry) {
                let k = choose|k: int| 0 <= k < before.len() && shape(#[trigger] before[k], 8) == shape(entry, 8);
                if k < entries.len() {
                    assert(before[k] == entries[k]);
                } else {
                    unknown_is_chosen(entries, chosen, count - 1, k - entries.len());
                    let i = choose|i: int|
                        0 <= i < count - 1 && fresh[k - entries.len()] == trimmed_end(#[trigger] chosen[i]);
                    assert(shape(trimmed_end(chosen[i]), 8) != shape(trimmed_end(chosen[count - 1]), 8));
                }
            }
        }
        assert((entries + fresh).push(entry) =~= entries + fresh.push(entry));
    }
}

proof fn others_stay_unknown(
    entries: Seq<Seq<char>>,
    one: Seq<Seq<char>>,
    other: Seq<Seq<char>>,
    known: int,
    count: int,
)
    requires
        names_apart(one + other),
        0 <= known <= one.len(),
        0 <= count <= other.len(),
    ensures
        unknown(entries + unknown(entries, one, known), other, count) == unknown(entries, other, count),
    decreases count,
{
    if count > 0 {
        others_stay_unknown(entries, one, other, known, count - 1);
        let fresh = unknown(entries, one, known);
        let all = entries + fresh;
        let entry = trimmed_end(other[count - 1]);
        if is_known(entries, entry) {
            let k = choose|k: int| 0 <= k < entries.len() && shape(#[trigger] entries[k], 8) == shape(entry, 8);
            assert(all[k] == entries[k]);
        }
        if is_known(all, entry) {
            let k = choose|k: int| 0 <= k < all.len() && shape(#[trigger] all[k], 8) == shape(entry, 8);
            if k < entries.len() {
                assert(all[k] == entries[k]);
            } else {
                unknown_is_chosen(entries, one, known, k - entries.len());
                let i = choose|i: int| 0 <= i < known && fresh[k - entries.len()] == trimmed_end(#[trigger] one[i]);
                assert((one + other)[i] == one[i]);
                assert((one + other)[one.len() + count - 1] == other[count - 1]);
            }
        }
    }
}

proof fn choices_of_two(entries: Seq<Seq<char>>, one: Seq<Seq<char>>, other: Seq<Seq<char>>)
    requires
        names_apart(one + other),
    ensures
        with_choices(with_choices(entries, one, one.len() as int), other, other.len() as int) == entries + unknown(
            entries,
            one,
            one.len() as int,
        ) + unknown(entries, other, other.len() as int),
{
    let both = one + other;
    assert(names_apart(one)) by {
        assert forall|i: int, j: int| 0 <= i < j < one.len() implies shape(trimmed_end(#[trigger] one[i]), 8) != shape(
            trimmed_end(#[trigger] one[j]),
            8,
        ) by {
            assert(both[i] == one[i] && both[j] == one[j]);
        }
    }
    assert(names_apart(other)) by {
        assert forall|i: int, j: int| 0 <= i < j < other.len() implies shape(trimmed_end(#[trigger] other[i]), 8)
            != shape(trimmed_end(#[trigger] other[j]), 8) by {
            assert(both[one.len() + i] == other[i] && both[one.len() + j] == other[j]);
        }
    }
    choices_are_unknown(entries, one, one.len() as int);
    let first = with_choices(entries, one, one.len() as int);
    choices_are_unknown(first, other, other.len() as int);
    others_stay_unknown(entries, one, other, one.len() as int, other.len() as int);
}

/// The sections behind `gathered` once a device of the key `key` handed over what it chose.
pub open spec fn gathered_with(gathered: Seq<Kept>, key: Seq<char>, chosen: Seq<Seq<char>>) -> Seq<Kept> {
    if chosen.len() == 0 {
        gathered
    } else {
        with_entries(
            gathered,
            key,
            with_choices(
                match entries_of(gathered, key) {
                    Some(entries) => entries,
                    None => Seq::empty(),
                },
                chosen,
                chosen.len() as int,
            ),
        )
    }
}

proof fn put_over(list: Seq<Kept>, key: Seq<char>, entries: Seq<Seq<char>>, later: Seq<Seq<char>>)
    requires
        in_order(list),
    ensures
        with_entries(with_entries(list, key, entries), key, later) == with_entries(list, key, later),
        with_sorted_entries(with_entries(list, key, entries)) == with_entries(
            with_sorted_entries(list),
            key,
            sorted(entries),
        ),
    decreases list.len(),
{
    let sections = with_sorted_entries(list);
    if list.len() > 0 {
        assert(sections.drop_last() =~= with_sorted_entries(list.drop_last()));
        assert(sections.last() == (list.last().0, sorted(list.last().1)));
    }
    let once = with_entries(list, key, entries);
    if list.len() == 0 {
        assert(once.drop_last() =~= list);
        assert(with_entries(once, key, later) =~= with_entries(list, key, later));
        assert(with_sorted_entries(once) =~= seq![(key, sorted(entries))]);
    } else if list.last().0 == key {
        assert(once.drop_last() =~= list.drop_last());
        assert(with_sorted_entries(once) =~= sections.drop_last().push((key, sorted(entries))));
    } else if text::before(list.last().0, key) {
        assert(once.drop_last() =~= list);
        assert(with_sorted_entries(once) =~= sections.push((key, sorted(entries))));
    } else {
        in_order_shorter(list);
        put_over(list.drop_last(), key, entries, later);
        text::before_is_total(list.last().0, key);
        let shorter = with_entries(list.drop_last(), key, entries);
        assert(once =~= shorter.push(list.last()));
        assert(once.drop_last() =~= shorter);
        assert(with_sorted_entries(once) =~= with_sorted_entries(shorter).push(sections.last()));
    }
}

/// Two devices of one key whose choices name no shape twice between them may come in either order: what is
/// saved is the same whichever device met a shape first.
pub proof fn devices_may_come_in_either_order(
    gathered: Seq<Kept>,
    key: Seq<char>,
    one: Seq<Seq<char>>,
    other: Seq<Seq<char>>,
)
    requires
        in_order(gathered),
        names_apart(one + other),
    ensures
        with_sorted_entries(gathered_with(gathered_with(gathered, key, one), key, other)) == with_sorted_entries(
            gathered_with(gathered_with(gathered, key, other), key, one),
        ),
{
    broadcast use vstd::seq_lib::group_to_multiset_ensures;

    if one.len() > 0 && other.len() > 0 {
        let entries = match entries_of(gathered, key) {
            Some(entries) => entries,
            None => Seq::empty(),
        };
        let (first, second) = (
            with_choices(entries, one, one.len() as int),
            with_choices(entries, other, other.len() as int),
        );
        entries_are_where_they_were_put(gathered, key, first, key);
        entries_are_where_they_were_put(gathered, key, second, key);
        let last = with_choices(first, other, other.len() as int);
        let also = with_choices(second, one, one.len() as int);
        assert(names_apart(other + one)) by {
            let both = other + one;
            assert forall|i: int, j: int| 0 <= i < j < both.len() implies shape(trimmed_end(#[trigger] both[i]), 8)
                != shape(trimmed_end(#[trigger] both[j]), 8) by {
                let all = one + other;
                let (n, m) = (one.len() as int, other.len() as int);
                let a = if i < m { n + i } else { i - m };
                let b = if j < m { n + j } else { j - m };
                assert(all[a] == both[i] && all[b] == both[j]);
                assert(a != b);
            }
        }
        choices_of_two(entries, one, other);
        choices_of_two(entries, other, one);
        let (ones, others) = (
            unknown(entries, one, one.len() as int),
            unknown(entries, other, other.len() as int),
        );
        vstd::seq_lib::lemma_multiset_commutative(entries + ones, others);
        vstd::seq_lib::lemma_multiset_commutative(entries + others, ones);
        vstd::seq_lib::lemma_multiset_commutative(entries, ones);
        vstd::seq_lib::lemma_multiset_commutative(entries, others);
        assert(last.to_multiset() =~= also.to_multiset());
        sorting_forgets_the_order(last, also);
        put_over(gathered, key, first, last);
        put_over(gathered, key, second, also);
        put_over(gathered, key, last, last);
        put_over(gathered, key, also, also);
    }
}

fn sort(entries: Vec<String>) -> (list: Vec<String>)
    ensures
        texts(list@) == sorted(texts(entries@)),
{
    let ghost all = texts(entries@);
    let mut list: Vec<String> = Vec::new();
    assert(texts(list@) =~= sorted(all.take(0))) by {
        assert(all.take(0) =~= Seq::empty());
    }
    for entry in items: entries
        invariant
            items.seq() == entries@,
            all == texts(entries@),
            texts(list@) == sorted(all.take(items.index() as int)),
    {
        let ghost done = items.index() as int;
        let ghost before = texts(list@);
        let mut place: usize = list.len();
        proof {
            assert(all.take(done + 1).drop_last() =~= all.take(done));
            assert(all.take(done + 1).last() == entry@);
            assert(before.take(place as int) =~= before);
            assert(sorted_in(before, entry@) + before.skip(place as int) =~= sorted_in(before, entry@));
        }
        while place > 0 && text::comes_before(entry.as_str(), list[place - 1].as_str())
            invariant
                texts(list@) == before,
                place <= before.len(),
                sorted_in(before, entry@) == sorted_in(before.take(place as int), entry@) + before.skip(place as int),
            decreases place,
        {
            proof {
                let shorter = before.take(place as int);
                assert(before[place - 1] == list@[place - 1]@);
                assert(shorter.drop_last() =~= before.take(place - 1));
                assert(sorted_in(shorter, entry@) + before.skip(place as int) =~= sorted_in(
                    before.take(place - 1),
                    entry@,
                ) + before.skip(place - 1));
            }
            place = place - 1;
        }
        proof {
            let shorter = before.take(place as int);
            if place > 0 {
                assert(before[place - 1] == list@[place - 1]@);
            }
            assert(sorted_in(before, entry@) =~= before.insert(place as int, entry@));
        }
        list.insert(place, entry);
        assert(texts(list@) =~= before.insert(place as int, entry@));
    }
    assert(all.take(all.len() as int) =~= all);
    list
}

/// The choices of every device on their way into a file.
pub struct Saving {
    saved: Sections,
}

/// The sections of `list` with their entries in order.
pub open spec fn with_sorted_entries(list: Seq<Kept>) -> Seq<Kept> {
    list.map_values(|section: Kept| (section.0, sorted(section.1)))
}

impl Saving {
    pub closed spec fn valid(self) -> bool {
        self.saved.valid()
    }

    pub closed spec fn gathered(self) -> Seq<Kept> {
        self.saved@
    }

    pub fn new() -> (saving: Saving)
        ensures
            saving.valid(),
            saving.gathered() == Seq::<Kept>::empty(),
    {
        Saving { saved: Sections::new() }
    }

    /// Takes the lines of what a device of the key `key` chose, if it chose any. The devices of one key
    /// share a section, since what one of them timed is as good for the other: two of them may both
    /// have chosen for a shape, and the first choice is the one kept.
    pub fn device(&mut self, key: String, chosen: &Vec<String>)
        requires
            old(self).valid(),
        ensures
            final(self).valid(),
            final(self).gathered() == gathered_with(old(self).gathered(), key@, texts(chosen@)),
    {
        if chosen.len() == 0 {
            return;
        }
        let mut entries: Vec<String> = match self.saved.get(key.as_str()) {
            Some(kept) => {
                let copy = kept.clone();
                assert(texts(copy@) =~= texts(kept@));
                copy
            },
            None => Vec::new(),
        };
        let ghost first = texts(entries@);
        let ghost lines = texts(chosen@);
        proof {
            if entries_of(old(self).gathered(), key@) is None {
                assert(first =~= Seq::empty());
            }
        }
        let count: usize = chosen.len();
        for place in 0..count
            invariant
                count == chosen@.len(),
                lines == texts(chosen@),
                texts(entries@) == with_choices(first, lines, place as int),
        {
            let entry = trim_end(&chosen[place]);
            let ghost before = texts(entries@);
            assert(lines[place as int] == chosen@[place as int]@);
            let known: usize = entries.len();
            let mut found = false;
            for other in 0..known
                invariant
                    known == entries@.len(),
                    before == texts(entries@),
                    found == (exists|k: int| 0 <= k < other && shape(#[trigger] before[k], 8) == shape(entry@, 8)),
            {
                assert(before[other as int] == entries@[other as int]@);
                if same_shape(entries[other].as_str(), entry.as_str()) {
                    found = true;
                }
            }
            if !found {
                entries.push(entry);
                assert(texts(entries@) =~= before.push(entry@));
            }
        }
        self.saved.put(key, entries);
    }

    /// The sections to save, or nothing where no device chose anything. The entries are in the order
    /// of the shapes rather than of the devices that chose them.
    pub fn finish(self) -> (saved: Option<Sections>)
        requires
            self.valid(),
        ensures
            self.gathered().len() == 0 ==> saved is None,
            self.gathered().len() > 0 ==> {
                &&& saved matches Some(sections)
                &&& sections.valid()
                &&& sections@ == with_sorted_entries(self.gathered())
            },
    {
        if self.saved.is_empty() {
            return None;
        }
        let ghost gathered = self.saved@;
        let mut list: Vec<Section> = Vec::new();
        for section in items: self.saved.list
            invariant
                items.seq() == self.saved.list@,
                gathered == self.saved@,
                list@.len() == items.index(),
                forall|k: int| 0 <= k < list@.len() ==> (#[trigger] list@[k])@ == (gathered[k].0, sorted(gathered[k].1)),
        {
            let ghost done = items.index() as int;
            assert(gathered[done] == section@);
            let entries = sort(section.entries);
            list.push(Section { key: section.key, entries });
        }
        let sections = Sections { list };
        proof {
            assert(sections@ =~= with_sorted_entries(gathered));
            assert forall|i: int, j: int| 0 <= i < j < sections@.len() implies text::before(
                #[trigger] sections@[i].0,
                #[trigger] sections@[j].0,
            ) by {
                assert(text::before(gathered[i].0, gathered[j].0));
            }
        }
        Some(sections)
    }
}

proof fn decimal_starts_with_a_digit(value: int)
    ensures
        text::signed_decimal(value).len() > 0,
        text::signed_decimal(value)[0] == '-' || '0' <= text::signed_decimal(value)[0] && text::signed_decimal(value)[0]
            <= '9',
        forall|i: int|
            0 <= i < text::signed_decimal(value).len() ==> (#[trigger] text::signed_decimal(value)[i]) != '\n',
{
    if value < 0 {
        decimal_is_digits((-value) as nat);
        assert forall|i: int|
            0 <= i < text::signed_decimal(value).len() implies (#[trigger] text::signed_decimal(value)[i]) != '\n' by {
            if i > 0 {
                assert(text::signed_decimal(value)[i] == text::decimal((-value) as nat)[i - 1]);
            }
        }
    } else {
        decimal_is_digits(value as nat);
    }
}

proof fn spaced_is_one_line(tokens: Seq<Seq<char>>)
    requires
        forall|k: int| 0 <= k < tokens.len() ==> is_word(#[trigger] tokens[k]),
    ensures
        forall|i: int| 0 <= i < spaced(tokens).len() ==> (#[trigger] spaced(tokens)[i]) != '\n',
        tokens.len() > 0 ==> !is_space(spaced(tokens).last()),
    decreases tokens.len(),
{
    if tokens.len() > 0 {
        let shorter = tokens.drop_last();
        let word = tokens.last();
        assert(is_word(tokens[tokens.len() - 1]));
        assert forall|k: int| 0 <= k < shorter.len() implies is_word(#[trigger] shorter[k]) by {
            assert(is_word(tokens[k]));
        }
        spaced_is_one_line(shorter);
        let all = spaced(tokens);
        let cut = spaced(shorter).len() as int;
        assert forall|i: int| 0 <= i < all.len() implies (#[trigger] all[i]) != '\n' by {
            if i < cut {
                assert(all[i] == spaced(shorter)[i]);
            } else if i > cut {
                assert(all[i] == word[i - cut - 1]);
                assert(!is_space(word[i - cut - 1]));
            }
        }
        assert(all.last() == word[word.len() - 1]);
    }
}

/// What was chosen for a shape can be kept in a file: the entry is one line that reads neither as a key
/// nor as nothing, and loses only the end of its line when it is trimmed.
pub proof fn a_choice_can_be_kept(named: Seq<i64>, data: Seq<u64>)
    requires
        data.len() == 8,
    ensures
        is_entry(entry_text(named, data)),
        trimmed_end(entry_text(named, data).push('\n')) == entry_text(named, data),
{
    let numbers = named_tokens(named);
    let entry = entry_text(named, data);
    a_line_ends_once(named, data);
    assert(!is_blank(entry)) by {
        assert(!is_space(entry[entry.len() - 1]));
    }
    if named.len() > 0 {
        spaced_from_the_front(numbers);
        decimal_starts_with_a_digit(named[0] as int);
        assert(numbers[0] == text::signed_decimal(named[0] as int));
        assert(entry[0] == numbers[0][0]);
    } else {
        spaced_starts_with_a_blank(data_tokens(data));
        assert(entry[0] == ' ');
    }
    reveal_strlit("cuBLASLt ");
    assert(!is_key(entry)) by {
        if is_key(entry) {
            assert(entry.take(KEY_PREFIX@.len() as int)[0] == KEY_PREFIX@[0]);
        }
    }
}

} // verus!
