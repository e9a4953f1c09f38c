//! What a checkpoint file says of its tensors.
use crate::model;
use crate::model::{DType, Error};
use crate::text;
use vstd::prelude::*;

verus! {

/// What a file says of one of its tensors.
pub struct TensorInfo {
    pub name: String,
    pub dtype: DType,
    pub shape: Vec<usize>,
}

/// The place of the first tensor of a name.
pub open spec fn place_of(file: Seq<TensorInfo>, name: Seq<char>) -> Option<int>
    decreases file.len(),
{
    if file.len() == 0 {
        None
    } else {
        match place_of(file.drop_last(), name) {
            Some(place) => Some(place),
            None => if file.last().name@ == name {
                Some(file.len() - 1)
            } else {
                None
            },
        }
    }
}

proof fn first_place(file: Seq<TensorInfo>, name: Seq<char>, place: int)
    requires
        0 <= place < file.len(),
        file[place].name@ == name,
        forall|i: int| 0 <= i < place ==> (#[trigger] file[i]).name@ != name,
    ensures
        place_of(file, name) == Some(place),
    decreases file.len(),
{
    if place < file.len() - 1 {
        first_place(file.drop_last(), name, place);
    } else {
        no_place(file.drop_last(), name);
    }
}

proof fn no_place(file: Seq<TensorInfo>, name: Seq<char>)
    requires
        forall|i: int| 0 <= i < file.len() ==> (#[trigger] file[i]).name@ != name,
    ensures
        place_of(file, name) is None,
    decreases file.len(),
{
    if file.len() > 0 {
        no_place(file.drop_last(), name);
    }
}

/// The place of the first tensor of a name.
pub fn find(file: &Vec<TensorInfo>, name: &String) -> (place: Option<usize>)
    ensures
        match place {
            Some(place) => place_of(file@, name@) == Some(place as int) && place < file@.len(),
            None => place_of(file@, name@) is None,
        },
{
    let count: usize = file.len();
    for index in 0..count
        invariant
            count == file@.len(),
            forall|i: int| 0 <= i < index ==> (#[trigger] file@[i]).name@ != name@,
    {
        if file[index].name == *name {
            proof {
                first_place(file@, name@, index as int);
            }
            return Some(index);
        }
    }
    proof {
        no_place(file@, name@);
    }
    None
}

/// What is found is of the name.
pub proof fn found_is_named(file: Seq<TensorInfo>, name: Seq<char>)
    ensures
        place_of(file, name) matches Some(place) ==> 0 <= place < file.len() && file[place].name@ == name,
    decreases file.len(),
{
    if file.len() > 0 {
        found_is_named(file.drop_last(), name);
    }
}

/// The name of the `layer`th thing of a numbered row of them.
pub open spec fn numbered(start: Seq<char>, layer: nat, end: Seq<char>) -> Seq<char> {
    start + text::decimal(layer) + end
}

pub fn numbered_name(start: &str, layer: usize, end: &str) -> (name: String)
    ensures
        name@ == numbered(start@, layer as nat, end@),
{
    let mut name = String::from_str(start);
    text::push_size(&mut name, layer);
    name.append(end);
    name
}

/// Whether a file holds the things numbered from zero up to `count`, and not the next.
pub open spec fn holds_numbered(file: Seq<TensorInfo>, start: Seq<char>, end: Seq<char>, count: nat) -> bool {
    &&& forall|layer: nat| layer < count ==> (#[trigger] place_of(file, numbered(start, layer, end))) is Some
    &&& place_of(file, numbered(start, count, end)) is None
}

/// Things of different numbers have different names.
pub proof fn numbers_tell_apart(start: Seq<char>, end: Seq<char>, one: nat, other: nat)
    requires
        numbered(start, one, end) == numbered(start, other, end),
    ensures
        one == other,
{
    let (a, b) = (text::decimal(one), text::decimal(other));
    let whole = numbered(start, one, end);
    assert(whole.len() == start.len() + a.len() + end.len());
    assert(whole.len() == start.len() + b.len() + end.len());
    assert(whole.subrange(start.len() as int, (start.len() + a.len()) as int) =~= a);
    assert(whole.subrange(start.len() as int, (start.len() + b.len()) as int) =~= b);
    text::decimals_tell_apart(one, other);
}

/// A file does not hold more numbered things than tensors.
proof fn numbers_run_out(file: Seq<TensorInfo>, start: Seq<char>, end: Seq<char>, count: nat)
    requires
        forall|layer: nat| layer < count ==> (#[trigger] place_of(file, numbered(start, layer, end))) is Some,
    ensures
        count <= file.len(),
{
    let place = |layer: int| place_of(file, numbered(start, layer as nat, end))->0;
    let layers = vstd::set_lib::set_int_range(0, count as int);
    let places = layers.map(place);
    let all = vstd::set_lib::set_int_range(0, file.len() as int);
    vstd::set_lib::lemma_int_range(0, count as int);
    vstd::set_lib::lemma_int_range(0, file.len() as int);
    assert forall|one: int, other: int|
        layers.contains(one) && layers.contains(other) && #[trigger] place(one) == #[trigger] place(other) implies one
        == other by {
        let (a, b) = (numbered(start, one as nat, end), numbered(start, other as nat, end));
        assert(place_of(file, numbered(start, one as nat, end)) is Some);
        assert(place_of(file, numbered(start, other as nat, end)) is Some);
        found_is_named(file, a);
        found_is_named(file, b);
        numbers_tell_apart(start, end, one as nat, other as nat);
    }
    vstd::set_lib::lemma_map_size(layers, places, place);
    assert forall|at: int| places.contains(at) implies all.contains(at) by {
        let layer = choose|layer: int| layers.contains(layer) && at == place(layer);
        assert(place_of(file, numbered(start, layer as nat, end)) is Some);
        found_is_named(file, numbered(start, layer as nat, end));
    }
    vstd::set_lib::lemma_len_subset(places, all);
}

/// How many things of a row a file holds, numbered from zero on.
pub open spec fn count_of(file: Seq<TensorInfo>, start: Seq<char>, end: Seq<char>) -> nat {
    choose|count: nat| holds_numbered(file, start, end, count)
}

/// A row of things has one count.
pub proof fn a_row_has_one_count(file: Seq<TensorInfo>, start: Seq<char>, end: Seq<char>, count: nat)
    requires
        holds_numbered(file, start, end, count),
    ensures
        count_of(file, start, end) == count,
{
    let other = count_of(file, start, end);
    assert(holds_numbered(file, start, end, other));
    if other < count {
        assert(place_of(file, numbered(start, other, end)) is Some);
    } else if count < other {
        assert(place_of(file, numbered(start, count, end)) is Some);
    }
}

/// How many things of a row a file holds, numbered from zero on.
pub fn count_numbered(file: &Vec<TensorInfo>, start: &str, end: &str) -> (count: usize)
    ensures
        holds_numbered(file@, start@, end@, count as nat),
        count == count_of(file@, start@, end@),
{
    let total: usize = file.len();
    for layer in 0..total
        invariant
            total == file@.len(),
            forall|before: nat|
                before < layer ==> (#[trigger] place_of(file@, numbered(start@, before, end@))) is Some,
    {
        let name = numbered_name(start, layer, end);
        if find(file, &name).is_none() {
            proof {
                a_row_has_one_count(file@, start@, end@, layer as nat);
            }
            return layer;
        }
    }
    proof {
        if place_of(file@, numbered(start@, total as nat, end@)) is Some {
            numbers_run_out(file@, start@, end@, (total + 1) as nat);
        }
        a_row_has_one_count(file@, start@, end@, total as nat);
    }
    total
}

/// The place of a tensor, or that it is missing.
pub fn need(file: &Vec<TensorInfo>, name: String) -> (place: Result<usize, Error>)
    ensures
        match place_of(file@, name@) {
            Some(found) => place matches Ok(place) && place == found && place < file@.len(),
            None => place matches Err(error) && error.says(model::missing_tensor(name@)),
        },
{
    match find(file, &name) {
        Some(place) => Ok(place),
        None => {
            let mut message = String::from_str("missing tensor ");
            message.append(name.as_str());
            Err(Error::Model(message))
        },
    }
}

/// The elements of a tensor of this shape.
pub open spec fn elements(shape: Seq<usize>) -> int
    decreases shape.len(),
{
    if shape.len() == 0 {
        1
    } else {
        elements(shape.drop_last()) * shape.last()
    }
}

proof fn elements_are_counted(shape: Seq<usize>, count: int)
    requires
        0 <= count <= shape.len(),
    ensures
        0 <= elements(shape),
        0 <= elements(shape.take(count)),
        elements(shape) > 0 ==> elements(shape.take(count)) <= elements(shape),
    decreases shape.len(),
{
    if count == shape.len() {
        assert(shape.take(count) =~= shape);
        if count > 0 {
            elements_are_counted(shape.drop_last(), count - 1);
            assert(elements(shape.drop_last()) * shape.last() >= 0) by (nonlinear_arith)
                requires
                    elements(shape.drop_last()) >= 0,
                    shape.last() >= 0,
            ;
        }
    } else {
        elements_are_counted(shape.drop_last(), count);
        assert(shape.drop_last().take(count) =~= shape.take(count));
        let (before, last) = (elements(shape.drop_last()), shape.last() as int);
        assert(before * last >= 0) by (nonlinear_arith)
            requires
                before >= 0,
                last >= 0,
        ;
        if elements(shape) > 0 {
            assert(before > 0 && before <= before * last) by (nonlinear_arith)
                requires
                    before >= 0,
                    last >= 0,
                    before * last > 0,
            ;
        }
    }
}

/// A side of zero leaves no element.
proof fn no_elements(shape: Seq<usize>, count: int)
    requires
        0 <= count <= shape.len(),
        elements(shape.take(count)) == 0,
    ensures
        elements(shape) == 0,
    decreases shape.len(),
{
    if count < shape.len() {
        assert(shape.drop_last().take(count) =~= shape.take(count));
        no_elements(shape.drop_last(), count);
    } else {
        assert(shape.take(count) =~= shape);
    }
}

/// Whether a tensor of this shape has this many elements.
pub fn has_elements(shape: &Vec<usize>, wanted: usize) -> (has: bool)
    ensures
        has == (elements(shape@) == wanted),
{
    let mut total: usize = 1;
    let count: usize = shape.len();
    for index in 0..count
        invariant
            count == shape@.len(),
            total == elements(shape@.take(index as int)),
    {
        proof {
            let now = shape@.take(index + 1);
            assert(now.drop_last() =~= shape@.take(index as int));
            assert(now.last() == shape@[index as int]);
            elements_are_counted(shape@, index + 1);
        }
        if total == 0 {
            proof {
                no_elements(shape@, index as int);
            }
            return wanted == 0;
        }
        match total.checked_mul(shape[index]) {
            Some(next) => {
                total = next;
            },
            None => {
                // Only a side of zero further on could bring it back.
                return wanted == 0 && has_zero(shape);
            },
        }
    }
    assert(shape@.take(count as int) =~= shape@);
    total == wanted
}

/// Whether a side is zero, so that there is no element.
fn has_zero(shape: &Vec<usize>) -> (zero: bool)
    ensures
        zero == (elements(shape@) == 0),
{
    let count: usize = shape.len();
    for index in 0..count
        invariant
            count == shape@.len(),
            elements(shape@.take(index as int)) > 0,
    {
        proof {
            let now = shape@.take(index + 1);
            assert(now.drop_last() =~= shape@.take(index as int));
            assert(now.last() == shape@[index as int]);
            let (before, last) = (elements(shape@.take(index as int)), shape@[index as int] as int);
            assert(last > 0 ==> before * last > 0) by (nonlinear_arith)
                requires
                    before > 0,
            ;
            assert(last == 0 ==> before * last == 0) by (nonlinear_arith);
            assert(elements(now) == before * last);
        }
        if shape[index] == 0 {
            proof {
                no_elements(shape@, index + 1);
            }
            return true;
        }
    }
    assert(shape@.take(count as int) =~= shape@);
    false
}

/// The elements of a tensor of this shape.
pub fn count_elements(shape: &Vec<usize>) -> (total: usize)
    requires
        elements(shape@) <= usize::MAX,
    ensures
        total == elements(shape@),
{
    if has_zero(shape) {
        return 0;
    }
    let mut total: usize = 1;
    let count: usize = shape.len();
    proof {
        elements_are_counted(shape@, 0);
    }
    for index in 0..count
        invariant
            count == shape@.len(),
            0 < elements(shape@) <= usize::MAX,
            total == elements(shape@.take(index as int)),
    {
        proof {
            let now = shape@.take(index + 1);
            assert(now.drop_last() =~= shape@.take(index as int));
            assert(now.last() == shape@[index as int]);
            elements_are_counted(shape@, index + 1);
        }
        total = total * shape[index];
    }
    assert(shape@.take(count as int) =~= shape@);
    total
}

/// Whether a part is what is expected, or was refused in these words.
pub open spec fn gave<T>(part: Result<T, Error>, expected: Result<T, Seq<char>>) -> bool {
    match expected {
        Ok(expected) => part matches Ok(part) && part == expected,
        Err(words) => part matches Err(error) && error.says(words),
    }
}

/// Whether a row of parts is what is expected, or was refused in these words.
pub open spec fn gave_all<T>(parts: Result<Vec<T>, Error>, expected: Result<Seq<T>, Seq<char>>) -> bool {
    match expected {
        Ok(expected) => parts matches Ok(parts) && parts@ == expected,
        Err(words) => parts matches Err(error) && error.says(words),
    }
}

/// The first `count` parts of a row, or why the first of them that is refused is.
pub open spec fn all_of<T>(one: spec_fn(int) -> Result<T, Seq<char>>, count: int) -> Result<Seq<T>, Seq<char>>
    decreases count,
{
    if count <= 0 {
        Ok(Seq::empty())
    } else {
        match all_of(one, count - 1) {
            Err(words) => Err(words),
            Ok(before) => match one(count - 1) {
                Err(words) => Err(words),
                Ok(last) => Ok(before.push(last)),
            },
        }
    }
}

/// What is refused stays so however many parts follow.
pub proof fn a_refusal_stays<T>(one: spec_fn(int) -> Result<T, Seq<char>>, count: int, all: int)
    requires
        0 <= count <= all,
        all_of(one, count) is Err,
    ensures
        all_of(one, all) == all_of(one, count),
    decreases all,
{
    if count < all {
        a_refusal_stays(one, count, all - 1);
    }
}

/// The parts of a row are those of their numbers.
pub proof fn parts_are_numbered<T>(one: spec_fn(int) -> Result<T, Seq<char>>, count: int, place: int)
    requires
        all_of(one, count) is Ok,
        0 <= place < count,
    ensures
        all_of(one, count)->Ok_0.len() == count,
        one(place) == Ok::<T, Seq<char>>(all_of(one, count)->Ok_0[place]),
    decreases count,
{
    a_row_is_long(one, count);
    a_row_is_long(one, count - 1);
    if place < count - 1 {
        parts_are_numbered(one, count - 1, place);
    }
}

/// A row has as many parts as were asked for.
pub proof fn a_row_is_long<T>(one: spec_fn(int) -> Result<T, Seq<char>>, count: int)
    requires
        all_of(one, count) is Ok,
        count >= 0,
    ensures
        all_of(one, count)->Ok_0.len() == count,
    decreases count,
{
    if count > 0 {
        a_row_is_long(one, count - 1);
    }
}

/// A name and what comes behind it.
pub fn joined(name: &str, rest: &str) -> (whole: String)
    ensures
        whole@ == name@ + rest@,
{
    let mut whole = String::from_str(name);
    whole.append(rest);
    whole
}

/// Where a tensor of two names is, or that it is missing.
pub fn need_part(file: &Vec<TensorInfo>, name: &str, rest: &str) -> (place: Result<usize, Error>)
    ensures
        match place_of(file@, name@ + rest@) {
            Some(found) => place matches Ok(place) && place == found && place < file@.len(),
            None => place matches Err(error) && error.says(model::missing_tensor(name@ + rest@)),
        },
{
    need(file, joined(name, rest))
}

} // verus!
