//! The parts of a shared-out velocity: which order they come in makes no difference, and together they are whole if and
//! only if they hold every row once.
use crate::forward;
use crate::forward::{Projection, VelocityPart};
use crate::shard;
use crate::shard::Run;
use vstd::prelude::*;

verus! {

/// Whether no row of a segment is in two parts.
spec fn are_disjoint<T: Copy>(segment: Run, parts: Seq<VelocityPart<T>>) -> bool {
    forall|i: int, j: int|
        0 <= i < parts.len() && 0 <= j < parts.len() && i != j ==> !forward::both_hold(
            segment,
            (#[trigger] parts[i]).rows,
            (#[trigger] parts[j]).rows,
        )
}

proof fn parts_are_disjoint<T: Copy>(segment: Run, parts: Seq<VelocityPart<T>>)
    ensures
        are_disjoint(segment, parts) == !forward::hold_a_row_twice(segment, parts),
{
    if !forward::hold_a_row_twice(segment, parts) {
        assert forall|i: int, j: int|
            0 <= i < parts.len() && 0 <= j < parts.len() && i != j implies !forward::both_hold(
            segment,
            (#[trigger] parts[i]).rows,
            (#[trigger] parts[j]).rows,
        ) by {
            if j < i {
                assert(!forward::both_hold(segment, parts[j].rows, parts[i].rows));
            }
        }
    }
}

/// Whether every part holds the values of its rows of a segment.
pub open spec fn hold_their_rows<T: Copy>(
    parts: Seq<VelocityPart<T>>,
    segment: Run,
    width: int,
    projection: Projection,
) -> bool {
    forall|k: int|
        0 <= k < parts.len() ==> (shard::overlap(segment, (#[trigger] parts[k]).rows) matches Some(held)
            ==> parts[k].values(projection).len() == held.size() * width)
}

/// Whether a row is in one of the parts.
pub open spec fn is_held<T: Copy>(parts: Seq<VelocityPart<T>>, row: int) -> bool {
    exists|k: int| 0 <= k < parts.len() && (#[trigger] parts[k]).rows.contains(row)
}

/// Whether a row is in one of the parts, and in no other.
pub open spec fn is_held_once<T: Copy>(parts: Seq<VelocityPart<T>>, row: int) -> bool {
    &&& is_held(parts, row)
    &&& forall|i: int, j: int|
        0 <= i < j < parts.len() ==> !((#[trigger] parts[i]).rows.contains(row) && (#[trigger] parts[j]).rows.contains(
            row,
        ))
}

/// Whether a value of a segment comes from a part.
spec fn covers<T: Copy>(segment: Run, width: int, part: VelocityPart<T>, i: int) -> bool {
    shard::overlap(segment, part.rows) matches Some(held) && (held.start - segment.start) * width <= i < (held.end
        - segment.start) * width
}

/// The value of a part that stands at a place of the segment.
spec fn read<T: Copy>(segment: Run, width: int, part: VelocityPart<T>, projection: Projection, i: int) -> T {
    part.values(projection)[i - (shard::overlap(segment, part.rows)->0.start - segment.start) * width]
}

spec fn held<T: Copy>(segment: Run, part: VelocityPart<T>) -> int {
    match shard::overlap(segment, part.rows) {
        Some(held) => held.size(),
        None => 0,
    }
}

spec fn rows_held<T: Copy>(segment: Run, parts: Seq<VelocityPart<T>>) -> int
    decreases parts.len(),
{
    if parts.len() == 0 {
        0
    } else {
        rows_held(segment, parts.drop_last()) + held(segment, parts.last())
    }
}

proof fn covers_apart<T: Copy>(segment: Run, width: int, one: VelocityPart<T>, other: VelocityPart<T>, i: int)
    requires
        width >= 0,
        !forward::both_hold(segment, one.rows, other.rows),
    ensures
        !(covers(segment, width, one, i) && covers(segment, width, other, i)),
{
    if covers(segment, width, one, i) && covers(segment, width, other, i) {
        let (a, b) = (shard::overlap(segment, one.rows)->0, shard::overlap(segment, other.rows)->0);
        let start = segment.start as int;
        assert(a.end <= b.start || b.end <= a.start);
        let (a_end, b_start) = (a.end - start, b.start - start);
        let (b_end, a_start) = (b.end - start, a.start - start);
        if a_end <= b_start {
            assert(a_end * width <= b_start * width) by (nonlinear_arith)
                requires
                    a_end <= b_start,
                    width >= 0,
            ;
        } else {
            assert(b_end * width <= a_start * width) by (nonlinear_arith)
                requires
                    b_end <= a_start,
                    width >= 0,
            ;
        }
    }
}

proof fn a_part_is_placed<T: Copy>(
    segment: Run,
    width: int,
    part: VelocityPart<T>,
    projection: Projection,
    values: Seq<T>,
)
    requires
        width >= 0,
        values.len() == segment.size() * width,
        shard::overlap(segment, part.rows) matches Some(held) && part.values(projection).len() == held.size() * width,
    ensures
        ({
            let held = shard::overlap(segment, part.rows)->0;
            let next = forward::placed(values, part.values(projection), (held.start - segment.start) * width);
            &&& next.len() == values.len()
            &&& forall|i: int|
                0 <= i < values.len() ==> (#[trigger] next[i]) == (if covers(segment, width, part, i) {
                    read(segment, width, part, projection, i)
                } else {
                    values[i]
                })
        }),
{
    let held = shard::overlap(segment, part.rows)->0;
    let (first, last) = (held.start - segment.start, held.end - segment.start);
    assert(last * width - first * width == held.size() * width) by (nonlinear_arith)
        requires
            held.size() == last - first,
    ;
}

proof fn gathered_is<T: Copy>(
    segment: Run,
    width: int,
    parts: Seq<VelocityPart<T>>,
    projection: Projection,
    zero: T,
    count: int,
)
    requires
        0 <= count <= parts.len(),
        width >= 0,
        hold_their_rows(parts, segment, width, projection),
    ensures
        forward::gathered(segment, width, parts, projection, zero, count) matches Ok((values, covered)) && {
            &&& values.len() == segment.size() * width
            &&& covered == rows_held(segment, parts.take(count))
            &&& are_disjoint(segment, parts) ==> forall|i: int, k: int|
                0 <= i < values.len() && 0 <= k < count && #[trigger] covers(segment, width, parts[k], i) ==> values[i]
                    == read(segment, width, parts[k], projection, i)
            &&& forall|i: int|
                0 <= i < values.len() && (forall|k: int|
                    0 <= k < count ==> !#[trigger] covers(segment, width, parts[k], i)) ==> #[trigger] values[i] == zero
        },
    decreases count,
{
    if count == 0 {
        assert(0 <= segment.size() * width) by (nonlinear_arith)
            requires
                segment.size() >= 0,
                width >= 0,
        ;
    } else {
        gathered_is(segment, width, parts, projection, zero, count - 1);
        let (values, covered) = forward::gathered(segment, width, parts, projection, zero, count - 1)->Ok_0;
        let part = parts[count - 1];
        assert(parts.take(count).drop_last() =~= parts.take(count - 1));
        assert(parts.take(count).last() == part);
        if shard::overlap(segment, part.rows) is Some {
            a_part_is_placed(segment, width, part, projection, values);
            let (next, _) = forward::gathered(segment, width, parts, projection, zero, count)->Ok_0;
            assert forall|i: int, k: int|
                are_disjoint(segment, parts) && 0 <= i < next.len() && 0 <= k < count && #[trigger] covers(
                    segment,
                    width,
                    parts[k],
                    i,
                ) implies next[i] == read(segment, width, parts[k], projection, i) by {
                if k < count - 1 {
                    assert(!forward::both_hold(segment, parts[k].rows, parts[count - 1].rows));
                    covers_apart(segment, width, parts[k], part, i);
                    assert(values[i] == read(segment, width, parts[k], projection, i));
                }
            }
            assert forall|i: int|
                0 <= i < next.len() && (forall|k: int|
                    0 <= k < count ==> !#[trigger] covers(segment, width, parts[k], i)) implies #[trigger] next[i]
                == zero by {
                assert(!covers(segment, width, parts[count - 1], i));
                assert(values[i] == zero);
            }
        } else {
            assert forall|i: int|
                0 <= i < values.len() && (forall|k: int|
                    0 <= k < count ==> !#[trigger] covers(segment, width, parts[k], i)) implies #[trigger] values[i]
                == zero by {
                assert(forall|k: int| 0 <= k < count - 1 ==> !#[trigger] covers(segment, width, parts[k], i));
            }
        }
    }
}

proof fn rows_held_without<T: Copy>(segment: Run, parts: Seq<VelocityPart<T>>, k: int)
    requires
        0 <= k < parts.len(),
    ensures
        rows_held(segment, parts) == rows_held(segment, parts.remove(k)) + held(segment, parts[k]),
    decreases parts.len(),
{
    if k == parts.len() - 1 {
        assert(parts.remove(k) =~= parts.drop_last());
    } else {
        rows_held_without(segment, parts.drop_last(), k);
        assert(parts.remove(k).drop_last() =~= parts.drop_last().remove(k));
        assert(parts.remove(k).last() == parts.last());
    }
}

proof fn both_hold<T: Copy>(parts: Seq<VelocityPart<T>>, other: Seq<VelocityPart<T>>, part: VelocityPart<T>)
    requires
        parts.to_multiset() == other.to_multiset(),
    ensures
        parts.len() == other.len(),
        parts.contains(part) == other.contains(part),
{
    vstd::seq_lib::to_multiset_contains(parts, part);
    vstd::seq_lib::to_multiset_contains(other, part);
    vstd::seq_lib::to_multiset_len(parts);
    vstd::seq_lib::to_multiset_len(other);
}

proof fn rows_held_in_any_order<T: Copy>(segment: Run, parts: Seq<VelocityPart<T>>, other: Seq<VelocityPart<T>>)
    requires
        parts.to_multiset() == other.to_multiset(),
    ensures
        rows_held(segment, parts) == rows_held(segment, other),
    decreases parts.len(),
{
    both_hold(parts, other, parts.last());
    if parts.len() > 0 {
        let last = parts.last();
        assert(parts.contains(last));
        let k = choose|k: int| 0 <= k < other.len() && other[k] == last;
        let end = parts.len() - 1;
        assert(parts.remove(end) =~= parts.drop_last());
        vstd::seq_lib::to_multiset_remove(parts, end);
        vstd::seq_lib::to_multiset_remove(other, k);
        rows_held_in_any_order(segment, parts.drop_last(), other.remove(k));
        rows_held_without(segment, other, k);
    }
}

proof fn disjoint_in_any_order<T: Copy>(segment: Run, parts: Seq<VelocityPart<T>>, other: Seq<VelocityPart<T>>)
    requires
        parts.to_multiset() == other.to_multiset(),
        are_disjoint(segment, parts),
    ensures
        are_disjoint(segment, other),
{
    assert forall|i: int, j: int|
        0 <= i < other.len() && 0 <= j < other.len() && i != j implies !forward::both_hold(
        segment,
        (#[trigger] other[i]).rows,
        (#[trigger] other[j]).rows,
    ) by {
        let (one, two) = (other[i], other[j]);
        let rest = other.remove(i);
        assert(rest.contains(two)) by {
            if j < i {
                assert(rest[j] == two);
            } else {
                assert(rest[j - 1] == two);
            }
        }
        assert(other.contains(one));
        both_hold(parts, other, one);
        let k = choose|k: int| 0 <= k < parts.len() && parts[k] == one;
        let left = parts.remove(k);
        vstd::seq_lib::to_multiset_remove(parts, k);
        vstd::seq_lib::to_multiset_remove(other, i);
        both_hold(left, rest, two);
        let l = choose|l: int| 0 <= l < left.len() && left[l] == two;
        if l < k {
            assert(parts[l] == two);
        } else {
            assert(parts[l + 1] == two);
        }
    }
}

/// Parts come to the same together in whatever order they come, a whole or a refusal.
pub proof fn parts_come_in_any_order<T: Copy>(
    segment: Run,
    width: int,
    parts: Seq<VelocityPart<T>>,
    other: Seq<VelocityPart<T>>,
    projection: Projection,
    zero: T,
)
    requires
        width >= 0,
        parts.to_multiset() == other.to_multiset(),
        hold_their_rows(parts, segment, width, projection),
    ensures
        forward::assembled(segment, width, parts, projection, zero) == forward::assembled(
            segment,
            width,
            other,
            projection,
            zero,
        ),
{
    parts_are_disjoint(segment, parts);
    parts_are_disjoint(segment, other);
    if are_disjoint(segment, parts) {
        disjoint_in_any_order(segment, parts, other);
    }
    if are_disjoint(segment, other) {
        disjoint_in_any_order(segment, other, parts);
    }
    assert(hold_their_rows(other, segment, width, projection)) by {
        assert forall|k: int| 0 <= k < other.len() implies (shard::overlap(segment, (#[trigger] other[k]).rows) matches Some(
            held,
        ) ==> other[k].values(projection).len() == held.size() * width) by {
            assert(other.contains(other[k]));
            both_hold(parts, other, other[k]);
        }
    }
    let (n, m) = (parts.len() as int, other.len() as int);
    gathered_is(segment, width, parts, projection, zero, n);
    gathered_is(segment, width, other, projection, zero, m);
    assert(parts.take(n) =~= parts);
    assert(other.take(m) =~= other);
    rows_held_in_any_order(segment, parts, other);
    let (values, _) = forward::gathered(segment, width, parts, projection, zero, n)->Ok_0;
    let (also, _) = forward::gathered(segment, width, other, projection, zero, m)->Ok_0;
    assert forall|i: int| are_disjoint(segment, parts) && 0 <= i < values.len() implies values[i] == also[i] by {
        if exists|k: int| 0 <= k < n && #[trigger] covers(segment, width, parts[k], i) {
            let k = choose|k: int| 0 <= k < n && #[trigger] covers(segment, width, parts[k], i);
            assert(parts.contains(parts[k]));
            both_hold(parts, other, parts[k]);
            let l = choose|l: int| 0 <= l < m && other[l] == parts[k];
            assert(covers(segment, width, other[l], i));
        } else {
            assert forall|l: int| 0 <= l < m implies !#[trigger] covers(segment, width, other[l], i) by {
                assert(other.contains(other[l]));
                both_hold(parts, other, other[l]);
                let k = choose|k: int| 0 <= k < n && parts[k] == other[l];
                assert(!covers(segment, width, parts[k], i));
            }
        }
    }
    if are_disjoint(segment, parts) {
        assert(values =~= also);
    }
}

spec fn hits<T: Copy>(parts: Seq<VelocityPart<T>>, row: int) -> int
    decreases parts.len(),
{
    if parts.len() == 0 {
        0
    } else {
        hits(parts.drop_last(), row) + (if parts.last().rows.contains(row) {
            1int
        } else {
            0int
        })
    }
}

proof fn a_row_is_hit_once<T: Copy>(segment: Run, parts: Seq<VelocityPart<T>>, row: int)
    requires
        are_disjoint(segment, parts),
        segment.contains(row),
    ensures
        hits(parts, row) == (if is_held(parts, row) {
            1int
        } else {
            0int
        }),
    decreases parts.len(),
{
    if parts.len() > 0 {
        let shorter = parts.drop_last();
        let last = parts.len() - 1;
        assert forall|i: int, j: int|
            0 <= i < shorter.len() && 0 <= j < shorter.len() && i != j implies !forward::both_hold(
            segment,
            (#[trigger] shorter[i]).rows,
            (#[trigger] shorter[j]).rows,
        ) by {
            assert(!forward::both_hold(segment, parts[i].rows, parts[j].rows));
        }
        a_row_is_hit_once(segment, shorter, row);
        if is_held(shorter, row) {
            let k = choose|k: int| 0 <= k < shorter.len() && (#[trigger] shorter[k]).rows.contains(row);
            assert(parts[k].rows.contains(row));
            assert(!forward::both_hold(segment, parts[k].rows, parts[last].rows));
        }
        if is_held(parts, row) && !parts[last].rows.contains(row) {
            let k = choose|k: int| 0 <= k < parts.len() && (#[trigger] parts[k]).rows.contains(row);
            assert(shorter[k].rows.contains(row));
        }
        if parts[last].rows.contains(row) {
            assert(is_held(parts, row));
        }
    }
}

proof fn one_more_row<T: Copy>(segment: Run, longer: Run, parts: Seq<VelocityPart<T>>)
    requires
        segment.start <= segment.end,
        longer.start == segment.start,
        longer.end == segment.end + 1,
    ensures
        rows_held(longer, parts) == rows_held(segment, parts) + hits(parts, segment.end as int),
    decreases parts.len(),
{
    if parts.len() > 0 {
        one_more_row(segment, longer, parts.drop_last());
    }
}

proof fn rows_are_counted<T: Copy>(segment: Run, parts: Seq<VelocityPart<T>>)
    requires
        segment.start <= segment.end,
        are_disjoint(segment, parts),
    ensures
        rows_held(segment, parts) <= segment.size(),
        rows_held(segment, parts) == segment.size() <==> (forall|row: int|
            segment.contains(row) ==> #[trigger] is_held(parts, row)),
    decreases segment.end - segment.start,
{
    if segment.start == segment.end {
        nothing_is_held(segment, parts);
    } else {
        let shorter = Run { start: segment.start, end: (segment.end - 1) as usize };
        let last = segment.end - 1;
        assert(are_disjoint(shorter, parts)) by {
            assert forall|i: int, j: int|
                0 <= i < parts.len() && 0 <= j < parts.len() && i != j implies !forward::both_hold(
                shorter,
                (#[trigger] parts[i]).rows,
                (#[trigger] parts[j]).rows,
            ) by {
                assert(!forward::both_hold(segment, parts[i].rows, parts[j].rows));
            }
        }
        rows_are_counted(shorter, parts);
        one_more_row(shorter, segment, parts);
        a_row_is_hit_once(segment, parts, last);
        if rows_held(segment, parts) == segment.size() {
            assert forall|row: int| segment.contains(row) implies #[trigger] is_held(parts, row) by {
                if row < last {
                    assert(shorter.contains(row));
                }
            }
        }
        if forall|row: int| segment.contains(row) ==> #[trigger] is_held(parts, row) {
            assert(segment.contains(last) && is_held(parts, last));
            assert forall|row: int| shorter.contains(row) implies #[trigger] is_held(parts, row) by {
                assert(segment.contains(row));
            }
        }
    }
}

proof fn nothing_is_held<T: Copy>(segment: Run, parts: Seq<VelocityPart<T>>)
    requires
        segment.start == segment.end,
    ensures
        rows_held(segment, parts) == 0,
    decreases parts.len(),
{
    if parts.len() > 0 {
        nothing_is_held(segment, parts.drop_last());
    }
}

/// Parts come to a whole if and only if they cover the segment once: every row of it is in one of them, and in no other.
pub proof fn parts_are_whole_if_every_row_is_held_once<T: Copy>(
    segment: Run,
    width: int,
    parts: Seq<VelocityPart<T>>,
    projection: Projection,
    zero: T,
)
    requires
        segment.start <= segment.end,
        width >= 0,
        hold_their_rows(parts, segment, width, projection),
    ensures
        forward::assembled(segment, width, parts, projection, zero) is Ok <==> (forall|row: int|
            segment.contains(row) ==> #[trigger] is_held_once(parts, row)),
        forward::assembled(segment, width, parts, projection, zero) matches Ok(values) ==> values.len()
            == segment.size() * width,
{
    gathered_is(segment, width, parts, projection, zero, parts.len() as int);
    assert(parts.take(parts.len() as int) =~= parts);
    parts_are_disjoint(segment, parts);
    if are_disjoint(segment, parts) {
        rows_are_counted(segment, parts);
        assert forall|row: int| segment.contains(row) implies #[trigger] is_held_once(parts, row) == is_held(parts, row) by {
            assert forall|i: int, j: int| 0 <= i < j < parts.len() implies !((#[trigger] parts[i]).rows.contains(row) && (
            #[trigger] parts[j]).rows.contains(row)) by {
                assert(!forward::both_hold(segment, parts[i].rows, parts[j].rows));
            }
        }
        if forall|row: int| segment.contains(row) ==> #[trigger] is_held_once(parts, row) {
            assert forall|row: int| segment.contains(row) implies #[trigger] is_held(parts, row) by {
                assert(is_held_once(parts, row));
            }
        }
    } else {
        let (i, j) = choose|i: int, j: int|
            0 <= i < j < parts.len() && forward::both_hold(
                segment,
                (#[trigger] parts[i]).rows,
                (#[trigger] parts[j]).rows,
            );
        let held = shard::overlap(segment, parts[i].rows)->0;
        let row = shard::overlap(held, parts[j].rows)->0.start as int;
        assert(segment.contains(row) && parts[i].rows.contains(row) && parts[j].rows.contains(row));
        assert(!is_held_once(parts, row));
    }
}

} // verus!
