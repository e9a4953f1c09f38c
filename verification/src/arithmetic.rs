//! Rounding, minima and products that the layouts share.
use vstd::prelude::*;

verus! {

/// The quotient of `value` by `unit`, rounded up.
pub open spec fn ceil_div(value: int, unit: int) -> int {
    (value + unit - 1) / unit
}

/// The least multiple of `unit` that is no less than `value`.
pub open spec fn round_up(value: int, unit: int) -> int {
    ceil_div(value, unit) * unit
}

/// The greatest multiple of `unit` that is no more than `value`.
pub open spec fn round_down(value: int, unit: int) -> int {
    value / unit * unit
}

pub open spec fn min(left: int, right: int) -> int {
    if left < right {
        left
    } else {
        right
    }
}

pub open spec fn max(left: int, right: int) -> int {
    if left < right {
        right
    } else {
        left
    }
}

/// `ceil_div` is the least count of units that holds `value`.
pub proof fn ceil_div_is_least(value: int, unit: int)
    requires
        value >= 0,
        unit > 0,
    ensures
        ceil_div(value, unit) >= 0,
        ceil_div(value, unit) * unit >= value,
        value > 0 ==> (ceil_div(value, unit) - 1) * unit < value,
        ceil_div(value, unit) * unit < value + unit,
        ceil_div(value, unit) <= value,
        (value == 0) == (ceil_div(value, unit) == 0),
{
    let quotient = (value + unit - 1) / unit;
    let rest = (value + unit - 1) % unit;
    assert(value + unit - 1 == unit * quotient + rest && 0 <= rest < unit) by (nonlinear_arith)
        requires
            unit > 0,
            quotient == (value + unit - 1) / unit,
            rest == (value + unit - 1) % unit,
    ;
    assert(quotient >= 0) by (nonlinear_arith)
        requires
            value + unit - 1 == unit * quotient + rest,
            0 <= rest < unit,
            value >= 0,
            unit > 0,
    ;
    assert(unit * quotient == quotient * unit) by (nonlinear_arith);
    assert((quotient - 1) * unit == quotient * unit - unit) by (nonlinear_arith);
    if quotient > value {
        assert(quotient * unit >= (value + 1) * unit) by (nonlinear_arith)
            requires
                quotient >= value + 1,
                unit > 0,
        ;
        assert((value + 1) * unit >= value + unit) by (nonlinear_arith)
            requires
                value >= 0,
                unit > 0,
        ;
    }
    if value == 0 {
        assert(quotient == 0) by (nonlinear_arith)
            requires
                unit - 1 == unit * quotient + rest,
                0 <= rest < unit,
                unit > 0,
        ;
    } else {
        assert(quotient > 0) by (nonlinear_arith)
            requires
                value + unit - 1 == unit * quotient + rest,
                0 <= rest < unit,
                value > 0,
                unit > 0,
        ;
    }
}

/// `round_up` is the least multiple of the unit that is no less than the value.
pub proof fn round_up_is_least(value: int, unit: int)
    requires
        value >= 0,
        unit > 0,
    ensures
        value <= round_up(value, unit) < value + unit,
        round_up(value, unit) % unit == 0,
        value % unit == 0 ==> round_up(value, unit) == value,
{
    ceil_div_is_least(value, unit);
    let quotient = ceil_div(value, unit);
    assert((quotient * unit) % unit == 0) by (nonlinear_arith)
        requires
            unit > 0,
    ;
    if value % unit == 0 {
        let whole = value / unit;
        assert(value == whole * unit) by (nonlinear_arith)
            requires
                unit > 0,
                value % unit == 0,
                whole == value / unit,
        ;
        assert(whole == quotient) by (nonlinear_arith)
            requires
                whole * unit <= quotient * unit,
                quotient * unit < whole * unit + unit,
                unit > 0,
        ;
    }
}

/// `round_down` is the greatest multiple of the unit that is no more than the value.
pub proof fn round_down_is_greatest(value: int, unit: int)
    requires
        value >= 0,
        unit > 0,
    ensures
        round_down(value, unit) <= value < round_down(value, unit) + unit,
        round_down(value, unit) % unit == 0,
        round_down(value, unit) >= 0,
{
    let whole = value / unit;
    assert(whole * unit <= value < whole * unit + unit && whole >= 0) by (nonlinear_arith)
        requires
            unit > 0,
            value >= 0,
            whole == value / unit,
    ;
    assert((whole * unit) % unit == 0) by (nonlinear_arith)
        requires
            unit > 0,
    ;
    assert(whole * unit >= 0) by (nonlinear_arith)
        requires
            whole >= 0,
            unit > 0,
    ;
}

/// A product grows with its factors.
pub proof fn products_grow(left: int, right: int, more_left: int, more_right: int)
    requires
        0 <= left <= more_left,
        0 <= right <= more_right,
    ensures
        0 <= left * right <= more_left * more_right,
{
    assert(0 <= left * right <= more_left * more_right) by (nonlinear_arith)
        requires
            0 <= left <= more_left,
            0 <= right <= more_right,
    ;
}

/// A place in rows of `width` each, of which there are `rows`.
pub proof fn nested_is_inside(row: int, rows: int, place: int, width: int)
    requires
        0 <= row < rows,
        0 <= place < width,
    ensures
        0 <= row * width + place < rows * width,
        0 <= row * width <= rows * width,
{
    assert(0 <= row * width && row * width + width <= rows * width) by (nonlinear_arith)
        requires
            0 <= row < rows,
            0 < width,
    ;
}

/// The row a place of `rows` rows of `width` each is in, and its place there.
pub proof fn quotient_is_inside(place: int, rows: int, width: int)
    requires
        0 <= place < rows * width,
        width > 0,
    ensures
        0 <= place / width < rows,
        0 <= place % width < width,
        place == place / width * width + place % width,
{
    let row = place / width;
    let rest = place % width;
    assert(place == row * width + rest && 0 <= rest < width) by (nonlinear_arith)
        requires
            width > 0,
            row == place / width,
            rest == place % width,
    ;
    assert(0 <= row < rows) by (nonlinear_arith)
        requires
            place == row * width + rest,
            0 <= rest < width,
            0 <= place < rows * width,
    ;
}

/// A place in rows of `width` each is in the row, and at the place there, that it was made of.
pub proof fn quotient_of_nested(row: int, place: int, width: int)
    requires
        0 <= row,
        0 <= place < width,
    ensures
        (row * width + place) / width == row,
        (row * width + place) % width == place,
{
    vstd::arithmetic::div_mod::lemma_fundamental_div_mod_converse(row * width + place, width, row, place);
}

/// The lesser of two sizes.
pub fn least(left: usize, right: usize) -> (value: usize)
    ensures
        value == min(left as int, right as int),
{
    if left < right {
        left
    } else {
        right
    }
}

/// The greater of two sizes.
pub fn greatest(left: usize, right: usize) -> (value: usize)
    ensures
        value == max(left as int, right as int),
{
    if left < right {
        right
    } else {
        left
    }
}

/// `value` in units of `unit`, rounded up.
pub fn units(value: usize, unit: usize) -> (count: usize)
    requires
        unit > 0,
    ensures
        count == ceil_div(value as int, unit as int),
{
    let whole: usize = value / unit;
    let rest: usize = value % unit;
    proof {
        let value_int = value as int;
        let unit_int = unit as int;
        let quotient = ceil_div(value_int, unit_int);
        ceil_div_is_least(value_int, unit_int);
        assert(value_int == whole * unit_int + rest && 0 <= rest < unit) by (nonlinear_arith)
            requires
                unit_int > 0,
                unit_int == unit,
                value_int == value,
                whole == value / unit,
                rest == value % unit,
        ;
        if rest == 0 {
            assert(quotient == whole) by (nonlinear_arith)
                requires
                    quotient * unit_int >= whole * unit_int,
                    quotient * unit_int < whole * unit_int + unit_int,
                    unit_int > 0,
            ;
        } else {
            assert(quotient == whole + 1) by (nonlinear_arith)
                requires
                    quotient * unit_int >= whole * unit_int + rest,
                    quotient * unit_int < whole * unit_int + rest + unit_int,
                    0 < rest < unit_int,
            ;
        }
    }
    if rest == 0 {
        whole
    } else {
        whole + 1
    }
}

/// `value` rounded up to a multiple of `unit`.
pub fn rounded_up(value: usize, unit: usize) -> (multiple: usize)
    requires
        unit > 0,
        round_up(value as int, unit as int) <= usize::MAX,
    ensures
        multiple == round_up(value as int, unit as int),
{
    units(value, unit) * unit
}

/// Whether there is a multiple of `unit` that is no less than `value`.
pub fn can_round_up(value: usize, unit: usize) -> (answer: bool)
    requires
        unit > 0,
    ensures
        answer == (round_up(value as int, unit as int) <= usize::MAX),
{
    proof {
        round_up_is_least(value as int, unit as int);
        multiples_are_apart(value as int, unit as int);
    }
    let over: usize = value % unit;
    over == 0 || value <= usize::MAX - (unit - over)
}

proof fn multiples_are_apart(value: int, unit: int)
    requires
        value >= 0,
        unit > 0,
    ensures
        value % unit > 0 ==> round_up(value, unit) == value + (unit - value % unit),
{
    round_up_is_least(value, unit);
    vstd::arithmetic::div_mod::lemma_fundamental_div_mod(value, unit);
    vstd::arithmetic::div_mod::lemma_fundamental_div_mod(round_up(value, unit), unit);
    let (q, r) = (value / unit, value % unit);
    let m = round_up(value, unit) / unit;
    if r > 0 {
        assert(m == q + 1) by (nonlinear_arith)
            requires
                unit > 0,
                0 < r < unit,
                unit * q + r <= unit * m < unit * q + r + unit,
        ;
        assert(unit * (q + 1) == unit * q + unit) by (nonlinear_arith);
    }
}

} // verus!
