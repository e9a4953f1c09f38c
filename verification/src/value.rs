//! What a buffer of the device holds, as the operation that made it and what that was made of.
use vstd::prelude::*;

verus! {

/// The value of a buffer: what the operation `O` of a launch makes of other values, or a sum.
pub enum Value<O> {
    /// Nothing that a launch wrote.
    Unset,
    Made(O, Seq<Value<O>>),
    Sum(Box<Value<O>>, Box<Value<O>>),
}

impl<O> Value<O> {
    /// What an operation makes of nothing else on the device.
    pub open spec fn given(by: O) -> Value<O> {
        Value::Made(by, Seq::empty())
    }

    /// What an operation makes of one value.
    pub open spec fn of(by: O, value: Value<O>) -> Value<O> {
        Value::Made(by, seq![value])
    }

    /// What an operation makes of two values.
    pub open spec fn of_both(by: O, one: Value<O>, other: Value<O>) -> Value<O> {
        Value::Made(by, seq![one, other])
    }

    /// The sum of two values.
    pub open spec fn plus(self, other: Value<O>) -> Value<O> {
        Value::Sum(Box::new(self), Box::new(other))
    }
}

} // verus!
