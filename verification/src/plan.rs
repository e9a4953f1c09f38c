//! Launches in their order, or why there are none.
use crate::model::Error;
use vstd::prelude::*;

verus! {

/// Steps in their order, or why there are none.
pub type Plan<S> = Result<Seq<S>, Seq<char>>;

/// One plan after another.
pub open spec fn both<S>(first: Plan<S>, second: Plan<S>) -> Plan<S> {
    match first {
        Err(words) => Err(words),
        Ok(one) => match second {
            Err(words) => Err(words),
            Ok(other) => Ok(one + other),
        },
    }
}

pub open spec fn nothing<S>() -> Plan<S> {
    Ok(Seq::empty())
}

pub open spec fn when<S>(condition: bool, plan: Plan<S>) -> Plan<S> {
    if condition {
        plan
    } else {
        nothing()
    }
}

/// Whether steps were added as `plan` says.
pub open spec fn added<S>(before: Seq<S>, after: Seq<S>, result: Result<(), Error>, plan: Plan<S>) -> bool {
    match plan {
        Ok(list) => result is Ok && after =~= before + list,
        Err(words) => result matches Err(error) && error.says(words),
    }
}

/// Whether steps are what `plan` says.
pub open spec fn agrees<S>(steps: Result<Vec<S>, Error>, plan: Plan<S>) -> bool {
    match plan {
        Ok(list) => steps matches Ok(steps) && steps@ == list,
        Err(words) => steps matches Err(error) && error.says(words),
    }
}

} // verus!
