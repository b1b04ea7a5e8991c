use vstd::prelude::*;

verus! {

/// The run's settings from the values of `START`, `END` and `WD`: all three
/// together, or nothing when any of them is missing.
pub fn gather(start: Option<String>, end: Option<String>, wd: Option<String>) -> (res: Option<
    (String, String, String),
>)
    ensures
        res is Some <==> (start is Some && end is Some && wd is Some),
        res matches Some((s, e, w)) ==> s == start->0 && e == end->0 && w == wd->0,
{
    match (start, end, wd) {
        (Some(s), Some(e), Some(w)) => Some((s, e, w)),
        _ => None,
    }
}

} // verus!
