use vstd::prelude::*;

verus! {

/// One observation: a timestamp and the value measured at that time.
///
/// The order of points in a timevector is data order, not necessarily
/// time order, until an explicit sort element reorders them.
#[derive(Clone, Copy, PartialEq, Eq, Structural, Debug)]
pub struct Point {
    pub ts: i64,
    pub val: i64,
}

} // verus!
