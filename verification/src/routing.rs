use vstd::prelude::*;

verus! {

/// A value in the partitioning scheme's hash space identifying ownership of a
/// row or partition.
#[derive(Clone, Copy, PartialEq, Eq, Structural)]
pub struct Token {
    pub value: i64,
}

} // verus!
