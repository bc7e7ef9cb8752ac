//! A module with a submodule, and an item that only the two of them see.
use vstd::prelude::*;

pub mod submodule;

verus! {

/// The answer that the submodule asks its parent for.
fn x() -> (r: i32)
    ensures
        r == 42,
{
    42
}

} // verus!
