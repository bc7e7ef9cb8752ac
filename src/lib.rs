//! A scheduler that fills a time budget with blocks of two fixed lengths,
//! together with a few small string and ownership helpers.
use vstd::prelude::*;

pub mod bigger_module;
pub mod burger;
pub mod ownership;
pub mod slices;

verus! {

/// Reaches a function of a nested module through its path.
pub fn modules() {
    bigger_module::submodule::submodule_function();
}

} // verus!
