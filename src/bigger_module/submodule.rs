//! A submodule that reaches into its parent and into itself.
use vstd::prelude::*;

verus! {

/// Calls a private function of the parent module, then one of its own,
/// once by its full path and once by its plain name.
pub fn submodule_function() {
    let answer = super::x();
    assert(answer == 42);
    crate::bigger_module::submodule::q();
    q();
}

/// Does nothing.
fn q() {
}

} // verus!
