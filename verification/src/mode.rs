use vstd::prelude::*;

verus! {

/// What the left mouse button does.
#[derive(PartialEq, Eq, Structural, Clone, Copy, Debug)]
pub enum Mode {
    Hand,
    Cut,
    Place,
    Force,
}

} // verus!
