use vstd::prelude::*;

verus! {

/// The mask a person wears, fixed for the whole simulation.
#[derive(Debug, Clone, Copy, PartialEq, Eq, Structural)]
pub enum Mask {
    NoMask,
    Regular,
    N95,
}

} // verus!
