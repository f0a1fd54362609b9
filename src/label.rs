//! Placement of coordinate-grid labels.
use vstd::prelude::*;

verus! {

/// Where a grid label sits relative to its line.
#[derive(Clone, Copy, Debug, PartialEq, Eq, Structural)]
pub enum LabelOptions {
    Centered,
    OnSide,
}

} // verus!
