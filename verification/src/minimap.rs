//! The minimap's markers.

use vstd::prelude::*;

verus! {

/// Marks the second field-of-view frame drawn on the minimap, the one that shows the
/// part of the view that wraps around the map's edge.
#[derive(Clone, Copy, Debug, Default, PartialEq, Eq, Structural)]
pub struct AuxiliaryFOVIndicator;

} // verus!
