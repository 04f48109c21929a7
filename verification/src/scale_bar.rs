//! The scale bar drawn over a scan view.
use vstd::prelude::*;

verus! {

/// A bar whose length stands for a power of ten in meters.
pub struct ScaleBar {}

impl ScaleBar {
    /// A new scale bar.
    pub fn new() -> (r: Self)
        ensures
            r == (ScaleBar {}),
    {
        ScaleBar {}
    }
}

} // verus!
