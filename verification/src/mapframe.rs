//! The map frame: 600 dpi at 1:10 000. One map inch is 10 000 ground inches, 254 m, so the
//! sheet has 600 / 254 pixels per ground metre before `scalefactor`.
use vstd::prelude::*;

verus! {

/// Dots per map inch of the rendered sheet.
pub const DPI: u32 = 600;

/// Ground metres covered by one map inch at 1:10 000.
pub const GROUND_METRES_PER_INCH: u32 = 254;

} // verus!
