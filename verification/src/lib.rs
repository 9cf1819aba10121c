//! Verified core of a LiDAR-to-orienteering-map pipeline: contour classification,
//! polyline containers and joining, GeoJSON layer coding, the text point format and the
//! stage decisions of tile processing, the vegetation grid topology, and the integer logic
//! of the vegetation, block, knoll, merge and rendering stages.
use vstd::prelude::*;

pub mod blocks;
pub mod fxmap;
pub mod geojson;
pub mod geometry;
pub mod knolls;
pub mod mapframe;
pub mod merge;
pub mod process;
pub mod render;
pub mod settling;
pub mod shapes;
pub mod text;
pub mod vegetation;
pub mod vege_grid;
pub mod vege_vector;

verus! {

} // verus!
