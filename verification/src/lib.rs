//! Integer and structural core of a small ray tracer: the pixel grid and the
//! index arithmetic of the image filters, the bounding volume hierarchy
//! (building it and searching it for the closest hit), and the bookkeeping
//! of the bounce loop. Geometry and colour stay with the caller, which hands
//! its answers in through closures and integer distance keys.
pub mod bvh;
pub mod raster;
pub mod selection;
pub mod trace;
pub mod traverse;
