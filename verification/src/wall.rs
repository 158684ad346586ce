//! Walls: which walls meet at which end points, the wall openings, and the
//! index buffers of the wall meshes.
pub mod connections;
pub mod lot;
pub mod lot_laws;
pub mod apertures;
pub mod mesh;
