//! Grid and mesh-topology logic of a voxel terrain: the sign field that a
//! density function leaves on a lattice, the dual-contouring rules that
//! decide which cells carry a vertex and which quads join them, and the
//! bookkeeping of loaded terrain chunks.
pub mod cell;
pub mod grid;
pub mod dual_contouring;
pub mod mesh_properties;
pub mod terrain;
pub mod textures;
pub mod window;
