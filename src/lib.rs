//! Tutte (barycentric) disk parametrization of triangle meshes: the
//! half-edge topology, boundary loops and the structure of the linear system.
pub mod halfedge;
pub mod mesh;
mod construct;
pub mod boundary;
pub mod tutte_embedding;
