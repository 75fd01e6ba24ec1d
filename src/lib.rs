//! Streaming of chunked terrain around a moving viewpoint: the chunk window
//! and its fixed slot pool, the jobs in flight, the queue of finished meshes,
//! and the mesh builder that turns a heightmap into a chunk's mesh.

pub mod decode;
pub mod grid;
pub mod heightmap;
pub mod mesh;
pub mod stream;
pub mod tiles;
