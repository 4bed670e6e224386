//! A voxel chunk mesher: turns a haloed cube of block IDs into a packed vertex
//! stream with per-corner ambient occlusion, either one quad per visible face
//! or with co-planar faces merged greedily into rectangles.

pub mod blocks;
pub mod direction;
pub mod array3d;
pub mod encoder;
pub mod face_buffer;
pub mod chunk;
pub mod quick;
pub mod layers;
pub mod rects;
pub mod merge_proofs;
pub mod merge_spec;
pub mod greedy;
pub mod coverage;
