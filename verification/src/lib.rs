//! A fractal memory: byte payloads kept in a loose octree, found again by where
//! an embedding falls when it is projected down to three dimensions.
pub mod accuracy;
pub mod bytes;
pub mod calibration;
pub mod codec;
pub mod containment;
pub mod dialogue;
pub mod drift;
pub mod exactness;
pub mod fidelity;
pub mod files;
pub mod geometry;
pub mod ieee;
pub mod insertion;
pub mod json;
pub mod lengths;
pub mod lookup;
pub mod lz4;
pub mod memory;
pub mod node;
pub mod numbers;
pub mod order;
pub mod orthogonality;
pub mod payloads;
pub mod projection;
pub mod protocol;
pub mod queue;
pub mod recall;
pub mod reports;
pub mod rng;
pub mod roots;
pub mod rounding;
pub mod samples;
pub mod soundness;
pub mod spectrum;
pub mod tools;
pub mod writes;

pub use calibration::compute_pca_projection;
pub use memory::FractalMemory3D;
pub use node::{NodeId, OctreeNode};
pub use projection::project_to_3d;
pub use rng::DeterministicRng;
