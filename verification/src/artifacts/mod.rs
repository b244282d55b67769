//! Artifacts of the entities of a store: a diagram, the metadata, an index,
//! and sequence diagrams of functions.

pub mod emit;
pub mod entity;
pub mod laws;
pub mod names;
pub mod sequences;
pub mod write;

pub use crate::hash::hash_disambig;
pub use emit::{emit_artifacts, emit_artifacts_with_sequences, ArtifactSet, EntityArtifact};
pub use names::filename_id;
pub use sequences::SequenceArtifact;
