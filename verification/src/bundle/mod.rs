//! Artifact bundles of a project: diagrams, metadata and the index.

pub mod entities;
pub mod files;
pub mod index;
pub mod laws;
pub mod round_trip;

pub use entities::collect_entities;
pub use files::{load_artifact_dir, sanitize_id, ArtifactDir, EntityArtifact};
pub use index::{build_index, BundleIndex, Stats};
