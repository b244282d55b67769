//! The index of a bundle.

use crate::bundle::entities::{IndexEntry, IndexEntryView};
use vstd::prelude::*;
use vstd::string::*;

verus! {

/// Version of the layout of the index.
pub const SCHEMA_VERSION: u32 = 1;

/// Counts of a run.
#[derive(Debug, Clone, Copy, PartialEq, Eq, Structural)]
pub struct Stats {
    pub files_parsed: usize,
    pub atoms_indexed: usize,
    pub edges_resolved: usize,
}

/// The index of a bundle: every entity, with where its files are.
#[derive(Debug)]
pub struct BundleIndex {
    pub schema_version: u32,
    /// When the bundle was made.
    pub generated_at: String,
    /// Version of the tool that made it.
    pub ast_to_mermaid_version: String,
    pub source_root: String,
    pub stats: Stats,
    pub entities: Vec<IndexEntry>,
}

/// What a [`BundleIndex`] holds.
#[verifier::ext_equal]
pub struct BundleIndexView {
    pub schema_version: u32,
    pub generated_at: Seq<char>,
    pub version: Seq<char>,
    pub source_root: Seq<char>,
    pub stats: Stats,
    pub entities: Seq<IndexEntryView>,
}

impl DeepView for BundleIndex {
    type V = BundleIndexView;

    open spec fn deep_view(&self) -> BundleIndexView {
        BundleIndexView {
            schema_version: self.schema_version,
            generated_at: self.generated_at@,
            version: self.ast_to_mermaid_version@,
            source_root: self.source_root@,
            stats: self.stats,
            entities: self.entities.deep_view(),
        }
    }
}

/// The index of a bundle, stamped with the version of its layout, the time and
/// the version of the tool.
pub fn build_index(
    entities: Vec<IndexEntry>,
    source_root: &str,
    stats: Stats,
    generated_at: &str,
    version: &str,
) -> (r: BundleIndex)
    ensures
        r.deep_view() == (BundleIndexView {
            schema_version: SCHEMA_VERSION,
            generated_at: generated_at@,
            version: version@,
            source_root: source_root@,
            stats,
            entities: entities.deep_view(),
        }),
{
    BundleIndex {
        schema_version: SCHEMA_VERSION,
        generated_at: generated_at.to_owned(),
        ast_to_mermaid_version: version.to_owned(),
        source_root: source_root.to_owned(),
        stats,
        entities,
    }
}

} // verus!
