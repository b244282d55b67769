//! Arguments of the subcommands, and the exit codes.

use crate::cache::Cache;
use crate::paths::below;
use vstd::prelude::*;
use vstd::string::*;

verus! {

/// How a command ended.
#[derive(Debug, Clone, Copy, PartialEq, Eq, Structural)]
pub enum ExitCode {
    /// The command succeeded.
    Success,
    /// The command failed while it ran.
    Failure,
    /// The command was called in a wrong way.
    UsageError,
}

impl ExitCode {
    /// The code that the process ends with.
    pub fn code(self) -> (r: u8)
        ensures
            r == (match self {
                ExitCode::Success => 0u8,
                ExitCode::Failure => 1u8,
                ExitCode::UsageError => 2u8,
            }),
    {
        match self {
            ExitCode::Success => 0,
            ExitCode::Failure => 1,
            ExitCode::UsageError => 2,
        }
    }
}

/// Output format of the views.
#[derive(Debug, Clone, Copy, PartialEq, Eq, Structural)]
pub enum AnalyzeFormat {
    /// Mermaid.
    Mermaid,
    /// Graphviz DOT.
    Dot,
}

impl Default for AnalyzeFormat {
    fn default() -> (r: Self)
        ensures
            r == AnalyzeFormat::Mermaid,
    {
        AnalyzeFormat::Mermaid
    }
}

/// Output format of differences.
#[derive(Debug, Clone, Copy, PartialEq, Eq, Structural)]
pub enum DiffFormat {
    /// An annotated Mermaid graph.
    Mermaid,
    /// JSON.
    Json,
}

/// Arguments of the views.
#[derive(Debug, Clone)]
pub struct AnalyzeFlags {
    /// Path to a source root (file or directory).
    pub path: String,
    /// The module or function that a view is about.
    pub target: Option<String>,
    /// Directory names to skip, parted by commas.
    pub exclude: String,
    /// Whether generated files are taken.
    pub include_generated: bool,
    /// File to write to instead of the standard output.
    pub out: Option<String>,
    /// Git ref to read from instead of the working tree.
    pub git_ref: Option<String>,
    /// Output format.
    pub format: AnalyzeFormat,
}

/// Arguments of `walk`.
#[derive(Debug, Clone)]
pub struct WalkFlags {
    pub path: String,
    pub exclude: String,
    pub include_generated: bool,
    pub git_ref: Option<String>,
}

/// Arguments of the commands that use the cache.
#[derive(Debug, Clone)]
pub struct CacheArgs {
    /// Root of the cache, in place of the default one.
    pub cache_dir: Option<String>,
    /// Whether the lasting cache is not used at all.
    pub no_cache: bool,
}

impl Default for CacheArgs {
    fn default() -> (r: Self)
        ensures
            r.cache_dir is None,
            !r.no_cache,
    {
        Self { cache_dir: None, no_cache: false }
    }
}

/// Where the cache of a command is.
#[derive(Debug)]
pub enum CacheRoot {
    /// In a directory of its own that is removed afterwards.
    Ephemeral,
    /// At this path.
    At(String),
}

impl CacheArgs {
    /// Where the cache of a command on `path` is, given the top directory of
    /// the work tree around it, if it is in one: in an ephemeral directory
    /// without a lasting cache, at the place that was named, or else at the
    /// default place below the top directory or below `path`.
    pub fn resolve(&self, path: &str, toplevel: Option<&str>) -> (r: CacheRoot)
        ensures
            match r {
                CacheRoot::Ephemeral => self.no_cache,
                CacheRoot::At(p) => !self.no_cache && p@ == (match self.cache_dir {
                    Some(dir) => dir@,
                    None => below(
                        below(
                            match toplevel {
                                Some(t) => t@,
                                None => path@,
                            },
                            ".a2m"@,
                        ),
                        "cache"@,
                    ),
                }),
            },
    {
        if self.no_cache {
            return CacheRoot::Ephemeral;
        }
        match &self.cache_dir {
            Some(dir) => CacheRoot::At(dir.clone()),
            None => {
                let top = match toplevel {
                    Some(t) => t,
                    None => path,
                };
                CacheRoot::At(Cache::default_root(top))
            },
        }
    }
}

/// Arguments of `index`.
#[derive(Debug, Clone)]
pub struct IndexFlags {
    pub path: String,
    pub git_ref: Option<String>,
    /// Whether a bundle that is in the cache is made again.
    pub force: bool,
    /// Whether sequence diagrams are made too.
    pub with_sequences: bool,
    pub cache: CacheArgs,
}

/// Arguments of `diff`.
#[derive(Debug, Clone)]
pub struct DiffFlags {
    /// `<ref-a>..<ref-b>`.
    pub range: String,
    pub path: String,
    pub format: DiffFormat,
    pub cache: CacheArgs,
}

/// Arguments of `gc`.
#[derive(Debug, Clone)]
pub struct GcFlags {
    pub path: String,
    /// Size that the cache may have.
    pub max_size: String,
    /// Age above which entries go.
    pub older_than: Option<String>,
    /// Whether nothing is removed.
    pub dry_run: bool,
    pub cache: CacheArgs,
}

/// Arguments of `bundle`.
#[derive(Debug, Clone)]
pub struct BundleFlags {
    pub path: String,
    /// Directory to write the bundle to.
    pub out: String,
    pub exclude: String,
    pub include_generated: bool,
    pub git_ref: Option<String>,
    pub with_sequences: bool,
    /// Whether an empty bundle may replace one that is not.
    pub allow_empty: bool,
}

/// Arguments of `sequence`.
#[derive(Debug, Clone)]
pub struct SequenceFlags {
    pub path: String,
    /// The function to draw.
    pub target: Option<String>,
    /// Whether all functions are drawn.
    pub all: bool,
    pub exclude: String,
    pub include_generated: bool,
    pub out: Option<String>,
    pub git_ref: Option<String>,
}

/// Arguments of `flow`.
#[derive(Debug, Clone)]
pub struct FlowFlags {
    pub path: String,
    pub target: String,
    pub depth: u8,
    pub include_external: bool,
    pub no_external: bool,
    pub exclude: String,
    pub include_generated: bool,
    pub out: Option<String>,
}

} // verus!
