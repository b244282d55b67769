//! The command line: arguments, small formats, and the decisions of the
//! subcommands.

pub mod args;
pub mod flags;
pub mod format;
pub mod run;

pub use args::{AnalyzeArgs, BundleArgs};
pub use flags::{
    AnalyzeFlags, AnalyzeFormat, BundleFlags, CacheArgs, DiffFlags, DiffFormat, ExitCode,
    FlowFlags, GcFlags, IndexFlags, SequenceFlags, WalkFlags,
};
