//! What may be done with the entries of the cache, which may hold symbolic
//! links that lead out of it: no link is ever followed or removed.

use crate::error::{is_invalid, AstToMermaidError, Result};
use vstd::prelude::*;
use vstd::string::*;

verus! {

/// What stands at a path, without following a link.
#[derive(Debug, Clone, Copy, PartialEq, Eq, Structural)]
pub enum PathKind {
    /// Nothing.
    Missing,
    /// A symbolic link.
    Symlink,
    /// A directory.
    Directory,
    /// A file, or anything else.
    File,
}

/// What a path is looked at for.
#[derive(Debug, Clone, Copy, PartialEq, Eq, Structural)]
pub enum Purpose {
    /// To walk the tree below it.
    Walk,
    /// To list it as a directory of entries.
    List,
    /// To measure it as an entry.
    Measure,
    /// To remove it with all that is below it.
    RemoveTree,
    /// To remove it as part of a tree.
    RemoveChild,
    /// To remove a file that a crash left behind.
    Sweep,
    /// To write a bundle into it.
    BundleParent,
    /// To clear it for a bundle that is being written.
    BundleScratch,
    /// To put a finished bundle in its place.
    BundleTarget,
}

/// What is done with a path.
#[derive(Debug, Clone, Copy, PartialEq, Eq, Structural)]
pub enum Treatment {
    /// Nothing.
    Skip,
    /// The directory is entered, or removed with all that is below it.
    Tree,
    /// The file is taken, or removed.
    Single,
}

/// What is done with a path, or what the error says.
pub open spec fn treatment(p: Purpose, k: PathKind, path: Seq<char>) -> std::result::Result<
    Treatment,
    Seq<char>,
> {
    match k {
        PathKind::Missing => Ok(Treatment::Skip),
        PathKind::Symlink => Err(
            (match p {
                Purpose::Walk => "refusing to follow symlink in cache: "@,
                Purpose::List => "refusing to enumerate symlinked cache directory: "@,
                Purpose::Measure => "refusing to follow symlink in cache: "@,
                Purpose::RemoveTree => "refusing to remove symlink: "@,
                Purpose::RemoveChild => "refusing to remove symlink in cache: "@,
                Purpose::Sweep => "refusing to remove symlinked tmp in cache: "@,
                Purpose::BundleParent => "refusing to write bundle into symlinked parent: "@,
                Purpose::BundleScratch => "refusing to clobber symlinked tmp dir: "@,
                Purpose::BundleTarget => "refusing to replace symlinked bundle dir: "@,
            }) + path,
        ),
        PathKind::Directory => Ok(Treatment::Tree),
        PathKind::File => match p {
            Purpose::List => Ok(Treatment::Skip),
            Purpose::BundleParent => Ok(Treatment::Skip),
            Purpose::RemoveTree => Err("remove_dir_all_safe: not a directory: "@ + path),
            Purpose::BundleTarget => Err(
                "bundle path exists and is not a directory: "@ + path,
            ),
            _ => Ok(Treatment::Single),
        },
    }
}

/// Decides what is done with a path.
pub fn decide(purpose: Purpose, kind: PathKind, path: &str) -> (r: Result<Treatment>)
    ensures
        match treatment(purpose, kind, path@) {
            Ok(t) => r matches Ok(x) && x == t,
            Err(e) => is_invalid(r, e),
        },
{
    match kind {
        PathKind::Missing => Ok(Treatment::Skip),
        PathKind::Symlink => {
            let what = match purpose {
                Purpose::Walk => "refusing to follow symlink in cache: ",
                Purpose::List => "refusing to enumerate symlinked cache directory: ",
                Purpose::Measure => "refusing to follow symlink in cache: ",
                Purpose::RemoveTree => "refusing to remove symlink: ",
                Purpose::RemoveChild => "refusing to remove symlink in cache: ",
                Purpose::Sweep => "refusing to remove symlinked tmp in cache: ",
                Purpose::BundleParent => "refusing to write bundle into symlinked parent: ",
                Purpose::BundleScratch => "refusing to clobber symlinked tmp dir: ",
                Purpose::BundleTarget => "refusing to replace symlinked bundle dir: ",
            };
            Err(AstToMermaidError::InvalidInput(what.to_owned().concat(path)))
        },
        PathKind::Directory => Ok(Treatment::Tree),
        PathKind::File => match purpose {
            Purpose::List => Ok(Treatment::Skip),
            Purpose::BundleParent => Ok(Treatment::Skip),
            Purpose::RemoveTree => Err(
                AstToMermaidError::InvalidInput(
                    "remove_dir_all_safe: not a directory: ".to_owned().concat(path),
                ),
            ),
            Purpose::BundleTarget => Err(
                AstToMermaidError::InvalidInput(
                    "bundle path exists and is not a directory: ".to_owned().concat(path),
                ),
            ),
            _ => Ok(Treatment::Single),
        },
    }
}

/// A symbolic link is refused, whatever it is looked at for.
pub proof fn law_links_refused(p: Purpose, path: Seq<char>)
    ensures
        treatment(p, PathKind::Symlink, path) is Err,
{
}

} // verus!
