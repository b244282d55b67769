//! Rendering levels.

use crate::error::{is_invalid, AstToMermaidError, Result};
use crate::render::util::{debug_quoted, quoted};
use crate::text::str_eq;
use vstd::prelude::*;
use vstd::string::*;

verus! {

/// Which view to render.
#[derive(Debug, Clone, Copy, PartialEq, Eq, Hash, Structural)]
pub enum Level {
    /// One node per crate, cross-crate `calls` edges.
    Project,
    /// One node per module, cross-module `calls` edges.
    Overview,
}

impl Level {
    /// The canonical lower-case name.
    pub open spec fn text(self) -> Seq<char> {
        match self {
            Level::Project => "project"@,
            Level::Overview => "overview"@,
        }
    }

    /// The level with the given name.
    pub open spec fn parsed(s: Seq<char>) -> Option<Level> {
        if s == "project"@ {
            Some(Level::Project)
        } else if s == "overview"@ {
            Some(Level::Overview)
        } else {
            None
        }
    }

    /// What the error of an unknown level says, given the name as quoted.
    pub open spec fn unknown(shown: Seq<char>) -> Seq<char> {
        "unknown render level: "@ + shown + " (expected: project | overview)"@
    }

    /// Lower-case canonical name as used on the command line.
    pub fn as_str(self) -> (r: &'static str)
        ensures
            r@ == self.text(),
    {
        match self {
            Level::Project => "project",
            Level::Overview => "overview",
        }
    }

    /// The level as displayed: its canonical name.
    pub fn to_string(&self) -> (r: String)
        ensures
            r@ == self.text(),
    {
        self.as_str().to_owned()
    }

    /// Whether the level is rendered around a target: neither is.
    pub fn requires_target(self) -> (r: bool)
        ensures
            !r,
    {
        false
    }

    /// The level with the given name.
    pub fn from_str(s: &str) -> (r: Result<Level>)
        ensures
            match Level::parsed(s@) {
                Some(level) => r matches Ok(l) && l == level,
                None => is_invalid(r, Level::unknown(quoted(s@))),
            },
    {
        let shown = debug_quoted(s);
        Level::from_name(s, shown.as_str())
    }

    /// The level with the given name; `shown` is the name as an error shows it.
    pub fn from_name(s: &str, shown: &str) -> (r: Result<Level>)
        ensures
            match Level::parsed(s@) {
                Some(level) => r matches Ok(l) && l == level,
                None => is_invalid(r, Level::unknown(shown@)),
            },
    {
        if str_eq(s, "project") {
            Ok(Level::Project)
        } else if str_eq(s, "overview") {
            Ok(Level::Overview)
        } else {
            Err(
                AstToMermaidError::InvalidInput(
                    "unknown render level: ".to_owned().concat(shown).concat(
                        " (expected: project | overview)",
                    ),
                ),
            )
        }
    }
}

/// Printing a level and parsing it again gives the level back.
pub proof fn law_level_parsed_of_text(l: Level)
    ensures
        Level::parsed(l.text()) == Some(l),
{
    reveal_strlit("project");
    reveal_strlit("overview");
    assert("project"@.len() == 7 && "overview"@.len() == 8);
}

} // verus!
