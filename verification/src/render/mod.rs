//! Mermaid renderers.

pub mod count_laws;
pub mod detail;
pub mod function;
pub mod impact;
pub mod impact_laws;
pub mod laws;
pub mod level;
pub mod lines;
pub mod lookup;
pub mod module;
pub mod overview;
pub mod project;
pub mod rows;
pub mod util;
pub mod view_laws;

pub use detail::{render_view, Detail};
pub use level::Level;

use crate::error::Result;
use crate::graph::catalog::{Catalog, CatalogView};
use vstd::prelude::*;

verus! {

/// The view of a level.
pub open spec fn level_text(level: Level, c: CatalogView) -> Seq<char> {
    match level {
        Level::Project => project::project_text(c),
        Level::Overview => overview::overview_text(c),
    }
}

/// Draws the view of a level.
pub fn render(level: Level, catalog: &Catalog) -> (r: Result<String>)
    ensures
        r matches Ok(text) && text@ == level_text(level, catalog@),
{
    match level {
        Level::Project => Ok(project::render(catalog)),
        Level::Overview => Ok(overview::render(catalog)),
    }
}

} // verus!
