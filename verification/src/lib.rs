//! Course coverage data for Mario Kart Tour: item and course ids, the item
//! and inventory database with its merge rules, coverage statistics, and the
//! decision logic of the screenshot importer.
use vstd::prelude::*;

pub mod agents;
pub mod data;
pub mod deduce;
pub mod edit;
pub mod export;
pub mod html;
pub mod ids;
pub mod import;
pub mod keyed;
pub mod laws;
pub mod listing;
pub mod model;
pub mod nav;
pub mod rows;
pub mod screenshot;
pub mod sheet;
pub mod stats;
pub mod text;
pub mod update;
pub mod wiki;
pub mod wikitext;

verus! {
} // verus!
