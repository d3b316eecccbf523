//! Search over a feed of recipes: query tokenizing, taxonomy filter
//! detection, fuzzy ranking and the page-side filter bookkeeping.

pub mod config;
pub mod keyed;
pub mod laws;
pub mod matcher;
pub mod search;
pub mod text;
pub mod ui;
