use vstd::prelude::*;
use crate::search;
use crate::ui;

verus! {

/// The whole setup: the engine's and the page's.
pub struct Config {
    pub search: search::Config,
    pub ui: ui::Config,
}

} // verus!
