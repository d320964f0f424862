//! What the interactive surface needs from the core: selection paths into
//! the graph tree and the actions it reports back.

use vstd::prelude::*;

pub mod treepath;

verus! {

/// What the event handler asks of the surrounding loop.
#[derive(Debug, Copy, Clone, Eq, PartialEq, Hash, Structural)]
pub enum UiAction {
    Redraw,
    Close,
}

} // verus!
