//! Where the layout has put the windows.

use vstd::prelude::*;

use crate::geometry::Rect;

verus! {

/// Where one window is.
#[derive(Clone, Copy, Debug, PartialEq, Eq, Structural)]
pub struct Placement {
    /// The window.
    pub id: u64,
    /// The output that it is on.
    pub output: u64,
    /// Its rectangle, in logical pixels.
    pub rect: Rect,
    /// Whether any of it is shown: it is not while it is scrolled off the screen or on a workspace
    /// that is not active.
    pub visible: bool,
}

/// Where every window is, and which has the focus.
#[derive(Clone, Debug, PartialEq, Eq)]
pub struct Arrangement {
    pub placements: Vec<Placement>,
    pub focused: Option<u64>,
    pub focused_output: Option<u64>,
}

impl Default for Arrangement {
    fn default() -> (arrangement: Arrangement)
        ensures
            arrangement.placements@ == Seq::<Placement>::empty(),
            arrangement.focused is None,
            arrangement.focused_output is None,
    {
        Arrangement { placements: Vec::new(), focused: None, focused_output: None }
    }
}

/// Whether the window `id` is one of `placements`.
pub open spec fn is_arranged(placements: Seq<Placement>, id: u64) -> bool {
    exists|i: int| 0 <= i < placements.len() && (#[trigger] placements[i]).id == id
}

} // verus!
