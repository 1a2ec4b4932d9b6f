//! Grid pathfinding: an occupancy grid of blocked cells, an A* search over a
//! bounded rectangle of it, multi-waypoint routes, and the per-agent request
//! bookkeeping that feeds a discrete movement step.
pub mod agents;
pub mod grid;
pub mod navmesh;
pub mod pos2;
pub mod stage;
mod search;
mod walks;

use vstd::prelude::*;

verus! {

/// The demo window's title: the map glyph, without its variation selector,
/// then " Demo".
pub fn fixed_demo_label() -> (r: String)
    ensures
        r@ == seq!['\u{1F5FA}', ' ', 'D', 'e', 'm', 'o'],
{
    let r = "\u{1F5FA} Demo".to_string();
    proof {
        reveal_strlit("\u{1F5FA} Demo");
    }
    r
}

} // verus!
