//! Verified core of a gravitational N-body solver: the split of the bodies
//! into per-thread chunks, the Barnes-Hut octree over lattice positions with
//! its aggregation laws, the depth-first walk that queries it, and the small
//! state machines of the viewer's input and clock.

pub mod clock;
pub mod input;
pub mod octree;
pub mod partition;
pub mod walk;
