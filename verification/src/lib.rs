//! ForceAtlas2, a force-directed continuous graph layout: edges pull their
//! ends together, nodes push each other apart, and gravity keeps the whole
//! near the origin.

pub mod forces;
pub mod layout;
pub mod trees;
pub mod util;

pub use layout::{Layout, Node, NodeView, Settings};
pub use util::{Coord, CoordSeq, Edge, Vec2, Vec3, VecN};
