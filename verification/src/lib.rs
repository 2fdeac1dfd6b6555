//! Rules of a bomb defusal puzzle game: the seeded generator of manual
//! rules, the widgets on a bomb's edges, and the Wires module.

pub mod binary64;
pub mod chance;
pub mod edgework;
pub mod errors;
pub mod modules;
pub mod random;
