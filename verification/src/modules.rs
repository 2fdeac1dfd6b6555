//! The modules of a bomb whose rules the library knows.

pub mod wires;
