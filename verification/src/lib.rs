//! A falling-sand cellular automaton: a dense 2D grid of empty, sand and
//! block cells, advanced one tick at a time with gravity, collision and
//! sliding rules, plus a coarse "room" activity map that lets a tick skip
//! regions where nothing has moved for a while.

pub mod datatype;
mod rng;
pub mod world_grid;
