//! A walk through a randomly carved maze.
//!
//! A perfect maze is carved once from a seedable random source; a walker
//! wanders through it one cell at a time and never turns straight back but
//! at dead ends; an animation controller turns those steps into camera
//! motions (walk, turn, and a one-time roll on each special tile).
use vstd::prelude::*;

pub mod direction;
pub mod random;
pub mod maze;
mod maze_lemmas;
pub mod generate;
pub mod drawing;
pub mod walker;
pub mod specials;
pub mod animation;
pub mod motion;
pub mod texture;
pub mod layout;

verus! {

} // verus!
