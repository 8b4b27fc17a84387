//! A terminal snake game: the snake's movement state machine, a mirrored
//! screen buffer with a restorable overlay message, and the per-tick game
//! rules that combine them.

use vstd::prelude::*;

pub mod snake;
pub mod term;
pub mod game;

verus! {

/// A terminal coordinate component.
pub type TermInt = u16;

/// A terminal cell as (column, row); (0, 0) is the top-left corner.
pub type Coords = (u16, u16);

} // verus!
