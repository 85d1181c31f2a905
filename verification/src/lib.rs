pub mod cell;
pub mod element;
pub mod qtree;
pub mod util;
pub mod world;

use vstd::prelude::*;

verus! {

/// Width of the window, in pixels.
pub const SCREEN_WIDTH: u32 = 1280;

/// Height of the window, in pixels.
pub const SCREEN_HEIGHT: u32 = 720;

/// Width of the element panel on the right of the window, in pixels.
pub const GUI_WIDTH: u32 = 128;

} // verus!
