pub mod draw;

use crate::{SCREEN_HEIGHT, SCREEN_WIDTH};
use vstd::prelude::*;

verus! {

/// The number of bytes in a frame: four colour bytes for every pixel of the window.
pub open spec fn frame_bytes() -> int {
    SCREEN_WIDTH * SCREEN_HEIGHT * 4
}

/// Maps a value that went past the end of the frame (as a subtraction that
/// wrapped below zero does) back to 0, and leaves any other value as it is.
pub fn underflow(value: usize) -> (r: usize)
    ensures
        r == if value > frame_bytes() { 0 } else { value },
{
    let max = (SCREEN_WIDTH * SCREEN_HEIGHT * 4) as usize;
    if value > max {
        return 0;
    }
    value
}

/// The frame's byte count is where the row below the last one would start:
/// every byte of every pixel of the window lies below it.
pub proof fn law_frame_bytes_cover_the_window()
    ensures
        frame_bytes() == draw::pixel_index(0, SCREEN_HEIGHT as int),
        forall|x: int, y: int|
            0 <= x < SCREEN_WIDTH && 0 <= y < SCREEN_HEIGHT ==> #[trigger] draw::pixel_index(x, y) + 4
                <= frame_bytes(),
{
}

} // verus!
