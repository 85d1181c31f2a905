//! Writing pixels into an RGBA frame of `SCREEN_WIDTH` pixels per row.
use crate::{SCREEN_HEIGHT, SCREEN_WIDTH};
use vstd::prelude::*;

verus! {

/// The index of the first of the four bytes of the pixel at `(x, y)`.
pub open spec fn pixel_index(x: int, y: int) -> int {
    (x + y * SCREEN_WIDTH) * 4
}

/// `frame` with the pixel whose first byte is at `i` set to `colour`, fully
/// opaque; unchanged when `i` lies past its end.
pub open spec fn painted(frame: Seq<u8>, i: int, colour: Seq<u8>) -> Seq<u8> {
    if i >= frame.len() {
        frame
    } else {
        frame.update(i, colour[0]).update(i + 1, colour[1]).update(i + 2, colour[2]).update(
            i + 3,
            0xffu8,
        )
    }
}

/// Sets every byte of the frame to black.
pub fn clear(frame: &mut [u8])
    ensures
        final(frame)@.len() == old(frame)@.len(),
        forall|i: int| 0 <= i < final(frame)@.len() ==> #[trigger] final(frame)@[i] == 0,
{
    let mut i: usize = 0;
    while i < frame.len()
        invariant
            frame@.len() == old(frame)@.len(),
            0 <= i <= frame@.len(),
            forall|j: int| 0 <= j < i ==> #[trigger] frame@[j] == 0,
        decreases frame@.len() - i,
    {
        frame[i] = 0x00;
        i = i + 1;
    }
}

/// The index of the pixel at `(x, y)`; each pixel takes four bytes (RGBA).
fn get_index(x: usize, y: usize) -> (i: usize)
    requires
        pixel_index(x as int, y as int) <= usize::MAX,
    ensures
        i == pixel_index(x as int, y as int),
{
    (x + (y * SCREEN_WIDTH as usize)) * 4
}

/// Draws one opaque pixel of `colour` at `(x, y)`; a pixel past the end of the
/// frame is left out.
pub fn pixel(frame: &mut [u8], x: usize, y: usize, colour: [u8; 3])
    requires
        pixel_index(x as int, y as int) <= usize::MAX,
        pixel_index(x as int, y as int) < old(frame)@.len() ==> pixel_index(x as int, y as int) + 3
            < old(frame)@.len(),
    ensures
        final(frame)@ == painted(old(frame)@, pixel_index(x as int, y as int), colour@),
{
    let idx = get_index(x, y);
    if idx >= frame.len() {
        return ;
    }
    frame[idx] = colour[0];
    frame[idx + 1] = colour[1];
    frame[idx + 2] = colour[2];
    frame[idx + 3] = 0xff;
}

/// Pixels are laid out row by row, four bytes each: the first pixel starts
/// at byte 0, the next pixel of a row four bytes on, the pixel below one row
/// of `SCREEN_WIDTH` pixels on; distinct pixels of a row-major frame own
/// disjoint groups of four bytes, all inside a frame of the window's size.
pub proof fn law_pixel_layout()
    ensures
        pixel_index(0, 0) == 0,
        forall|x: int, y: int| #[trigger] pixel_index(x + 1, y) == pixel_index(x, y) + 4,
        forall|x: int, y: int| #[trigger] pixel_index(x, y + 1) == pixel_index(x, y) + 4 * SCREEN_WIDTH,
        forall|x1: int, y1: int, x2: int, y2: int|
            0 <= x1 < SCREEN_WIDTH && 0 <= x2 < SCREEN_WIDTH && (x1 != x2 || y1 != y2) ==> #[trigger] pixel_index(x1, y1) + 4
                <= #[trigger] pixel_index(x2, y2) || pixel_index(x2, y2) + 4 <= pixel_index(x1, y1),
        forall|x: int, y: int|
            0 <= x < SCREEN_WIDTH && 0 <= y < SCREEN_HEIGHT ==> 0 <= #[trigger] pixel_index(x, y) && pixel_index(x, y) + 4
                <= SCREEN_WIDTH * SCREEN_HEIGHT * 4,
{
}

} // verus!
