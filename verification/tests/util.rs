use martian_sand::util::draw::{clear, pixel};
use martian_sand::util::underflow;

#[test]
fn underflow_keeps_values_up_to_the_frame_size() {
    assert_eq!(underflow(0), 0);
    assert_eq!(underflow(1280 * 720 * 4), 3686400);
    assert_eq!(underflow(3686401), 0);
    assert_eq!(underflow(usize::MAX), 0);
    assert_eq!(underflow(5usize.wrapping_sub(7)), 0);
}

#[test]
fn clear_blackens_every_byte() {
    let mut frame = vec![7u8; 37];
    clear(&mut frame);
    assert!(frame.iter().all(|b| *b == 0));
    let mut empty: Vec<u8> = vec![];
    clear(&mut empty);
    assert!(empty.is_empty());
}

#[test]
fn pixel_writes_one_opaque_rgba_quad() {
    let mut frame = vec![0u8; 1280 * 4 * 2];
    pixel(&mut frame, 3, 1, [10, 20, 30]);
    let i = (3 + 1280) * 4;
    assert_eq!(&frame[i..i + 4], &[10, 20, 30, 0xff]);
    assert_eq!(frame.iter().filter(|b| **b != 0).count(), 4);
}

#[test]
fn pixel_past_the_frame_is_left_out() {
    let mut frame = vec![1u8; 1280 * 4];
    pixel(&mut frame, 0, 1, [10, 20, 30]);
    assert!(frame.iter().all(|b| *b == 1));
}
