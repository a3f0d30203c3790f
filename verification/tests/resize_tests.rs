use gifmonster::resize::resize_frame_to;
use gifmonster::RgbaFrame;

fn gradient(width: u32, height: u32) -> RgbaFrame {
    let mut pixels = Vec::new();
    for y in 0..height {
        for x in 0..width {
            pixels.extend_from_slice(&[(x * 10) as u8, (y * 10) as u8, 128, 255]);
        }
    }
    RgbaFrame::new(width, height, pixels).expect("valid frame")
}

#[test]
fn frame_of_the_requested_size_is_kept() {
    let frame = gradient(5, 4);
    let kept = resize_frame_to(frame.clone(), 5, 4);
    assert_eq!((kept.width, kept.height), (5, 4));
    assert_eq!(kept.pixels, frame.pixels);
}

#[test]
fn frame_is_scaled_to_the_requested_size() {
    let frame = gradient(8, 6);
    let smaller = resize_frame_to(frame.clone(), 4, 3);
    assert_eq!((smaller.width, smaller.height), (4, 3));
    assert_eq!(smaller.pixels.len(), 4 * 4 * 3);
    assert_ne!(smaller.pixels, frame.pixels);

    let one = resize_frame_to(frame, 1, 1);
    assert_eq!((one.width, one.height), (1, 1));
    assert_eq!(one.pixels.len(), 4);
}

#[test]
fn solid_frame_stays_solid_when_scaled() {
    let frame = RgbaFrame::new(6, 6, [40u8, 80, 120, 255].repeat(36)).expect("valid frame");
    let scaled = resize_frame_to(frame, 3, 2);
    for pixel in scaled.pixels.chunks_exact(4) {
        assert_eq!(pixel, &[40, 80, 120, 255]);
    }
}
