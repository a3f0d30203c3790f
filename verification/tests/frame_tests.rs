use gifmonster::{ensure_consistent_dimensions, FrameError, RgbaFrame};

fn blank(width: u32, height: u32) -> RgbaFrame {
    RgbaFrame::new(width, height, vec![0; (width * height * 4) as usize]).expect("valid frame")
}

#[test]
fn new_frame_keeps_its_fields() {
    let pixels: Vec<u8> = (0..24).collect();
    let frame = RgbaFrame::new(2, 3, pixels.clone()).expect("valid frame");
    assert_eq!(frame.width, 2);
    assert_eq!(frame.height, 3);
    assert_eq!(frame.pixels, pixels);
    assert_eq!(frame.pixel_count(), 6);
}

#[test]
fn new_frame_refuses_wrong_buffer_length() {
    let short = RgbaFrame::new(2, 3, vec![0; 23]);
    assert_eq!(
        short.err(),
        Some(FrameError::InvalidBufferLength { expected: 24, actual: 23 })
    );

    let long = RgbaFrame::new(1, 1, vec![0; 5]);
    assert_eq!(
        long.err(),
        Some(FrameError::InvalidBufferLength { expected: 4, actual: 5 })
    );
}

#[test]
fn empty_frame_is_accepted() {
    let frame = RgbaFrame::new(0, 0, Vec::new()).expect("valid frame");
    assert_eq!(frame.pixel_count(), 0);

    let zero_height = RgbaFrame::new(7, 0, Vec::new()).expect("valid frame");
    assert_eq!(zero_height.pixel_count(), 0);
}

#[test]
fn frames_of_one_size_are_consistent() {
    let frames = vec![blank(2, 2), blank(2, 2), blank(2, 2)];
    assert_eq!(ensure_consistent_dimensions(&frames), Ok(()));

    let single = vec![blank(5, 1)];
    assert_eq!(ensure_consistent_dimensions(&single), Ok(()));
}

#[test]
fn first_mismatched_frame_is_reported() {
    let frames = vec![blank(2, 2), blank(2, 2), blank(3, 2), blank(1, 1)];
    assert_eq!(
        ensure_consistent_dimensions(&frames),
        Err(FrameError::DimensionMismatch {
            frame: 2,
            width: 3,
            height: 2,
            expected_width: 2,
            expected_height: 2,
        })
    );

    let taller = vec![blank(2, 2), blank(2, 3)];
    assert_eq!(
        ensure_consistent_dimensions(&taller),
        Err(FrameError::DimensionMismatch {
            frame: 1,
            width: 2,
            height: 3,
            expected_width: 2,
            expected_height: 2,
        })
    );
}
