use gifmonster::encode::{encode_indexed_frames, EncodeError};
use gifmonster::{EncodeConfig, IndexedFrame, RgbaFrame};

fn solid_rgba(width: u32, height: u32, rgba: [u8; 4]) -> RgbaFrame {
    let mut pixels = Vec::new();
    for _ in 0..(width * height) {
        pixels.extend_from_slice(&rgba);
    }
    RgbaFrame::new(width, height, pixels).unwrap()
}

fn indexed(width: u32, height: u32, indices: Vec<u8>, delay_cs: u16) -> IndexedFrame {
    IndexedFrame {
        width,
        height,
        indices,
        palette: vec![[0, 0, 0], [255, 0, 0], [0, 255, 0]],
        delay_cs,
    }
}

fn decode(bytes: &[u8]) -> Vec<(u16, u16, u16, u16, Option<u8>, Vec<u8>, u16)> {
    let mut options = gif::DecodeOptions::new();
    options.set_color_output(gif::ColorOutput::Indexed);
    let mut decoder = options.read_info(bytes).expect("valid GIF header");
    let mut frames = Vec::new();
    while let Some(frame) = decoder.read_next_frame().expect("valid frame") {
        frames.push((
            frame.left,
            frame.top,
            frame.width,
            frame.height,
            frame.transparent,
            frame.buffer.to_vec(),
            frame.delay,
        ));
    }
    frames
}

#[test]
fn single_frame_file_layout_and_stats() {
    let config = EncodeConfig::default();
    let frames = vec![indexed(2, 2, vec![0, 1, 2, 1], 7)];
    let sources = vec![solid_rgba(2, 2, [1, 2, 3, 255])];
    let run = encode_indexed_frames(&frames, &sources, &config);
    assert_eq!(run.progress, vec![1]);
    let (bytes, stats) = run.result.unwrap();

    assert_eq!(&bytes[..6], b"GIF89a");
    assert_eq!(&bytes[6..10], &[2, 0, 2, 0]);
    assert_eq!(&bytes[10..19], &[0x80, 0, 0, 0, 0, 0, 0, 0, 0]);
    assert_eq!(&bytes[19..22], &[0x21, 0xFF, 0x0B]);
    assert_eq!(&bytes[22..33], b"NETSCAPE2.0");
    assert_eq!(&bytes[33..38], &[3, 1, 0, 0, 0]);
    assert_eq!(&bytes[38..46], &[0x21, 0xF9, 4, 0, 7, 0, 0, 0]);
    assert_eq!(*bytes.last().unwrap(), 0x3B);

    assert_eq!(stats.file_size_bytes, bytes.len() as u64);
    assert_eq!(stats.frame_count, 1);
    assert_eq!(stats.duration_ms, 70);
    assert_eq!((stats.width, stats.height), (2, 2));

    let decoded = decode(&bytes);
    assert_eq!(decoded.len(), 1);
    assert_eq!(decoded[0], (0, 0, 2, 2, None, vec![0, 1, 2, 1], 7));
}

#[test]
fn unchanged_pixels_become_transparent_and_frame_is_cropped() {
    let config = EncodeConfig::default();
    let first = solid_rgba(4, 3, [10, 20, 30, 255]);
    let mut second = first.clone();
    // Pixel (2, 1) changes.
    let at = (1 * 4 + 2) * 4;
    second.pixels[at] = 200;
    let frames = vec![
        indexed(4, 3, vec![1; 12], 10),
        indexed(4, 3, {
            let mut v = vec![1; 12];
            v[6] = 2;
            v
        }, 10),
    ];
    let run = encode_indexed_frames(&frames, &[first, second], &config);
    assert_eq!(run.progress, vec![1, 1]);
    let (bytes, stats) = run.result.unwrap();

    assert_eq!(stats.duration_ms, 200);
    let decoded = decode(&bytes);
    assert_eq!(decoded.len(), 2);
    assert_eq!(decoded[0].5, vec![1; 12]);
    // The new black entry (index 3) is the transparent one; only the
    // changed pixel is written.
    assert_eq!(decoded[1], (2, 1, 1, 1, Some(3), vec![2], 10));
}

#[test]
fn transparency_can_be_switched_off() {
    let mut config = EncodeConfig::default();
    config.transparency_optimization = false;
    let source = solid_rgba(2, 1, [5, 5, 5, 255]);
    let frames = vec![indexed(2, 1, vec![0, 1], 3), indexed(2, 1, vec![0, 1], 3)];
    let (bytes, _) = encode_indexed_frames(&frames, &[source.clone(), source], &config)
        .result
        .unwrap();
    let decoded = decode(&bytes);
    assert_eq!(decoded[1], (0, 0, 2, 1, None, vec![0, 1], 3));
}

#[test]
fn refuses_empty_and_mismatched_input() {
    let config = EncodeConfig::default();
    let source = solid_rgba(2, 1, [0, 0, 0, 255]);

    let run = encode_indexed_frames(&[], &[], &config);
    assert_eq!(run.result.unwrap_err(), EncodeError::NoFrames);
    assert!(run.progress.is_empty());

    let frames = vec![indexed(2, 1, vec![0, 0], 1)];
    let run = encode_indexed_frames(&frames, &[], &config);
    assert_eq!(
        run.result.unwrap_err(),
        EncodeError::FrameCountMismatch { indexed: 1, source: 0 }
    );
    assert!(run.progress.is_empty());

    let wide = vec![indexed(70000, 1, vec![], 1)];
    let run = encode_indexed_frames(&wide, &[source.clone()], &config);
    assert_eq!(
        run.result.unwrap_err(),
        EncodeError::DimensionsTooLarge { width: 70000, height: 1 }
    );
    assert!(run.progress.is_empty());

    let uneven = vec![indexed(2, 1, vec![0, 0], 1), indexed(1, 2, vec![0, 0], 1)];
    let run = encode_indexed_frames(&uneven, &[source.clone(), source.clone()], &config);
    assert_eq!(run.result.unwrap_err(), EncodeError::FrameDimensionMismatch { frame: 1 });
    assert_eq!(run.progress, vec![1]);

    let short = vec![indexed(2, 1, vec![0], 1)];
    let run = encode_indexed_frames(&short, &[source.clone()], &config);
    assert_eq!(
        run.result.unwrap_err(),
        EncodeError::InvalidIndexBufferLength { frame: 0, expected: 2, actual: 1 }
    );
    assert!(run.progress.is_empty());

    let third_short = vec![
        indexed(2, 1, vec![0, 0], 1),
        indexed(2, 1, vec![0, 1], 1),
        indexed(2, 1, vec![1], 1),
    ];
    let run = encode_indexed_frames(
        &third_short,
        &[source.clone(), source.clone(), source],
        &config,
    );
    assert_eq!(
        run.result.unwrap_err(),
        EncodeError::InvalidIndexBufferLength { frame: 2, expected: 2, actual: 1 }
    );
    assert_eq!(run.progress, vec![1, 1]);
}
