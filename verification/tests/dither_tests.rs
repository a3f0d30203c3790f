use gifmonster::dither::{bayer_dither, diffusion_targets, scan_position, BAYER_8X8};
use gifmonster::{Palette, RgbaFrame};

fn gradient_frame(width: u32, height: u32) -> RgbaFrame {
    let mut pixels = Vec::with_capacity(width as usize * height as usize * 4);
    for y in 0..height {
        for x in 0..width {
            let v = ((x + y) * 255 / (width + height - 2).max(1)) as u8;
            pixels.extend_from_slice(&[v, v, v, 255]);
        }
    }

    RgbaFrame::new(width, height, pixels).expect("valid frame")
}

fn grayscale_palette() -> Palette {
    (0..=255)
        .step_by(16)
        .map(|v| [v as u8, v as u8, v as u8])
        .collect()
}

/// Nearest palette entry by squared RGB distance.
fn nearest_rgb(palette: &Palette) -> impl Fn(u8, u8, u8) -> u8 + '_ {
    move |r, g, b| {
        let mut best = 0usize;
        let mut best_d = u32::MAX;
        for (i, c) in palette.iter().enumerate() {
            let dr = r as i32 - c[0] as i32;
            let dg = g as i32 - c[1] as i32;
            let db = b as i32 - c[2] as i32;
            let d = (dr * dr + dg * dg + db * db) as u32;
            if d < best_d {
                best_d = d;
                best = i;
            }
        }
        best as u8
    }
}

/// Uses an RGB nearest-color choice in place of the OKLab search (floating
/// point, in the application); it exercises the library's ordered dithering.
#[test]
fn bayer_indices_are_valid() {
    let frame = gradient_frame(32, 32);
    let palette = grayscale_palette();
    let indices = bayer_dither(&frame, &palette, &nearest_rgb(&palette));

    assert_eq!(indices.len(), frame.pixel_count());
    assert!(indices.iter().all(|idx| (*idx as usize) < palette.len()));
}

fn recording_nearest<'a>(
    seen: &'a std::cell::RefCell<Vec<(u8, u8, u8)>>,
) -> impl Fn(u8, u8, u8) -> u8 + 'a {
    move |r, g, b| {
        seen.borrow_mut().push((r, g, b));
        (seen.borrow().len() - 1) as u8
    }
}

#[test]
fn bayer_offsets_follow_the_threshold_matrix() {
    // One row of eight pixels sees thresholds 0, 48, 12, 60, 3, 51, 15, 63.
    let mut pixels = Vec::new();
    for _ in 0..8 {
        pixels.extend_from_slice(&[100, 100, 100, 255]);
    }
    let frame = RgbaFrame::new(8, 1, pixels).expect("valid frame");
    let palette: Palette = vec![[0, 0, 0]];
    let seen = std::cell::RefCell::new(Vec::new());

    let indices = bayer_dither(&frame, &palette, &recording_nearest(&seen));

    assert_eq!(indices, vec![0, 1, 2, 3, 4, 5, 6, 7]);
    let expected: Vec<(u8, u8, u8)> = [84u8, 108, 90, 114, 85, 109, 91, 116]
        .iter()
        .map(|&v| (v, v, v))
        .collect();
    assert_eq!(seen.borrow().clone(), expected);
}

#[test]
fn bayer_offsets_are_clamped_to_byte_range() {
    let mut pixels = vec![0u8; 8 * 4];
    pixels[0..4].copy_from_slice(&[5, 250, 0, 255]);
    pixels[28..32].copy_from_slice(&[250, 5, 0, 255]);
    let frame = RgbaFrame::new(8, 1, pixels).expect("valid frame");
    let palette: Palette = vec![[0, 0, 0]];
    let seen = std::cell::RefCell::new(Vec::new());

    bayer_dither(&frame, &palette, &recording_nearest(&seen));

    let seen = seen.borrow();
    assert_eq!(seen[0], (0, 234, 0));
    assert_eq!(seen[7], (255, 21, 16));
}

#[test]
fn bayer_matrix_repeats_every_eight_rows() {
    let frame = RgbaFrame::new(1, 9, vec![128; 9 * 4]).expect("valid frame");
    let palette: Palette = vec![[0, 0, 0]];
    let seen = std::cell::RefCell::new(Vec::new());

    bayer_dither(&frame, &palette, &recording_nearest(&seen));

    // Column 0 thresholds by row: 0, 32, 8, 40, 2, 34, 10, 42, then 0 again.
    let reds: Vec<u8> = seen.borrow().iter().map(|c| c.0).collect();
    assert_eq!(reds, vec![112, 128, 116, 132, 113, 129, 117, 133, 112]);
}

#[test]
fn bayer_without_palette_maps_to_zero() {
    let frame = RgbaFrame::new(3, 2, vec![77; 24]).expect("valid frame");
    let seen = std::cell::RefCell::new(Vec::new());
    let indices = bayer_dither(&frame, &Vec::new(), &recording_nearest(&seen));
    assert_eq!(indices, vec![0; 6]);
    assert!(seen.borrow().is_empty());
}

#[test]
fn bayer_matches_float_offsets() {
    for channel in [0u8, 1, 15, 16, 17, 100, 239, 240, 254, 255] {
        let frame = RgbaFrame::new(8, 8, vec![channel; 8 * 8 * 4]).expect("valid frame");
        let palette: Palette = vec![[0, 0, 0]];
        let seen = std::cell::RefCell::new(Vec::new());

        bayer_dither(&frame, &palette, &recording_nearest(&seen));

        let seen = seen.borrow();
        for y in 0..8 {
            for x in 0..8 {
                let threshold = BAYER_8X8[y][x] as f32 / 63.0 - 0.5;
                let offset = threshold * 32.0;
                let expected = (channel as f32 + offset).clamp(0.0, 255.0) as u8;
                assert_eq!(seen[y * 8 + x], (expected, expected, expected), "channel {} at {},{}", channel, x, y);
            }
        }
    }
}

#[test]
fn scan_alternates_row_direction() {
    let order: Vec<(usize, usize)> = (0..9).map(|step| scan_position(3, step)).collect();
    assert_eq!(
        order,
        vec![(0, 0), (1, 0), (2, 0), (2, 1), (1, 1), (0, 1), (0, 2), (1, 2), (2, 2)]
    );
    assert_eq!(scan_position(1, 4), (0, 4));
}

#[test]
fn kernel_spreads_error_ahead_and_below() {
    // Even row: scanning left to right.
    assert_eq!(
        diffusion_targets(4, 3, 1, 0),
        vec![(2, 0, 7), (0, 1, 3), (1, 1, 5), (2, 1, 1)]
    );
    // Odd row: scanning right to left.
    assert_eq!(
        diffusion_targets(4, 3, 2, 1),
        vec![(1, 1, 7), (3, 2, 3), (2, 2, 5), (1, 2, 1)]
    );
}

#[test]
fn kernel_drops_neighbors_outside_the_frame() {
    assert_eq!(diffusion_targets(4, 3, 0, 0), vec![(1, 0, 7), (0, 1, 5), (1, 1, 1)]);
    assert_eq!(diffusion_targets(4, 3, 3, 0), vec![(2, 1, 3), (3, 1, 5)]);
    assert_eq!(diffusion_targets(4, 3, 0, 1), vec![(1, 2, 3), (0, 2, 5)]);
    assert_eq!(diffusion_targets(4, 3, 2, 2), vec![(3, 2, 7)]);
    assert_eq!(diffusion_targets(4, 3, 1, 2), vec![(2, 2, 7)]);
    assert_eq!(diffusion_targets(4, 4, 2, 3), vec![(1, 3, 7)]);
    assert_eq!(diffusion_targets(1, 1, 0, 0), vec![]);
}

#[test]
fn every_diffused_share_lands_on_a_later_pixel() {
    let (width, height) = (5usize, 4usize);
    let mut visited_at = vec![0usize; width * height];
    for step in 0..width * height {
        let (x, y) = scan_position(width, step);
        visited_at[y * width + x] = step;
    }
    let mut sorted = visited_at.clone();
    sorted.sort();
    assert_eq!(sorted, (0..width * height).collect::<Vec<_>>());

    for y in 0..height {
        for x in 0..width {
            let targets = diffusion_targets(width, height, x, y);
            let total: u32 = targets.iter().map(|t| t.2 as u32).sum();
            assert!(total <= 16);
            if x >= 1 && x + 1 < width && y + 1 < height {
                assert_eq!(total, 16);
            }
            for (nx, ny, _) in targets {
                assert!(visited_at[ny * width + nx] > visited_at[y * width + x]);
            }
        }
    }
}
