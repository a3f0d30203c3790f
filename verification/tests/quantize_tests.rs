use gifmonster::quantize::{map_to_palette, median_cut, median_cut_with_quality, palette_by_frequency};
use gifmonster::{Palette, RgbaFrame};

fn gradient_frame(width: u32, height: u32) -> RgbaFrame {
    let mut pixels = Vec::with_capacity(width as usize * height as usize * 4);
    for y in 0..height {
        for x in 0..width {
            let r = (x * 255 / (width - 1).max(1)) as u8;
            let g = (y * 255 / (height - 1).max(1)) as u8;
            let b = ((x + y) % 256) as u8;
            pixels.extend_from_slice(&[r, g, b, 255]);
        }
    }

    RgbaFrame::new(width, height, pixels).expect("valid frame")
}

/// Stand-in for the clustering step: keeps the most frequent colors.
fn keep_most_frequent(entries: &Vec<(u32, u32)>, max_colors: usize, _quality: u8) -> Palette {
    let mut palette = palette_by_frequency(entries);
    palette.truncate(max_colors);
    palette
}

/// Nearest palette entry by squared RGB distance.
fn nearest_rgb(palette: &Palette) -> impl Fn(u8, u8, u8) -> u8 + '_ {
    move |r, g, b| {
        let mut best = 0usize;
        let mut best_d = u32::MAX;
        for (i, c) in palette.iter().enumerate() {
            let dr = r as i32 - c[0] as i32;
            let dg = g as i32 - c[1] as i32;
            let db = b as i32 - c[2] as i32;
            let d = (dr * dr + dg * dg + db * db) as u32;
            if d < best_d {
                best_d = d;
                best = i;
            }
        }
        best as u8
    }
}

/// Runs the library's histogram and budget handling with `keep_most_frequent`
/// in place of the OKLab median cut and k-means (floating point, in the
/// application), so that color reduction itself is not exercised here.
#[test]
fn median_cut_returns_at_most_requested_colors() {
    let frame = gradient_frame(64, 64);
    let palette = median_cut(&frame, 256, &keep_most_frequent);
    assert!(!palette.is_empty());
    assert!(palette.len() <= 256);
}

/// Uses `keep_most_frequent` and an RGB nearest-color choice in place of the
/// OKLab steps (floating point, in the application); it exercises the
/// library's mapping, not the OKLab color choice.
#[test]
fn mapped_indices_stay_in_palette_bounds() {
    let frame = gradient_frame(32, 32);
    let palette = median_cut(&frame, 64, &keep_most_frequent);
    let indices = map_to_palette(&frame, &palette, &nearest_rgb(&palette));

    assert_eq!(indices.len(), frame.pixel_count());
    assert!(indices.iter().all(|idx| (*idx as usize) < palette.len()));
}

/// Uses `keep_most_frequent` in place of the OKLab median cut (floating
/// point, in the application); it exercises the quality-dependent histogram.
#[test]
fn lower_quality_reduces_unique_palette_pressure() {
    let frame = gradient_frame(128, 128);
    let high = median_cut_with_quality(&frame, 256, 100, &keep_most_frequent);
    let low = median_cut_with_quality(&frame, 256, 35, &keep_most_frequent);
    assert!(low.len() <= high.len());
}
