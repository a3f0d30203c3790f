use gifmonster::quantize::{
    color_counts_fit,
    desired_anchor_count, kmeans_iterations_for_quality, map_to_palette, median_cut,
    median_cut_with_quality, pack_rgb, palette_by_frequency, quality_color_shift,
    quantize_channel, temporal_window_range, unpack_rgb,
};
use gifmonster::{Palette, RgbaFrame};
use std::cell::{Cell, RefCell};

fn frame_from_pixels(width: u32, height: u32, pixels: &[[u8; 4]]) -> RgbaFrame {
    let bytes: Vec<u8> = pixels.iter().flat_map(|p| p.iter().copied()).collect();
    RgbaFrame::new(width, height, bytes).expect("valid frame")
}

fn never_called(_entries: &Vec<(u32, u32)>, _max_colors: usize, _quality: u8) -> Palette {
    panic!("the color budget was not exceeded")
}

#[test]
fn quality_selects_color_shift() {
    assert_eq!(quality_color_shift(255), 0);
    assert_eq!(quality_color_shift(100), 0);
    assert_eq!(quality_color_shift(95), 0);
    assert_eq!(quality_color_shift(94), 1);
    assert_eq!(quality_color_shift(85), 1);
    assert_eq!(quality_color_shift(84), 2);
    assert_eq!(quality_color_shift(70), 2);
    assert_eq!(quality_color_shift(69), 3);
    assert_eq!(quality_color_shift(50), 3);
    assert_eq!(quality_color_shift(49), 4);
    assert_eq!(quality_color_shift(1), 4);
    assert_eq!(quality_color_shift(0), 4);
}

#[test]
fn quality_selects_refinement_rounds() {
    assert_eq!(kmeans_iterations_for_quality(100), 6);
    assert_eq!(kmeans_iterations_for_quality(95), 6);
    assert_eq!(kmeans_iterations_for_quality(94), 5);
    assert_eq!(kmeans_iterations_for_quality(80), 5);
    assert_eq!(kmeans_iterations_for_quality(79), 4);
    assert_eq!(kmeans_iterations_for_quality(60), 4);
    assert_eq!(kmeans_iterations_for_quality(59), 3);
    assert_eq!(kmeans_iterations_for_quality(40), 3);
    assert_eq!(kmeans_iterations_for_quality(39), 2);
    assert_eq!(kmeans_iterations_for_quality(0), 2);
}

#[test]
fn quality_selects_anchor_count() {
    assert_eq!(desired_anchor_count(100), 6);
    assert_eq!(desired_anchor_count(93), 6);
    assert_eq!(desired_anchor_count(92), 7);
    assert_eq!(desired_anchor_count(50), 12);
    assert_eq!(desired_anchor_count(20), 16);
    assert_eq!(desired_anchor_count(1), 16);
    assert_eq!(desired_anchor_count(0), 16);
    assert_eq!(desired_anchor_count(200), 6);
}

#[test]
fn channels_move_to_bucket_centers() {
    assert_eq!(quantize_channel(200, 0), 200);
    assert_eq!(quantize_channel(200, 4), 200);
    assert_eq!(quantize_channel(255, 4), 248);
    assert_eq!(quantize_channel(14, 1), 15);
    assert_eq!(quantize_channel(255, 1), 255);
    assert_eq!(quantize_channel(0, 3), 4);
    assert_eq!(quantize_channel(17, 2), 18);
    assert_eq!(quantize_channel(255, 8), 128);
    assert_eq!(quantize_channel(3, 9), 255);
}

#[test]
fn colors_pack_into_24_bit_keys() {
    assert_eq!(pack_rgb(0x12, 0x34, 0x56), 0x0012_3456);
    assert_eq!(pack_rgb(255, 255, 255), 0x00FF_FFFF);
    assert_eq!(unpack_rgb(0x0012_3456), [0x12, 0x34, 0x56]);
    assert_eq!(unpack_rgb(0xAB12_3456), [0x12, 0x34, 0x56]);
    for &(r, g, b) in &[(0u8, 0u8, 0u8), (1, 2, 3), (255, 0, 128), (9, 255, 77)] {
        assert_eq!(unpack_rgb(pack_rgb(r, g, b)), [r, g, b]);
    }
}

#[test]
fn frequency_palette_is_most_frequent_first_and_stable() {
    let entries = vec![(0x010203, 1), (0x040506, 3), (0x070809, 3), (0x0A0B0C, 2)];
    assert_eq!(
        palette_by_frequency(&entries),
        vec![[4, 5, 6], [7, 8, 9], [10, 11, 12], [1, 2, 3]]
    );
    assert_eq!(palette_by_frequency(&Vec::new()), Vec::<[u8; 3]>::new());
}

#[test]
fn empty_frame_gets_a_black_palette() {
    let frame = RgbaFrame::new(0, 0, Vec::new()).expect("valid frame");
    assert_eq!(median_cut(&frame, 256, &never_called), vec![[0, 0, 0]]);
    assert_eq!(median_cut_with_quality(&frame, 16, 40, &never_called), vec![[0, 0, 0]]);
}

#[test]
fn few_colors_form_the_palette_directly() {
    let frame = frame_from_pixels(
        3,
        1,
        &[[255, 0, 0, 255], [0, 0, 255, 255], [255, 0, 0, 255]],
    );
    assert_eq!(median_cut(&frame, 256, &never_called), vec![[255, 0, 0], [0, 0, 255]]);
    assert_eq!(median_cut(&frame, 2, &never_called), vec![[255, 0, 0], [0, 0, 255]]);
}

#[test]
fn low_quality_merges_nearby_colors() {
    let frame = frame_from_pixels(2, 1, &[[1, 2, 3, 255], [4, 5, 6, 255]]);
    assert_eq!(median_cut_with_quality(&frame, 256, 35, &never_called), vec![[8, 8, 8]]);
    assert_eq!(
        median_cut_with_quality(&frame, 256, 100, &never_called),
        vec![[1, 2, 3], [4, 5, 6]]
    );
}

#[test]
fn over_budget_histogram_goes_to_the_reducer() {
    let frame = frame_from_pixels(
        4,
        1,
        &[[10, 0, 0, 255], [20, 0, 0, 255], [10, 0, 0, 255], [30, 0, 0, 255]],
    );
    let calls: RefCell<Vec<(Vec<(u32, u32)>, usize, u8)>> = RefCell::new(Vec::new());
    let recording = |entries: &Vec<(u32, u32)>, max_colors: usize, quality: u8| -> Palette {
        calls.borrow_mut().push((entries.clone(), max_colors, quality));
        vec![[7, 7, 7]]
    };

    assert_eq!(median_cut_with_quality(&frame, 0, 100, &recording), vec![[7, 7, 7]]);
    assert_eq!(median_cut(&frame, 2, &recording), vec![[7, 7, 7]]);

    let expected_entries = vec![(0x0A_0000, 2), (0x14_0000, 1), (0x1E_0000, 1)];
    assert_eq!(
        calls.borrow().clone(),
        vec![(expected_entries.clone(), 1, 100), (expected_entries, 2, 100)]
    );
}

#[test]
fn empty_palette_maps_every_pixel_to_zero() {
    let frame = frame_from_pixels(3, 1, &[[1, 1, 1, 1], [2, 2, 2, 2], [3, 3, 3, 3]]);
    let nearest = |_r: u8, _g: u8, _b: u8| -> u8 { panic!("no palette to search") };
    assert_eq!(map_to_palette(&frame, &Vec::new(), &nearest), vec![0, 0, 0]);
}

#[test]
fn mapping_asks_once_per_distinct_color() {
    let frame = frame_from_pixels(
        2,
        2,
        &[[10, 0, 0, 255], [0, 20, 0, 255], [10, 0, 0, 0], [0, 20, 0, 9]],
    );
    let palette: Palette = vec![[0, 0, 0], [10, 0, 0], [0, 20, 0]];
    let asked = Cell::new(0u32);
    let nearest = |r: u8, g: u8, _b: u8| -> u8 {
        asked.set(asked.get() + 1);
        if r > 0 {
            1
        } else if g > 0 {
            2
        } else {
            0
        }
    };

    assert_eq!(map_to_palette(&frame, &palette, &nearest), vec![1, 2, 1, 2]);
    assert_eq!(asked.get(), 2);
}

#[test]
fn smoothing_window_is_cut_at_the_sequence_ends() {
    assert_eq!(temporal_window_range(0, 10, 3), (0, 2));
    assert_eq!(temporal_window_range(5, 10, 3), (4, 7));
    assert_eq!(temporal_window_range(9, 10, 3), (8, 10));
    assert_eq!(temporal_window_range(5, 10, 4), (3, 8));
    assert_eq!(temporal_window_range(5, 10, 1), (5, 6));
    assert_eq!(temporal_window_range(2, 4, 100), (0, 4));
    assert_eq!(temporal_window_range(3, 5, usize::MAX), (0, 5));
}

#[test]
fn smoothing_window_is_symmetric() {
    let count = 9;
    for window in 0..7 {
        for i in 0..count {
            for j in 0..count {
                let (si, ei) = temporal_window_range(i, count, window);
                let (sj, ej) = temporal_window_range(j, count, window);
                assert_eq!(si <= j && j < ei, sj <= i && i < ej);
                assert_eq!(si <= j && j < ei, i.abs_diff(j) <= window / 2);
            }
        }
    }
}

#[test]
fn lower_quality_never_counts_more_colors() {
    // 64 distinct colors spread over one row.
    let pixels: Vec<[u8; 4]> = (0..64u32)
        .map(|i| [(i * 4) as u8, (255 - i * 3) as u8, (i * 2) as u8, 255])
        .collect();
    let frame = frame_from_pixels(64, 1, &pixels);
    let mut previous = usize::MAX;
    for quality in [100u8, 95, 90, 85, 80, 70, 60, 50, 40, 20, 1] {
        let palette = median_cut_with_quality(&frame, 256, quality, &never_called);
        assert!(palette.len() <= previous, "quality {}", quality);
        previous = palette.len();
    }
    assert_eq!(median_cut_with_quality(&frame, 256, 100, &never_called).len(), 64);
}

#[test]
fn small_frames_always_fit_the_color_counters() {
    let frame = frame_from_pixels(3, 1, &[[1, 2, 3, 255], [1, 2, 3, 0], [9, 9, 9, 9]]);
    assert!(color_counts_fit(&frame, 0));
    assert!(color_counts_fit(&frame, 4));
    let empty = RgbaFrame::new(0, 0, Vec::new()).expect("valid frame");
    assert!(color_counts_fit(&empty, 2));
}
