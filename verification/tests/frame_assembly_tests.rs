use gifmonster::encode::{
    apply_transparency_optimization, crop_to_changed_region, flatten_palette_for_gif,
    least_used_palette_index, nearest_palette_neighbor, pixels_similar, rgb_distance_sq,
    transparency_tolerance_from_quality, EncodeError,
};
use gifmonster::{Palette, RgbaFrame};

fn frame_from_pixels(width: u32, height: u32, pixels: &[[u8; 4]]) -> RgbaFrame {
    let bytes: Vec<u8> = pixels.iter().flat_map(|p| p.iter().copied()).collect();
    RgbaFrame::new(width, height, bytes).expect("valid frame")
}

#[test]
fn empty_palette_becomes_two_black_entries() {
    let bytes = flatten_palette_for_gif(&Vec::new());
    assert_eq!(bytes, vec![0; 6]);
}

#[test]
fn single_color_is_repeated_to_two_entries() {
    let bytes = flatten_palette_for_gif(&vec![[1, 2, 3]]);
    assert_eq!(bytes, vec![1, 2, 3, 1, 2, 3]);
}

#[test]
fn palette_is_padded_with_its_last_color() {
    let palette: Palette = vec![[1, 1, 1], [2, 2, 2], [3, 3, 3], [4, 4, 4], [5, 5, 5]];
    let bytes = flatten_palette_for_gif(&palette);
    assert_eq!(bytes.len(), 8 * 3);
    assert_eq!(&bytes[..15], &[1, 1, 1, 2, 2, 2, 3, 3, 3, 4, 4, 4, 5, 5, 5]);
    assert_eq!(&bytes[15..], &[5, 5, 5, 5, 5, 5, 5, 5, 5]);

    let exact: Palette = vec![[9, 8, 7], [6, 5, 4]];
    assert_eq!(flatten_palette_for_gif(&exact), vec![9, 8, 7, 6, 5, 4]);
}

#[test]
fn oversized_palette_keeps_first_256_colors() {
    let palette: Palette = (0..300u32).map(|i| [(i % 256) as u8, (i / 256) as u8, 0]).collect();
    let bytes = flatten_palette_for_gif(&palette);
    assert_eq!(bytes.len(), 256 * 3);
    assert_eq!(&bytes[..3], &[0, 0, 0]);
    assert_eq!(&bytes[255 * 3..], &[255, 0, 0]);
}

#[test]
fn rgb_distance_is_squared_euclidean() {
    assert_eq!(rgb_distance_sq([0, 0, 0], [255, 255, 255]), 195_075);
    assert_eq!(rgb_distance_sq([1, 2, 3], [4, 6, 3]), 25);
    assert_eq!(rgb_distance_sq([4, 6, 3], [1, 2, 3]), 25);
    assert_eq!(rgb_distance_sq([7, 7, 7], [7, 7, 7]), 0);
}

#[test]
fn tolerance_follows_quality() {
    assert_eq!(transparency_tolerance_from_quality(0), 12);
    assert_eq!(transparency_tolerance_from_quality(1), 12);
    assert_eq!(transparency_tolerance_from_quality(50), 6);
    assert_eq!(transparency_tolerance_from_quality(90), 1);
    assert_eq!(transparency_tolerance_from_quality(91), 1);
    assert_eq!(transparency_tolerance_from_quality(92), 0);
    assert_eq!(transparency_tolerance_from_quality(100), 0);
    assert_eq!(transparency_tolerance_from_quality(255), 0);
}

#[test]
fn zero_tolerance_needs_identical_pixels() {
    assert!(pixels_similar(&[1, 2, 3, 4], &[1, 2, 3, 4], 0));
    assert!(!pixels_similar(&[1, 2, 3, 4], &[1, 2, 3, 5], 0));
    assert!(!pixels_similar(&[1, 2, 3, 4], &[1, 2, 3], 0));
}

#[test]
fn tolerance_applies_to_every_channel() {
    assert!(pixels_similar(&[10, 10, 10, 10], &[12, 8, 10, 11], 2));
    assert!(!pixels_similar(&[10, 10, 10, 10], &[13, 10, 10, 10], 2));
    assert!(!pixels_similar(&[10, 10, 10, 10], &[10, 10, 10, 7], 2));
}

#[test]
fn least_used_index_prefers_the_first_minimum() {
    assert_eq!(least_used_palette_index(&[0, 0, 1, 2, 2], 3), 1);
    assert_eq!(least_used_palette_index(&[0, 1], 2), 0);
    assert_eq!(least_used_palette_index(&[0, 1, 1], 4), 2);
    assert_eq!(least_used_palette_index(&[], 4), 0);
    assert_eq!(least_used_palette_index(&[3, 3], 0), 0);
}

#[test]
fn least_used_index_ignores_indices_outside_the_palette() {
    assert_eq!(least_used_palette_index(&[5, 5, 5, 0, 1], 2), 0);
    assert_eq!(least_used_palette_index(&[9, 9, 0, 0, 1], 2), 1);
}

#[test]
fn nearest_neighbor_skips_the_entry_itself() {
    let palette: Palette = vec![[0, 0, 0], [10, 10, 10], [5, 5, 5], [100, 0, 0]];
    assert_eq!(nearest_palette_neighbor(&palette, 0), Some(2));
    assert_eq!(nearest_palette_neighbor(&palette, 3), Some(1));

    let ties: Palette = vec![[0, 0, 0], [1, 0, 0], [0, 1, 0]];
    assert_eq!(nearest_palette_neighbor(&ties, 0), Some(1));

    let duplicates: Palette = vec![[4, 4, 4], [4, 4, 4]];
    assert_eq!(nearest_palette_neighbor(&duplicates, 1), Some(0));
}

#[test]
fn nearest_neighbor_needs_two_entries_and_a_valid_index() {
    assert_eq!(nearest_palette_neighbor(&vec![[1, 2, 3]], 0), None);
    assert_eq!(nearest_palette_neighbor(&Vec::new(), 0), None);
    assert_eq!(nearest_palette_neighbor(&vec![[1, 2, 3], [4, 5, 6]], 2), None);
}

#[test]
fn crop_without_transparency_keeps_the_frame() {
    let indices: Vec<u8> = (1..=6).collect();
    let cropped = crop_to_changed_region(3, 2, &indices, None).expect("crop succeeds");
    assert_eq!((cropped.left, cropped.top, cropped.width, cropped.height), (0, 0, 3, 2));
    assert_eq!(cropped.indices, indices);
}

#[test]
fn crop_refuses_wrong_buffer_length() {
    let result = crop_to_changed_region(3, 2, &[0; 5], Some(0));
    assert_eq!(
        result.err(),
        Some(EncodeError::CropBufferLength { actual: 5, width: 3, height: 2 })
    );

    let result = crop_to_changed_region(3, 2, &[0; 7], None);
    assert_eq!(
        result.err(),
        Some(EncodeError::CropBufferLength { actual: 7, width: 3, height: 2 })
    );
}

#[test]
fn crop_around_a_single_changed_pixel() {
    let mut indices = vec![9u8; 5 * 4];
    indices[3 * 5 + 4] = 2;
    let cropped = crop_to_changed_region(5, 4, &indices, Some(9)).expect("crop succeeds");
    assert_eq!((cropped.left, cropped.top, cropped.width, cropped.height), (4, 3, 1, 1));
    assert_eq!(cropped.indices, vec![2]);
}

#[test]
fn crop_spans_from_first_to_last_changed_row_and_column() {
    // 4x3 frame, transparent index 0, changes at (3,0) and (0,2).
    let indices = vec![0, 0, 0, 5, 0, 0, 0, 0, 6, 0, 0, 0];
    let cropped = crop_to_changed_region(4, 3, &indices, Some(0)).expect("crop succeeds");
    assert_eq!((cropped.left, cropped.top, cropped.width, cropped.height), (0, 0, 4, 3));
    assert_eq!(cropped.indices, indices);
}

#[test]
fn unchanged_pixels_get_a_new_transparent_entry() {
    let previous = frame_from_pixels(2, 1, &[[10, 20, 30, 255], [0, 0, 0, 255]]);
    let current = frame_from_pixels(2, 1, &[[10, 20, 30, 255], [50, 60, 70, 255]]);
    let mut palette: Palette = vec![[10, 20, 30], [50, 60, 70]];
    let mut indices = vec![0u8, 1];

    let transparent =
        apply_transparency_optimization(&mut palette, &mut indices, &previous, &current, 0);

    assert_eq!(transparent, Some(2));
    assert_eq!(palette, vec![[10, 20, 30], [50, 60, 70], [0, 0, 0]]);
    assert_eq!(indices, vec![2, 1]);
}

#[test]
fn tolerance_decides_which_pixels_are_unchanged() {
    let previous = frame_from_pixels(3, 1, &[[10, 10, 10, 255], [10, 10, 10, 255], [10, 10, 10, 255]]);
    let current = frame_from_pixels(3, 1, &[[11, 9, 10, 255], [14, 10, 10, 255], [10, 10, 10, 253]]);
    let mut palette: Palette = vec![[10, 10, 10], [14, 10, 10]];
    let mut indices = vec![0u8, 1, 0];

    let transparent =
        apply_transparency_optimization(&mut palette, &mut indices, &previous, &current, 2);

    assert_eq!(transparent, Some(2));
    assert_eq!(indices, vec![2, 1, 2]);
    assert_eq!(palette.len(), 3);
}

#[test]
fn nothing_changes_when_every_pixel_changed() {
    let previous = frame_from_pixels(2, 1, &[[0, 0, 0, 255], [0, 0, 0, 255]]);
    let current = frame_from_pixels(2, 1, &[[9, 0, 0, 255], [0, 9, 0, 255]]);
    let mut palette: Palette = vec![[9, 0, 0], [0, 9, 0]];
    let mut indices = vec![0u8, 1];

    let transparent =
        apply_transparency_optimization(&mut palette, &mut indices, &previous, &current, 3);

    assert_eq!(transparent, None);
    assert_eq!(palette, vec![[9, 0, 0], [0, 9, 0]]);
    assert_eq!(indices, vec![0, 1]);
}

#[test]
fn frames_of_different_size_are_left_alone() {
    let previous = frame_from_pixels(1, 2, &[[0, 0, 0, 255], [0, 0, 0, 255]]);
    let current = frame_from_pixels(2, 1, &[[0, 0, 0, 255], [0, 0, 0, 255]]);
    let mut palette: Palette = vec![[0, 0, 0]];
    let mut indices = vec![0u8, 0];

    let transparent =
        apply_transparency_optimization(&mut palette, &mut indices, &previous, &current, 0);

    assert_eq!(transparent, None);
    assert_eq!(palette, vec![[0, 0, 0]]);
    assert_eq!(indices, vec![0, 0]);

    let same_size = frame_from_pixels(2, 1, &[[0, 0, 0, 255], [0, 0, 0, 255]]);
    let mut short_indices = vec![0u8];
    let transparent =
        apply_transparency_optimization(&mut palette, &mut short_indices, &same_size, &current, 0);
    assert_eq!(transparent, None);
    assert_eq!(short_indices, vec![0]);
    assert_eq!(palette.len(), 1);
}

#[test]
fn full_palette_gives_up_its_least_used_entry() {
    // A 16x16 frame that uses every palette entry once: entry 0 is the
    // least used, its pixels move to its nearest neighbor (entry 1), and
    // it becomes the transparent entry.
    let palette_full: Palette = (0..256u32).map(|i| [i as u8, i as u8, i as u8]).collect();
    let mut palette = palette_full.clone();
    let mut indices: Vec<u8> = (0..256u32).map(|i| i as u8).collect();

    let previous_pixels: Vec<[u8; 4]> = (0..256u32).map(|i| [i as u8, 0, 0, 255]).collect();
    let mut current_pixels: Vec<[u8; 4]> = (0..256u32).map(|i| [i as u8, 1, 0, 255]).collect();
    current_pixels[5] = [5, 0, 0, 255];
    let previous = frame_from_pixels(16, 16, &previous_pixels);
    let current = frame_from_pixels(16, 16, &current_pixels);

    let transparent =
        apply_transparency_optimization(&mut palette, &mut indices, &previous, &current, 0);

    assert_eq!(transparent, Some(0));
    assert_eq!(palette.len(), 256);
    assert_eq!(palette[0], [0, 0, 0]);
    assert_eq!(&palette[1..], &palette_full[1..]);
    assert_eq!(indices[0], 1);
    assert_eq!(indices[5], 0);
    for (i, index) in indices.iter().enumerate() {
        if i != 0 && i != 5 {
            assert_eq!(*index as usize, i);
        }
    }
}

#[test]
fn full_palette_victim_is_the_first_unused_entry() {
    let palette_full: Palette = (0..256u32).map(|i| [i as u8, 255 - i as u8, 7]).collect();
    let mut palette = palette_full.clone();
    let mut indices = vec![0u8, 1];
    let previous = frame_from_pixels(2, 1, &[[1, 1, 1, 1], [2, 2, 2, 2]]);
    let current = frame_from_pixels(2, 1, &[[1, 1, 1, 1], [3, 3, 3, 3]]);

    let transparent =
        apply_transparency_optimization(&mut palette, &mut indices, &previous, &current, 0);

    assert_eq!(transparent, Some(2));
    assert_eq!(indices, vec![2, 1]);
    assert_eq!(palette[2], [0, 0, 0]);
    assert_eq!(palette[3], palette_full[3]);
}

#[test]
fn lower_quality_never_shrinks_the_tolerance() {
    let mut previous = 0u8;
    for quality in (0u8..=255).rev() {
        let tolerance = transparency_tolerance_from_quality(quality);
        assert!(tolerance >= previous, "quality {}", quality);
        previous = tolerance;
    }
    assert!(pixels_similar(&[9, 9, 9, 9], &[9, 9, 9, 9], 0));
    assert!(pixels_similar(&[9, 9, 9, 9], &[9, 9, 9, 9], 5));
}
