use raytrace::raster::{
    blur_tap, image_dimensions, median_rank, ImageError, ImageLayout, Window,
};

fn layout(width: usize, height: usize) -> ImageLayout {
    ImageLayout { width, height }
}

#[test]
fn dimensions_of_no_pixels_is_an_error() {
    assert_eq!(image_dimensions(&vec![]), Err(ImageError::NoPixels));
}

#[test]
fn dimensions_are_one_past_the_largest_coordinates() {
    let coords = vec![(0, 0), (3, 1), (2, 4), (1, 1)];
    assert_eq!(image_dimensions(&coords), Ok(layout(4, 5)));
}

#[test]
fn dimensions_of_a_single_pixel() {
    assert_eq!(image_dimensions(&vec![(0, 0)]), Ok(layout(1, 1)));
}

#[test]
fn dimensions_with_a_coordinate_at_usize_max_are_invalid() {
    assert_eq!(image_dimensions(&vec![(usize::MAX, 0)]), Err(ImageError::InvalidDimensions));
    assert_eq!(image_dimensions(&vec![(0, 0), (1, usize::MAX)]), Err(ImageError::InvalidDimensions));
}

#[test]
fn buffer_length_is_three_samples_per_pixel() {
    assert_eq!(layout(4, 5).len(), 60);
}

#[test]
fn samples_are_stored_row_by_row() {
    let l = layout(4, 3);
    assert_eq!(l.sample_index(0, 0, 0), 0);
    assert_eq!(l.sample_index(1, 0, 2), 5);
    assert_eq!(l.sample_index(0, 1, 0), 12);
    assert_eq!(l.sample_index(3, 2, 2), 35);
}

#[test]
fn pixel_slot_inside_and_outside() {
    let l = layout(4, 3);
    assert_eq!(l.pixel_slot(2, 1), Some(18));
    assert_eq!(l.pixel_slot(4, 1), None);
    assert_eq!(l.pixel_slot(0, 3), None);
}

#[test]
fn neighbourhood_is_clipped_at_the_borders() {
    let l = layout(5, 4);
    assert_eq!(l.neighbourhood(0, 0), Window { x0: 0, x1: 1, y0: 0, y1: 1 });
    assert_eq!(l.neighbourhood(2, 2), Window { x0: 1, x1: 3, y0: 1, y1: 3 });
    assert_eq!(l.neighbourhood(4, 3), Window { x0: 3, x1: 4, y0: 2, y1: 3 });
    assert_eq!(l.neighbourhood(2, 0), Window { x0: 1, x1: 3, y0: 0, y1: 1 });
}

#[test]
fn window_holds_nine_six_or_four_samples() {
    let l = layout(5, 4);
    assert_eq!(l.window_indices(2, 2, 0).len(), 9);
    assert_eq!(l.window_indices(0, 2, 1).len(), 6);
    assert_eq!(l.window_indices(2, 0, 1).len(), 6);
    assert_eq!(l.window_indices(4, 3, 2).len(), 4);
}

#[test]
fn window_reads_rows_in_order() {
    let l = layout(3, 3);
    // centre pixel, channel 1: every pixel of the image
    let v = l.window_indices(1, 1, 1);
    assert_eq!(v, vec![1, 4, 7, 10, 13, 16, 19, 22, 25]);
    // corner pixel, channel 0
    assert_eq!(l.window_indices(0, 0, 0), vec![0, 3, 9, 12]);
}

#[test]
fn window_of_a_one_pixel_image_is_the_pixel() {
    let l = layout(1, 1);
    assert_eq!(l.window_indices(0, 0, 2), vec![2]);
}

#[test]
fn median_rank_picks_the_side_away_from_the_impulse() {
    assert_eq!(median_rank(9, true), 4);
    assert_eq!(median_rank(9, false), 4);
    assert_eq!(median_rank(6, true), 2);
    assert_eq!(median_rank(6, false), 3);
    assert_eq!(median_rank(4, true), 1);
    assert_eq!(median_rank(4, false), 2);
    assert_eq!(median_rank(1, true), 0);
}

#[test]
fn blur_taps_are_clamped_into_the_axis() {
    // radius 4, axis of 10 pixels
    assert_eq!(blur_tap(0, 0, 4, 10), 0);
    assert_eq!(blur_tap(0, 4, 4, 10), 0);
    assert_eq!(blur_tap(0, 8, 4, 10), 4);
    assert_eq!(blur_tap(5, 2, 4, 10), 3);
    assert_eq!(blur_tap(9, 8, 4, 10), 9);
    assert_eq!(blur_tap(7, 4, 4, 10), 7);
}

#[test]
fn blur_tap_index_moves_along_the_chosen_axis() {
    let l = layout(4, 3);
    // horizontal: x = 1 + 3 - 1 = 3
    assert_eq!(l.blur_tap_index(1, 2, 0, 3, 1, true), l.sample_index(3, 2, 0));
    // vertical: y = 2 + 2 - 1 = 3, clamped to 2
    assert_eq!(l.blur_tap_index(1, 2, 1, 2, 1, false), l.sample_index(1, 2, 1));
    // vertical: y = 1 + 0 - 1 = 0
    assert_eq!(l.blur_tap_index(3, 1, 2, 0, 1, false), l.sample_index(3, 0, 2));
}

#[test]
fn rasterize_paints_pixels_over_the_background() {
    let l = layout(2, 2);
    let positions = vec![Some((1, 0)), None, Some((5, 5)), Some((0, 1))];
    let colors = vec![(1, 2, 3), (7, 7, 7), (8, 8, 8), (4, 5, 6)];
    let img = l.rasterize(&positions, &colors, 0);
    assert_eq!(img, vec![0, 0, 0, 1, 2, 3, 4, 5, 6, 0, 0, 0]);
}

#[test]
fn rasterize_later_pixel_wins() {
    let l = layout(1, 1);
    let positions = vec![Some((0, 0)), Some((0, 0))];
    let colors = vec![(0.25f32, 0.5, 0.75), (1.0, 0.0, 0.5)];
    let img = l.rasterize(&positions, &colors, 0.0);
    assert_eq!(img, vec![1.0, 0.0, 0.5]);
}

#[test]
fn rasterize_without_pixels_is_all_background() {
    let l = layout(3, 1);
    let img: Vec<u8> = l.rasterize(&vec![], &vec![], 9);
    assert_eq!(img, vec![9; 9]);
}

#[test]
fn map_windows_sees_each_sample_with_its_window() {
    let l = layout(3, 2);
    let src: Vec<u32> = (0..18).collect();
    // output: centre * 100 + window size
    let dst = l.map_windows(&src, &|center: u32, win: Vec<u32>| center * 100 + win.len() as u32);
    assert_eq!(dst.len(), 18);
    assert_eq!(dst[l.sample_index(0, 0, 0)], 4);
    assert_eq!(dst[l.sample_index(1, 0, 2)], 5 * 100 + 6);
    assert_eq!(dst[l.sample_index(2, 1, 1)], 16 * 100 + 4);
}

#[test]
fn map_windows_window_sum() {
    let l = layout(3, 3);
    let src: Vec<u32> = vec![1; 27];
    let dst = l.map_windows(&src, &|_c: u32, win: Vec<u32>| win.iter().sum());
    assert_eq!(dst[l.sample_index(1, 1, 0)], 9);
    assert_eq!(dst[l.sample_index(0, 1, 2)], 6);
    assert_eq!(dst[l.sample_index(2, 2, 1)], 4);
}

#[test]
fn map_taps_clamps_at_the_edges() {
    let l = layout(4, 1);
    // channel 0 holds the x coordinate
    let src: Vec<i32> = vec![0, 0, 0, 1, 0, 0, 2, 0, 0, 3, 0, 0];
    let dst = l.map_taps(&src, 3, 1, true, &|vals: Vec<i32>| vals[0] * 100 + vals[1] * 10 + vals[2]);
    assert_eq!(dst[l.sample_index(0, 0, 0)], 1);
    assert_eq!(dst[l.sample_index(1, 0, 0)], 12);
    assert_eq!(dst[l.sample_index(3, 0, 0)], 233);
}

#[test]
fn map_taps_vertical_blur_of_a_constant_is_constant() {
    let l = layout(2, 5);
    let src = vec![0.5f32; 30];
    let kernel = [0.25f32, 0.5, 0.25];
    let dst = l.map_taps(&src, 3, 1, false, &|vals: Vec<f32>| vals.iter().zip(kernel.iter()).map(|(v, k)| v * k).sum());
    assert!(dst.iter().all(|&v| (v - 0.5).abs() < 1e-6));
}
