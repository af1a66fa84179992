use engine::raster::{box_blur, box_blur_fits};

#[test]
fn a_box_blur_averages_the_window_along_rows() {
    // one row of three pixels, only the middle one opaque white
    let src = [0, 0, 0, 0, 255, 255, 255, 255, 0, 0, 0, 0];
    let mut dst = [9u8; 12];
    box_blur(&src, &mut dst, 3, 1, 1, true);
    // (255 + 1) / 3 rounded is 85
    assert_eq!(dst, [85; 12]);
}

#[test]
fn a_box_blur_along_columns_leaves_rows_apart() {
    // two columns, two rows: column 0 is opaque, column 1 empty
    let src = [255, 255, 255, 255, 0, 0, 0, 0, 255, 255, 255, 255, 0, 0, 0, 0];
    let mut dst = [1u8; 16];
    box_blur(&src, &mut dst, 2, 2, 1, false);
    // column 0: (255 + 255 + 1) / 3 = 170 in both rows; column 1 stays 0
    assert_eq!(dst, [170, 170, 170, 170, 0, 0, 0, 0, 170, 170, 170, 170, 0, 0, 0, 0]);
}

#[test]
fn a_radius_of_zero_copies_and_bytes_past_the_image_stay() {
    let src = [1, 2, 3, 4, 5, 6, 7, 8];
    let mut dst = [0u8; 10];
    box_blur(&src, &mut dst, 2, 1, 0, true);
    assert_eq!(dst, [1, 2, 3, 4, 5, 6, 7, 8, 0, 0]);
}

#[test]
fn a_short_window_blurs_a_line_too_long_for_its_whole_sum() {
    // 255 times the line length does not fit in 32 bits; the window of 3 does
    let w = 16_843_010;
    let src = vec![255u8; w * 4];
    let mut dst = vec![0u8; w * 4];
    box_blur(&src, &mut dst, w, 1, 1, true);
    assert_eq!(&dst[..8], &[170, 170, 170, 170, 255, 255, 255, 255]);
    assert_eq!(&dst[(w - 1) * 4..], &[170, 170, 170, 170]);
    assert!(dst[4..(w - 1) * 4].iter().all(|&v| v == 255));
}

#[test]
fn a_dark_line_takes_a_window_whose_bright_sum_would_not_fit() {
    let w = 16_843_010;
    let r = 8_500_000;
    let dark = vec![0u8; w * 4];
    assert!(box_blur_fits(&dark, w, 1, r, true));
    let mut dst = vec![7u8; w * 4];
    box_blur(&dark, &mut dst, w, 1, r, true);
    assert!(dst.iter().all(|&v| v == 0));
    let bright = vec![255u8; w * 4];
    assert!(!box_blur_fits(&bright, w, 1, r, true));
    assert!(box_blur_fits(&bright, w, 1, 1, true));
}

#[test]
fn small_images_fit_any_window_that_fits_the_line() {
    let src = [255u8; 12];
    assert!(box_blur_fits(&src, 3, 1, 1, true));
    assert!(box_blur_fits(&src, 3, 1, 0, false));
}
