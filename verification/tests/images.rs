use face_off::clip::{clear_rows, fade_rows};
use face_off::imgtool::{copy_hue, gray_index, PixelBuffer};
use face_off::ops::{jpeg_bytes, png_bytes, resize_image};

fn px(data: &[[u8; 4]]) -> Vec<u8> {
    data.iter().flat_map(|p| p.iter().copied()).collect()
}

#[test]
fn gray_index_sorts_levels_with_first_pixel() {
    let data = px(&[[1, 1, 1, 255], [2, 2, 2, 0], [3, 3, 3, 9], [4, 4, 4, 255]]);
    let gray = [50, 10, 20, 50];
    let (levels, firsts) = gray_index(&data, &gray);
    assert_eq!(levels, vec![20, 50]);
    assert_eq!(firsts, vec![2, 0]);
}

#[test]
fn copy_hue_matches_levels_by_rank() {
    let src = PixelBuffer {
        width: 2,
        height: 2,
        data: px(&[[10, 0, 0, 255], [20, 0, 0, 255], [30, 0, 0, 0], [11, 1, 1, 255]]),
    };
    let src_gray = [5, 9, 1, 5];
    let mut target = PixelBuffer {
        width: 3,
        height: 1,
        data: px(&[[0, 0, 0, 255], [0, 0, 1, 7], [9, 9, 9, 0]]),
    };
    let target_gray = [40, 30, 35];
    copy_hue(&src, &src_gray, &mut target, &target_gray);
    // target levels 30 < 40, source levels 5 < 9; level 30 takes the first
    // pixel of level 5, level 40 takes the first pixel of level 9
    assert_eq!(target.data, px(&[[20, 0, 0, 255], [10, 0, 0, 7], [9, 9, 9, 0]]));
    assert_eq!((target.width, target.height), (3, 1));
}

#[test]
fn copy_hue_reuses_brightest_level_when_source_has_fewer() {
    let src = PixelBuffer { width: 1, height: 1, data: px(&[[1, 2, 3, 255]]) };
    let mut target = PixelBuffer {
        width: 2,
        height: 1,
        data: px(&[[0, 0, 0, 255], [0, 0, 0, 255]]),
    };
    copy_hue(&src, &[7], &mut target, &[1, 2]);
    assert_eq!(target.data, px(&[[1, 2, 3, 255], [1, 2, 3, 255]]));
}

#[test]
fn copy_hue_without_opaque_source_changes_nothing() {
    let src = PixelBuffer { width: 1, height: 1, data: px(&[[1, 2, 3, 0]]) };
    let before = px(&[[5, 6, 7, 255]]);
    let mut target = PixelBuffer { width: 1, height: 1, data: before.clone() };
    copy_hue(&src, &[7], &mut target, &[1]);
    assert_eq!(target.data, before);
}

#[test]
fn resize_picks_nearest_source_pixel() {
    let img = PixelBuffer {
        width: 2,
        height: 1,
        data: px(&[[10, 20, 30, 40], [50, 60, 70, 80]]),
    };
    let out = resize_image(&img, 1, 1);
    assert_eq!((out.width, out.height), (1, 1));
    assert_eq!(out.data, vec![50, 60, 70, 80]);
}

#[test]
fn resize_enlarges_to_requested_size() {
    let img = PixelBuffer { width: 1, height: 1, data: vec![1, 2, 3, 4] };
    let out = resize_image(&img, 3, 2);
    assert_eq!(out.data.len(), 4 * 3 * 2);
    assert!(out.data.chunks(4).all(|p| p == [1, 2, 3, 4]));
}

#[test]
fn png_file_has_signature() {
    let img = PixelBuffer { width: 1, height: 1, data: vec![1, 2, 3, 4] };
    let file = png_bytes(&img).unwrap();
    assert_eq!(&file[..8], &[137, 80, 78, 71, 13, 10, 26, 10]);
}

#[test]
fn png_refuses_empty_or_oversized_buffer() {
    let empty = PixelBuffer { width: 0, height: 1, data: vec![] };
    assert!(png_bytes(&empty).is_none());
    let longer = PixelBuffer { width: 1, height: 1, data: vec![1, 2, 3, 4, 5] };
    assert!(png_bytes(&longer).is_none());
}

#[test]
fn jpeg_file_has_start_marker() {
    let img = PixelBuffer { width: 2, height: 2, data: vec![128; 16] };
    let file = jpeg_bytes(&img).unwrap();
    assert_eq!(&file[..2], &[0xFF, 0xD8]);
}

#[test]
fn jpeg_refuses_sides_beyond_u16() {
    let img = PixelBuffer { width: 70_000, height: 1, data: vec![0; 4 * 70_000] };
    assert!(jpeg_bytes(&img).is_none());
}

#[test]
fn clear_rows_blanks_the_top_rows() {
    let mut img = PixelBuffer { width: 2, height: 2, data: vec![1; 16] };
    clear_rows(&mut img, 1);
    assert_eq!(img.data, vec![0, 0, 0, 0, 0, 0, 0, 0, 1, 1, 1, 1, 1, 1, 1, 1]);
    assert_eq!((img.width, img.height), (2, 2));
}

#[test]
fn fade_rows_caps_opacity_row_by_row() {
    let mut img = PixelBuffer {
        width: 1,
        height: 3,
        data: px(&[[9, 9, 9, 200], [9, 9, 9, 0], [9, 9, 9, 50]]),
    };
    fade_rows(&mut img, 1, &[100, 10]);
    assert_eq!(img.data, px(&[[9, 9, 9, 200], [9, 9, 9, 0], [9, 9, 9, 10]]));
}

#[test]
fn fade_rows_never_raises_opacity() {
    let mut img = PixelBuffer { width: 2, height: 1, data: px(&[[1, 2, 3, 30], [4, 5, 6, 255]]) };
    fade_rows(&mut img, 0, &[128]);
    assert_eq!(img.data, px(&[[1, 2, 3, 30], [4, 5, 6, 128]]));
}
