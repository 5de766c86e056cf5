use terraria_fishing_bot::image::{GrayImage, RgbImage, RgbaImage};
use terraria_fishing_bot::opencv::{
    circle, rgb_difference_mask, rgba_2_rgb, rgba_difference_mask, rgba_in_range,
};

fn rgba(width: u32, height: u32, pixels: &[[u8; 4]]) -> RgbaImage {
    let mut data = Vec::new();
    for p in pixels {
        data.extend_from_slice(p);
    }
    RgbaImage::from_raw(width, height, data).unwrap()
}

#[test]
fn from_raw_checks_the_buffer_size() {
    assert!(RgbaImage::from_raw(2, 2, vec![0; 16]).is_some());
    assert!(RgbaImage::from_raw(2, 2, vec![0; 15]).is_none());
    assert!(RgbaImage::from_raw(2, 2, vec![0; 17]).is_none());
    assert!(GrayImage::from_raw(3, 1, vec![1, 2, 3]).is_some());
    assert!(RgbImage::from_raw(0, 5, vec![]).is_some());
}

#[test]
fn new_image_is_black() {
    let img = RgbaImage::new(3, 2);
    assert_eq!(img.dimensions(), (3, 2));
    assert_eq!(img.as_raw().len(), 24);
    assert!(img.as_raw().iter().all(|&b| b == 0));
}

#[test]
fn put_pixel_changes_only_that_pixel() {
    let mut img = RgbaImage::new(3, 2);
    img.put_pixel(1, 1, [1, 2, 3, 4]);
    let raw = img.into_raw();
    let mut expected = vec![0u8; 24];
    expected[16..20].copy_from_slice(&[1, 2, 3, 4]);
    assert_eq!(raw, expected);
}

#[test]
fn rgba_2_rgb_drops_alpha() {
    let img = rgba(2, 1, &[[1, 2, 3, 4], [5, 6, 7, 8]]);
    let rgb = rgba_2_rgb(&img);
    assert_eq!(rgb.dimensions(), (2, 1));
    assert_eq!(rgb.as_raw(), &vec![1, 2, 3, 5, 6, 7]);
}

#[test]
fn difference_mask_is_rounded_down_distance() {
    let a = rgba(4, 1, &[[0, 0, 0, 0], [10, 10, 10, 0], [0, 0, 0, 9], [255, 255, 255, 255]]);
    let b = rgba(4, 1, &[[3, 4, 0, 200], [10, 10, 10, 0], [1, 1, 1, 0], [0, 0, 0, 255]]);
    let mask = rgba_difference_mask(&a, &b);
    // 5 = sqrt(9 + 16); equal colors give 0; sqrt(3) = 1.73 rounds down to 1;
    // sqrt(3 * 255^2) = 441.7 is capped at 255.
    assert_eq!(mask.as_raw(), &vec![5, 0, 1, 255]);
}

#[test]
fn difference_mask_is_symmetric_and_zero_on_itself() {
    let a = rgba(2, 1, &[[9, 200, 31, 1], [0, 17, 255, 2]]);
    let b = rgba(2, 1, &[[100, 3, 45, 7], [254, 0, 0, 0]]);
    assert_eq!(
        rgba_difference_mask(&a, &b).as_raw(),
        rgba_difference_mask(&b, &a).as_raw()
    );
    assert_eq!(rgba_difference_mask(&a, &a).as_raw(), &vec![0, 0]);
}

#[test]
fn rgb_difference_mask_matches_rgba_one() {
    let a = rgba(2, 1, &[[9, 200, 31, 1], [0, 17, 255, 2]]);
    let b = rgba(2, 1, &[[100, 3, 45, 7], [254, 0, 0, 0]]);
    let via_rgb = rgb_difference_mask(&rgba_2_rgb(&a), &rgba_2_rgb(&b));
    assert_eq!(via_rgb.as_raw(), rgba_difference_mask(&a, &b).as_raw());
    // sqrt(91^2 + 197^2 + 14^2) = 217.4
    assert_eq!(via_rgb.as_raw()[0], 217);
}

#[test]
fn in_range_marks_pixels_inside_the_bounds() {
    let img = rgba(3, 1, &[[10, 20, 30, 40], [9, 20, 30, 40], [50, 50, 50, 50]]);
    let mask = rgba_in_range(&img, [10, 10, 10, 10], [50, 50, 50, 50]);
    assert_eq!(mask.as_raw(), &vec![255, 0, 255]);
    let all = rgba_in_range(&img, [0, 0, 0, 0], [255, 255, 255, 255]);
    assert_eq!(all.as_raw(), &vec![255, 255, 255]);
}

#[test]
fn circle_paints_a_disc() {
    let mut img = RgbaImage::new(5, 5);
    circle(&mut img, 2, 2, 1);
    let color = [0, 255, 127, 255];
    for y in 0..5u32 {
        for x in 0..5u32 {
            let inside = (x as i32 - 2).pow(2) + (y as i32 - 2).pow(2) <= 1;
            let p = [img.get(x, y, 0), img.get(x, y, 1), img.get(x, y, 2), img.get(x, y, 3)];
            if inside {
                assert_eq!(p, color, "pixel {x},{y}");
            } else {
                assert_eq!(p, [0, 0, 0, 0], "pixel {x},{y}");
            }
        }
    }
}

#[test]
fn circle_is_clipped_at_the_border() {
    let mut img = RgbaImage::new(3, 3);
    circle(&mut img, 0, 0, 2);
    let painted: Vec<(u32, u32)> = (0..3u32)
        .flat_map(|y| (0..3u32).map(move |x| (x, y)))
        .filter(|&(x, y)| img.get(x, y, 1) == 255)
        .collect();
    assert_eq!(painted, vec![(0, 0), (1, 0), (2, 0), (0, 1), (1, 1), (0, 2)]);
}

#[test]
fn circle_with_negative_radius_paints_nothing() {
    let mut img = RgbaImage::new(3, 3);
    circle(&mut img, 1, 1, -1);
    assert!(img.as_raw().iter().all(|&b| b == 0));
}
