use gen_rp_rs::color::{Image, Pixel};
use gen_rp_rs::dither::{dither_reduce, to_8bit, WorkPixel};

fn px(r: u8, g: u8, b: u8, a: u8) -> Pixel {
    Pixel { r, g, b, a }
}

fn image(width: usize, height: usize, pixels: Vec<Pixel>) -> Image {
    Image::new(width, height, pixels).unwrap()
}

#[test]
fn to_8bit_cuts_towards_zero() {
    let cut = to_8bit(WorkPixel { r: 100, g: 200, b: 100, a: 77 });
    assert_eq!(cut, WorkPixel { r: 96, g: 192, b: 64, a: 77 });
    let cut = to_8bit(WorkPixel { r: -33, g: 95, b: 130, a: 7 });
    assert_eq!(cut, WorkPixel { r: -32, g: 64, b: 128, a: 7 });
    let cut = to_8bit(WorkPixel { r: -31, g: -64, b: -65, a: -5 });
    assert_eq!(cut, WorkPixel { r: 0, g: -64, b: -64, a: -5 });
    let cut = to_8bit(WorkPixel { r: 315, g: 31, b: 63, a: 255 });
    assert_eq!(cut, WorkPixel { r: 288, g: 0, b: 0, a: 255 });
}

#[test]
fn dither_of_one_pixel_is_the_cut() {
    let out = dither_reduce(&image(1, 1, vec![px(100, 200, 100, 255)]));
    assert_eq!(out.pixels, vec![px(96, 192, 64, 255)]);
}

#[test]
fn dither_passes_error_to_the_right() {
    let out = dither_reduce(&image(2, 1, vec![px(63, 63, 127, 9), px(0, 0, 0, 7)]));
    assert_eq!(out.pixels, vec![px(32, 32, 64, 9), px(0, 0, 0, 7)]);
}

#[test]
fn dither_of_a_three_by_three_grid() {
    let input = vec![
        px(100, 200, 100, 255),
        px(31, 63, 250, 0),
        px(255, 255, 255, 128),
        px(0, 1, 2, 3),
        px(77, 88, 99, 111),
        px(200, 100, 50, 25),
        px(33, 66, 127, 255),
        px(254, 253, 252, 251),
        px(16, 48, 96, 192),
    ];
    let out = dither_reduce(&image(3, 3, input));
    let expected = vec![
        px(96, 192, 64, 255),
        px(32, 64, 255, 0),
        px(224, 224, 255, 128),
        px(0, 0, 0, 3),
        px(64, 64, 64, 111),
        px(192, 96, 64, 25),
        px(32, 64, 128, 255),
        px(255, 255, 255, 251),
        px(0, 32, 64, 192),
    ];
    assert_eq!(out.width, 3);
    assert_eq!(out.height, 3);
    assert_eq!(out.pixels, expected);
}

#[test]
fn dither_of_a_bright_flat_image() {
    let out = dither_reduce(&image(4, 4, vec![px(250, 250, 250, 255); 16]));
    let lo = px(224, 224, 192, 255);
    let hi = px(255, 255, 255, 255);
    let mid = px(224, 224, 255, 255);
    let odd = px(255, 255, 192, 255);
    let expected = vec![
        lo, hi, mid, odd, hi, hi, hi, mid, lo, hi, hi, hi, hi, mid, hi, lo,
    ];
    assert_eq!(out.pixels, expected);
}

#[test]
fn dither_of_a_flat_image_keeps_the_mean_close() {
    let out = dither_reduce(&image(8, 8, vec![px(100, 100, 100, 255); 64]));
    let red: u32 = out.pixels.iter().map(|p| p.r as u32).sum();
    let green: u32 = out.pixels.iter().map(|p| p.g as u32).sum();
    let blue: u32 = out.pixels.iter().map(|p| p.b as u32).sum();
    assert_eq!(red, 6144);
    assert_eq!(green, 6144);
    assert_eq!(blue, 5952);
    for total in [red, green, blue] {
        let mean = total as f64 / 64.0;
        assert!((mean - 100.0).abs() <= 8.0);
    }
    assert!(out.pixels.iter().all(|p| p.a == 255));
}

#[test]
fn dither_keeps_alpha_and_size() {
    let input: Vec<Pixel> = (0..35u8).map(|i| px(i * 7, 255 - i * 3, i * 5, i * 6)).collect();
    let source = image(7, 5, input.clone());
    let out = dither_reduce(&source);
    assert_eq!(out.width, 7);
    assert_eq!(out.height, 5);
    assert_eq!(out.pixels.len(), 35);
    for (before, after) in input.iter().zip(out.pixels.iter()) {
        assert_eq!(before.a, after.a);
    }
}

#[test]
fn dither_of_an_empty_image_is_empty() {
    assert!(dither_reduce(&image(0, 0, vec![])).pixels.is_empty());
    assert!(dither_reduce(&image(0, 9, vec![])).pixels.is_empty());
    assert!(dither_reduce(&image(9, 0, vec![])).pixels.is_empty());
}

#[test]
fn dither_keeps_an_image_that_lies_on_the_grid() {
    let input = vec![
        px(0, 32, 64, 1),
        px(224, 224, 192, 2),
        px(96, 0, 128, 3),
        px(32, 192, 0, 4),
        px(160, 64, 64, 5),
        px(64, 128, 192, 6),
    ];
    let out = dither_reduce(&image(2, 3, input.clone()));
    assert_eq!(out.pixels, input);
}

#[test]
fn dither_moves_no_channel_far() {
    let input: Vec<Pixel> =
        (0..60u8).map(|i| px(i.wrapping_mul(37), i.wrapping_mul(91), i.wrapping_mul(13), i)).collect();
    let out = dither_reduce(&image(6, 10, input.clone()));
    for (before, after) in input.iter().zip(out.pixels.iter()) {
        assert!((before.r as i32 - after.r as i32).abs() <= 59);
        assert!((before.g as i32 - after.g as i32).abs() <= 59);
        assert!((before.b as i32 - after.b as i32).abs() <= 123);
    }
}

#[test]
fn dither_of_a_two_by_two_grid_adds_every_share() {
    let input = vec![px(31, 31, 63, 1), px(20, 25, 50, 2), px(28, 29, 60, 3), px(30, 31, 62, 4)];
    let out = dither_reduce(&image(2, 2, input));
    assert_eq!(
        out.pixels,
        vec![px(0, 0, 0, 1), px(32, 32, 64, 2), px(32, 32, 64, 3), px(32, 32, 64, 4)]
    );
}

#[test]
fn dither_of_a_single_column_hands_error_down() {
    let input = vec![px(31, 63, 127, 9), px(31, 63, 127, 8), px(31, 63, 127, 7), px(31, 63, 127, 6)];
    let out = dither_reduce(&image(1, 4, input));
    assert_eq!(
        out.pixels,
        vec![px(0, 32, 64, 9), px(32, 64, 128, 8), px(32, 64, 128, 7), px(0, 32, 128, 6)]
    );
}

#[test]
fn dither_of_a_single_row_hands_error_right() {
    let input = vec![px(31, 63, 127, 9), px(31, 63, 127, 8), px(31, 63, 127, 7), px(31, 63, 127, 6)];
    let out = dither_reduce(&image(4, 1, input));
    assert_eq!(
        out.pixels,
        vec![px(0, 32, 64, 9), px(32, 64, 128, 8), px(32, 64, 128, 7), px(32, 64, 128, 6)]
    );
}

#[test]
fn dither_clamps_what_runs_over() {
    let out = dither_reduce(&image(2, 3, vec![px(255, 255, 255, 255); 6]));
    let mut expected = vec![px(255, 255, 255, 255); 6];
    expected[0] = px(224, 224, 192, 255);
    assert_eq!(out.pixels, expected);
}
