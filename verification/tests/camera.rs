use std::cell::{Cell, RefCell};

use rust_rt::camera::{Camera, Pixel};
use rust_rt::path::Bounce;

fn camera(image_width: u32, image_height: u32, samples_per_pixel: u32, max_depth: u32) -> Camera {
    Camera { image_width, image_height, samples_per_pixel, max_depth }
}

#[test]
fn a_camera_with_pixels_and_samples_is_valid() {
    assert!(camera(1, 1, 1, 0).is_valid());
    assert!(camera(1200, 675, 500, 50).is_valid());
    assert!(camera(400, 1, 10, 0).is_valid());
}

#[test]
fn a_camera_without_pixels_or_samples_is_not_valid() {
    assert!(!camera(0, 10, 10, 50).is_valid());
    assert!(!camera(10, 0, 10, 50).is_valid());
    assert!(!camera(10, 10, 0, 50).is_valid());
    assert!(!camera(0, 0, 0, 0).is_valid());
}

#[test]
fn a_camera_whose_image_cannot_be_allocated_is_not_valid() {
    assert!(!camera(u32::MAX, u32::MAX, 1, 1).is_valid());
    let side = 1u32 << 31;
    // 3 * 2^62 bytes pass the largest allocation on a machine of 64 bits.
    assert!(!camera(side, side, 1, 1).is_valid());
}

#[test]
fn the_largest_image_that_fits_is_valid() {
    // 3 * width * height <= isize::MAX, and one more row is too many.
    let width = 3u32;
    let height = (isize::MAX as u128 / 9) as u64;
    if height < u32::MAX as u64 {
        assert!(camera(width, height as u32, 1, 1).is_valid());
        assert!(!camera(width, height as u32 + 1, 1, 1).is_valid());
    } else {
        assert!(camera(width, u32::MAX, 1, 1).is_valid());
    }
}

/// A renderer on integers: the ray through a pixel is its index in reading
/// order, a ray escapes into a light equal to itself, and a sum resolves to its
/// low three bytes.
fn render_indices(camera: &Camera) -> Vec<u8> {
    let width = camera.image_width;
    let primary = |i: u32, j: u32| j * width + i;
    let bounce = |ray: u32| -> Bounce<u32, u32> { Bounce::Escaped(ray) };
    let tint = |a: u32, c: u32| a * c;
    let gather = |sum: u32, light: u32| sum + light;
    let resolve = |sum: u32| Pixel { r: sum as u8, g: (sum >> 8) as u8, b: (sum >> 16) as u8 };
    camera.render(0u32, &primary, &bounce, &tint, &gather, &resolve)
}

#[test]
fn the_image_has_three_bytes_for_each_pixel() {
    for (width, height) in [(1u32, 1u32), (1, 5), (5, 1), (4, 3), (16, 9), (31, 17)] {
        let image = render_indices(&camera(width, height, 1, 1));
        assert_eq!(image.len(), 3 * width as usize * height as usize);
    }
}

#[test]
fn pixels_are_laid_out_row_by_row_from_the_top() {
    let image = render_indices(&camera(3, 2, 1, 1));
    assert_eq!(
        image,
        vec![
            0, 0, 0, 1, 0, 0, 2, 0, 0, // top row
            3, 0, 0, 4, 0, 0, 5, 0, 0, // bottom row
        ]
    );
}

#[test]
fn a_pixel_is_stored_as_red_green_blue() {
    let primary = |_i: u32, _j: u32| 0u32;
    let bounce = |_ray: u32| -> Bounce<u32, u32> { Bounce::Escaped(0) };
    let tint = |a: u32, c: u32| a * c;
    let gather = |sum: u32, light: u32| sum + light;
    let resolve = |_sum: u32| Pixel { r: 10, g: 20, b: 30 };
    let image = camera(2, 2, 1, 1).render(0u32, &primary, &bounce, &tint, &gather, &resolve);
    assert_eq!(image, vec![10, 20, 30, 10, 20, 30, 10, 20, 30, 10, 20, 30]);
}

#[test]
fn the_pixel_in_column_i_of_row_j_starts_at_three_times_its_index() {
    let width = 7u32;
    let height = 5u32;
    let image = render_indices(&camera(width, height, 1, 1));
    for j in 0..height {
        for i in 0..width {
            let at = 3 * (j * width + i) as usize;
            assert_eq!(image[at] as u32, j * width + i);
            assert_eq!(image[at + 1], 0);
            assert_eq!(image[at + 2], 0);
        }
    }
}

#[test]
fn every_pixel_is_sampled_as_often_as_the_camera_says_in_reading_order() {
    let sampled = RefCell::new(Vec::new());
    let primary = |i: u32, j: u32| {
        sampled.borrow_mut().push((i, j));
        0u32
    };
    let bounce = |_ray: u32| -> Bounce<u32, u32> { Bounce::Escaped(1) };
    let tint = |a: u32, c: u32| a * c;
    let gather = |sum: u32, light: u32| sum + light;
    let resolve = |sum: u32| Pixel { r: sum as u8, g: 0, b: 0 };
    let image = camera(2, 2, 3, 1).render(0u32, &primary, &bounce, &tint, &gather, &resolve);
    assert_eq!(
        *sampled.borrow(),
        vec![
            (0, 0), (0, 0), (0, 0),
            (1, 0), (1, 0), (1, 0),
            (0, 1), (0, 1), (0, 1),
            (1, 1), (1, 1), (1, 1),
        ]
    );
    assert_eq!(image, vec![3, 0, 0, 3, 0, 0, 3, 0, 0, 3, 0, 0]);
}

#[test]
fn every_pixel_is_resolved_once() {
    let resolved = Cell::new(0u32);
    let primary = |_i: u32, _j: u32| 0u32;
    let bounce = |_ray: u32| -> Bounce<u32, u32> { Bounce::Absorbed };
    let tint = |a: u32, c: u32| a * c;
    let gather = |sum: u32, light: u32| sum + light;
    let resolve = |_sum: u32| {
        resolved.set(resolved.get() + 1);
        Pixel { r: 0, g: 0, b: 0 }
    };
    camera(6, 4, 5, 2).render(0u32, &primary, &bounce, &tint, &gather, &resolve);
    assert_eq!(resolved.get(), 24);
}

#[test]
fn the_camera_hands_its_depth_to_every_path() {
    let asked = Cell::new(0u32);
    // A hall of mirrors: a path ends only when its bounces are spent.
    let primary = |_i: u32, _j: u32| 0u32;
    let bounce = |ray: u32| -> Bounce<u32, u32> {
        asked.set(asked.get() + 1);
        Bounce::Scattered(ray, 1)
    };
    let tint = |a: u32, c: u32| a * c;
    let gather = |sum: u32, light: u32| sum + light;
    let resolve = |sum: u32| Pixel { r: sum as u8, g: 0, b: 0 };
    let image = camera(2, 1, 3, 7).render(0u32, &primary, &bounce, &tint, &gather, &resolve);
    assert_eq!(asked.get(), 2 * 3 * 7);
    assert_eq!(image, vec![0, 0, 0, 0, 0, 0]);
}

#[test]
fn a_camera_of_no_depth_renders_black() {
    let primary = |i: u32, j: u32| (i, j);
    let bounce = |_ray: (u32, u32)| -> Bounce<(u32, u32), [f64; 3]> { unreachable!() };
    let tint = |_a: [f64; 3], _c: [f64; 3]| -> [f64; 3] { unreachable!() };
    let gather = |sum: [f64; 3], light: [f64; 3]| [sum[0] + light[0], sum[1] + light[1], sum[2] + light[2]];
    let resolve = |sum: [f64; 3]| Pixel { r: quantize(sum[0]), g: quantize(sum[1]), b: quantize(sum[2]) };
    let image = camera(3, 2, 4, 0).render([0.0; 3], &primary, &bounce, &tint, &gather, &resolve);
    assert_eq!(image, vec![0u8; 18]);
}

#[test]
fn sample_pixel_sums_the_samples_starting_from_black() {
    let count = Cell::new(0u32);
    // The n-th sample of the pixel escapes into the light 10^n.
    let primary = |_i: u32, _j: u32| {
        count.set(count.get() + 1);
        count.get()
    };
    let bounce = |ray: u32| -> Bounce<u32, u64> { Bounce::Escaped(10u64.pow(ray)) };
    let tint = |a: u64, c: u64| a * c;
    let gather = |sum: u64, light: u64| sum + light;
    let sum = camera(8, 8, 4, 1).sample_pixel(2, 5, 7u64, &primary, &bounce, &tint, &gather);
    assert_eq!(sum, 7 + 10 + 100 + 1000 + 10000);
}

#[test]
fn sample_pixel_gathers_in_the_order_of_sampling() {
    let count = Cell::new(0u32);
    let primary = |_i: u32, _j: u32| {
        count.set(count.get() + 1);
        count.get()
    };
    let bounce = |ray: u32| -> Bounce<u32, i64> { Bounce::Escaped(ray as i64) };
    let tint = |a: i64, c: i64| a * c;
    // Not commutative: the sum so far is the first argument.
    let gather = |sum: i64, light: i64| 10 * sum + light;
    let sum = camera(1, 1, 3, 1).sample_pixel(0, 0, 0i64, &primary, &bounce, &tint, &gather);
    assert_eq!(sum, 123);
}

#[test]
fn sample_pixel_samples_the_pixel_it_was_asked_for() {
    let seen = RefCell::new(Vec::new());
    let primary = |i: u32, j: u32| {
        seen.borrow_mut().push((i, j));
        0u8
    };
    let bounce = |_ray: u8| -> Bounce<u8, u8> { Bounce::Absorbed };
    let tint = |a: u8, _c: u8| a;
    let gather = |sum: u8, _light: u8| sum;
    camera(640, 480, 2, 3).sample_pixel(639, 479, 0u8, &primary, &bounce, &tint, &gather);
    assert_eq!(*seen.borrow(), vec![(639, 479), (639, 479)]);
}

fn quantize(linear: f64) -> u8 {
    let gamma = if linear > 0.0 { linear.sqrt() } else { 0.0 };
    (256.0 * gamma.clamp(0.0, 0.999)) as u8
}

#[test]
fn a_white_sum_resolves_to_255_and_a_black_one_to_0() {
    let white = Cell::new(true);
    let primary = |i: u32, _j: u32| i;
    // Column 0 sees white, column 1 sees black.
    let bounce = |ray: u32| -> Bounce<u32, [f64; 3]> {
        if ray == 0 {
            Bounce::Escaped([1.0, 1.0, 1.0])
        } else {
            white.set(false);
            Bounce::Escaped([0.0, 0.0, 0.0])
        }
    };
    let tint = |a: [f64; 3], c: [f64; 3]| [a[0] * c[0], a[1] * c[1], a[2] * c[2]];
    let gather = |sum: [f64; 3], light: [f64; 3]| [sum[0] + light[0], sum[1] + light[1], sum[2] + light[2]];
    let samples = 4u32;
    let scale = 1.0 / samples as f64;
    let resolve = |sum: [f64; 3]| Pixel {
        r: quantize(sum[0] * scale),
        g: quantize(sum[1] * scale),
        b: quantize(sum[2] * scale),
    };
    let image = camera(2, 1, samples, 5).render([0.0; 3], &primary, &bounce, &tint, &gather, &resolve);
    assert_eq!(image, vec![255, 255, 255, 0, 0, 0]);
    assert!(!white.get());
}
