use soft_raster::color::{Color, LinearColor};
use soft_raster::depth::{depth_key, DEPTH_FAR};
use soft_raster::framebuffer::Framebuffer;
use soft_raster::pipeline::draw_closed_path;
use soft_raster::triangle::ScreenPoint;

fn key(depth: f32) -> i32 {
    depth_key(depth.to_bits())
}

const INK: Color = Color { r: 200, g: 100, b: 50, a: 9 };
const STORED_INK: Color = Color { r: 200, g: 100, b: 50, a: 255 };
const BLACK: Color = Color { r: 0, g: 0, b: 0, a: 255 };

fn lit(fb: &Framebuffer) -> Vec<(i32, i32)> {
    let mut pixels = Vec::new();
    for y in 0..fb.height() {
        for x in 0..fb.width() {
            if fb.pixel(x, y) != Some(BLACK) {
                pixels.push((x, y));
            }
        }
    }
    pixels
}

fn stepped(x0: i32, y0: i32, x1: i32, y1: i32) -> Vec<(i32, i32)> {
    let (mut x, mut y) = (x0 as i64, y0 as i64);
    let (x1, y1) = (x1 as i64, y1 as i64);
    let dx = (x1 - x).abs();
    let dy = (y1 - y).abs();
    let sx = if x < x1 { 1 } else { -1 };
    let sy = if y < y1 { 1 } else { -1 };
    let mut err = dx - dy;
    let mut pixels = Vec::new();
    loop {
        pixels.push((x as i32, y as i32));
        if x == x1 && y == y1 {
            break;
        }
        let e2 = 2 * err;
        if e2 > -dy {
            err -= dy;
            x += sx;
        }
        if e2 < dx {
            err += dx;
            y += sy;
        }
    }
    pixels
}

fn drawn(x0: i32, y0: i32, x1: i32, y1: i32, size: i32) -> Vec<(i32, i32)> {
    let mut fb = Framebuffer::new(size, size);
    fb.draw_line_with_depth(x0, y0, x1, y1, INK, key(1.0));
    lit(&fb)
}

fn sorted_in_view(mut pixels: Vec<(i32, i32)>, size: i32) -> Vec<(i32, i32)> {
    pixels.retain(|&(x, y)| x >= 0 && x < size && y >= 0 && y < size);
    pixels.sort_by_key(|&(x, y)| (y, x));
    pixels.dedup();
    pixels
}

#[test]
fn line_behind_a_nearer_pixel_leaves_it() {
    let mut fb = Framebuffer::new(8, 4);
    let red = LinearColor::new(255, 0, 0);
    fb.point(2, 0, red, key(1.0));
    fb.draw_line_with_depth(0, 0, 5, 0, INK, key(2.0));
    assert_eq!(fb.pixel(2, 0), Some(Color::new(255, 0, 0, 255)));
    assert_eq!(fb.depth(2, 0), Some(key(1.0)));
    for x in [0, 1, 3, 4, 5] {
        assert_eq!(fb.pixel(x, 0), Some(STORED_INK));
        assert_eq!(fb.depth(x, 0), Some(key(2.0)));
    }
    assert_eq!(fb.pixel(6, 0), Some(BLACK));
    assert_eq!(fb.depth(6, 0), Some(DEPTH_FAR));
    for y in 1..4 {
        for x in 0..8 {
            assert_eq!(fb.pixel(x, y), Some(BLACK));
        }
    }
}

#[test]
fn line_in_front_of_a_pixel_covers_it() {
    let mut fb = Framebuffer::new(8, 4);
    fb.point(2, 0, LinearColor::new(255, 0, 0), key(3.0));
    fb.draw_line_with_depth(0, 0, 5, 0, INK, key(2.0));
    assert_eq!(fb.pixel(2, 0), Some(STORED_INK));
    assert_eq!(fb.depth(2, 0), Some(key(2.0)));
}

#[test]
fn single_point_line_draws_one_pixel() {
    assert_eq!(drawn(3, 4, 3, 4, 8), vec![(3, 4)]);
}

#[test]
fn horizontal_and_vertical_lines() {
    assert_eq!(drawn(1, 2, 4, 2, 6), vec![(1, 2), (2, 2), (3, 2), (4, 2)]);
    assert_eq!(drawn(4, 2, 1, 2, 6), vec![(1, 2), (2, 2), (3, 2), (4, 2)]);
    assert_eq!(drawn(2, 0, 2, 3, 6), vec![(2, 0), (2, 1), (2, 2), (2, 3)]);
    assert_eq!(drawn(2, 3, 2, 0, 6), vec![(2, 0), (2, 1), (2, 2), (2, 3)]);
}

#[test]
fn diagonal_line() {
    assert_eq!(drawn(0, 0, 4, 4, 6), vec![(0, 0), (1, 1), (2, 2), (3, 3), (4, 4)]);
    assert_eq!(drawn(4, 0, 0, 4, 6), vec![(4, 0), (3, 1), (2, 2), (1, 3), (0, 4)]);
}

#[test]
fn shallow_line_rounds_half_towards_start() {
    assert_eq!(drawn(0, 0, 2, 1, 4), vec![(0, 0), (1, 0), (2, 1)]);
    assert_eq!(drawn(2, 1, 0, 0, 4), vec![(0, 0), (1, 1), (2, 1)]);
    assert_eq!(
        drawn(0, 0, 5, 2, 8),
        vec![(0, 0), (1, 0), (2, 1), (3, 1), (4, 2), (5, 2)]
    );
}

#[test]
fn steep_line() {
    assert_eq!(
        drawn(1, 0, 3, 6, 8),
        vec![(1, 0), (1, 1), (2, 2), (2, 3), (2, 4), (3, 5), (3, 6)]
    );
}

#[test]
fn lines_match_error_stepping_for_all_small_segments() {
    let size = 9;
    for x0 in -2..11 {
        for y0 in [-3, 0, 4, 8, 10] {
            for x1 in -2..11 {
                for y1 in -2..11 {
                    let expected = sorted_in_view(stepped(x0, y0, x1, y1), size);
                    assert_eq!(drawn(x0, y0, x1, y1, size), expected);
                }
            }
        }
    }
}

#[test]
fn line_partly_outside_draws_the_inside_part() {
    assert_eq!(drawn(-3, 1, 2, 1, 4), vec![(0, 1), (1, 1), (2, 1)]);
    assert_eq!(drawn(2, 2, 9, 2, 4), vec![(2, 2), (3, 2)]);
    assert_eq!(drawn(-5, -5, -1, -1, 4), vec![]);
}

#[test]
fn line_between_distant_ends_crosses_the_view() {
    let mut fb = Framebuffer::new(4, 4);
    fb.draw_line_with_depth(-100_000, 2, 100_000, 2, INK, key(1.0));
    assert_eq!(lit(&fb), vec![(0, 2), (1, 2), (2, 2), (3, 2)]);
}

#[test]
fn line_alpha_is_stored_opaque() {
    let mut fb = Framebuffer::new(3, 1);
    fb.draw_line_with_depth(0, 0, 2, 0, Color::new(255, 255, 255, 50), key(1000.0));
    for x in 0..3 {
        assert_eq!(fb.pixel(x, 0), Some(Color::new(255, 255, 255, 255)));
        assert_eq!(fb.depth(x, 0), Some(0x447a_0000));
    }
}

#[test]
fn closed_path_joins_last_point_to_first() {
    let mut fb = Framebuffer::new(6, 6);
    let points = vec![
        ScreenPoint { x: 1, y: 1 },
        ScreenPoint { x: 4, y: 1 },
        ScreenPoint { x: 4, y: 4 },
        ScreenPoint { x: 1, y: 4 },
    ];
    draw_closed_path(&mut fb, &points, INK, key(1000.0));
    let mut expected = Vec::new();
    for y in 1..=4 {
        for x in 1..=4 {
            if x == 1 || x == 4 || y == 1 || y == 4 {
                expected.push((x, y));
            }
        }
    }
    assert_eq!(lit(&fb), expected);
}

#[test]
fn closed_path_of_two_points_is_one_segment() {
    let mut fb = Framebuffer::new(5, 5);
    let points = vec![ScreenPoint { x: 0, y: 0 }, ScreenPoint { x: 2, y: 1 }];
    draw_closed_path(&mut fb, &points, INK, key(1.0));
    assert_eq!(lit(&fb), vec![(0, 0), (1, 0), (1, 1), (2, 1)]);
}

#[test]
fn closed_path_of_one_point_is_one_pixel() {
    let mut fb = Framebuffer::new(5, 5);
    draw_closed_path(&mut fb, &vec![ScreenPoint { x: 3, y: 2 }], INK, key(1.0));
    assert_eq!(lit(&fb), vec![(3, 2)]);
}

#[test]
fn closed_path_without_points_draws_nothing() {
    let mut fb = Framebuffer::new(5, 5);
    draw_closed_path(&mut fb, &Vec::new(), INK, key(1.0));
    assert_eq!(lit(&fb), vec![]);
}

#[test]
fn line_has_one_pixel_for_every_step_of_its_longer_axis() {
    for &(x0, y0, x1, y1) in &[(0i32, 0i32, 7i32, 3i32), (7, 3, 0, 0), (2, 9, 5, 0), (1, 1, 1, 8), (6, 2, 0, 8)] {
        let pixels = drawn(x0, y0, x1, y1, 10);
        let span = (x1 - x0).abs().max((y1 - y0).abs());
        assert_eq!(pixels.len() as i32, span + 1);
        assert!(pixels.contains(&(x0, y0)));
        assert!(pixels.contains(&(x1, y1)));
        for &(x, y) in &pixels {
            assert!(x >= x0.min(x1) && x <= x0.max(x1));
            assert!(y >= y0.min(y1) && y <= y0.max(y1));
            let neighbours = pixels
                .iter()
                .filter(|&&(u, v)| (u, v) != (x, y) && (u - x).abs() <= 1 && (v - y).abs() <= 1)
                .count();
            let is_end = (x, y) == (x0, y0) || (x, y) == (x1, y1);
            assert!(neighbours >= if is_end { 1 } else { 2 });
        }
    }
}

#[test]
fn line_pixels_stay_within_half_a_pixel_of_the_ideal_line() {
    for x1 in -1..10i32 {
        for y1 in -1..10i32 {
            let (x0, y0): (i32, i32) = (4, 3);
            let span = (x1 - x0).abs().max((y1 - y0).abs());
            for (x, y) in drawn(x0, y0, x1, y1, 10) {
                let cross = (x - x0) * (y1 - y0) - (y - y0) * (x1 - x0);
                assert!(2 * cross.abs() <= span);
            }
        }
    }
}
