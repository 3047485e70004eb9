use soft_raster::color::{Color, LinearColor};
use soft_raster::depth::{depth_key, DEPTH_FAR};
use soft_raster::framebuffer::Framebuffer;
use soft_raster::pipeline::{
    admits, assemble_triangles, render, transform_vertices, Fragment, SurfaceKind,
};

fn key(depth: f32) -> i32 {
    depth_key(depth.to_bits())
}

fn fragment(x: i32, y: i32, depth: f32, r: i32) -> Fragment {
    Fragment { x, y, depth: key(depth), color: Some(LinearColor::new(r, 0, 0)) }
}

fn red(r: u8) -> Option<Color> {
    Some(Color::new(r, 0, 0, 255))
}

#[test]
fn transform_keeps_count_and_order() {
    let mesh: Vec<i64> = vec![5, -3, 12, 0, 7, 7, 1];
    let out = transform_vertices(&mesh, |v: &i64| v * 2 + 1);
    assert_eq!(out, vec![11, -5, 25, 1, 15, 15, 3]);
    assert_eq!(out.len(), mesh.len());
}

#[test]
fn transform_of_empty_mesh_is_empty() {
    let mesh: Vec<(f32, f32)> = Vec::new();
    let out = transform_vertices(&mesh, |v: &(f32, f32)| (v.1, v.0));
    assert!(out.is_empty());
}

#[test]
fn transform_keeps_count_for_every_size() {
    for n in 0..40usize {
        let mesh: Vec<usize> = (0..n).collect();
        let out = transform_vertices(&mesh, |v: &usize| n - v);
        assert_eq!(out.len(), n);
        for i in 0..n {
            assert_eq!(out[i], n - i);
        }
    }
}

#[test]
fn assemble_groups_by_three() {
    let vertices: Vec<u8> = vec![1, 2, 3, 4, 5, 6];
    assert_eq!(assemble_triangles(&vertices), vec![[1, 2, 3], [4, 5, 6]]);
}

#[test]
fn assemble_drops_a_trailing_partial_group() {
    let seven: Vec<u8> = vec![1, 2, 3, 4, 5, 6, 7];
    assert_eq!(assemble_triangles(&seven), vec![[1, 2, 3], [4, 5, 6]]);
    let eight: Vec<u8> = vec![1, 2, 3, 4, 5, 6, 7, 8];
    assert_eq!(assemble_triangles(&eight), vec![[1, 2, 3], [4, 5, 6]]);
    let two: Vec<u8> = vec![1, 2];
    assert!(assemble_triangles(&two).is_empty());
    let none: Vec<u8> = Vec::new();
    assert!(assemble_triangles(&none).is_empty());
    let three: Vec<u8> = vec![9, 8, 7];
    assert_eq!(assemble_triangles(&three), vec![[9, 8, 7]]);
}

#[test]
fn surface_names_select_their_kind() {
    assert_eq!(SurfaceKind::from_name("Sun"), SurfaceKind::Sun);
    assert_eq!(SurfaceKind::from_name("Mercury"), SurfaceKind::Mercury);
    assert_eq!(SurfaceKind::from_name("Earth"), SurfaceKind::Earth);
    assert_eq!(SurfaceKind::from_name("Mars"), SurfaceKind::Mars);
    assert_eq!(SurfaceKind::from_name("Uranus"), SurfaceKind::Uranus);
    assert_eq!(SurfaceKind::from_name("Nave"), SurfaceKind::Nave);
    assert_eq!(SurfaceKind::from_name("Skybox"), SurfaceKind::Skybox);
}

#[test]
fn unknown_surface_name_selects_plain() {
    assert_eq!(SurfaceKind::from_name("Venus"), SurfaceKind::Plain);
    assert_eq!(SurfaceKind::from_name(""), SurfaceKind::Plain);
    assert_eq!(SurfaceKind::from_name("sun"), SurfaceKind::Plain);
    assert_eq!(SurfaceKind::from_name("Sun "), SurfaceKind::Plain);
    assert_eq!(SurfaceKind::from_name("Plain"), SurfaceKind::Plain);
    assert_eq!(SurfaceKind::from_name("Su"), SurfaceKind::Plain);
}

#[test]
fn admits_needs_a_pixel_and_a_finite_depth() {
    let fb = Framebuffer::new(4, 3);
    assert!(admits(&fb, 0, 0, key(1.0)));
    assert!(admits(&fb, 3, 2, key(-7.5)));
    assert!(!admits(&fb, 4, 2, key(1.0)));
    assert!(!admits(&fb, 3, 3, key(1.0)));
    assert!(!admits(&fb, -1, 0, key(1.0)));
    assert!(!admits(&fb, 0, -1, key(1.0)));
    assert!(!admits(&fb, 0, 0, key(f32::INFINITY)));
    assert!(!admits(&fb, 0, 0, key(f32::NEG_INFINITY)));
    assert!(!admits(&fb, 0, 0, key(f32::NAN)));
    assert!(admits(&fb, 0, 0, key(f32::MAX)));
    assert!(admits(&fb, 0, 0, DEPTH_FAR - 1));
}

#[test]
fn render_keeps_the_nearest_fragment_of_each_pixel() {
    let mut fb = Framebuffer::new(4, 4);
    let fragments = vec![
        fragment(1, 1, 5.0, 10),
        fragment(2, 2, 1.0, 20),
        fragment(1, 1, 3.0, 30),
        fragment(2, 2, 2.0, 40),
        fragment(1, 1, 4.0, 50),
    ];
    render(&mut fb, &fragments);
    assert_eq!(fb.pixel(1, 1), red(30));
    assert_eq!(fb.depth(1, 1), Some(key(3.0)));
    assert_eq!(fb.pixel(2, 2), red(20));
    assert_eq!(fb.depth(2, 2), Some(key(1.0)));
    assert_eq!(fb.pixel(0, 0), red(0));
    assert_eq!(fb.depth(0, 0), Some(DEPTH_FAR));
}

#[test]
fn render_keeps_the_earliest_of_equally_near_fragments() {
    let mut fb = Framebuffer::new(2, 2);
    let fragments = vec![fragment(0, 1, 2.0, 10), fragment(0, 1, 2.0, 20), fragment(0, 1, 2.0, 30)];
    render(&mut fb, &fragments);
    assert_eq!(fb.pixel(0, 1), red(10));
}

#[test]
fn render_result_does_not_depend_on_order_of_distinct_depths() {
    let a = vec![fragment(1, 0, 1.0, 10), fragment(1, 0, 2.0, 20), fragment(1, 0, 3.0, 30)];
    let b = vec![fragment(1, 0, 3.0, 30), fragment(1, 0, 2.0, 20), fragment(1, 0, 1.0, 10)];
    let mut first = Framebuffer::new(2, 1);
    let mut second = Framebuffer::new(2, 1);
    render(&mut first, &a);
    render(&mut second, &b);
    assert_eq!(first.pixel(1, 0), red(10));
    assert_eq!(second.pixel(1, 0), red(10));
    assert_eq!(first.depth(1, 0), second.depth(1, 0));
}

#[test]
fn render_discards_fragments_outside_the_framebuffer() {
    let mut fb = Framebuffer::new(3, 3);
    let fragments = vec![
        fragment(-1, 0, 1.0, 10),
        fragment(3, 0, 1.0, 10),
        fragment(0, 3, 1.0, 10),
        fragment(0, -1, 1.0, 10),
        fragment(i32::MAX, i32::MIN, 1.0, 10),
    ];
    render(&mut fb, &fragments);
    for y in 0..3 {
        for x in 0..3 {
            assert_eq!(fb.pixel(x, y), red(0));
            assert_eq!(fb.depth(x, y), Some(DEPTH_FAR));
        }
    }
}

#[test]
fn render_discards_fragments_without_a_finite_depth() {
    let mut fb = Framebuffer::new(3, 1);
    let fragments = vec![
        fragment(0, 0, f32::NEG_INFINITY, 10),
        fragment(1, 0, f32::NAN, 20),
        fragment(2, 0, f32::INFINITY, 30),
    ];
    render(&mut fb, &fragments);
    for x in 0..3 {
        assert_eq!(fb.pixel(x, 0), red(0));
        assert_eq!(fb.depth(x, 0), Some(DEPTH_FAR));
    }
    fb.point(0, 0, LinearColor::new(10, 0, 0), key(f32::NEG_INFINITY));
    assert_eq!(fb.pixel(0, 0), red(10));
}

#[test]
fn render_discards_fragments_without_a_color() {
    let mut fb = Framebuffer::new(2, 1);
    let fragments = vec![
        Fragment { x: 0, y: 0, depth: key(1.0), color: None },
        fragment(0, 0, 2.0, 10),
        Fragment { x: 1, y: 0, depth: key(1.0), color: None },
    ];
    render(&mut fb, &fragments);
    assert_eq!(fb.pixel(0, 0), red(10));
    assert_eq!(fb.depth(0, 0), Some(key(2.0)));
    assert_eq!(fb.pixel(1, 0), red(0));
    assert_eq!(fb.depth(1, 0), Some(DEPTH_FAR));
}

#[test]
fn render_of_nothing_changes_nothing() {
    let mut fb = Framebuffer::new(2, 2);
    fb.point(1, 1, LinearColor::new(9, 0, 0), key(1.0));
    render(&mut fb, &Vec::new());
    assert_eq!(fb.pixel(1, 1), red(9));
    assert_eq!(fb.pixel(0, 0), red(0));
}

#[test]
fn render_clamps_fragment_colors() {
    let mut fb = Framebuffer::new(1, 1);
    let fragments = vec![Fragment {
        x: 0,
        y: 0,
        depth: key(1.0),
        color: Some(LinearColor::new(510, -40, 255)),
    }];
    render(&mut fb, &fragments);
    assert_eq!(fb.pixel(0, 0), Some(Color::new(255, 0, 255, 255)));
}

#[test]
fn render_after_earlier_writes_respects_them() {
    let mut fb = Framebuffer::new(2, 1);
    fb.point(0, 0, LinearColor::new(99, 0, 0), key(1.0));
    render(&mut fb, &vec![fragment(0, 0, 2.0, 10), fragment(1, 0, 2.0, 10)]);
    assert_eq!(fb.pixel(0, 0), red(99));
    assert_eq!(fb.pixel(1, 0), red(10));
}
