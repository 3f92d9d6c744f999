use tg_rcore_tutorial::display::FrameBuffer;
use tg_rcore_tutorial::render::{
    build_triangles, draw_pieces, edge, fill_triangle, inside_tri, pieces_for_app, tri,
    TOTAL_TRIANGLES,
};
use tg_rcore_tutorial::tangram::{bounds, fill_shape, inside, p, render_tangram_os, Pt, Shape};

fn pixel(fb: &mut FrameBuffer, x: usize, y: usize) -> [u8; 4] {
    let off = fb.byte_offset(x, y).unwrap();
    let bytes = fb.as_bytes_mut();
    [bytes[off], bytes[off + 1], bytes[off + 2], bytes[off + 3]]
}

fn pt(x: i32, y: i32) -> Pt {
    Pt { x, y }
}

const BG_PX: [u8; 4] = [252, 249, 248, 255];

#[test]
fn pieces_grow_by_three_per_app() {
    assert_eq!(pieces_for_app(0), 3);
    assert_eq!(pieces_for_app(1), 6);
    assert_eq!(pieces_for_app(6), 21);
    assert_eq!(pieces_for_app(7), TOTAL_TRIANGLES);
    assert_eq!(pieces_for_app(100), TOTAL_TRIANGLES);
}

#[test]
fn edge_function_sign() {
    assert_eq!(edge(pt(0, 0), pt(10, 0), 5, 5), 50);
    assert_eq!(edge(pt(0, 0), pt(10, 0), 5, -5), -50);
    assert_eq!(edge(pt(0, 0), pt(10, 0), 20, 0), 0);
}

#[test]
fn inside_triangle_either_winding() {
    let (a, b, c) = (pt(0, 0), pt(10, 0), pt(0, 10));
    assert!(inside_tri(2, 2, a, b, c));
    assert!(inside_tri(2, 2, a, c, b));
    assert!(inside_tri(0, 0, a, b, c));
    assert!(inside_tri(5, 5, a, b, c));
    assert!(!inside_tri(6, 6, a, b, c));
    assert!(!inside_tri(-1, 2, a, b, c));
}

#[test]
fn build_triangles_centers_the_picture() {
    let mut raw = vec![0u8; 240 * 112 * 4];
    let fb = FrameBuffer::from_scanout(240, 112, &mut raw).unwrap();
    let tris = build_triangles(&fb);
    assert_eq!((tris[0].p0.x, tris[0].p0.y), (16, 16));
    assert_eq!((tris[0].p1.x, tris[0].p1.y), (40, 16));
    assert_eq!((tris[0].p2.x, tris[0].p2.y), (16, 40));
    assert_eq!(tris[0].color, (200, 20, 10));
}

#[test]
fn draw_pieces_shows_only_the_first_ones() {
    let mut raw = vec![0u8; 240 * 112 * 4];
    let mut fb = FrameBuffer::from_scanout(240, 112, &mut raw).unwrap();
    draw_pieces(&mut fb, 3);
    assert_eq!(pixel(&mut fb, 0, 0), BG_PX);
    assert_eq!(pixel(&mut fb, 18, 18), [10, 20, 200, 255]);
    assert_eq!(pixel(&mut fb, 84, 20), [10, 210, 255, 255]);
    assert_eq!(pixel(&mut fb, 90, 56), BG_PX);
    draw_pieces(&mut fb, 24);
    assert_ne!(pixel(&mut fb, 90, 56), BG_PX);
    assert_eq!(pixel(&mut fb, 0, 0), BG_PX);
}

#[test]
fn draw_pieces_with_zero_count_only_clears() {
    let mut raw = vec![7u8; 240 * 112 * 4];
    let mut fb = FrameBuffer::from_scanout(240, 112, &mut raw).unwrap();
    draw_pieces(&mut fb, 0);
    assert_eq!(pixel(&mut fb, 18, 18), BG_PX);
    assert_eq!(pixel(&mut fb, 239, 111), BG_PX);
}

#[test]
fn fill_triangle_paints_inside_only() {
    let mut raw = vec![0u8; 20 * 20 * 4];
    let mut fb = FrameBuffer::from_scanout(20, 20, &mut raw).unwrap();
    let t = tri(pt(2, 2), pt(12, 2), pt(2, 12), (1, 2, 3));
    fill_triangle(&mut fb, &t);
    assert_eq!(pixel(&mut fb, 3, 3), [3, 2, 1, 255]);
    assert_eq!(pixel(&mut fb, 7, 7), [3, 2, 1, 255]);
    assert_eq!(pixel(&mut fb, 8, 8), [0, 0, 0, 0]);
    assert_eq!(pixel(&mut fb, 1, 1), [0, 0, 0, 0]);
}

#[test]
fn tangram_point_mapping() {
    let q = p(42, 10, 5, 7, 3);
    assert_eq!((q.x, q.y), (131, 37));
}

#[test]
fn polygon_inside_test() {
    let sq = [pt(0, 0), pt(10, 0), pt(10, 10), pt(0, 10)];
    assert!(inside(5, 5, &sq, 4));
    assert!(inside(10, 5, &sq, 4));
    assert!(!inside(11, 5, &sq, 4));
    let t = [pt(0, 0), pt(10, 0), pt(0, 10), pt(0, 0)];
    assert!(inside(2, 2, &t, 3));
    assert!(!inside(8, 8, &t, 3));
    assert!(inside(8, 8, &t, 0));
}

#[test]
fn bounds_are_cut_to_the_screen() {
    let v = [pt(10, 8), pt(52, 8), pt(10, 50), pt(0, 0)];
    assert_eq!(bounds(&v, 3, 240, 100), (10, 53, 8, 51));
    assert_eq!(bounds(&v, 4, 240, 100), (0, 53, 0, 51));
    let w = [pt(-5, -5), pt(300, 7), pt(3, 200), pt(0, 0)];
    assert_eq!(bounds(&w, 3, 240, 100), (0, 239, 0, 99));
}

#[test]
fn fill_shape_quad() {
    let mut raw = vec![0u8; 20 * 20 * 4];
    let mut fb = FrameBuffer::from_scanout(20, 20, &mut raw).unwrap();
    let s = Shape::Quad([pt(2, 2), pt(6, 2), pt(6, 6), pt(2, 6)]);
    fill_shape(&mut fb, &s, (9, 8, 7));
    assert_eq!(pixel(&mut fb, 2, 2), [7, 8, 9, 255]);
    assert_eq!(pixel(&mut fb, 6, 6), [7, 8, 9, 255]);
    assert_eq!(pixel(&mut fb, 7, 6), [0, 0, 0, 0]);
}

#[test]
fn tangram_picture_pixels() {
    let mut raw = vec![0u8; 240 * 100 * 4];
    let mut fb = FrameBuffer::from_scanout(240, 100, &mut raw).unwrap();
    render_tangram_os(&mut fb);
    assert_eq!(pixel(&mut fb, 0, 0), BG_PX);
    assert_eq!(pixel(&mut fb, 30, 13), [10, 20, 200, 255]);
    assert_eq!(pixel(&mut fb, 239, 99), BG_PX);
}

#[test]
fn fill_triangle_on_a_framebuffer_without_columns_visits_column_zero() {
    let mut raw = vec![0u8; 4 * 4 * 4];
    let mut fb = FrameBuffer::from_scanout(4, 4, &mut raw).unwrap();
    fb.width = 0;
    let t = tri(pt(0, 0), pt(2, 0), pt(0, 2), (1, 2, 3));
    fill_triangle(&mut fb, &t);
    let bytes = fb.as_bytes_mut().to_vec();
    for row in 0..4 {
        let expected: [u8; 4] = if row < 3 { [3, 2, 1, 255] } else { [0; 4] };
        assert_eq!(&bytes[row * 16..row * 16 + 4], &expected);
        assert_eq!(&bytes[row * 16 + 4..row * 16 + 16], &[0u8; 12]);
    }
}

#[test]
fn triangle_layout_on_the_largest_screens() {
    let mut raw = vec![0u8; 64];
    let mut fb = FrameBuffer::from_scanout(4, 4, &mut raw).unwrap();
    fb.width = 16384;
    fb.height = 16384;
    let tris = build_triangles(&fb);
    assert_eq!((tris[0].p0.x, tris[0].p0.y), (1120, 5472));
    assert_eq!((tris[23].p1.x, tris[23].p1.y), (15264, 10912));
}

#[test]
fn tangram_scales_with_the_screen() {
    let mut raw = vec![0u8; 2400 * 1000 * 4];
    let mut fb = FrameBuffer::from_scanout(2400, 1000, &mut raw).unwrap();
    render_tangram_os(&mut fb);
    assert_eq!(pixel(&mut fb, 0, 0), BG_PX);
    assert_eq!(pixel(&mut fb, 300, 130), [10, 20, 200, 255]);
    assert_eq!(pixel(&mut fb, 2399, 999), BG_PX);
}

#[test]
fn tangram_drawn_twice_is_drawn_once() {
    let mut raw = vec![7u8; 240 * 100 * 4];
    let mut fb = FrameBuffer::from_scanout(240, 100, &mut raw).unwrap();
    render_tangram_os(&mut fb);
    let once = fb.as_bytes_mut().to_vec();
    render_tangram_os(&mut fb);
    assert_eq!(fb.as_bytes_mut().to_vec(), once);
}

#[test]
fn inside_ignores_where_the_corner_list_starts_and_its_direction() {
    let q = [pt(0, 0), pt(10, 0), pt(10, 10), pt(0, 10)];
    let rot = [pt(10, 10), pt(0, 10), pt(0, 0), pt(10, 0)];
    let rev = [pt(0, 10), pt(10, 10), pt(10, 0), pt(0, 0)];
    for &(x, y) in &[(5, 5), (0, 0), (10, 5), (11, 5), (-1, -1), (3, 12)] {
        assert_eq!(inside(x, y, &q, 4), inside(x, y, &rot, 4));
        assert_eq!(inside(x, y, &q, 4), inside(x, y, &rev, 4));
    }
}

#[test]
fn triangle_test_matches_polygon_test() {
    let (a, b, c) = (pt(1, 1), pt(12, 3), pt(4, 9));
    for y in -2..12 {
        for x in -2..15 {
            assert_eq!(inside_tri(x, y, a, b, c), inside(x, y, &[a, b, c, pt(0, 0)], 3));
        }
    }
}
