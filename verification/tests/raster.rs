use softrender::math::{orient2d, PointI32};
use softrender::raster::{
    draw_triangle_barycentric, draw_triangle_barycentric_z, draw_triangle_barycentric_z_uv,
    triangle_fragments, Fragment, ShadedFragment,
};
use softrender::render::{is_power_of_two, wrap, Color, RenderTarget, Texture, DEPTH_FAR};

fn pt(x: i32, y: i32) -> PointI32 {
    PointI32 { x, y }
}

/// A key that orders as the non-negative depth `z` does.
fn depth_key(z: f32) -> u32 {
    z.to_bits()
}

fn pixel(t: &RenderTarget, x: u32, y: u32) -> (u8, u8, u8, u8) {
    let i = ((y * t.width + x) * 4) as usize;
    (t.buffer[i], t.buffer[i + 1], t.buffer[i + 2], t.buffer[i + 3])
}

fn depth(t: &RenderTarget, x: u32, y: u32) -> u32 {
    t.depth[(y * t.width + x) as usize]
}

fn one_texel(r: u8, g: u8, b: u8) -> Texture {
    Texture { width: 1, height: 1, data: vec![r, g, b, 7] }
}

fn shaded(frags: &Vec<Fragment>, z: f32) -> Vec<ShadedFragment> {
    frags
        .iter()
        .map(|f| ShadedFragment { x: f.x, y: f.y, depth: depth_key(z), iu: 0, iv: 0 })
        .collect()
}

fn positions(frags: &Vec<Fragment>) -> Vec<(u32, u32)> {
    frags.iter().map(|f| (f.x, f.y)).collect()
}

#[test]
fn orient2d_values() {
    assert_eq!(orient2d(&pt(0, 0), &pt(2, 0), 0, 2), 4);
    assert_eq!(orient2d(&pt(0, 0), &pt(0, 2), 2, 0), -4);
    assert_eq!(orient2d(&pt(1, 1), &pt(3, 3), 2, 2), 0);
    assert_eq!(orient2d(&pt(2, 0), &pt(0, 2), 1, 0), 2);
    assert_eq!(
        orient2d(&pt(i32::MIN, i32::MIN), &pt(i32::MAX, i32::MIN), i32::MIN, i32::MAX),
        (u32::MAX as i128) * (u32::MAX as i128)
    );
}

#[test]
fn edge_values_sum_to_the_area() {
    let (v0, v1, v2) = (pt(-3, 1), pt(9, 2), pt(4, 11));
    let area = orient2d(&v0, &v1, v2.x, v2.y);
    assert_eq!(area, 113);
    for y in -2..14 {
        for x in -5..12 {
            let sum = orient2d(&v1, &v2, x, y) + orient2d(&v2, &v0, x, y) + orient2d(&v0, &v1, x, y);
            assert_eq!(sum, area);
        }
    }
}

#[test]
fn single_pixel_triangle() {
    let mut target = RenderTarget::new(4, 4).unwrap();
    let texture = Texture {
        width: 2,
        height: 2,
        data: vec![10, 20, 30, 40, 1, 1, 1, 1, 2, 2, 2, 2, 3, 3, 3, 3],
    };
    let frags = triangle_fragments(&pt(0, 0), &pt(2, 0), &pt(0, 2), 4, 4);
    // The fill rule takes the points on an edge: the three pixels with
    // x + y <= 1 and the three on the edge x + y = 2.
    assert_eq!(positions(&frags), vec![(0, 0), (1, 0), (2, 0), (0, 1), (1, 1), (0, 2)]);
    assert_eq!(frags[0], Fragment { x: 0, y: 0, w0: 4, w1: 0, w2: 0 });
    assert_eq!(frags[1], Fragment { x: 1, y: 0, w0: 2, w1: 2, w2: 0 });
    assert_eq!(frags[4], Fragment { x: 1, y: 1, w0: 0, w1: 2, w2: 2 });
    draw_triangle_barycentric_z_uv(&mut target, &texture, &shaded(&frags, 0.5));
    for y in 0..4 {
        for x in 0..4 {
            if x + y <= 2 {
                assert_eq!(pixel(&target, x, y), (10, 20, 30, 255));
                assert_eq!(depth(&target, x, y), depth_key(0.5));
            } else {
                assert_eq!(pixel(&target, x, y), (0, 0, 0, 255));
                assert_eq!(depth(&target, x, y), DEPTH_FAR);
            }
        }
    }
}

#[test]
fn depth_occlusion() {
    let red = one_texel(255, 0, 0);
    let blue = one_texel(0, 0, 255);
    let frags = triangle_fragments(&pt(0, 0), &pt(8, 0), &pt(0, 8), 4, 4);
    assert_eq!(frags.len(), 16);
    let near = shaded(&frags, 0.2);
    let far = shaded(&frags, 0.8);

    let mut blue_then_red = RenderTarget::new(4, 4).unwrap();
    draw_triangle_barycentric_z_uv(&mut blue_then_red, &blue, &far);
    assert_eq!(pixel(&blue_then_red, 3, 3), (0, 0, 255, 255));
    draw_triangle_barycentric_z_uv(&mut blue_then_red, &red, &near);

    let mut red_then_blue = RenderTarget::new(4, 4).unwrap();
    draw_triangle_barycentric_z_uv(&mut red_then_blue, &red, &near);
    draw_triangle_barycentric_z_uv(&mut red_then_blue, &blue, &far);

    for y in 0..4 {
        for x in 0..4 {
            assert_eq!(pixel(&blue_then_red, x, y), (255, 0, 0, 255));
            assert_eq!(pixel(&red_then_blue, x, y), (255, 0, 0, 255));
            assert_eq!(depth(&blue_then_red, x, y), depth_key(0.2));
            assert_eq!(depth(&red_then_blue, x, y), depth_key(0.2));
        }
    }
}

#[test]
fn depth_test_is_strict() {
    let mut target = RenderTarget::new(2, 1).unwrap();
    let c1 = Color { r: 1, g: 2, b: 3, a: 4 };
    let c2 = Color { r: 5, g: 6, b: 7, a: 8 };
    assert_eq!(target.put_fragment(1, 0, 100, &c1), true);
    assert_eq!(pixel(&target, 1, 0), (1, 2, 3, 4));
    assert_eq!(target.put_fragment(1, 0, 100, &c2), false);
    assert_eq!(pixel(&target, 1, 0), (1, 2, 3, 4));
    assert_eq!(target.put_fragment(1, 0, 101, &c2), false);
    assert_eq!(target.put_fragment(1, 0, 99, &c2), true);
    assert_eq!(pixel(&target, 1, 0), (5, 6, 7, 8));
    assert_eq!(depth(&target, 1, 0), 99);
    assert_eq!(target.put_fragment(0, 0, DEPTH_FAR, &c2), false);
    assert_eq!(pixel(&target, 0, 0), (0, 0, 0, 255));
    assert_eq!(depth(&target, 0, 0), DEPTH_FAR);
}

#[test]
fn nearer_fragment_wins_in_either_order() {
    let near = Color { r: 9, g: 9, b: 9, a: 255 };
    let far = Color { r: 1, g: 1, b: 1, a: 255 };
    let mut a = RenderTarget::new(3, 3).unwrap();
    let mut b = RenderTarget::new(3, 3).unwrap();
    a.put_fragment(2, 1, depth_key(0.3), &near);
    a.put_fragment(2, 1, depth_key(0.7), &far);
    b.put_fragment(2, 1, depth_key(0.7), &far);
    b.put_fragment(2, 1, depth_key(0.3), &near);
    assert_eq!(a.buffer, b.buffer);
    assert_eq!(a.depth, b.depth);
    assert_eq!(pixel(&a, 2, 1), (9, 9, 9, 255));
}

#[test]
fn fragments_off_the_target_are_skipped() {
    let mut target = RenderTarget::new(2, 2).unwrap();
    let texture = one_texel(8, 8, 8);
    let frags = vec![
        ShadedFragment { x: 2, y: 0, depth: 1, iu: 0, iv: 0 },
        ShadedFragment { x: 0, y: 2, depth: 1, iu: 0, iv: 0 },
        ShadedFragment { x: 1, y: 1, depth: 1, iu: 0, iv: 0 },
    ];
    draw_triangle_barycentric_z_uv(&mut target, &texture, &frags);
    assert_eq!(pixel(&target, 1, 1), (8, 8, 8, 255));
    assert_eq!(pixel(&target, 0, 0), (0, 0, 0, 255));
    assert_eq!(pixel(&target, 1, 0), (0, 0, 0, 255));
    assert_eq!(pixel(&target, 0, 1), (0, 0, 0, 255));
}

#[test]
fn flat_colour_with_depth() {
    let mut target = RenderTarget::new(2, 2).unwrap();
    let c = Color { r: 4, g: 5, b: 6, a: 77 };
    let frags = vec![
        ShadedFragment { x: 0, y: 0, depth: 10, iu: 0, iv: 0 },
        ShadedFragment { x: 1, y: 0, depth: DEPTH_FAR, iu: 0, iv: 0 },
        ShadedFragment { x: 5, y: 5, depth: 0, iu: 0, iv: 0 },
    ];
    draw_triangle_barycentric_z(&mut target, &c, &frags);
    assert_eq!(pixel(&target, 0, 0), (4, 5, 6, 77));
    assert_eq!(depth(&target, 0, 0), 10);
    assert_eq!(pixel(&target, 1, 0), (0, 0, 0, 255));
}

#[test]
fn flat_fill_paints_the_covered_pixels() {
    let mut target = RenderTarget::new(4, 3).unwrap();
    let c = Color { r: 200, g: 100, b: 50, a: 25 };
    draw_triangle_barycentric(&mut target, &c, &pt(1, 0), &pt(3, 0), &pt(1, 2));
    for y in 0..3 {
        for x in 0..4 {
            let inside = x >= 1 && x + y <= 3;
            assert_eq!(pixel(&target, x, y) == (200, 100, 50, 25), inside);
            assert_eq!(depth(&target, x, y), DEPTH_FAR);
        }
    }
}

#[test]
fn triangles_without_fragments() {
    // Area zero.
    assert_eq!(triangle_fragments(&pt(0, 0), &pt(1, 1), &pt(3, 3), 8, 8), vec![]);
    assert_eq!(triangle_fragments(&pt(2, 2), &pt(2, 2), &pt(2, 2), 8, 8), vec![]);
    // Wound the other way.
    assert_eq!(triangle_fragments(&pt(0, 0), &pt(0, 2), &pt(2, 0), 8, 8), vec![]);
    // Off the surface.
    assert_eq!(triangle_fragments(&pt(-9, -9), &pt(-5, -9), &pt(-9, -5), 8, 8), vec![]);
    assert_eq!(triangle_fragments(&pt(8, 0), &pt(12, 0), &pt(8, 4), 8, 8), vec![]);
    // No surface.
    assert_eq!(triangle_fragments(&pt(0, 0), &pt(2, 0), &pt(0, 2), 0, 0), vec![]);
}

#[test]
fn fragments_are_clamped_to_the_target() {
    let frags = triangle_fragments(&pt(-4, -4), &pt(20, -4), &pt(-4, 20), 3, 2);
    assert_eq!(positions(&frags), vec![(0, 0), (1, 0), (2, 0), (0, 1), (1, 1), (2, 1)]);
    let frags = triangle_fragments(&pt(2, 1), &pt(4, 1), &pt(2, 3), 3, 2);
    assert_eq!(positions(&frags), vec![(2, 1)]);
}

#[test]
fn fragments_match_the_edge_functions() {
    let (v0, v1, v2) = (pt(1, 0), pt(6, 2), pt(2, 5));
    let frags = triangle_fragments(&v0, &v1, &v2, 8, 8);
    let mut expected = vec![];
    for y in 0..8 {
        for x in 0..8 {
            let w0 = orient2d(&v1, &v2, x, y);
            let w1 = orient2d(&v2, &v0, x, y);
            let w2 = orient2d(&v0, &v1, x, y);
            if w0 >= 0 && w1 >= 0 && w2 >= 0 {
                expected.push(Fragment { x: x as u32, y: y as u32, w0, w1, w2 });
            }
        }
    }
    assert_eq!(frags, expected);
    assert_eq!(frags.len(), 14);
}

#[test]
fn texture_wrap() {
    let texture = Texture {
        width: 2,
        height: 2,
        data: vec![0, 0, 0, 0, 1, 1, 1, 1, 2, 2, 2, 2, 3, 3, 3, 3],
    };
    assert_eq!(texture.sample(1, 0), Color { r: 1, g: 1, b: 1, a: 1 });
    assert_eq!(texture.sample(0, 1), Color { r: 2, g: 2, b: 2, a: 2 });
    for iv in -5..6 {
        for iu in -5..6 {
            assert_eq!(texture.sample(iu + 2, iv), texture.sample(iu, iv));
            assert_eq!(texture.sample(iu, iv + 2), texture.sample(iu, iv));
        }
    }
    assert_eq!(texture.sample(-1, -1), Color { r: 3, g: 3, b: 3, a: 3 });
    assert_eq!(texture.sample(i32::MIN, i32::MAX), Color { r: 2, g: 2, b: 2, a: 2 });
}

#[test]
fn wrap_is_the_remainder_and_the_mask() {
    assert_eq!(wrap(5, 4), 1);
    assert_eq!(wrap(-1, 4), 3);
    assert_eq!(wrap(-4, 4), 0);
    assert_eq!(wrap(0, 1), 0);
    assert_eq!(wrap(-7, 3), 2);
    for n in [1u32, 2, 8, 256] {
        for i in -600..600 {
            assert_eq!(wrap(i, n), (i as u32) & (n - 1));
            assert_eq!(wrap(i, n), i.rem_euclid(n as i32) as u32);
        }
    }
    assert_eq!(wrap(i32::MIN, 0x8000_0000), 0);
    assert_eq!(wrap(i32::MIN, u32::MAX), 2147483647);
}

#[test]
fn powers_of_two() {
    for k in 0..32 {
        assert!(is_power_of_two(1u32 << k));
    }
    for n in [0u32, 3, 5, 6, 7, 12, 255, 257, u32::MAX] {
        assert!(!is_power_of_two(n));
    }
}

#[test]
fn texture_validity() {
    assert!(!Texture::new().is_valid());
    assert_eq!((Texture::new().width, Texture::new().height, Texture::new().data.len()), (0, 0, 0));
    assert!(one_texel(1, 2, 3).is_valid());
    assert!(Texture { width: 4, height: 2, data: vec![0; 32] }.is_valid());
    assert!(!Texture { width: 4, height: 2, data: vec![0; 31] }.is_valid());
    assert!(!Texture { width: 3, height: 2, data: vec![0; 24] }.is_valid());
}

#[test]
fn render_target_layout() {
    let mut target = RenderTarget::new(3, 2).unwrap();
    assert!(target.is_valid());
    assert_eq!((target.width, target.height), (3, 2));
    assert_eq!(target.buffer, vec![0, 0, 0, 255].repeat(6));
    assert_eq!(target.depth, vec![DEPTH_FAR; 6]);
    target.put_pixel(2, 1, &Color { r: 1, g: 2, b: 3, a: 4 });
    assert_eq!(target.buffer[(1 * 3 + 2) * 4..], [1, 2, 3, 4]);
    assert_eq!(target.depth, vec![DEPTH_FAR; 6]);
    target.put_fragment(0, 1, 5, &Color { r: 9, g: 9, b: 9, a: 9 });
    assert_eq!(target.buffer[12..16], [9, 9, 9, 9]);
    assert_eq!(target.depth[3], 5);
    target.clear();
    assert_eq!(target.buffer, vec![0, 0, 0, 255].repeat(6));
    assert_eq!(target.depth, vec![DEPTH_FAR; 6]);
    assert_eq!(target.pixel_offset(0, 0), 0);
    assert_eq!(target.pixel_offset(2, 1), 20);
    let empty = RenderTarget::new(0, 7).unwrap();
    assert_eq!((empty.buffer.len(), empty.depth.len()), (0, 0));
    assert!(!RenderTarget { width: 2, height: 2, buffer: vec![0; 16], depth: vec![0; 3] }.is_valid());
}

#[test]
fn render_target_too_large() {
    assert!(RenderTarget::new(u32::MAX, u32::MAX).is_none());
}
