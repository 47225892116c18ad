//! Scan conversion: which pixels a screen triangle covers, and the writes
//! that its fragments make to a render target.

use vstd::prelude::*;
use crate::math::{PointI32, edge, signed_area, min3, max3, orient2d, lemma_area_is_edge, lemma_edge_bound, lemma_edge_steps, lemma_inside_is_boxed};
use crate::render::{Color, RenderTarget, Surface, Texture, lemma_pixel_index, lemma_pixel_index_injective};

verus! {

/// A pixel that a triangle covers, with the value of each edge function
/// there. The three values sum to the triangle's signed area, so divided by
/// it they weigh the attributes of the three vertices.
#[derive(Clone, Copy, Debug, PartialEq, Eq, Structural)]
pub struct Fragment {
    pub x: u32,
    pub y: u32,
    pub w0: i128,
    pub w1: i128,
    pub w2: i128,
}

/// The fill rule: a triangle whose area is not zero covers the point
/// `(x, y)` where none of its three edge functions is negative. A point on
/// an edge is covered.
pub open spec fn covers(v0: PointI32, v1: PointI32, v2: PointI32, x: int, y: int) -> bool {
    &&& signed_area(v0, v1, v2) != 0
    &&& edge(v1, v2, x, y) >= 0
    &&& edge(v2, v0, x, y) >= 0
    &&& edge(v0, v1, x, y) >= 0
}

/// Whether `f` is the fragment of the triangle at a pixel of a `width` by
/// `height` surface.
pub open spec fn is_fragment_of(
    f: Fragment,
    v0: PointI32,
    v1: PointI32,
    v2: PointI32,
    width: u32,
    height: u32,
) -> bool {
    &&& f.x < width
    &&& f.y < height
    &&& covers(v0, v1, v2, f.x as int, f.y as int)
    &&& f.w0 == edge(v1, v2, f.x as int, f.y as int)
    &&& f.w1 == edge(v2, v0, f.x as int, f.y as int)
    &&& f.w2 == edge(v0, v1, f.x as int, f.y as int)
}

/// Raster order: rows from the top, each row from the left.
pub open spec fn raster_before(x1: int, y1: int, x2: int, y2: int) -> bool {
    y1 < y2 || (y1 == y2 && x1 < x2)
}

/// Whether one of `frags` lies at `(x, y)`.
pub open spec fn has_fragment(frags: Seq<Fragment>, x: int, y: int) -> bool {
    exists|i: int| 0 <= i < frags.len() && (#[trigger] frags[i]).x == x && frags[i].y == y
}

/// Whether `frags` are the fragments of the triangle on a `width` by
/// `height` surface: each one a covered pixel of the surface with its edge
/// values, in raster order, and none of the covered pixels left out.
pub open spec fn is_coverage(
    frags: Seq<Fragment>,
    v0: PointI32,
    v1: PointI32,
    v2: PointI32,
    width: u32,
    height: u32,
) -> bool {
    &&& forall|i: int|
        0 <= i < frags.len() ==> is_fragment_of(#[trigger] frags[i], v0, v1, v2, width, height)
    &&& forall|i: int, j: int|
        0 <= i < j < frags.len() ==> raster_before(
            (#[trigger] frags[i]).x as int,
            frags[i].y as int,
            (#[trigger] frags[j]).x as int,
            frags[j].y as int,
        )
    &&& forall|x: int, y: int|
        0 <= x < width && 0 <= y < height && #[trigger] covers(v0, v1, v2, x, y) ==> has_fragment(
            frags,
            x,
            y,
        )
}

fn least(a: i32, b: i32, c: i32) -> (m: i32)
    ensures
        m == min3(a as int, b as int, c as int),
{
    if a <= b && a <= c {
        a
    } else if b <= c {
        b
    } else {
        c
    }
}

fn greatest(a: i32, b: i32, c: i32) -> (m: i32)
    ensures
        m == max3(a as int, b as int, c as int),
{
    if a >= b && a >= c {
        a
    } else if b >= c {
        b
    } else {
        c
    }
}

/// The fragments of the triangle `(v0, v1, v2)` on a `width` by `height`
/// surface: one for each pixel of the surface that the triangle covers, in
/// raster order. A triangle of area zero, or one wound the other way, has
/// none.
pub fn triangle_fragments(
    v0: &PointI32,
    v1: &PointI32,
    v2: &PointI32,
    width: u32,
    height: u32,
) -> (frags: Vec<Fragment>)
    ensures
        is_coverage(frags@, *v0, *v1, *v2, width, height),
{
    let mut frags: Vec<Fragment> = Vec::new();
    let lo_x: i64 = if least(v0.x, v1.x, v2.x) < 0 {
        0
    } else {
        least(v0.x, v1.x, v2.x) as i64
    };
    let lo_y: i64 = if least(v0.y, v1.y, v2.y) < 0 {
        0
    } else {
        least(v0.y, v1.y, v2.y) as i64
    };
    let hi_x: i64 = if greatest(v0.x, v1.x, v2.x) as i64 > width as i64 - 1 {
        width as i64 - 1
    } else {
        greatest(v0.x, v1.x, v2.x) as i64
    };
    let hi_y: i64 = if greatest(v0.y, v1.y, v2.y) as i64 > height as i64 - 1 {
        height as i64 - 1
    } else {
        greatest(v0.y, v1.y, v2.y) as i64
    };
    let area: i128 = orient2d(v0, v1, v2.x, v2.y);
    proof {
        lemma_area_is_edge(*v0, *v1, *v2);
        assert forall|x: int, y: int|
            0 <= x < width && 0 <= y < height && #[trigger] covers(*v0, *v1, *v2, x, y) implies lo_x
            <= x <= hi_x && lo_y <= y <= hi_y by {
            lemma_inside_is_boxed(*v0, *v1, *v2, x, y);
        }
    }
    if area == 0 || lo_x > hi_x || lo_y > hi_y {
        return frags;
    }
    let step0: i128 = v1.y as i128 - v2.y as i128;
    let step1: i128 = v2.y as i128 - v0.y as i128;
    let step2: i128 = v0.y as i128 - v1.y as i128;
    let mut y: i64 = lo_y;
    while y <= hi_y
        invariant
            0 <= lo_x <= hi_x < width,
            hi_x <= i32::MAX,
            0 <= lo_y <= y <= hi_y + 1,
            hi_y < height,
            hi_y <= i32::MAX,
            area == signed_area(*v0, *v1, *v2),
            area != 0,
            step0 == v1.y - v2.y,
            step1 == v2.y - v0.y,
            step2 == v0.y - v1.y,
            forall|i: int|
                0 <= i < frags.len() ==> is_fragment_of(
                    #[trigger] frags[i],
                    *v0,
                    *v1,
                    *v2,
                    width,
                    height,
                ),
            forall|i: int, j: int|
                0 <= i < j < frags.len() ==> raster_before(
                    (#[trigger] frags[i]).x as int,
                    frags[i].y as int,
                    (#[trigger] frags[j]).x as int,
                    frags[j].y as int,
                ),
            forall|i: int| 0 <= i < frags.len() ==> (#[trigger] frags[i]).y < y,
            forall|px: int, py: int|
                lo_x <= px <= hi_x && lo_y <= py < y && #[trigger] covers(*v0, *v1, *v2, px, py)
                    ==> has_fragment(frags@, px, py),
        decreases hi_y + 1 - y,
    {
        // The edge values at the start of the row; each step to the right
        // adds the same to each of them.
        let mut w0: i128 = orient2d(v1, v2, lo_x as i32, y as i32);
        let mut w1: i128 = orient2d(v2, v0, lo_x as i32, y as i32);
        let mut w2: i128 = orient2d(v0, v1, lo_x as i32, y as i32);
        let mut x: i64 = lo_x;
        while x <= hi_x
            invariant
                0 <= lo_x <= x <= hi_x + 1,
                hi_x < width,
                hi_x <= i32::MAX,
                0 <= lo_y <= y <= hi_y,
                hi_y < height,
                hi_y <= i32::MAX,
                area == signed_area(*v0, *v1, *v2),
                area != 0,
                step0 == v1.y - v2.y,
                step1 == v2.y - v0.y,
                step2 == v0.y - v1.y,
                w0 == edge(*v1, *v2, x as int, y as int),
                w1 == edge(*v2, *v0, x as int, y as int),
                w2 == edge(*v0, *v1, x as int, y as int),
                forall|i: int|
                    0 <= i < frags.len() ==> is_fragment_of(
                        #[trigger] frags[i],
                        *v0,
                        *v1,
                        *v2,
                        width,
                        height,
                    ),
                forall|i: int, j: int|
                    0 <= i < j < frags.len() ==> raster_before(
                        (#[trigger] frags[i]).x as int,
                        frags[i].y as int,
                        (#[trigger] frags[j]).x as int,
                        frags[j].y as int,
                    ),
                forall|i: int|
                    0 <= i < frags.len() ==> raster_before(
                        (#[trigger] frags[i]).x as int,
                        frags[i].y as int,
                        x as int,
                        y as int,
                    ),
                forall|px: int, py: int|
                    lo_x <= px <= hi_x && lo_y <= py <= y && raster_before(px, py, x as int, y as int)
                        && #[trigger] covers(*v0, *v1, *v2, px, py) ==> has_fragment(
                        frags@,
                        px,
                        py,
                    ),
            decreases hi_x + 1 - x,
        {
            let ghost before = frags@;
            if w0 >= 0 && w1 >= 0 && w2 >= 0 {
                let f = Fragment { x: x as u32, y: y as u32, w0, w1, w2 };
                frags.push(f);
                assert(frags@[before.len() as int] == f);
            }
            proof {
                assert forall|px: int, py: int|
                    lo_x <= px <= hi_x && lo_y <= py <= y && raster_before(
                        px,
                        py,
                        x as int + 1,
                        y as int,
                    ) && #[trigger] covers(*v0, *v1, *v2, px, py) implies has_fragment(
                    frags@,
                    px,
                    py,
                ) by {
                    if raster_before(px, py, x as int, y as int) {
                        assert(has_fragment(before, px, py));
                        let i = choose|i: int|
                            0 <= i < before.len() && (#[trigger] before[i]).x == px && before[i].y
                                == py;
                        assert(frags@[i] == before[i]);
                    } else {
                        assert(px == x && py == y);
                        assert(frags@[before.len() as int].x == px);
                    }
                }
                lemma_edge_steps(*v1, *v2, x as int, y as int);
                lemma_edge_steps(*v2, *v0, x as int, y as int);
                lemma_edge_steps(*v0, *v1, x as int, y as int);
                lemma_edge_bound(*v1, *v2, x as int + 1, y as int);
                lemma_edge_bound(*v2, *v0, x as int + 1, y as int);
                lemma_edge_bound(*v0, *v1, x as int + 1, y as int);
            }
            w0 = w0 + step0;
            w1 = w1 + step1;
            w2 = w2 + step2;
            x += 1;
        }
        y += 1;
    }
    frags
}

/// Fills the triangle `(v0, v1, v2)` with one colour: every pixel of the
/// target that the triangle covers takes the colour `c`, every other pixel
/// keeps its own, and no depth changes.
pub fn draw_triangle_barycentric(
    target: &mut RenderTarget,
    c: &Color,
    v0: &PointI32,
    v1: &PointI32,
    v2: &PointI32,
)
    requires
        old(target).wf(),
    ensures
        final(target).wf(),
        final(target).width == old(target).width,
        final(target).height == old(target).height,
        final(target).depth@ == old(target).depth@,
        forall|x: int, y: int|
            old(target)@.contains(x, y) ==> #[trigger] final(target)@.color_at(x, y) == (if covers(
                *v0,
                *v1,
                *v2,
                x,
                y,
            ) {
                *c
            } else {
                old(target)@.color_at(x, y)
            }),
{
    let frags = triangle_fragments(v0, v1, v2, target.width, target.height);
    let mut i: usize = 0;
    while i < frags.len()
        invariant
            i <= frags.len(),
            target.wf(),
            target.width == old(target).width,
            target.height == old(target).height,
            target.depth@ == old(target).depth@,
            forall|k: int|
                0 <= k < frags.len() ==> is_fragment_of(
                    #[trigger] frags[k],
                    *v0,
                    *v1,
                    *v2,
                    target.width,
                    target.height,
                ),
            forall|x: int, y: int|
                old(target)@.contains(x, y) ==> #[trigger] target@.color_at(x, y) == (
                if has_fragment(frags@.take(i as int), x, y) {
                    *c
                } else {
                    old(target)@.color_at(x, y)
                }),
        decreases frags.len() - i,
    {
        let f = frags[i];
        let ghost prev = target@;
        target.put_pixel(f.x, f.y, c);
        proof {
            let done = frags@.take(i as int);
            let next = frags@.take(i as int + 1);
            assert(next[i as int] == f);
            assert forall|x: int, y: int| old(target)@.contains(x, y) implies #[trigger] target@.color_at(
                x,
                y,
            ) == (if has_fragment(next, x, y) {
                *c
            } else {
                old(target)@.color_at(x, y)
            }) by {
                lemma_pixel_index(target.width as int, target.height as int, x, y);
                lemma_pixel_index(target.width as int, target.height as int, f.x as int, f.y as int);
                if x == f.x && y == f.y {
                } else {
                    if prev.index(x, y) == prev.index(f.x as int, f.y as int) {
                        lemma_pixel_index_injective(target.width as int, x, y, f.x as int, f.y as int);
                    }
                    assert(target@.color_at(x, y) == prev.color_at(x, y));
                    if has_fragment(done, x, y) {
                        let k = choose|k: int|
                            0 <= k < done.len() && (#[trigger] done[k]).x == x && done[k].y == y;
                        assert(next[k] == done[k]);
                    }
                    if has_fragment(next, x, y) {
                        let k = choose|k: int|
                            0 <= k < next.len() && (#[trigger] next[k]).x == x && next[k].y == y;
                        assert(k < i);
                        assert(done[k] == next[k]);
                    }
                }
            }
        }
        i += 1;
    }
    proof {
        assert(frags@.take(i as int) =~= frags@);
        assert forall|x: int, y: int| old(target)@.contains(x, y) implies has_fragment(frags@, x, y)
            == covers(*v0, *v1, *v2, x, y) by {
            if has_fragment(frags@, x, y) {
                let k = choose|k: int|
                    0 <= k < frags.len() && (#[trigger] frags[k]).x == x && frags[k].y == y;
                assert(is_fragment_of(frags[k], *v0, *v1, *v2, target.width, target.height));
            }
        }
    }
}

/// A fragment after shading: the pixel, the depth that was interpolated
/// for it (smaller is nearer) and the texel coordinates that its texture
/// coordinates select.
#[derive(Clone, Copy, Debug, PartialEq, Eq, Structural)]
pub struct ShadedFragment {
    pub x: u32,
    pub y: u32,
    pub depth: u32,
    pub iu: i32,
    pub iv: i32,
}

/// The colour `c` made opaque.
pub open spec fn opaque(c: Color) -> Color {
    Color { a: 255, ..c }
}

/// The surface `s` after one shaded fragment: where the fragment lies on the
/// surface it is put with the texel it selects, made opaque.
pub open spec fn shade(s: Surface, f: ShadedFragment, texture: Texture) -> Surface {
    if s.contains(f.x as int, f.y as int) {
        s.put(f.x as int, f.y as int, f.depth, opaque(texture.texel(f.iu as int, f.iv as int)))
    } else {
        s
    }
}

/// The surface `s` after the shaded fragments `fs`, first to last.
pub open spec fn shade_all(s: Surface, fs: Seq<ShadedFragment>, texture: Texture) -> Surface
    decreases fs.len(),
{
    if fs.len() == 0 {
        s
    } else {
        shade(shade_all(s, fs.drop_last(), texture), fs.last(), texture)
    }
}

/// The surface `s` after one fragment of the flat colour `c`.
pub open spec fn tint(s: Surface, f: ShadedFragment, c: Color) -> Surface {
    if s.contains(f.x as int, f.y as int) {
        s.put(f.x as int, f.y as int, f.depth, c)
    } else {
        s
    }
}

/// The surface `s` after the fragments `fs` of the flat colour `c`, first to
/// last.
pub open spec fn tint_all(s: Surface, fs: Seq<ShadedFragment>, c: Color) -> Surface
    decreases fs.len(),
{
    if fs.len() == 0 {
        s
    } else {
        tint(tint_all(s, fs.drop_last(), c), fs.last(), c)
    }
}

/// Draws the shaded fragments of a textured triangle, first to last. Each
/// fragment on the target is depth-tested against what its pixel holds:
/// where it is strictly nearer, the pixel takes the texel that the fragment
/// selects, with alpha 255, and the fragment's depth. A fragment off the
/// target is skipped.
pub fn draw_triangle_barycentric_z_uv(
    target: &mut RenderTarget,
    texture: &Texture,
    fragments: &Vec<ShadedFragment>,
)
    requires
        old(target).wf(),
        texture.wf(),
    ensures
        final(target).wf(),
        final(target)@ == shade_all(old(target)@, fragments@, *texture),
{
    let mut i: usize = 0;
    while i < fragments.len()
        invariant
            i <= fragments.len(),
            target.wf(),
            texture.wf(),
            target@ == shade_all(old(target)@, fragments@.take(i as int), *texture),
        decreases fragments.len() - i,
    {
        let f = fragments[i];
        proof {
            assert(fragments@.take(i as int + 1).drop_last() =~= fragments@.take(i as int));
        }
        if f.x < target.width && f.y < target.height {
            let texel = texture.sample(f.iu, f.iv);
            let c = Color { r: texel.r, g: texel.g, b: texel.b, a: 255 };
            target.put_fragment(f.x, f.y, f.depth, &c);
        }
        i += 1;
    }
    proof {
        assert(fragments@.take(i as int) =~= fragments@);
    }
}

/// Draws the fragments of a triangle of one colour, first to last, each
/// depth-tested as a textured fragment is.
pub fn draw_triangle_barycentric_z(
    target: &mut RenderTarget,
    c: &Color,
    fragments: &Vec<ShadedFragment>,
)
    requires
        old(target).wf(),
    ensures
        final(target).wf(),
        final(target)@ == tint_all(old(target)@, fragments@, *c),
{
    let mut i: usize = 0;
    while i < fragments.len()
        invariant
            i <= fragments.len(),
            target.wf(),
            target@ == tint_all(old(target)@, fragments@.take(i as int), *c),
        decreases fragments.len() - i,
    {
        let f = fragments[i];
        proof {
            assert(fragments@.take(i as int + 1).drop_last() =~= fragments@.take(i as int));
        }
        if f.x < target.width && f.y < target.height {
            target.put_fragment(f.x, f.y, f.depth, c);
        }
        i += 1;
    }
    proof {
        assert(fragments@.take(i as int) =~= fragments@);
    }
}

/// Whether none of `fs` lies at `(x, y)`.
pub open spec fn none_at(fs: Seq<ShadedFragment>, x: int, y: int) -> bool {
    forall|j: int| 0 <= j < fs.len() ==> !((#[trigger] fs[j]).x == x && fs[j].y == y)
}

/// Whether `fs[i]`, and no other of `fs`, lies at `(x, y)`.
pub open spec fn only_at(fs: Seq<ShadedFragment>, i: int, x: int, y: int) -> bool {
    &&& 0 <= i < fs.len()
    &&& forall|j: int|
        0 <= j < fs.len() ==> (((#[trigger] fs[j]).x == x && fs[j].y == y) <==> j == i)
}

/// Drawing fragments keeps the size and the shape of a surface.
pub proof fn lemma_shade_all_shape(s: Surface, fs: Seq<ShadedFragment>, texture: Texture)
    requires
        s.wf(),
    ensures
        shade_all(s, fs, texture).wf(),
        shade_all(s, fs, texture).width == s.width,
        shade_all(s, fs, texture).height == s.height,
    decreases fs.len(),
{
    if fs.len() > 0 {
        lemma_shade_all_shape(s, fs.drop_last(), texture);
        let before = shade_all(s, fs.drop_last(), texture);
        let f = fs.last();
        if before.contains(f.x as int, f.y as int) {
            lemma_pixel_index(before.width as int, before.height as int, f.x as int, f.y as int);
        }
    }
}

/// A fragment changes no pixel but its own.
pub proof fn lemma_shade_elsewhere(s: Surface, f: ShadedFragment, texture: Texture, x: int, y: int)
    requires
        s.wf(),
        s.contains(x, y),
        !(f.x == x && f.y == y),
    ensures
        shade(s, f, texture).color_at(x, y) == s.color_at(x, y),
        shade(s, f, texture).depth_at(x, y) == s.depth_at(x, y),
{
    lemma_pixel_index(s.width as int, s.height as int, x, y);
    if s.contains(f.x as int, f.y as int) {
        lemma_pixel_index(s.width as int, s.height as int, f.x as int, f.y as int);
        if s.index(x, y) == s.index(f.x as int, f.y as int) {
            lemma_pixel_index_injective(s.width as int, x, y, f.x as int, f.y as int);
        }
    }
}

/// A pixel at which no fragment lies is never written.
pub proof fn lemma_shade_all_untouched(
    s: Surface,
    fs: Seq<ShadedFragment>,
    texture: Texture,
    x: int,
    y: int,
)
    requires
        s.wf(),
        s.contains(x, y),
        none_at(fs, x, y),
    ensures
        shade_all(s, fs, texture).color_at(x, y) == s.color_at(x, y),
        shade_all(s, fs, texture).depth_at(x, y) == s.depth_at(x, y),
    decreases fs.len(),
{
    if fs.len() > 0 {
        let head = fs.drop_last();
        assert forall|j: int| 0 <= j < head.len() implies !((#[trigger] head[j]).x == x && head[j].y
            == y) by {
            assert(head[j] == fs[j]);
        }
        lemma_shade_all_untouched(s, head, texture, x, y);
        lemma_shade_all_shape(s, head, texture);
        assert(fs.last() == fs[fs.len() - 1]);
        lemma_shade_elsewhere(shade_all(s, head, texture), fs.last(), texture, x, y);
    }
}

/// A pixel at which exactly one fragment lies ends as that fragment alone
/// would leave it: written where the fragment is nearer than what the pixel
/// held before the draw.
pub proof fn lemma_shade_all_single(
    s: Surface,
    fs: Seq<ShadedFragment>,
    texture: Texture,
    i: int,
    x: int,
    y: int,
)
    requires
        s.wf(),
        s.contains(x, y),
        only_at(fs, i, x, y),
    ensures
        shade_all(s, fs, texture).color_at(x, y) == shade(s, fs[i], texture).color_at(x, y),
        shade_all(s, fs, texture).depth_at(x, y) == shade(s, fs[i], texture).depth_at(x, y),
    decreases fs.len(),
{
    let head = fs.drop_last();
    let last = fs.last();
    assert(last == fs[fs.len() - 1]);
    lemma_shade_all_shape(s, head, texture);
    lemma_pixel_index(s.width as int, s.height as int, x, y);
    let before = shade_all(s, head, texture);
    if i == fs.len() - 1 {
        assert forall|j: int| 0 <= j < head.len() implies !((#[trigger] head[j]).x == x && head[j].y
            == y) by {
            assert(head[j] == fs[j]);
        }
        lemma_shade_all_untouched(s, head, texture, x, y);
    } else {
        assert forall|j: int| 0 <= j < head.len() implies (((#[trigger] head[j]).x == x
            && head[j].y == y) <==> j == i) by {
            assert(head[j] == fs[j]);
        }
        assert(head[i] == fs[i]);
        lemma_shade_all_single(s, head, texture, i, x, y);
        lemma_shade_elsewhere(before, last, texture, x, y);
    }
}

/// The fill rule of a textured draw. Let `frags` be the fragments of a
/// triangle on the surface and `fs` the same fragments after shading. A
/// pixel that the triangle does not cover is never written. A pixel that it
/// covers has one fragment, and is written with that fragment's texel and
/// depth where the fragment passes the depth test.
pub proof fn lemma_fill_rule(
    s: Surface,
    v0: PointI32,
    v1: PointI32,
    v2: PointI32,
    frags: Seq<Fragment>,
    fs: Seq<ShadedFragment>,
    texture: Texture,
    x: int,
    y: int,
)
    requires
        s.wf(),
        s.contains(x, y),
        s.width <= u32::MAX,
        s.height <= u32::MAX,
        is_coverage(frags, v0, v1, v2, s.width as u32, s.height as u32),
        fs.len() == frags.len(),
        forall|i: int|
            0 <= i < fs.len() ==> (#[trigger] fs[i]).x == frags[i].x && fs[i].y == frags[i].y,
    ensures
        !covers(v0, v1, v2, x, y) ==> shade_all(s, fs, texture).color_at(x, y) == s.color_at(x, y)
            && shade_all(s, fs, texture).depth_at(x, y) == s.depth_at(x, y),
        covers(v0, v1, v2, x, y) ==> exists|i: int|
            0 <= i < fs.len() && (#[trigger] fs[i]).x == x && fs[i].y == y && shade_all(
                s,
                fs,
                texture,
            ).color_at(x, y) == s.put(
                x,
                y,
                fs[i].depth,
                opaque(texture.texel(fs[i].iu as int, fs[i].iv as int)),
            ).color_at(x, y) && shade_all(s, fs, texture).depth_at(x, y) == s.put(
                x,
                y,
                fs[i].depth,
                opaque(texture.texel(fs[i].iu as int, fs[i].iv as int)),
            ).depth_at(x, y),
{
    if covers(v0, v1, v2, x, y) {
        assert(has_fragment(frags, x, y));
        let i = choose|i: int|
            0 <= i < frags.len() && (#[trigger] frags[i]).x == x && frags[i].y == y;
        assert forall|j: int| 0 <= j < fs.len() implies (((#[trigger] fs[j]).x == x && fs[j].y == y)
            <==> j == i) by {
            if fs[j].x == x && fs[j].y == y && j != i {
                if j < i {
                    assert(raster_before(
                        frags[j].x as int,
                        frags[j].y as int,
                        frags[i].x as int,
                        frags[i].y as int,
                    ));
                } else {
                    assert(raster_before(
                        frags[i].x as int,
                        frags[i].y as int,
                        frags[j].x as int,
                        frags[j].y as int,
                    ));
                }
            }
        }
        lemma_shade_all_single(s, fs, texture, i, x, y);
    } else {
        assert forall|j: int| 0 <= j < fs.len() implies !((#[trigger] fs[j]).x == x && fs[j].y
            == y) by {
            assert(is_fragment_of(frags[j], v0, v1, v2, s.width as u32, s.height as u32));
        }
        lemma_shade_all_untouched(s, fs, texture, x, y);
    }
}

/// Depth decides, not the order of the draws. Where two draws each have one
/// fragment at a pixel, and the nearer of the two is nearer than what the
/// pixel held, the pixel shows the texel of the nearer fragment whichever
/// draw came first.
pub proof fn lemma_nearer_triangle_wins(
    s: Surface,
    near: Seq<ShadedFragment>,
    near_texture: Texture,
    i: int,
    far: Seq<ShadedFragment>,
    far_texture: Texture,
    j: int,
    x: int,
    y: int,
)
    requires
        s.wf(),
        s.contains(x, y),
        only_at(near, i, x, y),
        only_at(far, j, x, y),
        near[i].depth < far[j].depth,
        near[i].depth < s.depth_at(x, y),
    ensures
        shade_all(shade_all(s, near, near_texture), far, far_texture).color_at(x, y) == opaque(
            near_texture.texel(near[i].iu as int, near[i].iv as int),
        ),
        shade_all(shade_all(s, far, far_texture), near, near_texture).color_at(x, y) == opaque(
            near_texture.texel(near[i].iu as int, near[i].iv as int),
        ),
        shade_all(shade_all(s, near, near_texture), far, far_texture).depth_at(x, y)
            == near[i].depth,
        shade_all(shade_all(s, far, far_texture), near, near_texture).depth_at(x, y)
            == near[i].depth,
{
    lemma_pixel_index(s.width as int, s.height as int, x, y);
    let first_near = shade_all(s, near, near_texture);
    let first_far = shade_all(s, far, far_texture);
    lemma_shade_all_shape(s, near, near_texture);
    lemma_shade_all_shape(s, far, far_texture);
    lemma_shade_all_single(s, near, near_texture, i, x, y);
    lemma_shade_all_single(s, far, far_texture, j, x, y);
    lemma_shade_all_single(first_near, far, far_texture, j, x, y);
    lemma_shade_all_single(first_far, near, near_texture, i, x, y);
}

} // verus!
