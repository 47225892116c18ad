//! Colours, textures and the colour and depth surface that triangles are
//! drawn into.

use vstd::prelude::*;
use vstd::arithmetic::div_mod::{lemma_breakdown, lemma_fundamental_div_mod, lemma_fundamental_div_mod_converse, lemma_mod_multiples_vanish};

verus! {

/// One RGBA8 pixel.
#[derive(Clone, Copy, Debug, PartialEq, Eq, Structural)]
pub struct Color {
    pub r: u8,
    pub g: u8,
    pub b: u8,
    pub a: u8,
}

/// Whether `n` is a power of two.
pub open spec fn is_pow2(n: nat) -> bool
    decreases n,
{
    n == 1 || (n > 1 && n % 2 == 0 && is_pow2(n / 2))
}

/// Decides whether `n` is a power of two.
pub fn is_power_of_two(n: u32) -> (b: bool)
    ensures
        b == is_pow2(n as nat),
{
    if n == 0 {
        return false;
    }
    let mut m: u32 = n;
    while m % 2 == 0
        invariant
            m > 0,
            is_pow2(m as nat) == is_pow2(n as nat),
        decreases m,
    {
        m = m / 2;
    }
    m == 1
}

/// The remainder of `i` by `n` that lies in `0..n`, for a positive `n`.
pub fn wrap(i: i32, n: u32) -> (r: u32)
    requires
        n > 0,
    ensures
        r == (i as int) % (n as int),
{
    if i >= 0 {
        (i as u32) % n
    } else {
        let k: u32 = (-(i as i64)) as u32;
        let m: u32 = k % n;
        proof {
            lemma_fundamental_div_mod(k as int, n as int);
            let q = (k as int) / (n as int);
            if m == 0 {
                assert(i as int == (0 - q) * n + 0) by (nonlinear_arith)
                    requires
                        k as int == n * q + 0,
                        i as int == 0 - k as int,
                ;
                lemma_fundamental_div_mod_converse(i as int, n as int, 0 - q, 0);
            } else {
                assert(i as int == (0 - q - 1) * n + (n - m)) by (nonlinear_arith)
                    requires
                        k as int == n * q + m,
                        i as int == 0 - k as int,
                ;
                lemma_fundamental_div_mod_converse(i as int, n as int, 0 - q - 1, n - m);
            }
        }
        if m == 0 {
            0
        } else {
            n - m
        }
    }
}

/// By a power of two the remainder is what the mask of the low bits keeps.
pub proof fn lemma_mask_is_remainder(x: u32, n: u32)
    requires
        is_pow2(n as nat),
    ensures
        x & ((n - 1) as u32) == x % n,
    decreases n,
{
    if n == 1 {
        assert(x & 0u32 == 0) by (bit_vector);
    } else {
        let m: u32 = n / 2;
        let h: u32 = x / 2;
        let low: u32 = x & 1;
        assert(n == 2 * m);
        lemma_mask_is_remainder(h, m);
        let a: u32 = h & ((m - 1) as u32);
        let m1: u32 = (m - 1) as u32;
        let n1: u32 = (n - 1) as u32;
        assert(n1 == 2 * m1 + 1);
        assert(n1 == ((m1 << 1) | 1)) by (bit_vector)
            requires
                m1 <= 0x7FFF_FFFE,
                n1 == 2 * m1 + 1,
        ;
        assert(x & n1 == ((x >> 1) & m1) << 1 | (x & 1)) by (bit_vector)
            requires
                m1 <= 0x7FFF_FFFE,
                n1 == ((m1 << 1) | 1),
        ;
        assert(x >> 1 == x / 2) by (bit_vector);
        assert(x & 1 == x % 2) by (bit_vector);
        assert((a << 1 | low) == 2 * a + low) by (bit_vector)
            requires
                a <= 0x7FFF_FFFE,
                low <= 1,
        ;
        lemma_breakdown(x as int, 2, m as int);
    }
}

/// The number of pixels of a `w` by `h` image fits in 64 bits.
pub proof fn lemma_pixel_count(w: u32, h: u32)
    ensures
        0 <= w * h <= 0xFFFF_FFFE_0000_0001,
{
    assert(0 <= w * h <= 0xFFFF_FFFE_0000_0001) by (nonlinear_arith)
        requires
            0 <= w <= 0xFFFF_FFFF,
            0 <= h <= 0xFFFF_FFFF,
    ;
}

/// An RGBA8 image that is sampled by texel coordinates.
#[derive(Debug)]
pub struct Texture {
    pub width: u32,
    pub height: u32,
    pub data: Vec<u8>,
}

impl Texture {
    /// A texture that can be sampled: both sides are powers of two and
    /// `data` holds four bytes for each texel, row by row.
    pub open spec fn wf(&self) -> bool {
        &&& is_pow2(self.width as nat)
        &&& is_pow2(self.height as nat)
        &&& self.data.len() == self.width * self.height * 4
    }

    /// Where the texel `(iu, iv)` starts in `data`, each coordinate wrapped
    /// into the image.
    pub open spec fn texel_offset(&self, iu: int, iv: int) -> int {
        ((iv % (self.height as int)) * self.width + iu % (self.width as int)) * 4
    }

    /// The four bytes of the texel `(iu, iv)`.
    pub open spec fn texel(&self, iu: int, iv: int) -> Color {
        let at = self.texel_offset(iu, iv);
        Color { r: self.data[at], g: self.data[at + 1], b: self.data[at + 2], a: self.data[at + 3] }
    }

    /// The empty texture.
    pub fn new() -> (t: Texture)
        ensures
            t.width == 0,
            t.height == 0,
            t.data@ == Seq::<u8>::empty(),
    {
        Texture { width: 0, height: 0, data: Vec::new() }
    }

    /// Decides `wf`.
    pub fn is_valid(&self) -> (b: bool)
        ensures
            b == self.wf(),
    {
        if !is_power_of_two(self.width) || !is_power_of_two(self.height) {
            return false;
        }
        proof {
            lemma_pixel_count(self.width, self.height);
        }
        let n: u128 = self.width as u128 * self.height as u128 * 4;
        self.data.len() as u128 == n
    }

    /// Nearest-neighbour lookup of the texel `(iu, iv)`. A coordinate
    /// outside the image wraps around: it is taken by its remainder, which
    /// on a side that is a power of two is the mask of its low bits.
    pub fn sample(&self, iu: i32, iv: i32) -> (c: Color)
        requires
            self.wf(),
        ensures
            c == self.texel(iu as int, iv as int),
    {
        let u: usize = wrap(iu, self.width) as usize;
        let v: usize = wrap(iv, self.height) as usize;
        let w: usize = self.width as usize;
        assert((v * w + u) * 4 + 3 < self.width * self.height * 4) by (nonlinear_arith)
            requires
                0 <= u < w,
                0 <= v < self.height,
                w == self.width,
        ;
        assert(v * w <= v * w + u);
        let at: usize = (v * w + u) * 4;
        Color { r: self.data[at], g: self.data[at + 1], b: self.data[at + 2], a: self.data[at + 3] }
    }
}

/// Sampling one whole image further along either axis gives the same texel.
pub proof fn lemma_texture_wraps(t: Texture, iu: int, iv: int)
    ensures
        t.texel(iu + t.width, iv) == t.texel(iu, iv),
        t.texel(iu, iv + t.height) == t.texel(iu, iv),
{
    if t.width > 0 {
        lemma_mod_multiples_vanish(1, iu, t.width as int);
    }
    if t.height > 0 {
        lemma_mod_multiples_vanish(1, iv, t.height as int);
    }
}

/// The depth of a pixel that nothing has been drawn on: farther than any
/// depth a fragment can have.
pub const DEPTH_FAR: u32 = 0xFFFF_FFFF;

/// What a render target holds, pixel by pixel and row by row.
pub struct Surface {
    pub width: nat,
    pub height: nat,
    pub color: Seq<Color>,
    pub depth: Seq<u32>,
}

impl Surface {
    /// Colour and depth have one entry for each pixel.
    pub open spec fn wf(self) -> bool {
        self.color.len() == self.width * self.height && self.depth.len() == self.width
            * self.height
    }

    /// Whether `(x, y)` is a pixel of the surface.
    pub open spec fn contains(self, x: int, y: int) -> bool {
        0 <= x < self.width && 0 <= y < self.height
    }

    /// The place of the pixel `(x, y)` in raster order.
    pub open spec fn index(self, x: int, y: int) -> int {
        y * self.width + x
    }

    /// The colour of the pixel `(x, y)`.
    pub open spec fn color_at(self, x: int, y: int) -> Color {
        self.color[self.index(x, y)]
    }

    /// The depth of what the pixel `(x, y)` shows.
    pub open spec fn depth_at(self, x: int, y: int) -> u32 {
        self.depth[self.index(x, y)]
    }

    /// The surface of a new frame: opaque black, nothing drawn at any depth.
    pub open spec fn cleared(width: nat, height: nat) -> Surface {
        Surface {
            width,
            height,
            color: Seq::new(width * height, |k: int| Color { r: 0, g: 0, b: 0, a: 255 }),
            depth: Seq::new(width * height, |k: int| DEPTH_FAR),
        }
    }

    /// The surface with the colour of `(x, y)` overwritten.
    pub open spec fn set(self, x: int, y: int, c: Color) -> Surface {
        Surface { color: self.color.update(self.index(x, y), c), ..self }
    }

    /// The surface with the pixels `from..to` of the row `y` overwritten.
    pub open spec fn set_span(self, y: int, from: int, to: int, c: Color) -> Surface {
        Surface {
            color: Seq::new(
                self.color.len(),
                |k: int|
                    if self.index(from, y) <= k < self.index(to, y) {
                        c
                    } else {
                        self.color[k]
                    },
            ),
            ..self
        }
    }

    /// The surface after a fragment of colour `c` at depth `depth` arrives at
    /// `(x, y)`: it replaces colour and depth where it is strictly nearer
    /// than what the pixel holds, and changes nothing otherwise.
    pub open spec fn put(self, x: int, y: int, depth: u32, c: Color) -> Surface {
        if depth < self.depth_at(x, y) {
            Surface {
                color: self.color.update(self.index(x, y), c),
                depth: self.depth.update(self.index(x, y), depth),
                ..self
            }
        } else {
            self
        }
    }
}

/// Two fragments of different depths that arrive at one pixel leave the
/// same surface in either order, and where the nearer one is nearer than
/// what the pixel held, the pixel shows the nearer one.
pub proof fn lemma_nearer_fragment_wins(
    s: Surface,
    x: int,
    y: int,
    near: u32,
    c_near: Color,
    far: u32,
    c_far: Color,
)
    requires
        s.wf(),
        s.contains(x, y),
        near < far,
    ensures
        s.put(x, y, near, c_near).put(x, y, far, c_far) == s.put(x, y, far, c_far).put(
            x,
            y,
            near,
            c_near,
        ),
        near < s.depth_at(x, y) ==> s.put(x, y, far, c_far).put(x, y, near, c_near).color_at(x, y)
            == c_near && s.put(x, y, far, c_far).put(x, y, near, c_near).depth_at(x, y) == near,
{
    lemma_pixel_index(s.width as int, s.height as int, x, y);
    let a = s.put(x, y, near, c_near).put(x, y, far, c_far);
    let b = s.put(x, y, far, c_far).put(x, y, near, c_near);
    assert(a.color =~= b.color);
    assert(a.depth =~= b.depth);
}

/// Whether pixel `j` of the two buffers is opaque black and at `DEPTH_FAR`.
pub open spec fn pixel_is_cleared(buffer: Seq<u8>, depth: Seq<u32>, j: int) -> bool {
    &&& buffer[4 * j] == 0
    &&& buffer[4 * j + 1] == 0
    &&& buffer[4 * j + 2] == 0
    &&& buffer[4 * j + 3] == 255
    &&& depth[j] == DEPTH_FAR
}

/// A colour surface of RGBA8 pixels with a depth of its own for each pixel.
/// The bytes of pixel `(x, y)` start at `(y * width + x) * 4` in `buffer`; its
/// depth is `depth[y * width + x]`, smaller meaning nearer.
pub struct RenderTarget {
    pub width: u32,
    pub height: u32,
    pub buffer: Vec<u8>,
    pub depth: Vec<u32>,
}

impl View for RenderTarget {
    type V = Surface;

    open spec fn view(&self) -> Surface {
        Surface {
            width: self.width as nat,
            height: self.height as nat,
            color: Seq::new(
                (self.width * self.height) as nat,
                |k: int|
                    Color {
                        r: self.buffer[4 * k],
                        g: self.buffer[4 * k + 1],
                        b: self.buffer[4 * k + 2],
                        a: self.buffer[4 * k + 3],
                    },
            ),
            depth: self.depth@,
        }
    }
}

/// The place of a pixel of a `w` by `h` image lies below `w * h`.
pub proof fn lemma_pixel_index(w: int, h: int, x: int, y: int)
    requires
        0 <= x < w,
        0 <= y < h,
    ensures
        0 <= y * w + x < w * h,
        0 <= y * w <= y * w + x,
{
    assert(0 <= y * w && y * w + x < w * h) by (nonlinear_arith)
        requires
            0 <= x < w,
            0 <= y < h,
    ;
}

/// Two pixels of one image that have the same place in raster order are the
/// same pixel.
pub proof fn lemma_pixel_index_injective(w: int, x1: int, y1: int, x2: int, y2: int)
    requires
        0 <= x1 < w,
        0 <= x2 < w,
        y1 * w + x1 == y2 * w + x2,
    ensures
        x1 == x2,
        y1 == y2,
{
    assert(y1 == y2) by (nonlinear_arith)
        requires
            0 <= x1 < w,
            0 <= x2 < w,
            y1 * w + x1 == y2 * w + x2,
    ;
}

impl RenderTarget {
    /// Both buffers have the length that the size asks for.
    pub open spec fn wf(&self) -> bool {
        &&& self.buffer.len() == self.width * self.height * 4
        &&& self.depth.len() == self.width * self.height
    }

    /// Decides `wf`.
    pub fn is_valid(&self) -> (b: bool)
        ensures
            b == self.wf(),
    {
        proof {
            lemma_pixel_count(self.width, self.height);
        }
        let n: u128 = self.width as u128 * self.height as u128;
        self.buffer.len() as u128 == n * 4 && self.depth.len() as u128 == n
    }

    /// Where the four bytes of the pixel `(x, y)`, red first, start in
    /// `buffer`.
    pub fn pixel_offset(&self, x: u32, y: u32) -> (at: usize)
        requires
            self.wf(),
            self@.contains(x as int, y as int),
        ensures
            at == (y * self.width + x) * 4,
            at + 4 <= self.buffer.len(),
    {
        proof {
            lemma_pixel_index(self.width as int, self.height as int, x as int, y as int);
        }
        (y as usize * self.width as usize + x as usize) * 4
    }

    /// A cleared target of the given size, or `None` where its buffers
    /// could not be addressed.
    pub fn new(width: u32, height: u32) -> (r: Option<RenderTarget>)
        ensures
            r is Some <==> width * height * 4 <= isize::MAX,
            r matches Some(t) ==> t.wf() && t@ == Surface::cleared(width as nat, height as nat),
    {
        proof {
            lemma_pixel_count(width, height);
        }
        let n: u128 = width as u128 * height as u128;
        if n * 4 > isize::MAX as u128 {
            return None;
        }
        let mut t = RenderTarget {
            width,
            height,
            buffer: vec![0u8; (n * 4) as usize],
            depth: vec![DEPTH_FAR; n as usize],
        };
        t.clear();
        Some(t)
    }

    /// Starts a new frame: every pixel opaque black and at `DEPTH_FAR`.
    pub fn clear(&mut self)
        requires
            old(self).wf(),
        ensures
            final(self).wf(),
            final(self)@ == Surface::cleared(old(self).width as nat, old(self).height as nat),
    {
        let n: usize = self.depth.len();
        let mut k: usize = 0;
        while k < n
            invariant
                self.wf(),
                self.width == old(self).width,
                self.height == old(self).height,
                n == self.width * self.height,
                k <= n,
                forall|j: int| 0 <= j < k ==> pixel_is_cleared(self.buffer@, self.depth@, j),
            decreases n - k,
        {
            let ghost buffer = self.buffer@;
            let ghost depth = self.depth@;
            self.buffer[4 * k] = 0;
            self.buffer[4 * k + 1] = 0;
            self.buffer[4 * k + 2] = 0;
            self.buffer[4 * k + 3] = 255;
            self.depth[k] = DEPTH_FAR;
            assert forall|j: int| 0 <= j < k + 1 implies pixel_is_cleared(
                self.buffer@,
                self.depth@,
                j,
            ) by {
                if j < k {
                    assert(pixel_is_cleared(buffer, depth, j));
                }
            }
            k += 1;
        }
        assert forall|j: int| 0 <= j < n implies self@.color[j] == (Color {
            r: 0,
            g: 0,
            b: 0,
            a: 255,
        }) && self@.depth[j] == DEPTH_FAR by {
            assert(pixel_is_cleared(self.buffer@, self.depth@, j));
        }
        assert(self@.color =~= Surface::cleared(self.width as nat, self.height as nat).color);
        assert(self@.depth =~= Surface::cleared(self.width as nat, self.height as nat).depth);
    }

    /// Overwrites the colour of the pixel `(x, y)`; its depth stays.
    pub fn put_pixel(&mut self, x: u32, y: u32, c: &Color)
        requires
            old(self).wf(),
            old(self)@.contains(x as int, y as int),
        ensures
            final(self).wf(),
            final(self)@ == old(self)@.set(x as int, y as int, *c),
    {
        proof {
            lemma_pixel_index(self.width as int, self.height as int, x as int, y as int);
        }
        let k: usize = y as usize * self.width as usize + x as usize;
        self.buffer[4 * k] = c.r;
        self.buffer[4 * k + 1] = c.g;
        self.buffer[4 * k + 2] = c.b;
        self.buffer[4 * k + 3] = c.a;
        assert(self@.color =~= old(self)@.set(x as int, y as int, *c).color);
    }

    /// Overwrites the colour of the pixels `from..to` of the row `y`; no
    /// depth changes.
    pub fn fill_span(&mut self, y: u32, from: u32, to: u32, c: &Color)
        requires
            old(self).wf(),
            y < old(self).height,
            from <= to <= old(self).width,
        ensures
            final(self).wf(),
            final(self)@ == old(self)@.set_span(y as int, from as int, to as int, *c),
    {
        let mut x: u32 = from;
        assert(self@.color =~= old(self)@.set_span(y as int, from as int, from as int, *c).color);
        while x < to
            invariant
                from <= x <= to <= self.width,
                y < self.height,
                self.wf(),
                self@ == old(self)@.set_span(y as int, from as int, x as int, *c),
            decreases to - x,
        {
            let ghost prev = self@;
            self.put_pixel(x, y, c);
            proof {
                lemma_pixel_index(self.width as int, self.height as int, x as int, y as int);
                assert(self@.color =~= old(self)@.set_span(
                    y as int,
                    from as int,
                    x as int + 1,
                    *c,
                ).color);
            }
            x += 1;
        }
    }

    /// Hands the pixel `(x, y)` a fragment of colour `c` at depth `depth`.
    /// The fragment is written, colour and depth, where it is strictly
    /// nearer than what the pixel holds; the result says whether it was.
    pub fn put_fragment(&mut self, x: u32, y: u32, depth: u32, c: &Color) -> (written: bool)
        requires
            old(self).wf(),
            old(self)@.contains(x as int, y as int),
        ensures
            final(self).wf(),
            final(self)@ == old(self)@.put(x as int, y as int, depth, *c),
            written == (depth < old(self)@.depth_at(x as int, y as int)),
    {
        proof {
            lemma_pixel_index(self.width as int, self.height as int, x as int, y as int);
        }
        let k: usize = y as usize * self.width as usize + x as usize;
        if depth < self.depth[k] {
            self.buffer[4 * k] = c.r;
            self.buffer[4 * k + 1] = c.g;
            self.buffer[4 * k + 2] = c.b;
            self.buffer[4 * k + 3] = c.a;
            self.depth[k] = depth;
            assert(self@.color =~= old(self)@.put(x as int, y as int, depth, *c).color);
            true
        } else {
            false
        }
    }
}

} // verus!
