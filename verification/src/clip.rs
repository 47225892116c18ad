//! The plan of a polygon clip: which vertices of a polygon one clip plane
//! keeps, and on which edges it cuts a new vertex.

use vstd::prelude::*;

verus! {

/// The six half-spaces that bound the visible part of clip space, in the
/// order in which a polygon is clipped against them.
#[derive(Clone, Copy, Debug, PartialEq, Eq, Structural)]
pub enum Plane {
    /// `w + z >= 0`
    PlusZ,
    /// `w - z >= 0`
    MinusZ,
    /// `w + x >= 0`
    PlusX,
    /// `w - x >= 0`
    MinusX,
    /// `w + y >= 0`
    PlusY,
    /// `w - y >= 0`
    MinusY,
}

/// The weights of `x`, `y`, `z` and `w` in the signed distance of a plane.
#[derive(Clone, Copy, Debug, PartialEq, Eq, Structural)]
pub struct PlaneWeights {
    pub x: i8,
    pub y: i8,
    pub z: i8,
    pub w: i8,
}

impl Plane {
    /// The signed distance of the point `(x, y, z, w)` from the plane: not
    /// negative on the visible side.
    pub open spec fn distance(self, x: int, y: int, z: int, w: int) -> int {
        match self {
            Plane::PlusZ => w + z,
            Plane::MinusZ => w - z,
            Plane::PlusX => w + x,
            Plane::MinusX => w - x,
            Plane::PlusY => w + y,
            Plane::MinusY => w - y,
        }
    }

    /// The place of the plane in the order of the clip, from 0.
    pub open spec fn rank(self) -> int {
        match self {
            Plane::PlusZ => 0,
            Plane::MinusZ => 1,
            Plane::PlusX => 2,
            Plane::MinusX => 3,
            Plane::PlusY => 4,
            Plane::MinusY => 5,
        }
    }

    /// The plane that a polygon is clipped against first.
    pub fn first() -> (p: Plane)
        ensures
            p.rank() == 0,
    {
        Plane::PlusZ
    }

    /// The plane that follows this one in the order of the clip, if any.
    pub fn next(&self) -> (n: Option<Plane>)
        ensures
            self.rank() == 5 <==> n is None,
            n matches Some(p) ==> p.rank() == self.rank() + 1,
    {
        match self {
            Plane::PlusZ => Some(Plane::MinusZ),
            Plane::MinusZ => Some(Plane::PlusX),
            Plane::PlusX => Some(Plane::MinusX),
            Plane::MinusX => Some(Plane::PlusY),
            Plane::PlusY => Some(Plane::MinusY),
            Plane::MinusY => None,
        }
    }

    /// The weights of the four coordinates in the signed distance.
    pub open spec fn weights_of(self) -> PlaneWeights {
        match self {
            Plane::PlusZ => PlaneWeights { x: 0, y: 0, z: 1, w: 1 },
            Plane::MinusZ => PlaneWeights { x: 0, y: 0, z: -1i8, w: 1 },
            Plane::PlusX => PlaneWeights { x: 1, y: 0, z: 0, w: 1 },
            Plane::MinusX => PlaneWeights { x: -1i8, y: 0, z: 0, w: 1 },
            Plane::PlusY => PlaneWeights { x: 0, y: 1, z: 0, w: 1 },
            Plane::MinusY => PlaneWeights { x: 0, y: -1i8, z: 0, w: 1 },
        }
    }

    /// The weights by which the signed distance is the weighted sum of the
    /// four coordinates.
    pub fn weights(&self) -> (k: PlaneWeights)
        ensures
            k == self.weights_of(),
    {
        match self {
            Plane::PlusZ => PlaneWeights { x: 0, y: 0, z: 1, w: 1 },
            Plane::MinusZ => PlaneWeights { x: 0, y: 0, z: -1, w: 1 },
            Plane::PlusX => PlaneWeights { x: 1, y: 0, z: 0, w: 1 },
            Plane::MinusX => PlaneWeights { x: -1, y: 0, z: 0, w: 1 },
            Plane::PlusY => PlaneWeights { x: 0, y: 1, z: 0, w: 1 },
            Plane::MinusY => PlaneWeights { x: 0, y: -1, z: 0, w: 1 },
        }
    }
}

/// The signed distance from a plane is the sum of the four coordinates, each
/// times its weight.
pub proof fn lemma_distance_is_weighted(p: Plane, x: int, y: int, z: int, w: int)
    ensures
        p.distance(x, y, z, w) == p.weights_of().x * x + p.weights_of().y * y + p.weights_of().z
            * z + p.weights_of().w * w,
{
    let k = p.weights_of();
    let (kx, ky, kz, kw) = (k.x as int, k.y as int, k.z as int, k.w as int);
    assert(kw == 1);
    assert(kx * x + ky * y + kz * z + kw * w == p.distance(x, y, z, w)) by (nonlinear_arith)
        requires
            kw == 1,
            -1 <= kx <= 1,
            -1 <= ky <= 1,
            -1 <= kz <= 1,
            p.distance(x, y, z, w) == w + (if kx == 1 {
                x
            } else if kx == -1 {
                -x
            } else {
                0
            }) + (if ky == 1 {
                y
            } else if ky == -1 {
                -y
            } else {
                0
            }) + (if kz == 1 {
                z
            } else if kz == -1 {
                -z
            } else {
                0
            }),
    ;
}

/// One vertex of a clipped polygon, told by where it comes from.
#[derive(Clone, Copy, Debug, PartialEq, Eq, Structural)]
pub enum ClipStep {
    /// The vertex of this index, kept as it is.
    Keep(usize),
    /// The point at which the edge from the first vertex to the second
    /// meets the plane.
    Cross(usize, usize),
}

/// The vertex that follows vertex `i` around a polygon of `n` vertices.
pub open spec fn next_vertex(n: int, i: int) -> int {
    if i + 1 == n {
        0
    } else {
        i + 1
    }
}

/// What the directed edge that starts at vertex `i` gives to the clipped
/// polygon: its start if that is inside, then the crossing if its two ends
/// lie on different sides.
pub open spec fn edge_steps(inside: Seq<bool>, i: int) -> Seq<ClipStep> {
    let j = next_vertex(inside.len() as int, i);
    let keep = if inside[i] {
        seq![ClipStep::Keep(i as usize)]
    } else {
        Seq::<ClipStep>::empty()
    };
    let cross = if inside[i] != inside[j] {
        seq![ClipStep::Cross(i as usize, j as usize)]
    } else {
        Seq::<ClipStep>::empty()
    };
    keep + cross
}

/// What the first `n` edges of the polygon give to the clipped polygon.
pub open spec fn plan_of_edges(inside: Seq<bool>, n: nat) -> Seq<ClipStep>
    decreases n,
{
    if n == 0 {
        Seq::<ClipStep>::empty()
    } else {
        plan_of_edges(inside, (n - 1) as nat) + edge_steps(inside, n - 1)
    }
}

/// The clipped polygon, vertex by vertex, of a polygon whose vertex `i` lies
/// inside the plane where `inside[i]` holds.
pub open spec fn plan(inside: Seq<bool>) -> Seq<ClipStep> {
    plan_of_edges(inside, inside.len())
}

/// Clips a polygon against one plane, given for each vertex in turn whether
/// its signed distance from the plane is not negative. The result names the
/// vertices of the clipped polygon in order.
pub fn clip_plan(inside: &Vec<bool>) -> (steps: Vec<ClipStep>)
    ensures
        steps@ == plan(inside@),
{
    let n = inside.len();
    let mut steps: Vec<ClipStep> = Vec::new();
    let mut i: usize = 0;
    while i < n
        invariant
            n == inside.len(),
            i <= n,
            steps@ == plan_of_edges(inside@, i as nat),
        decreases n - i,
    {
        let j: usize = if i + 1 == n {
            0
        } else {
            i + 1
        };
        let ghost before = steps@;
        if inside[i] {
            steps.push(ClipStep::Keep(i));
        }
        if inside[i] != inside[j] {
            steps.push(ClipStep::Cross(i, j));
        }
        assert(steps@ =~= before + edge_steps(inside@, i as int));
        i += 1;
    }
    steps
}

/// Whether `step` is one that the clip of `inside` may take: a kept vertex
/// is inside, and a crossing lies on an edge of the polygon whose two ends
/// are on different sides.
pub open spec fn step_is_sound(inside: Seq<bool>, step: ClipStep) -> bool {
    match step {
        ClipStep::Keep(i) => i < inside.len() && inside[i as int],
        ClipStep::Cross(i, j) => i < inside.len() && j == next_vertex(
            inside.len() as int,
            i as int,
        ) && inside[i as int] != inside[j as int],
    }
}

/// The edge that a step comes from.
pub open spec fn step_edge(step: ClipStep) -> int {
    match step {
        ClipStep::Keep(i) => i as int,
        ClipStep::Cross(i, j) => i as int,
    }
}

proof fn lemma_plan_of_edges(inside: Seq<bool>, n: nat)
    requires
        n <= inside.len(),
        inside.len() <= usize::MAX,
    ensures
        plan_of_edges(inside, n).len() <= 2 * n,
        forall|k: int|
            0 <= k < plan_of_edges(inside, n).len() ==> step_is_sound(
                inside,
                #[trigger] plan_of_edges(inside, n)[k],
            ) && step_edge(plan_of_edges(inside, n)[k]) < n,
        forall|k: int, l: int|
            0 <= k < l < plan_of_edges(inside, n).len() ==> step_edge(
                #[trigger] plan_of_edges(inside, n)[k],
            ) <= step_edge(#[trigger] plan_of_edges(inside, n)[l]),
        (forall|i: int| 0 <= i < inside.len() ==> !inside[i]) ==> plan_of_edges(inside, n).len() == 0,
        (forall|i: int| 0 <= i < inside.len() ==> inside[i]) ==> plan_of_edges(inside, n)
            =~= Seq::new(n, |i: int| ClipStep::Keep(i as usize)),
        forall|i: int|
            0 <= i < n && #[trigger] inside[i] ==> plan_of_edges(inside, n).contains(
                ClipStep::Keep(i as usize),
            ),
    decreases n,
{
    if n > 0 {
        let m = (n - 1) as nat;
        lemma_plan_of_edges(inside, m);
        let head = plan_of_edges(inside, m);
        let tail = edge_steps(inside, n - 1);
        let all = plan_of_edges(inside, n);
        assert(all == head + tail);
        let j = next_vertex(inside.len() as int, n - 1);
        assert(0 <= j < inside.len());
        assert forall|k: int| 0 <= k < all.len() implies step_is_sound(inside, #[trigger] all[k])
            && step_edge(all[k]) < n && (k >= head.len() ==> step_edge(all[k]) == n - 1) by {
            if k < head.len() {
                assert(all[k] == head[k]);
            } else {
                assert(all[k] == tail[k - head.len()]);
            }
        }
        assert forall|k: int, l: int| 0 <= k < l < all.len() implies step_edge(#[trigger] all[k])
            <= step_edge(#[trigger] all[l]) by {
            if l < head.len() {
                assert(all[k] == head[k] && all[l] == head[l]);
            } else if k < head.len() {
                assert(all[k] == head[k]);
            }
        }
        assert forall|i: int| 0 <= i < n && #[trigger] inside[i] implies all.contains(
            ClipStep::Keep(i as usize),
        ) by {
            if i < m {
                let k = choose|k: int| 0 <= k < head.len() && head[k] == ClipStep::Keep(i as usize);
                assert(all[k] == head[k]);
            } else {
                assert(tail[0] == ClipStep::Keep(i as usize));
                assert(all[head.len() as int] == tail[0]);
            }
        }
    }
}

/// What every clip plan holds. It has at most two steps for each vertex and
/// takes the edges in their order around the polygon, so the clipped polygon
/// winds as the polygon does. Every vertex that it keeps is inside, every
/// vertex that is inside is kept, and every crossing lies on an edge whose
/// ends are on different sides. A polygon with no vertex inside clips to
/// nothing; one with every vertex inside clips to itself.
pub proof fn lemma_plan_is_sound(inside: Seq<bool>)
    requires
        inside.len() <= usize::MAX,
    ensures
        plan(inside).len() <= 2 * inside.len(),
        forall|k: int|
            0 <= k < plan(inside).len() ==> step_is_sound(inside, #[trigger] plan(inside)[k]),
        forall|k: int, l: int|
            0 <= k < l < plan(inside).len() ==> step_edge(#[trigger] plan(inside)[k]) <= step_edge(
                #[trigger] plan(inside)[l],
            ),
        forall|i: int|
            0 <= i < inside.len() && #[trigger] inside[i] ==> plan(inside).contains(
                ClipStep::Keep(i as usize),
            ),
        (forall|i: int| 0 <= i < inside.len() ==> !inside[i]) ==> plan(inside).len() == 0,
        (forall|i: int| 0 <= i < inside.len() ==> inside[i]) ==> plan(inside) == Seq::new(
            inside.len(),
            |i: int| ClipStep::Keep(i as usize),
        ),
{
    lemma_plan_of_edges(inside, inside.len());
}

/// A point of clip space with whole coordinates.
pub struct Point4 {
    pub x: int,
    pub y: int,
    pub z: int,
    pub w: int,
}

impl Plane {
    /// The signed distance of the point `v` from the plane.
    pub open spec fn distance_of(self, v: Point4) -> int {
        self.distance(v.x, v.y, v.z, v.w)
    }
}

/// `a * s - b * t`, coordinate by coordinate.
pub open spec fn weighted_difference(a: Point4, s: int, b: Point4, t: int) -> Point4 {
    Point4 { x: a.x * s - b.x * t, y: a.y * s - b.y * t, z: a.z * s - b.z * t, w: a.w * s - b.w * t }
}

/// Where a cut puts its new vertex, in exact arithmetic. Let the ends `a`
/// and `b` of an edge have the signed distances `da` and `db` from a plane,
/// one of them negative and one not. The new vertex is
/// `a * t + b * (1 - t)` with `t = db / (db - da)`. The divisor is not zero,
/// `t` lies between 0 and 1, so the vertex lies on the edge, and the vertex
/// lies on the plane. The last is stated of the vertex times the divisor,
/// `a * db - b * da`, which is at distance zero exactly as the vertex is.
pub proof fn lemma_crossing_lies_on_plane(p: Plane, a: Point4, b: Point4)
    requires
        (p.distance_of(a) >= 0) != (p.distance_of(b) >= 0),
    ensures
        p.distance_of(b) - p.distance_of(a) != 0,
        0 <= p.distance_of(b) * (p.distance_of(b) - p.distance_of(a)) <= (p.distance_of(b)
            - p.distance_of(a)) * (p.distance_of(b) - p.distance_of(a)),
        p.distance_of(weighted_difference(a, p.distance_of(b), b, p.distance_of(a))) == 0,
{
    let da = p.distance_of(a);
    let db = p.distance_of(b);
    let m = db - da;
    assert(0 <= db * m <= m * m) by (nonlinear_arith)
        requires
            m == db - da,
            (da >= 0) != (db >= 0),
    ;
    let c = weighted_difference(a, db, b, da);
    assert((a.w * db - b.w * da) + (a.z * db - b.z * da) == (a.w + a.z) * db - (b.w + b.z) * da)
        by (nonlinear_arith);
    assert((a.w * db - b.w * da) - (a.z * db - b.z * da) == (a.w - a.z) * db - (b.w - b.z) * da)
        by (nonlinear_arith);
    assert((a.w * db - b.w * da) + (a.x * db - b.x * da) == (a.w + a.x) * db - (b.w + b.x) * da)
        by (nonlinear_arith);
    assert((a.w * db - b.w * da) - (a.x * db - b.x * da) == (a.w - a.x) * db - (b.w - b.x) * da)
        by (nonlinear_arith);
    assert((a.w * db - b.w * da) + (a.y * db - b.y * da) == (a.w + a.y) * db - (b.w + b.y) * da)
        by (nonlinear_arith);
    assert((a.w * db - b.w * da) - (a.y * db - b.y * da) == (a.w - a.y) * db - (b.w - b.y) * da)
        by (nonlinear_arith);
    assert(da * db - db * da == 0) by (nonlinear_arith);
}

/// For each vertex of `polygon`, whether its signed distance from the plane
/// is not negative.
pub open spec fn sides(p: Plane, polygon: Seq<Point4>) -> Seq<bool> {
    Seq::new(polygon.len(), |i: int| p.distance_of(polygon[i]) >= 0)
}

/// Whether the vertex that `step` stands for lies on the visible side of
/// the plane, in exact arithmetic: a kept vertex at a distance that is not
/// negative, a crossing at distance zero.
pub open spec fn step_is_visible(p: Plane, polygon: Seq<Point4>, step: ClipStep) -> bool {
    match step {
        ClipStep::Keep(i) => i < polygon.len() && p.distance_of(polygon[i as int]) >= 0,
        ClipStep::Cross(i, j) => i < polygon.len() && j < polygon.len() && p.distance_of(
            polygon[j as int],
        ) - p.distance_of(polygon[i as int]) != 0 && p.distance_of(
            weighted_difference(
                polygon[i as int],
                p.distance_of(polygon[j as int]),
                polygon[j as int],
                p.distance_of(polygon[i as int]),
            ),
        ) == 0,
    }
}

/// No vertex of a clipped polygon lies behind the plane it was clipped
/// against: in exact arithmetic every vertex that the pass puts out is at a
/// signed distance of zero or more.
pub proof fn lemma_clipped_polygon_is_visible(p: Plane, polygon: Seq<Point4>)
    requires
        polygon.len() <= usize::MAX,
    ensures
        forall|k: int|
            0 <= k < plan(sides(p, polygon)).len() ==> step_is_visible(
                p,
                polygon,
                #[trigger] plan(sides(p, polygon))[k],
            ),
{
    let inside = sides(p, polygon);
    lemma_plan_is_sound(inside);
    assert forall|k: int| 0 <= k < plan(inside).len() implies step_is_visible(
        p,
        polygon,
        #[trigger] plan(inside)[k],
    ) by {
        let step = plan(inside)[k];
        assert(step_is_sound(inside, step));
        match step {
            ClipStep::Keep(i) => {},
            ClipStep::Cross(i, j) => {
                lemma_crossing_lies_on_plane(p, polygon[i as int], polygon[j as int]);
            },
        }
    }
}

} // verus!
