use softrender::clip::{clip_plan, ClipStep, Plane, PlaneWeights};

fn distance(p: &Plane, v: (f32, f32, f32, f32)) -> f32 {
    let k = p.weights();
    k.x as f32 * v.0 + k.y as f32 * v.1 + k.z as f32 * v.2 + k.w as f32 * v.3
}

fn insides(p: &Plane, polygon: &[(f32, f32, f32, f32)]) -> Vec<bool> {
    polygon.iter().map(|v| distance(p, *v) >= 0.0).collect()
}

#[test]
fn clip_against_near() {
    // (0,0,-1,1) lies on the plane w + z = 0, so all three vertices are kept
    // and no edge is cut.
    let triangle = [(0.0, 0.0, -1.0, 1.0), (1.0, 0.0, 1.0, 1.0), (-1.0, 0.0, 1.0, 1.0)];
    let plane = Plane::first();
    assert_eq!(distance(&plane, triangle[0]), 0.0);
    let plan = clip_plan(&insides(&plane, &triangle));
    assert_eq!(plan, vec![ClipStep::Keep(0), ClipStep::Keep(1), ClipStep::Keep(2)]);
}

#[test]
fn clip_against_near_cuts_two_edges() {
    // With the first vertex behind the plane the polygon has four vertices:
    // the two that are inside and the two crossings.
    let triangle = [(0.0, 0.0, -2.0, 1.0), (1.0, 0.0, 1.0, 1.0), (-1.0, 0.0, 1.0, 1.0)];
    let plan = clip_plan(&insides(&Plane::first(), &triangle));
    assert_eq!(
        plan,
        vec![ClipStep::Cross(0, 1), ClipStep::Keep(1), ClipStep::Keep(2), ClipStep::Cross(2, 0)]
    );
}

#[test]
fn clip_plan_cases() {
    assert_eq!(clip_plan(&vec![]), vec![]);
    assert_eq!(clip_plan(&vec![false, false, false]), vec![]);
    assert_eq!(
        clip_plan(&vec![true, true, true, true]),
        vec![ClipStep::Keep(0), ClipStep::Keep(1), ClipStep::Keep(2), ClipStep::Keep(3)]
    );
    assert_eq!(
        clip_plan(&vec![true, false, false]),
        vec![ClipStep::Keep(0), ClipStep::Cross(0, 1), ClipStep::Cross(2, 0)]
    );
    assert_eq!(
        clip_plan(&vec![false, true, false, true]),
        vec![
            ClipStep::Cross(0, 1),
            ClipStep::Keep(1),
            ClipStep::Cross(1, 2),
            ClipStep::Cross(2, 3),
            ClipStep::Keep(3),
            ClipStep::Cross(3, 0)
        ]
    );
    assert_eq!(clip_plan(&vec![true]), vec![ClipStep::Keep(0)]);
    assert_eq!(clip_plan(&vec![false]), vec![]);
}

#[test]
fn clip_plan_keeps_only_inside_vertices() {
    let inside = vec![true, false, true, true, false, false, true];
    let plan = clip_plan(&inside);
    assert!(plan.len() <= 2 * inside.len());
    for step in plan.iter() {
        match step {
            ClipStep::Keep(i) => assert!(inside[*i]),
            ClipStep::Cross(i, j) => {
                assert_eq!(*j, (*i + 1) % inside.len());
                assert_ne!(inside[*i], inside[*j]);
            }
        }
    }
    for (i, kept) in inside.iter().enumerate() {
        assert_eq!(plan.contains(&ClipStep::Keep(i)), *kept);
    }
}

#[test]
fn planes_in_clip_order() {
    let mut order = vec![Plane::first()];
    while let Some(p) = order[order.len() - 1].next() {
        order.push(p);
    }
    assert_eq!(
        order,
        vec![Plane::PlusZ, Plane::MinusZ, Plane::PlusX, Plane::MinusX, Plane::PlusY, Plane::MinusY]
    );
}

#[test]
fn plane_weights() {
    assert_eq!(Plane::PlusZ.weights(), PlaneWeights { x: 0, y: 0, z: 1, w: 1 });
    assert_eq!(Plane::MinusZ.weights(), PlaneWeights { x: 0, y: 0, z: -1, w: 1 });
    assert_eq!(Plane::PlusX.weights(), PlaneWeights { x: 1, y: 0, z: 0, w: 1 });
    assert_eq!(Plane::MinusX.weights(), PlaneWeights { x: -1, y: 0, z: 0, w: 1 });
    assert_eq!(Plane::PlusY.weights(), PlaneWeights { x: 0, y: 1, z: 0, w: 1 });
    assert_eq!(Plane::MinusY.weights(), PlaneWeights { x: 0, y: -1, z: 0, w: 1 });
    assert_eq!(distance(&Plane::MinusX, (3.0, 0.0, 0.0, 1.0)), -2.0);
}

#[test]
fn crossing_lies_on_the_plane() {
    let plane = Plane::first();
    let a = (0.0f32, 0.0, -2.0, 1.0);
    let b = (1.0f32, 0.0, 1.0, 1.0);
    let (da, db) = (distance(&plane, a), distance(&plane, b));
    assert_eq!((da, db), (-1.0, 2.0));
    let t = db / (db - da);
    assert!(0.0 <= t && t <= 1.0);
    let cut = (
        a.0 * t + b.0 * (1.0 - t),
        a.1 * t + b.1 * (1.0 - t),
        a.2 * t + b.2 * (1.0 - t),
        a.3 * t + b.3 * (1.0 - t),
    );
    assert!(distance(&plane, cut).abs() < 1e-6);
}

#[test]
fn clip_plan_follows_the_polygon() {
    let inside = vec![false, true, true, false, true];
    let plan = clip_plan(&inside);
    let edges: Vec<usize> = plan
        .iter()
        .map(|s| match s {
            ClipStep::Keep(i) => *i,
            ClipStep::Cross(i, _) => *i,
        })
        .collect();
    assert_eq!(edges, vec![0, 1, 2, 2, 3, 4, 4]);
}

#[test]
fn six_passes_of_a_triangle_inside_the_view() {
    let triangle = [(0.0, 0.0, 0.5, 1.0), (0.5, 0.0, 0.5, 1.0), (0.0, 0.5, 0.5, 1.0)];
    let mut plane = Some(Plane::first());
    let mut passes = 0;
    while let Some(p) = plane {
        let plan = clip_plan(&insides(&p, &triangle));
        assert_eq!(plan, vec![ClipStep::Keep(0), ClipStep::Keep(1), ClipStep::Keep(2)]);
        passes += 1;
        plane = p.next();
    }
    assert_eq!(passes, 6);
}
