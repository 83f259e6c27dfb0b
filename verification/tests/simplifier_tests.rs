use system_foundation::simplifier::WaypointSimplifier;
use system_foundation::vector2i::Vector2I;

fn points(raw: &[(i64, i64)]) -> Vec<Vector2I> {
    raw.iter().map(|&(x, y)| Vector2I { x, y }).collect()
}

fn xy(v: &[Vector2I]) -> Vec<(i64, i64)> {
    v.iter().map(|p| (p.x, p.y)).collect()
}

#[test]
fn tolerance_five_tenths_collapses_the_polyline() {
    // The classic tolerance example, scaled by ten to integer points: with
    // a tolerance of 5 every interior point lies within range, so only the
    // ends are kept.
    let ps = points(&[(0, 0), (10, 4), (20, 1), (30, 0), (40, 0)]);
    let simplifier = WaypointSimplifier::new(5, 1);
    let out = simplifier.simplify(&ps);
    assert_eq!(xy(&out), vec![(0, 0), (40, 0)]);
}

#[test]
fn tolerance_three_tenths_keeps_the_apex() {
    // With a tolerance of 3 the apex at (10, 4) deviates too far and must
    // be kept; the rest still collapses.
    let ps = points(&[(0, 0), (10, 4), (20, 1), (30, 0), (40, 0)]);
    let simplifier = WaypointSimplifier::new(3, 1);
    let out = simplifier.simplify(&ps);
    assert_eq!(xy(&out), vec![(0, 0), (10, 4), (40, 0)]);
}

#[test]
fn fractional_tolerance_is_honored() {
    // A deviation of exactly 1 pixel is kept only when the tolerance drops
    // below 1: tolerance 1/1 drops the bump, tolerance 1/2 keeps it.
    let ps = points(&[(0, 0), (2, 1), (4, 0)]);
    let coarse = WaypointSimplifier::new(1, 1);
    assert_eq!(xy(&coarse.simplify(&ps)), vec![(0, 0), (4, 0)]);
    let fine = WaypointSimplifier::new(1, 2);
    assert_eq!(xy(&fine.simplify(&ps)), vec![(0, 0), (2, 1), (4, 0)]);
}

#[test]
fn short_polylines_are_returned_unchanged() {
    let simplifier = WaypointSimplifier::new(1, 1);
    let empty: Vec<Vector2I> = Vec::new();
    assert_eq!(simplifier.simplify(&empty).len(), 0);
    let one = points(&[(3, 4)]);
    assert_eq!(xy(&simplifier.simplify(&one)), vec![(3, 4)]);
    let two = points(&[(3, 4), (9, 9)]);
    assert_eq!(xy(&simplifier.simplify(&two)), vec![(3, 4), (9, 9)]);
}

#[test]
fn endpoints_are_always_kept() {
    let ps = points(&[(0, 0), (1, 7), (2, -3), (3, 2), (8, 1)]);
    let simplifier = WaypointSimplifier::new(100, 1);
    let out = simplifier.simplify(&ps);
    assert_eq!(out.first().map(|p| (p.x, p.y)), Some((0, 0)));
    assert_eq!(out.last().map(|p| (p.x, p.y)), Some((8, 1)));
}

#[test]
fn degenerate_segment_uses_point_distance() {
    // A closed polyline (equal ends): interior deviation is the Euclidean
    // distance from the shared endpoint.
    let ps = points(&[(0, 0), (3, 0), (0, 0)]);
    let keeps = WaypointSimplifier::new(2, 1);
    assert_eq!(xy(&keeps.simplify(&ps)), vec![(0, 0), (3, 0), (0, 0)]);
    let drops = WaypointSimplifier::new(3, 1);
    assert_eq!(xy(&drops.simplify(&ps)), vec![(0, 0), (0, 0)]);
}

#[test]
fn kept_indices_name_the_original_points() {
    let ps = points(&[(0, 0), (10, 4), (20, 1), (30, 0), (40, 0)]);
    let simplifier = WaypointSimplifier::new(3, 1);
    let (kept_points, kept) = simplifier.simplify_with_indices(&ps);
    assert_eq!(kept, vec![0, 1, 4]);
    assert_eq!(kept_points.len(), 3);
    for (i, &k) in kept.iter().enumerate() {
        assert_eq!(kept_points[i], ps[k]);
    }
}
