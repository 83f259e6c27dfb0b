use system_foundation::genetic::Chromosome;
use system_foundation::vector2i::Vector2I;
use system_foundation::vector3i::Vector3I;

#[test]
fn vector2i_arithmetic() {
    let a = Vector2I::from_xy(3, -2);
    let b = Vector2I::from_xy(-1, 5);
    let sum = a + b;
    assert_eq!((sum.x, sum.y), (2, 3));
    let diff = a - b;
    assert_eq!((diff.x, diff.y), (4, -7));
    let scaled = a * 3i64;
    assert_eq!((scaled.x, scaled.y), (9, -6));
    let z = Vector2I::zero();
    assert_eq!((z.x, z.y), (0, 0));
    assert_eq!(a, Vector2I { x: 3, y: -2 });
}

#[test]
fn vector3i_dot_and_cross() {
    let a = Vector3I { x: 1, y: 2, z: 3 };
    let b = Vector3I { x: 4, y: -5, z: 6 };
    assert_eq!(a.dot(&b), 4 - 10 + 18);
    let c = a.cross(&b);
    assert_eq!((c.x, c.y, c.z), (2 * 6 - 3 * (-5), 3 * 4 - 1 * 6, 1 * (-5) - 2 * 4));
    let from_plane = Vector3I::from_xy(7, 8);
    assert_eq!((from_plane.x, from_plane.y, from_plane.z), (7, 8, 0));
    let z = Vector3I::zero();
    assert_eq!((z.x, z.y, z.z), (0, 0, 0));
    let s = a + b;
    assert_eq!((s.x, s.y, s.z), (5, -3, 9));
    let d = a - b;
    assert_eq!((d.x, d.y, d.z), (-3, 7, -3));
}

#[test]
fn chromosome_keeps_its_genes() {
    let c = Chromosome::new(vec![1u8, 2, 3]);
    assert_eq!(c.genes(), &vec![1u8, 2, 3]);
}
