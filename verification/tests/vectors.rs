use tinyraster::geometry::{barycentric_inside, find_triangle_bounding_box, is_in_triangle, Vector2D, Vector3D};
use tinyraster::util::Vec2i;

#[test]
fn vector2d_arithmetic() {
    let a = Vector2D::new(3, -2);
    let b = Vector2D::new(1, 5);
    let s = a.add(b);
    assert_eq!((s.x, s.y), (4, 3));
    let d = a.sub(b);
    assert_eq!((d.x, d.y), (2, -7));
    assert_eq!(a.dot(b), 3 * 1 + (-2) * 5);
    let k = a.scale(-4);
    assert_eq!((k.x, k.y), (-12, 8));
}

#[test]
fn vector3d_arithmetic() {
    let a = Vector3D::new(1, 2, 3);
    let b = Vector3D::new(-4, 5, -6);
    let s = a.add(b);
    assert_eq!((s.x, s.y, s.z), (-3, 7, -3));
    let d = a.sub(b);
    assert_eq!((d.x, d.y, d.z), (5, -3, 9));
    assert_eq!(a.dot(b), -4 + 10 - 18);
    let k = a.scale(3);
    assert_eq!((k.x, k.y, k.z), (3, 6, 9));
}

#[test]
fn vector3d_cross_follows_right_hand_rule() {
    let x = Vector3D::new(1, 0, 0);
    let y = Vector3D::new(0, 1, 0);
    let z = x.cross(y);
    assert_eq!((z.x, z.y, z.z), (0, 0, 1));
    let a = Vector3D::new(2, 3, 4);
    let b = Vector3D::new(5, 6, 7);
    let c = a.cross(b);
    assert_eq!((c.x, c.y, c.z), (3 * 7 - 4 * 6, 4 * 5 - 2 * 7, 2 * 6 - 3 * 5));
}

#[test]
fn bounding_box_of_triangle() {
    let pts = [Vector2D::new(4, 1), Vector2D::new(-2, 7), Vector2D::new(3, -5)];
    let bbox = find_triangle_bounding_box(&pts);
    // top_left = (min x, max y), bottom_right = (max x, min y)
    assert_eq!((bbox[0].x, bbox[0].y), (-2, 7));
    assert_eq!((bbox[1].x, bbox[1].y), (4, -5));
}

#[test]
fn edge_function_containment() {
    let pts = [Vector2D::new(0, 0), Vector2D::new(10, 0), Vector2D::new(0, 10)];
    assert!(is_in_triangle(&Vector2D::new(1, 1), &pts));
    assert!(!is_in_triangle(&Vector2D::new(9, 9), &pts));
    assert!(is_in_triangle(&Vector2D::new(0, 0), &pts));
    assert!(is_in_triangle(&Vector2D::new(10, 0), &pts));
    assert!(is_in_triangle(&Vector2D::new(0, 10), &pts));
}

#[test]
fn edge_function_containment_is_boundary_inclusive_clockwise() {
    // the same triangle wound the other way: the boundary still counts
    let pts = [Vector2D::new(0, 0), Vector2D::new(0, 10), Vector2D::new(10, 0)];
    assert!(is_in_triangle(&Vector2D::new(0, 5), &pts));
    assert!(is_in_triangle(&Vector2D::new(5, 0), &pts));
    assert!(is_in_triangle(&Vector2D::new(5, 5), &pts));
    assert!(is_in_triangle(&Vector2D::new(0, 0), &pts));
    assert!(is_in_triangle(&Vector2D::new(0, 10), &pts));
    assert!(is_in_triangle(&Vector2D::new(10, 0), &pts));
    assert!(is_in_triangle(&Vector2D::new(1, 1), &pts));
    assert!(!is_in_triangle(&Vector2D::new(9, 9), &pts));
    assert!(!is_in_triangle(&Vector2D::new(-1, 5), &pts));
}

#[test]
fn edge_function_agrees_with_barycentric_on_nondegenerate_triangles() {
    let ccw = [Vector2D::new(0, 0), Vector2D::new(10, 0), Vector2D::new(0, 10)];
    let cw = [Vector2D::new(0, 0), Vector2D::new(0, 10), Vector2D::new(10, 0)];
    for y in -2..13 {
        for x in -2..13 {
            let p = Vector2D::new(x, y);
            assert_eq!(is_in_triangle(&p, &ccw), barycentric_inside(p, &ccw), "ccw ({x}, {y})");
            assert_eq!(is_in_triangle(&p, &cw), barycentric_inside(p, &cw), "cw ({x}, {y})");
        }
    }
}

#[test]
fn vec2i_holds_coordinates() {
    let v = Vec2i::new(-3, 9);
    assert_eq!(v.x, -3);
    assert_eq!(v.y, 9);
}
