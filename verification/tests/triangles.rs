use tinyraster::geometry::{barycentric_inside, Vector2D};
use tinyraster::gl::GL;
use tinyraster::image::{Color, Image};

const INK: Color = Color(200, 200, 200, 255);

fn fresh(width: i32, height: i32) -> GL {
    GL::new(Image::new(width, height))
}

fn lit_count(gl: &GL) -> usize {
    gl.image.data.iter().filter(|c| **c != Color(0, 0, 0, 0)).count()
}

#[test]
fn barycentric_containment_is_boundary_inclusive() {
    let pts = [Vector2D::new(0, 0), Vector2D::new(10, 0), Vector2D::new(0, 10)];
    assert!(barycentric_inside(Vector2D::new(1, 1), &pts));
    assert!(!barycentric_inside(Vector2D::new(9, 9), &pts));
    // the three vertices themselves are inside
    assert!(barycentric_inside(Vector2D::new(0, 0), &pts));
    assert!(barycentric_inside(Vector2D::new(10, 0), &pts));
    assert!(barycentric_inside(Vector2D::new(0, 10), &pts));
    // a point on an edge is inside
    assert!(barycentric_inside(Vector2D::new(5, 0), &pts));
    assert!(barycentric_inside(Vector2D::new(5, 5), &pts));
}

#[test]
fn draw_triangle_fills_exactly_the_contained_pixels() {
    let pts = [Vector2D::new(0, 0), Vector2D::new(4, 0), Vector2D::new(0, 4)];
    let mut gl = fresh(6, 6);
    gl.draw_triangle(pts, INK);
    for y in 0..6 {
        for x in 0..6 {
            let lit = gl.image.data[(x + y * 6) as usize] == INK;
            let expected = barycentric_inside(Vector2D::new(x, y), &pts);
            assert_eq!(lit, expected, "pixel ({x}, {y})");
        }
    }
    // and containment here means x + y <= 4
    for y in 0..6 {
        for x in 0..6 {
            let lit = gl.image.data[(x + y * 6) as usize] == INK;
            assert_eq!(lit, x + y <= 4 && x <= 4 && y <= 4, "pixel ({x}, {y})");
        }
    }
}

#[test]
fn degenerate_collinear_triangle_fills_nothing() {
    let pts = [Vector2D::new(1, 1), Vector2D::new(3, 3), Vector2D::new(5, 5)];
    let mut gl = fresh(8, 8);
    gl.draw_triangle(pts, INK);
    assert_eq!(lit_count(&gl), 0);
}

#[test]
fn degenerate_repeated_point_triangle_fills_nothing() {
    let p = Vector2D::new(2, 2);
    let mut gl = fresh(8, 8);
    gl.draw_triangle([p, p, p], INK);
    assert_eq!(lit_count(&gl), 0);
}

#[test]
fn triangle_partially_off_surface_clips_silently() {
    let pts = [Vector2D::new(-3, -3), Vector2D::new(5, -3), Vector2D::new(-3, 5)];
    let mut gl = fresh(4, 4);
    gl.draw_triangle(pts, INK);
    // pixel (0, 0) is inside the triangle; (3, 3) is outside it
    assert_eq!(gl.image.data[0], INK);
    assert_eq!(gl.image.data[3 + 3 * 4], Color(0, 0, 0, 0));
}
