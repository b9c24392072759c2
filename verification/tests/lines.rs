use tinyraster::gl::GL;
use tinyraster::image::{Color, Image};

const INK: Color = Color(255, 255, 255, 255);

fn fresh(width: i32, height: i32) -> GL {
    GL::new(Image::new(width, height))
}

fn pixel_set(gl: &GL) -> Vec<(i32, i32)> {
    let mut set = Vec::new();
    for y in 0..gl.image.height {
        for x in 0..gl.image.width {
            if gl.image.data[(x + y * gl.image.width) as usize] != Color(0, 0, 0, 0) {
                set.push((x, y));
            }
        }
    }
    set
}

#[test]
fn draw_line_plots_both_endpoints() {
    let mut gl = fresh(8, 8);
    let p0 = tinyraster::geometry::Vector2D::new(1, 1);
    let p1 = tinyraster::geometry::Vector2D::new(6, 3);
    gl.draw_line(&p0, &p1, INK);
    assert_eq!(gl.image.data[(1 + 1 * 8) as usize], INK);
    assert_eq!(gl.image.data[(6 + 3 * 8) as usize], INK);
}

#[test]
fn draw_line_horizontal() {
    let mut gl = fresh(6, 3);
    let p0 = tinyraster::geometry::Vector2D::new(0, 1);
    let p1 = tinyraster::geometry::Vector2D::new(4, 1);
    gl.draw_line(&p0, &p1, INK);
    assert_eq!(pixel_set(&gl), vec![(0, 1), (1, 1), (2, 1), (3, 1), (4, 1)]);
}

#[test]
fn draw_line_vertical() {
    let mut gl = fresh(3, 6);
    let p0 = tinyraster::geometry::Vector2D::new(2, 4);
    let p1 = tinyraster::geometry::Vector2D::new(2, 0);
    gl.draw_line(&p0, &p1, INK);
    assert_eq!(pixel_set(&gl), vec![(2, 0), (2, 1), (2, 2), (2, 3), (2, 4)]);
}

#[test]
fn draw_line_single_point() {
    let mut gl = fresh(3, 3);
    let p = tinyraster::geometry::Vector2D::new(1, 1);
    gl.draw_line(&p, &p, INK);
    assert_eq!(pixel_set(&gl), vec![(1, 1)]);
}

#[test]
fn draw_line_shallow_walk_matches_hand_trace() {
    // 0..5 in x with dy = 2: the doubled-error walk steps down the
    // minor axis after pixels 1 and 3
    let mut gl = fresh(8, 8);
    let p0 = tinyraster::geometry::Vector2D::new(0, 0);
    let p1 = tinyraster::geometry::Vector2D::new(5, 2);
    gl.draw_line(&p0, &p1, INK);
    assert_eq!(pixel_set(&gl), vec![(0, 0), (1, 0), (2, 1), (3, 1), (4, 2), (5, 2)]);
}

#[test]
fn draw_line_is_symmetric_on_tie_free_segment() {
    // spans 3 and 1 share no common factor of 2: no halfway tie
    let p0 = tinyraster::geometry::Vector2D::new(1, 1);
    let p1 = tinyraster::geometry::Vector2D::new(4, 2);
    let mut fwd = fresh(8, 8);
    fwd.draw_line(&p0, &p1, INK);
    let mut rev = fresh(8, 8);
    rev.draw_line(&p1, &p0, INK);
    assert_eq!(pixel_set(&fwd), pixel_set(&rev));
}

#[test]
fn draw_line_steep_symmetric_diagonal() {
    let p0 = tinyraster::geometry::Vector2D::new(0, 0);
    let p1 = tinyraster::geometry::Vector2D::new(4, 4);
    let mut fwd = fresh(6, 6);
    fwd.draw_line(&p0, &p1, INK);
    let mut rev = fresh(6, 6);
    rev.draw_line(&p1, &p0, INK);
    let expected: Vec<(i32, i32)> = (0..5).map(|t| (t, t)).collect();
    assert_eq!(pixel_set(&fwd), expected);
    assert_eq!(pixel_set(&rev), expected);
}

#[test]
fn draw_line_clips_silently_off_surface() {
    let mut gl = fresh(4, 4);
    let p0 = tinyraster::geometry::Vector2D::new(-2, 1);
    let p1 = tinyraster::geometry::Vector2D::new(6, 1);
    gl.draw_line(&p0, &p1, INK);
    assert_eq!(pixel_set(&gl), vec![(0, 1), (1, 1), (2, 1), (3, 1)]);
}
