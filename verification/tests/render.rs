use tinyraster::geometry::{Vector3D, FIX_ONE};
use tinyraster::gl::GL;
use tinyraster::image::{Color, Image};
use tinyraster::model::{Model, RenderError};

fn fresh(width: i32, height: i32) -> GL {
    GL::new(Image::new(width, height))
}

#[test]
fn render_full_intensity_face_paints_gray_255() {
    // one face in the z = 0 plane: normal (0, 0, -FIX_ONE^2-scaled),
    // intensity against the light (0, 0, -1) is exactly 1, gray 255
    let vertices = vec![
        Vector3D::new(-FIX_ONE, -FIX_ONE, 0),
        Vector3D::new(FIX_ONE, -FIX_ONE, 0),
        Vector3D::new(-FIX_ONE, FIX_ONE, 0),
    ];
    let faces = vec![[0, 1, 2]];
    let model = Model::new(vertices, faces).unwrap();
    assert!(model.coords_in_range());
    let mut gl = fresh(4, 4);
    assert!(gl.render(&model).is_ok());
    // screen triangle is (0,0), (4,0), (0,4): pixels with x + y <= 4 lit
    for y in 0..4 {
        for x in 0..4 {
            let expected = if x + y <= 4 { Color(255, 255, 255, 255) } else { Color(0, 0, 0, 0) };
            assert_eq!(gl.image.data[(x + y * 4) as usize], expected, "pixel ({x}, {y})");
        }
    }
}

#[test]
fn render_tilted_face_paints_hand_computed_gray_180() {
    // normal (0, -c, -c): intensity 1/sqrt(2), gray trunc(255/sqrt(2)) = 180
    let vertices = vec![
        Vector3D::new(0, FIX_ONE, -FIX_ONE),
        Vector3D::new(0, 0, 0),
        Vector3D::new(FIX_ONE, 0, 0),
    ];
    let faces = vec![[0, 1, 2]];
    let model = Model::new(vertices, faces).unwrap();
    assert!(model.coords_in_range());
    let mut gl = fresh(4, 4);
    assert!(gl.render(&model).is_ok());
    // the projected triangle is (2,4), (2,2), (4,2); its vertex pixel
    // (2,2) is painted with the face's gray
    assert_eq!(gl.image.data[2 + 2 * 4], Color(180, 180, 180, 255));
    assert_eq!(gl.image.data[0], Color(0, 0, 0, 0));
}

#[test]
fn render_culls_back_facing_and_perpendicular_faces() {
    // same plane as the lit face but wound the other way: normal z > 0
    let vertices = vec![
        Vector3D::new(-FIX_ONE, -FIX_ONE, 0),
        Vector3D::new(-FIX_ONE, FIX_ONE, 0),
        Vector3D::new(FIX_ONE, -FIX_ONE, 0),
    ];
    let faces = vec![[0, 1, 2]];
    let model = Model::new(vertices, faces).unwrap();
    let mut gl = fresh(4, 4);
    assert!(gl.render(&model).is_ok());
    for p in &gl.image.data {
        assert_eq!(*p, Color(0, 0, 0, 0));
    }

    // a face seen edge-on (normal perpendicular to the light) is skipped
    let vertices = vec![
        Vector3D::new(0, 0, 0),
        Vector3D::new(FIX_ONE, 0, 0),
        Vector3D::new(0, 0, FIX_ONE),
    ];
    let faces = vec![[0, 1, 2]];
    let model = Model::new(vertices, faces).unwrap();
    let mut gl = fresh(4, 4);
    assert!(gl.render(&model).is_ok());
    for p in &gl.image.data {
        assert_eq!(*p, Color(0, 0, 0, 0));
    }
}

#[test]
fn render_degenerate_face_paints_nothing() {
    let v = Vector3D::new(0, 0, -FIX_ONE);
    let model = Model::new(vec![v, v, v], vec![[0, 1, 2]]).unwrap();
    let mut gl = fresh(4, 4);
    assert!(gl.render(&model).is_ok());
    for p in &gl.image.data {
        assert_eq!(*p, Color(0, 0, 0, 0));
    }
}

#[test]
fn model_new_rejects_out_of_range_face_index() {
    let vertices = vec![Vector3D::new(0, 0, 0), Vector3D::new(FIX_ONE, 0, 0)];
    let r = Model::new(vertices, vec![[0, 1, 2]]);
    assert_eq!(r.unwrap_err(), RenderError::IndexOutOfRange);

    let vertices = vec![Vector3D::new(0, 0, 0)];
    let r = Model::new(vertices, vec![[0, 0, -1]]);
    assert_eq!(r.unwrap_err(), RenderError::IndexOutOfRange);
}

#[test]
fn render_rejects_invalid_mesh_and_leaves_surface_unchanged() {
    // bypass the validating constructor: the fields are public
    let model = Model { vertices: vec![Vector3D::new(0, 0, 0)], faces: vec![[0, 1, 0]] };
    let mut gl = fresh(4, 4);
    let r = gl.render(&model);
    assert_eq!(r.unwrap_err(), RenderError::IndexOutOfRange);
    for p in &gl.image.data {
        assert_eq!(*p, Color(0, 0, 0, 0));
    }
}

#[test]
fn render_paints_faces_in_order_later_overwrites() {
    // two coplanar full-intensity faces over the same pixels: the later
    // one wins, and both are full gray so the surface shows gray 255
    let vertices = vec![
        Vector3D::new(-FIX_ONE, -FIX_ONE, 0),
        Vector3D::new(FIX_ONE, -FIX_ONE, 0),
        Vector3D::new(-FIX_ONE, FIX_ONE, 0),
    ];
    let faces = vec![[0, 1, 2], [0, 1, 2]];
    let model = Model::new(vertices, faces).unwrap();
    let mut gl = fresh(2, 2);
    assert!(gl.render(&model).is_ok());
    assert_eq!(gl.image.data[0], Color(255, 255, 255, 255));
}
