use tinyraster::gl::GL;
use tinyraster::image::{Color, Image};
use tinyraster::{TGAColor, TGAImage};

fn solid(width: i32, height: i32) -> GL {
    GL::new(Image::new(width, height))
}

#[test]
fn new_surface_is_transparent_black() {
    let img = Image::new(3, 2);
    assert_eq!(img.width, 3);
    assert_eq!(img.height, 2);
    assert_eq!(img.data.len(), 6);
    for c in &img.data {
        assert_eq!(*c, Color(0, 0, 0, 0));
    }
}

#[test]
fn set_point_then_read_returns_written_color() {
    let mut gl = solid(4, 4);
    let c = Color(9, 8, 7, 255);
    gl.set_point(1, 2, c);
    assert_eq!(gl.image.data[(1 + 2 * 4) as usize], c);
    // every other pixel is untouched
    for y in 0..4 {
        for x in 0..4 {
            if (x, y) != (1, 2) {
                assert_eq!(gl.image.data[(x + y * 4) as usize], Color(0, 0, 0, 0));
            }
        }
    }
}

#[test]
fn set_point_out_of_bounds_is_silent_noop() {
    let mut gl = solid(4, 4);
    let c = Color(1, 2, 3, 4);
    gl.set_point(-1, 0, c);
    gl.set_point(0, -1, c);
    gl.set_point(4, 0, c);
    gl.set_point(0, 4, c);
    gl.set_point(i32::MIN, i32::MAX, c);
    for p in &gl.image.data {
        assert_eq!(*p, Color(0, 0, 0, 0));
    }
}

#[test]
fn flip_vertically_reverses_rows() {
    let mut img = Image::new(2, 3);
    // paint each row with its own color
    let mut gl = GL::new(img);
    for y in 0..3 {
        for x in 0..2 {
            gl.set_point(x, y, Color(y as u8, 0, 0, 255));
        }
    }
    img = gl.image;
    img.flip_vertically();
    for y in 0..3 {
        for x in 0..2 {
            let expected = (2 - y) as u8;
            assert_eq!(img.data[(x + y * 2) as usize], Color(expected, 0, 0, 255));
        }
    }
}

#[test]
fn flip_vertically_twice_restores_buffer_even_height() {
    let mut gl = solid(3, 4);
    gl.set_point(0, 0, Color(1, 1, 1, 1));
    gl.set_point(2, 3, Color(2, 2, 2, 2));
    gl.set_point(1, 2, Color(3, 3, 3, 3));
    let mut img = gl.image;
    let before = img.data.clone();
    img.flip_vertically();
    img.flip_vertically();
    assert_eq!(img.data, before);
}

#[test]
fn flip_vertically_twice_restores_buffer_odd_height() {
    let mut gl = solid(2, 5);
    gl.set_point(1, 0, Color(7, 0, 0, 255));
    gl.set_point(0, 2, Color(8, 0, 0, 255));
    gl.set_point(1, 4, Color(9, 0, 0, 255));
    let mut img = gl.image;
    let before = img.data.clone();
    img.flip_vertically();
    img.flip_vertically();
    assert_eq!(img.data, before);
}

#[test]
fn tga_image_set_in_bounds() {
    let mut img = TGAImage::new(3, 3);
    let r = img.set(2, 1, TGAColor(5, 6, 7, 8));
    assert!(r.is_ok());
    assert_eq!(img.data[2 + 1 * 3], TGAColor(5, 6, 7, 8));
}

#[test]
fn tga_image_set_out_of_bounds_is_error() {
    let mut img = TGAImage::new(3, 3);
    let r = img.set(3, 0, TGAColor(5, 6, 7, 8));
    assert!(r.is_err());
    let r2 = img.set(0, 3, TGAColor(5, 6, 7, 8));
    assert!(r2.is_err());
    for p in &img.data {
        assert_eq!(*p, TGAColor(0, 0, 0, 0));
    }
}

#[test]
fn tga_flip_vertically_twice_restores_buffer() {
    let mut img = TGAImage::new(2, 3);
    img.set(0, 0, TGAColor(1, 0, 0, 255)).unwrap();
    img.set(1, 2, TGAColor(2, 0, 0, 255)).unwrap();
    let before = img.data.clone();
    img.flip_vertically();
    assert_eq!(img.data[0], TGAColor(0, 0, 0, 0));
    assert_eq!(img.data[1 + 0 * 2], TGAColor(2, 0, 0, 255));
    img.flip_vertically();
    assert_eq!(img.data, before);
}
