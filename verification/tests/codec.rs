use tinyraster::gl::GL;
use tinyraster::image::{Color, Image};

fn sample_image() -> Image {
    let mut gl = GL::new(Image::new(2, 2));
    gl.set_point(0, 0, Color(1, 2, 3, 4));
    gl.set_point(1, 0, Color(5, 6, 7, 8));
    gl.set_point(0, 1, Color(9, 10, 11, 12));
    gl.set_point(1, 1, Color(13, 14, 15, 16));
    gl.image
}

#[test]
fn encode_writes_header_and_pixels_in_declared_order() {
    let img = sample_image();
    let bytes = img.encode();
    assert_eq!(bytes.len(), 18 + 4 * 4);
    // fixed header fields: uncompressed true color, 32 bits per pixel
    assert_eq!(&bytes[0..3], &[0, 0, 2]);
    assert_eq!(&bytes[3..12], &[0; 9]);
    // little-endian width and height
    assert_eq!(&bytes[12..16], &[2, 0, 2, 0]);
    assert_eq!(bytes[16], 32);
    assert_eq!(bytes[17], 0);
    // R-G-B-A per pixel, row-major
    assert_eq!(&bytes[18..22], &[1, 2, 3, 4]);
    assert_eq!(&bytes[22..26], &[5, 6, 7, 8]);
    assert_eq!(&bytes[26..30], &[9, 10, 11, 12]);
    assert_eq!(&bytes[30..34], &[13, 14, 15, 16]);
}

#[test]
fn encode_wide_image_splits_dimension_bytes() {
    let img = Image::new(300, 1);
    let bytes = img.encode();
    assert_eq!(bytes[12], (300 % 256) as u8);
    assert_eq!(bytes[13], 1);
    assert_eq!(bytes[14], 1);
    assert_eq!(bytes[15], 0);
}

#[test]
fn decode_recovers_encoded_surface_exactly() {
    let img = sample_image();
    let bytes = img.encode();
    let back = Image::decode(&bytes).expect("a fresh encoding must decode");
    assert_eq!(back.width, img.width);
    assert_eq!(back.height, img.height);
    assert_eq!(back.data, img.data);
}

#[test]
fn decode_rejects_malformed_buffers() {
    assert!(Image::decode(&vec![]).is_none());
    assert!(Image::decode(&vec![0; 17]).is_none());

    let img = sample_image();
    let mut bytes = img.encode();
    bytes[2] = 10; // a color-mapped image type is not ours
    assert!(Image::decode(&bytes).is_none());

    let mut truncated = img.encode();
    truncated.pop();
    assert!(Image::decode(&truncated).is_none());

    let mut padded = img.encode();
    padded.push(0);
    assert!(Image::decode(&padded).is_none());

    // zero dimensions are rejected
    let mut zeroed = img.encode();
    zeroed[12] = 0;
    zeroed[13] = 0;
    assert!(Image::decode(&zeroed).is_none());
}
