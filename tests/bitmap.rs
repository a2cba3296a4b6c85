use raytracrr::bitmap::{Image, TextureError};

fn encode_png(width: u32, height: u32, pixels: &[(u32, u32, [u8; 3])]) -> Vec<u8> {
    let mut img = image::RgbImage::new(width, height);
    for &(x, y, rgb) in pixels {
        img.put_pixel(x, y, image::Rgb(rgb));
    }
    let mut out = std::io::Cursor::new(Vec::new());
    img.write_to(&mut out, image::ImageOutputFormat::Png).unwrap();
    out.into_inner()
}

#[test]
fn decodes_dimensions_and_pixels() {
    let bytes = encode_png(3, 2, &[(0, 0, [255, 0, 0]), (2, 1, [1, 2, 3]), (1, 0, [10, 20, 30])]);
    let img = Image::new(&bytes).unwrap();
    assert_eq!(img.width(), 3);
    assert_eq!(img.height(), 2);
    assert_eq!(img.pixel(0, 0), Some((255, 0, 0)));
    assert_eq!(img.pixel(1, 0), Some((10, 20, 30)));
    assert_eq!(img.pixel(2, 1), Some((1, 2, 3)));
    assert_eq!(img.pixel(0, 1), Some((0, 0, 0)));
}

#[test]
fn out_of_range_indices_clamp_to_last_row_and_column() {
    let bytes = encode_png(2, 2, &[(1, 1, [7, 8, 9]), (1, 0, [4, 5, 6])]);
    let img = Image::new(&bytes).unwrap();
    assert_eq!(img.pixel(2, 1), Some((7, 8, 9)));
    assert_eq!(img.pixel(100, 100), Some((7, 8, 9)));
    assert_eq!(img.pixel(u32::MAX, 0), Some((4, 5, 6)));
}

#[test]
fn undecodable_bytes_are_an_error() {
    let r = Image::new(b"certainly not an image");
    assert!(matches!(r, Err(TextureError::Undecodable(_))));
    let r = Image::new(&[]);
    assert!(matches!(r, Err(TextureError::Undecodable(_))));
}

#[test]
fn shared_constructor_decodes_the_same() {
    let bytes = encode_png(1, 1, &[(0, 0, [9, 9, 9])]);
    let shared = Image::new_arc(&bytes);
    let img = shared.as_ref().as_ref().unwrap();
    assert_eq!((img.width(), img.height()), (1, 1));
    assert_eq!(img.pixel(0, 0), Some((9, 9, 9)));
    let bad = Image::new_arc(b"xyz");
    assert!(bad.is_err());
}
