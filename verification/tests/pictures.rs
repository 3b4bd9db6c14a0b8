use std::io::Cursor;

use word_displayer::images::decode_rgba;

fn png(width: u32, height: u32, rgba: Vec<u8>) -> Vec<u8> {
    let img = image::RgbaImage::from_raw(width, height, rgba).unwrap();
    let mut out = Vec::new();
    img.write_to(&mut Cursor::new(&mut out), image::ImageFormat::Png).unwrap();
    out
}

#[test]
fn png_decodes_to_rgba_pixels() {
    let pixels = vec![255, 0, 0, 255, 0, 128, 255, 64];
    let bytes = png(2, 1, pixels.clone());
    let img = decode_rgba(&bytes).expect("a PNG decodes");
    assert_eq!((img.width, img.height), (2, 1));
    assert_eq!(img.data, pixels);
    assert_eq!(img.data.len(), 4 * img.width as usize * img.height as usize);
}

#[test]
fn greyscale_png_comes_out_as_rgba() {
    let grey = image::GrayImage::from_raw(3, 2, vec![0, 50, 100, 150, 200, 250]).unwrap();
    let mut bytes = Vec::new();
    grey.write_to(&mut Cursor::new(&mut bytes), image::ImageFormat::Png).unwrap();
    let img = decode_rgba(&bytes).expect("a PNG decodes");
    assert_eq!((img.width, img.height), (3, 2));
    assert_eq!(img.data.len(), 4 * 3 * 2);
    assert_eq!(&img.data[..8], &[0, 0, 0, 255, 50, 50, 50, 255]);
}

#[test]
fn non_picture_bytes_do_not_decode() {
    assert!(decode_rgba(b"not a picture").is_none());
    assert!(decode_rgba(&[]).is_none());
}
