use pptx_compressor::imaging::{compress_jpeg, compress_png, png_replacement, resize_target, ReencodedImage};
use pptx_compressor::media::CompressionSettings;
use pptx_compressor::scanner::detect_image_dimensions;
use std::io::Cursor;

fn encoded(w: u32, h: u32, format: image::ImageFormat) -> Vec<u8> {
    let mut img = image::RgbImage::new(w, h);
    for (x, y, p) in img.enumerate_pixels_mut() {
        *p = image::Rgb([(x * 7 % 256) as u8, (y * 13 % 256) as u8, ((x + y) % 256) as u8]);
    }
    let mut out = Cursor::new(Vec::new());
    image::DynamicImage::ImageRgb8(img).write_to(&mut out, format).unwrap();
    out.into_inner()
}

fn limited(max: u32) -> CompressionSettings {
    let mut s = CompressionSettings::default();
    s.image_max_width_enabled = true;
    s.image_max_width = max;
    s
}

#[test]
fn resize_decision() {
    assert_eq!(resize_target(4000, 3000, &limited(1920)), Some((1920, 1440)));
    assert_eq!(resize_target(1921, 1000, &limited(1920)), Some((1920, 999)));
    assert_eq!(resize_target(1920, 1000, &limited(1920)), None);
    assert_eq!(resize_target(4000, 3000, &CompressionSettings::default()), None);
    assert_eq!(resize_target(5000, 1, &limited(1024)), Some((1024, 0)));
}

#[test]
fn resize_keeps_aspect_ratio() {
    for (w, h, m) in [(4000u32, 3000u32, 1920u32), (3001, 2003, 1000), (1025, 7, 1024)] {
        let (nw, nh) = resize_target(w, h, &limited(m)).unwrap();
        assert_eq!(nw, m);
        let lhs = nh as u64 * w as u64;
        let rhs = h as u64 * m as u64;
        assert!(lhs <= rhs && rhs < lhs + w as u64);
    }
}

#[test]
fn jpeg_reencoded_and_scaled() {
    let data = encoded(64, 32, image::ImageFormat::Jpeg);
    let out = compress_jpeg(&data, "image1.jpg", &limited(40)).unwrap();
    assert_eq!((out.width, out.height), (40, 20));
    let back = image::load_from_memory_with_format(&out.bytes, image::ImageFormat::Jpeg).unwrap();
    assert_eq!((back.width(), back.height()), (40, 20));
    let same = compress_jpeg(&data, "image1.jpg", &CompressionSettings::default()).unwrap();
    assert_eq!((same.width, same.height), (64, 32));
}

#[test]
fn jpeg_open_error() {
    let err = compress_jpeg(b"not a jpeg", "ppt/media/x.jpg", &CompressionSettings::default())
        .err()
        .unwrap();
    assert!(err.starts_with("Failed to open JPEG ppt/media/x.jpg: "), "{}", err);
}

#[test]
fn png_kept_only_when_smaller() {
    let data = encoded(64, 64, image::ImageFormat::Png);
    let scaled = compress_png(&data, "a.png", &limited(16)).unwrap();
    let scaled = scaled.expect("a 16x16 re-encoding is smaller");
    assert_eq!((scaled.width, scaled.height), (16, 16));
    assert!(scaled.bytes.len() < data.len());
    let err = compress_png(&[1, 2, 3], "b.png", &CompressionSettings::default()).err().unwrap();
    assert!(err.starts_with("Failed to open PNG b.png: "), "{}", err);
}

#[test]
fn png_replacement_rule() {
    let e = ReencodedImage { bytes: vec![0; 10], width: 1, height: 1 };
    assert!(png_replacement(11, e).is_some());
    let e = ReencodedImage { bytes: vec![0; 10], width: 1, height: 1 };
    assert!(png_replacement(10, e).is_none());
}

#[test]
fn dimensions_by_extension() {
    let png = encoded(12, 7, image::ImageFormat::Png);
    let jpg = encoded(9, 5, image::ImageFormat::Jpeg);
    assert_eq!(detect_image_dimensions("png", &png), Some((12, 7)));
    assert_eq!(detect_image_dimensions("JPG", &jpg), Some((9, 5)));
    assert_eq!(detect_image_dimensions("jpeg", &png), None);
    assert_eq!(detect_image_dimensions("bmp", &png), None);
    let mut gif_bytes = Vec::new();
    {
        let mut enc = gif::Encoder::new(&mut gif_bytes, 33, 21, &[0, 0, 0, 255, 255, 255]).unwrap();
        let frame = gif::Frame { width: 33, height: 21, buffer: std::borrow::Cow::Owned(vec![0; 33 * 21]), ..Default::default() };
        enc.write_frame(&frame).unwrap();
    }
    assert_eq!(detect_image_dimensions("GIF", &gif_bytes), Some((33, 21)));
    assert_eq!(detect_image_dimensions("gif", b"GIF"), None);
}

#[test]
fn jpeg_quality_is_the_configured_one() {
    let data = encoded(96, 96, image::ImageFormat::Png);
    let jpeg = {
        let img = image::load_from_memory_with_format(&data, image::ImageFormat::Png).unwrap();
        let mut out = Cursor::new(Vec::new());
        image::codecs::jpeg::JpegEncoder::new_with_quality(&mut out, 100).encode_image(&img).unwrap();
        out.into_inner()
    };
    let mut low = CompressionSettings::default();
    low.image_quality = 10;
    let mut high = CompressionSettings::default();
    high.image_quality = 95;
    let a = compress_jpeg(&jpeg, "a.jpg", &low).unwrap();
    let b = compress_jpeg(&jpeg, "a.jpg", &high).unwrap();
    assert!(a.bytes.len() < b.bytes.len());
    let again = compress_jpeg(&jpeg, "a.jpg", &low).unwrap();
    assert_eq!(a.bytes, again.bytes);
}
