//! JPEG and PNG re-encoding through the `image` crate, around the verified resize decision.

use vstd::prelude::*;
use std::io::Cursor;
use image::ImageEncoder;
use image::codecs::png::{CompressionType, FilterType as PngFilter, PngEncoder};
use crate::media::CompressionSettings;
use crate::text::message_with;

verus! {

#[verifier::external_type_specification]
#[verifier::external_body]
pub struct ExDynamicImage(image::DynamicImage);

/// What an image holds, as plain values: its width, its height, its colour type (by the
/// variant's position in `image::ColorType`, from 0 for `L8`) and its raw sample bytes
/// (`DynamicImage::as_bytes`).
pub uninterp spec fn image_model(img: image::DynamicImage) -> (u32, u32, u8, Seq<u8>);

/// The image that the `image` crate decodes from `data` (as PNG where `png` holds, else as
/// JPEG), or `None` where decoding fails.
pub uninterp spec fn decoded_image(data: Seq<u8>, png: bool) -> Option<(u32, u32, u8, Seq<u8>)>;

/// The image that `DynamicImage::resize_exact` with the Lanczos3 filter makes of `img` at
/// `width` × `height`.
pub uninterp spec fn resized_image(img: (u32, u32, u8, Seq<u8>), width: u32, height: u32) -> (u32, u32, u8, Seq<u8>);

/// The bytes that `JpegEncoder::new_with_quality(.., quality)` writes for `img`, or `None`
/// where the encoder refuses it.
pub uninterp spec fn jpeg_encoding(img: (u32, u32, u8, Seq<u8>), quality: u8) -> Option<Seq<u8>>;

/// The bytes that `PngEncoder::new_with_quality(.., CompressionType::Best,
/// FilterType::Adaptive)` writes for `img`, or `None` where the encoder refuses it.
pub uninterp spec fn png_encoding(img: (u32, u32, u8, Seq<u8>)) -> Option<Seq<u8>>;

/// The width and height of the image decoded from `data`, or `None` where decoding fails.
pub open spec fn decoded_size(data: Seq<u8>, png: bool) -> Option<(u32, u32)> {
    match decoded_image(data, png) {
        Some(m) => Some((m.0, m.1)),
        None => None,
    }
}

/// Decodes `data` with `image::ImageReader::with_format(..).decode()`, as PNG or as JPEG.
/// The contract claims that decoding succeeds exactly where `decoded_image` names an image,
/// that the image is that one, and that the width and height returned are its own; the error
/// text is left free. The decoders it reaches (`zune-jpeg`, `png`) report malformed input as
/// errors; the `assert!`s in their sources guard sizes they computed themselves rather than
/// the input, a reading of those sources that was not exhaustive, so no input is left out here.
#[verifier::external_body]
pub(crate) fn decode_image(data: &[u8], png: bool) -> (r: Result<(image::DynamicImage, u32, u32), String>)
    ensures
        r is Ok <==> decoded_image(data@, png) is Some,
        r matches Ok((img, w, h)) ==> decoded_image(data@, png) == Some(image_model(img))
            && image_model(img).0 == w && image_model(img).1 == h,
{
    let format = if png { image::ImageFormat::Png } else { image::ImageFormat::Jpeg };
    let reader = image::ImageReader::with_format(Cursor::new(data), format);
    let img = reader.decode().map_err(|e| e.to_string())?;
    let (w, h) = (img.width(), img.height());
    Ok((img, w, h))
}

/// Resizes with `DynamicImage::resize_exact` and the Lanczos3 filter. The contract claims that
/// the result is `resized_image` of the input, and that it has exactly the requested width and
/// height (`imageops::resize` allocates the output at that size).
#[verifier::external_body]
fn resize_image(img: &image::DynamicImage, width: u32, height: u32) -> (r: (image::DynamicImage, u32, u32))
    ensures
        image_model(r.0) == resized_image(image_model(*img), width, height),
        r.1 == width && image_model(r.0).0 == width,
        r.2 == height && image_model(r.0).1 == height,
{
    let out = img.resize_exact(width, height, image::imageops::FilterType::Lanczos3);
    let (w, h) = (out.width(), out.height());
    (out, w, h)
}

/// Encodes with `JpegEncoder::new_with_quality(.., quality).write_image(..)` into memory, on the
/// image's own bytes, size and colour type. The contract claims that encoding succeeds exactly
/// where `jpeg_encoding` names bytes, and that the bytes are those; the error text is the
/// encoder's message.
#[verifier::external_body]
fn encode_jpeg(img: &image::DynamicImage, quality: u8) -> (r: Result<Vec<u8>, String>)
    ensures
        r is Ok <==> jpeg_encoding(image_model(*img), quality) is Some,
        r matches Ok(b) ==> jpeg_encoding(image_model(*img), quality) == Some(b@),
{
    let mut buffer = Cursor::new(Vec::new());
    let encoder = image::codecs::jpeg::JpegEncoder::new_with_quality(&mut buffer, quality);
    encoder.write_image(img.as_bytes(), img.width(), img.height(), img.color().into()).map_err(
        |e| e.to_string(),
    )?;
    Ok(buffer.into_inner())
}

/// Encodes with `PngEncoder::new_with_quality(.., CompressionType::Best, FilterType::Adaptive)`
/// into memory, on the image's own bytes, size and colour type. The contract claims that
/// encoding succeeds exactly where `png_encoding` names bytes, and that the bytes are those;
/// the error text is the encoder's message.
#[verifier::external_body]
fn encode_png(img: &image::DynamicImage) -> (r: Result<Vec<u8>, String>)
    ensures
        r is Ok <==> png_encoding(image_model(*img)) is Some,
        r matches Ok(b) ==> png_encoding(image_model(*img)) == Some(b@),
{
    let mut buffer = Cursor::new(Vec::new());
    let encoder = PngEncoder::new_with_quality(&mut buffer, CompressionType::Best, PngFilter::Adaptive);
    encoder.write_image(img.as_bytes(), img.width(), img.height(), img.color().into()).map_err(
        |e| e.to_string(),
    )?;
    Ok(buffer.into_inner())
}

/// The size an image of `width` × `height` is scaled to under `s`: with the width limit on and
/// the image wider than it, the limit and the height scaled by the same ratio (rounded down);
/// `None` where the image is left at its size.
pub open spec fn resize_target_of(width: u32, height: u32, s: CompressionSettings) -> Option<(u32, u32)> {
    if s.image_max_width_enabled && width > s.image_max_width {
        Some((s.image_max_width, ((height as int * s.image_max_width as int) / width as int) as u32))
    } else {
        None
    }
}

/// The size an image ends up with after the resize decision.
pub open spec fn output_size_of(width: u32, height: u32, s: CompressionSettings) -> (u32, u32) {
    match resize_target_of(width, height, s) {
        Some(t) => t,
        None => (width, height),
    }
}

/// Decides whether and to what size an image is scaled down before it is re-encoded.
pub fn resize_target(width: u32, height: u32, settings: &CompressionSettings) -> (r: Option<(u32, u32)>)
    ensures
        r == resize_target_of(width, height, *settings),
        r matches Some((w, h)) ==> w < width && h <= height,
{
    if settings.image_max_width_enabled && width > settings.image_max_width {
        let max = settings.image_max_width;
        assert((height as u64) * (max as u64) <= u64::MAX) by (nonlinear_arith)
            requires
                height <= u32::MAX,
                max <= u32::MAX,
        ;
        let product: u64 = (height as u64) * (max as u64);
        let scaled: u64 = product / (width as u64);
        assert(scaled <= height) by (nonlinear_arith)
            requires
                product == height as int * max as int,
                scaled == product as int / (width as int),
                max < width,
        ;
        Some((max, scaled as u32))
    } else {
        None
    }
}

/// Scaling down keeps the aspect ratio, with the new height rounded down: the new width is the
/// limit, below the old width, and `new_h·width ≤ height·limit < (new_h + 1)·width`. An image
/// is left at its size exactly where the limit is off or the image is no wider than it.
pub proof fn law_resize_keeps_aspect(width: u32, height: u32, s: CompressionSettings)
    ensures
        match resize_target_of(width, height, s) {
            Some((w, h)) => w == s.image_max_width && w < width && h <= height && h * width <= height * w
                < (h + 1) * width,
            None => !s.image_max_width_enabled || width <= s.image_max_width,
        },
{
    if s.image_max_width_enabled && width > s.image_max_width {
        let max = s.image_max_width as int;
        let w = width as int;
        let h = height as int;
        let q = (h * max) / w;
        assert(0 <= q <= h && q * w <= h * max < (q + 1) * w) by (nonlinear_arith)
            requires
                0 <= max < w,
                0 <= h,
                q == (h * max) / w,
        {
            vstd::arithmetic::div_mod::lemma_fundamental_div_mod(h * max, w);
            vstd::arithmetic::div_mod::lemma_div_is_ordered(h * max, h * w, w);
            vstd::arithmetic::div_mod::lemma_div_by_multiple(h, w);
        }
        assert(q as u32 == q);
    }
}

/// A re-encoded image: its bytes, and the size that was encoded.
pub struct ReencodedImage {
    pub bytes: Vec<u8>,
    pub width: u32,
    pub height: u32,
}


/// The image that is re-encoded: the decoded image `m`, scaled down where `resize_target_of`
/// says so.
pub open spec fn fitted_image(m: (u32, u32, u8, Seq<u8>), s: CompressionSettings) -> (u32, u32, u8, Seq<u8>) {
    match resize_target_of(m.0, m.1, s) {
        Some((w, h)) => resized_image(m, w, h),
        None => m,
    }
}

/// Decodes `data` and scales it down as `resize_target` decides.
fn decode_and_fit(data: &[u8], png: bool, settings: &CompressionSettings) -> (r: Result<(image::DynamicImage, u32, u32), String>)
    ensures
        r is Ok <==> decoded_image(data@, png) is Some,
        r matches Ok((img, w, h)) ==> decoded_image(data@, png) matches Some(m)
            && image_model(img) == fitted_image(m, *settings)
            && (w, h) == output_size_of(m.0, m.1, *settings),
{
    let (img, width, height) = decode_image(data, png)?;
    match resize_target(width, height, settings) {
        Some((w, h)) => Ok(resize_image(&img, w, h)),
        None => Ok((img, width, height)),
    }
}

/// Compresses a JPEG by re-encoding it at the configured quality, after scaling it down to the
/// width limit where that is on and the image is wider: the result is what the encoder writes for
/// the fitted image, or its refusal. `source` names the file in messages.
pub fn compress_jpeg(data: &[u8], source: &str, settings: &CompressionSettings) -> (r: Result<ReencodedImage, String>)
    ensures
        decoded_image(data@, false) is None ==> (r matches Err(m) && message_with(m@, "Failed to open JPEG "@ + source@ + ": "@)),
        decoded_image(data@, false) matches Some(d) ==> match jpeg_encoding(fitted_image(d, *settings), settings.image_quality) {
            Some(b) => r matches Ok(o) && o.bytes@ == b && (o.width, o.height) == output_size_of(d.0, d.1, *settings),
            None => r matches Err(m) && message_with(m@, "Failed to encode JPEG: "@),
        },
{
    let fitted = decode_and_fit(data, false, settings);
    match fitted {
        Err(e) => {
            let mut m = String::from_str("Failed to open JPEG ");
            m.append(source);
            m.append(": ");
            proof {
                assert(m@ == "Failed to open JPEG "@ + source@ + ": "@);
            }
            let ghost head = m@;
            m.append(e.as_str());
            proof {
                assert(m@.take(head.len() as int) =~= head);
            }
            Err(m)
        },
        Ok((img, w, h)) => match encode_jpeg(&img, settings.image_quality) {
            Ok(bytes) => Ok(ReencodedImage { bytes, width: w, height: h }),
            Err(e) => {
                let mut m = String::from_str("Failed to encode JPEG: ");
                let ghost head = m@;
                m.append(e.as_str());
                proof {
                    assert(m@.take(head.len() as int) =~= head);
                }
                Err(m)
            },
        },
    }
}

/// Keeps a PNG's re-encoding only where it is shorter than the original's `original_len` bytes.
pub fn png_replacement(original_len: usize, encoded: ReencodedImage) -> (r: Option<ReencodedImage>)
    ensures
        encoded.bytes@.len() < original_len ==> r == Some(encoded),
        encoded.bytes@.len() >= original_len ==> r is None,
{
    if encoded.bytes.len() < original_len {
        Some(encoded)
    } else {
        None
    }
}

/// Compresses a PNG by re-encoding it with the strongest compression, after scaling it down to
/// the width limit where that is on and the image is wider. Returns `None` where the new
/// encoding is not shorter than `data`, so that the original stays. `source` names the file in
/// messages.
pub fn compress_png(data: &[u8], source: &str, settings: &CompressionSettings) -> (r: Result<Option<ReencodedImage>, String>)
    ensures
        decoded_image(data@, true) is None ==> (r matches Err(m) && message_with(m@, "Failed to open PNG "@ + source@ + ": "@)),
        decoded_image(data@, true) matches Some(d) ==> match png_encoding(fitted_image(d, *settings)) {
            Some(b) => if b.len() < data@.len() {
                r matches Ok(Some(o)) && o.bytes@ == b && (o.width, o.height) == output_size_of(d.0, d.1, *settings)
            } else {
                r matches Ok(None)
            },
            None => r matches Err(m) && message_with(m@, "Failed to encode PNG: "@),
        },
{
    let fitted = decode_and_fit(data, true, settings);
    match fitted {
        Err(e) => {
            let mut m = String::from_str("Failed to open PNG ");
            m.append(source);
            m.append(": ");
            proof {
                assert(m@ == "Failed to open PNG "@ + source@ + ": "@);
            }
            let ghost head = m@;
            m.append(e.as_str());
            proof {
                assert(m@.take(head.len() as int) =~= head);
            }
            Err(m)
        },
        Ok((img, w, h)) => match encode_png(&img) {
            Ok(bytes) => Ok(png_replacement(data.len(), ReencodedImage { bytes, width: w, height: h })),
            Err(e) => {
                let mut m = String::from_str("Failed to encode PNG: ");
                let ghost head = m@;
                m.append(e.as_str());
                proof {
                    assert(m@.take(head.len() as int) =~= head);
                }
                Err(m)
            },
        },
    }
}

} // verus!
