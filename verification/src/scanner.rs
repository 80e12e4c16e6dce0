//! Media file classification helpers.

use vstd::prelude::*;
use crate::media::{media_type_of, MediaType};
use crate::text::{chars_of, is_word, same_word};
use crate::imaging::{decode_image, decoded_size};
use crate::gif_codec::{gif_header, gif_screen_size};

verus! {

/// Check if a file extension corresponds to a compressible media type.
pub fn is_compressible_extension(ext: &str) -> (r: bool)
    ensures
        r == media_type_of(ext@).compressible(),
{
    MediaType::from_extension(ext).is_compressible()
}

/// Get a human-readable category label for a file extension.
pub fn category_label(ext: &str) -> (r: &'static str)
    ensures
        media_type_of(ext@) == MediaType::Jpeg ==> r@ == "JPEG"@,
        media_type_of(ext@) == MediaType::Png ==> r@ == "PNG"@,
        media_type_of(ext@) == MediaType::Gif ==> r@ == "GIF"@,
        media_type_of(ext@) == MediaType::Video ==> r@ == "Video"@,
        media_type_of(ext@) == MediaType::Other ==> r@ == "Other"@,
{
    MediaType::from_extension(ext).label()
}

/// The width and height that `detect_image_dimensions` reports for a file with extension `ext`
/// (compared without regard to ASCII case) and contents `data`.
pub open spec fn image_dimensions_of(ext: Seq<char>, data: Seq<u8>) -> Option<(u32, u32)> {
    if same_word(ext, seq!['j', 'p', 'g']) || same_word(ext, seq!['j', 'p', 'e', 'g']) {
        decoded_size(data, false)
    } else if same_word(ext, seq!['p', 'n', 'g']) {
        decoded_size(data, true)
    } else if same_word(ext, seq!['g', 'i', 'f']) {
        match gif_header(data) {
            Some((w, h, _)) => Some((w as u32, h as u32)),
            None => None,
        }
    } else {
        None
    }
}

/// Detect image dimensions of a file's contents, by its extension: JPEG and PNG through the
/// `image` decoder, GIF from its header. Returns (width, height) or None on failure.
pub fn detect_image_dimensions(ext: &str, data: &[u8]) -> (r: Option<(u32, u32)>)
    ensures
        r == image_dimensions_of(ext@, data@),
{
    let v = chars_of(ext);
    if is_word(&v, &['j', 'p', 'g']) || is_word(&v, &['j', 'p', 'e', 'g']) || is_word(&v, &['p', 'n', 'g']) {
        let png = is_word(&v, &['p', 'n', 'g']);
        match decode_image(data, png) {
            Ok((_, w, h)) => Some((w, h)),
            Err(_) => None,
        }
    } else if is_word(&v, &['g', 'i', 'f']) {
        match gif_screen_size(data) {
            Some((w, h)) => Some((w as u32, h as u32)),
            None => None,
        }
    } else {
        None
    }
}

} // verus!
