//! Media classification, per-file records and compression settings.

use vstd::prelude::*;
use crate::text::{chars_of, is_word, lower_char, lower_seq};

verus! {

/// Classification of media files found inside a PPTX.
#[derive(Debug, Clone, Copy, PartialEq, Eq, Structural)]
pub enum MediaType {
    Jpeg,
    Png,
    Gif,
    Video,
    Other,
}

/// The media type that a file extension names; letters are compared without regard to ASCII
/// case.
pub open spec fn media_type_of(ext: Seq<char>) -> MediaType {
    let l = lower_seq(ext);
    if l == seq!['j', 'p', 'g'] || l == seq!['j', 'p', 'e', 'g'] {
        MediaType::Jpeg
    } else if l == seq!['p', 'n', 'g'] {
        MediaType::Png
    } else if l == seq!['g', 'i', 'f'] {
        MediaType::Gif
    } else if l == seq!['m', 'p', '4'] || l == seq!['w', 'm', 'v'] || l == seq!['a', 'v', 'i']
        || l == seq!['m', 'o', 'v'] || l == seq!['m', '4', 'v'] || l == seq!['m', 'p', 'g']
        || l == seq!['m', 'p', 'e', 'g'] || l == seq!['w', 'e', 'b', 'm'] || l == seq![
        'a',
        's',
        'f',
    ] {
        MediaType::Video
    } else {
        MediaType::Other
    }
}

/// The media type of an extension does not depend on ASCII letter case: two extensions that
/// agree once lower-cased have the same type (so `JPG`, `Jpg` and `jpg` are all JPEG).
pub proof fn law_from_extension_ignores_case(a: Seq<char>, b: Seq<char>)
    requires
        lower_seq(a) == lower_seq(b),
    ensures
        media_type_of(a) == media_type_of(b),
{
}

/// ASCII upper-casing of one character.
pub open spec fn upper_char(c: char) -> char {
    if 'a' <= c && c <= 'z' {
        ((c as u32) - 32) as char
    } else {
        c
    }
}

/// The media type of an extension is that of its ASCII upper-cased and of its lower-cased
/// spelling.
pub proof fn law_from_extension_case_spellings(e: Seq<char>)
    ensures
        media_type_of(e.map_values(|c: char| upper_char(c))) == media_type_of(e),
        media_type_of(lower_seq(e)) == media_type_of(e),
{
    let up = e.map_values(|c: char| upper_char(c));
    assert forall|i: int| 0 <= i < e.len() implies lower_char(#[trigger] up[i]) == lower_char(e[i]) by {
        let c = e[i];
        if 'a' <= c && c <= 'z' {
            let x = (c as u32) - 32;
            assert(65 <= x <= 90);
            assert((x as char) as u32 == x);
        }
    }
    assert(lower_seq(up) =~= lower_seq(e));
    assert(lower_seq(lower_seq(e)) =~= lower_seq(e));
    law_from_extension_ignores_case(up, e);
    law_from_extension_ignores_case(lower_seq(e), e);
}

impl MediaType {
    /// Detect media type from file extension.
    pub fn from_extension(ext: &str) -> (r: Self)
        ensures
            r == media_type_of(ext@),
    {
        let v = chars_of(ext);
        if is_word(&v, &['j', 'p', 'g']) || is_word(&v, &['j', 'p', 'e', 'g']) {
            MediaType::Jpeg
        } else if is_word(&v, &['p', 'n', 'g']) {
            MediaType::Png
        } else if is_word(&v, &['g', 'i', 'f']) {
            MediaType::Gif
        } else if is_word(&v, &['m', 'p', '4']) || is_word(&v, &['w', 'm', 'v']) || is_word(
            &v,
            &['a', 'v', 'i'],
        ) || is_word(&v, &['m', 'o', 'v']) || is_word(&v, &['m', '4', 'v']) || is_word(
            &v,
            &['m', 'p', 'g'],
        ) || is_word(&v, &['m', 'p', 'e', 'g']) || is_word(&v, &['w', 'e', 'b', 'm'])
            || is_word(&v, &['a', 's', 'f']) {
            MediaType::Video
        } else {
            MediaType::Other
        }
    }

    pub open spec fn compressible(self) -> bool {
        self != MediaType::Other
    }

    pub fn is_compressible(&self) -> (r: bool)
        ensures
            r == self.compressible(),
    {
        !matches!(self, MediaType::Other)
    }

    pub fn label(&self) -> (r: &'static str)
        ensures
            *self == MediaType::Jpeg ==> r@ == "JPEG"@,
            *self == MediaType::Png ==> r@ == "PNG"@,
            *self == MediaType::Gif ==> r@ == "GIF"@,
            *self == MediaType::Video ==> r@ == "Video"@,
            *self == MediaType::Other ==> r@ == "Other"@,
    {
        match self {
            MediaType::Jpeg => "JPEG",
            MediaType::Png => "PNG",
            MediaType::Gif => "GIF",
            MediaType::Video => "Video",
            MediaType::Other => "Other",
        }
    }
}

/// Processing status of one media file.
#[derive(Debug, Clone, Copy, PartialEq, Eq, Structural)]
pub enum MediaStatus {
    Pending,
    Processing,
    Done,
    Skipped,
    Failed,
}

/// Information about a single media file inside the PPTX.
#[derive(Debug, Clone)]
pub struct MediaInfo {
    /// Path relative to the PPTX root (e.g. "ppt/media/image1.jpg")
    pub relative_path: String,
    /// Path of the file inside the extracted working directory
    pub extracted_path: String,
    /// Detected media type
    pub media_type: MediaType,
    /// Original file size in bytes
    pub original_size: u64,
    /// Size after compression (0 if not yet compressed)
    pub compressed_size: u64,
    /// Whether this file should be compressed
    pub enabled: bool,
    /// Current processing status
    pub status: MediaStatus,
}

/// User-configurable compression settings.
#[derive(Debug, Clone, Copy)]
pub struct CompressionSettings {
    /// JPEG quality (1–100, higher = better)
    pub image_quality: u8,
    /// Video quality (0–100, higher = better, maps to CRF 51 - quality*51/100)
    pub video_quality: u8,
    /// GIF palette optimization
    pub gif_palette_optimize: bool,
    /// GIF frame drop
    pub gif_frame_drop: bool,
    /// GIF target frame rate
    pub gif_target_fps: u8,
    /// Limit image max width
    pub image_max_width_enabled: bool,
    /// Max image width in pixels
    pub image_max_width: u32,
    /// Limit video max resolution
    pub video_max_resolution_enabled: bool,
    /// Max video height in pixels (e.g. 1080)
    pub video_max_height: u32,
}

/// The size-reduction ratio (numerator, denominator) that the estimate assumes for a file of
/// type `t` under `s`.
///
/// JPEG: 0.15 + 0.55·quality/100, times 0.75 with the width limit.
/// PNG: 0.55 with the width limit, else 0.88.
/// GIF: 0.40, 0.50, 0.55 or 0.65 by palette optimisation and frame dropping.
/// Video: 0.08 + 0.65·quality/100, times 0.7 with the height limit.
/// Other: 1.
pub open spec fn estimate_ratio(t: MediaType, s: CompressionSettings) -> (int, int) {
    match t {
        MediaType::Jpeg => if s.image_max_width_enabled {
            ((1500 + 55 * s.image_quality) * 3, 40000)
        } else {
            (1500 + 55 * s.image_quality, 10000)
        },
        MediaType::Png => if s.image_max_width_enabled {
            (55, 100)
        } else {
            (88, 100)
        },
        MediaType::Gif => if s.gif_palette_optimize && s.gif_frame_drop {
            (40, 100)
        } else if s.gif_palette_optimize {
            (50, 100)
        } else if s.gif_frame_drop {
            (55, 100)
        } else {
            (65, 100)
        },
        MediaType::Video => if s.video_max_resolution_enabled {
            ((800 + 65 * s.video_quality) * 7, 100000)
        } else {
            (800 + 65 * s.video_quality, 10000)
        },
        MediaType::Other => (1, 1),
    }
}

/// The estimated compressed size of `m` under `s`: the original size for a disabled file,
/// otherwise the original size times the ratio, rounded down and capped at `u64::MAX`.
pub open spec fn estimated_size_of(m: MediaInfo, s: CompressionSettings) -> int {
    if !m.enabled {
        m.original_size as int
    } else {
        let (num, den) = estimate_ratio(m.media_type, s);
        let e = m.original_size * num / den;
        if e > u64::MAX {
            u64::MAX as int
        } else {
            e
        }
    }
}

impl MediaInfo {
    /// A pending record for a file of the given type and size; only compressible types start
    /// enabled.
    pub fn new(relative_path: String, extracted_path: String, media_type: MediaType, original_size: u64) -> (r: Self)
        ensures
            r.relative_path@ == relative_path@,
            r.extracted_path@ == extracted_path@,
            r.media_type == media_type,
            r.original_size == original_size,
            r.compressed_size == 0,
            r.enabled == media_type.compressible(),
            r.status == MediaStatus::Pending,
    {
        MediaInfo {
            relative_path,
            extracted_path,
            media_type,
            original_size,
            compressed_size: 0,
            enabled: media_type.is_compressible(),
            status: MediaStatus::Pending,
        }
    }

    /// A field-by-field copy of the record.
    pub fn clone_record(&self) -> (r: Self)
        ensures
            r == *self,
    {
        MediaInfo {
            relative_path: self.relative_path.clone(),
            extracted_path: self.extracted_path.clone(),
            media_type: self.media_type,
            original_size: self.original_size,
            compressed_size: self.compressed_size,
            enabled: self.enabled,
            status: self.status,
        }
    }

    /// Estimated compressed size based on settings heuristics.
    ///
    /// For JPEG/PNG: accounts for quality and optional max-width resize.
    /// For GIF: accounts for palette optimization and frame drop settings.
    /// For Video: accounts for quality (0-100 → CRF) and optional resolution limit.
    pub fn estimated_size(&self, settings: &CompressionSettings) -> (r: u64)
        ensures
            r == estimated_size_of(*self, *settings),
    {
        if !self.enabled {
            return self.original_size;
        }
        let q_img = settings.image_quality as u128;
        let q_vid = settings.video_quality as u128;
        let (num, den): (u128, u128) = match self.media_type {
            MediaType::Jpeg => {
                if settings.image_max_width_enabled {
                    ((1500 + 55 * q_img) * 3, 40000)
                } else {
                    (1500 + 55 * q_img, 10000)
                }
            },
            MediaType::Png => {
                if settings.image_max_width_enabled {
                    (55, 100)
                } else {
                    (88, 100)
                }
            },
            MediaType::Gif => {
                if settings.gif_palette_optimize && settings.gif_frame_drop {
                    (40, 100)
                } else if settings.gif_palette_optimize {
                    (50, 100)
                } else if settings.gif_frame_drop {
                    (55, 100)
                } else {
                    (65, 100)
                }
            },
            MediaType::Video => {
                if settings.video_max_resolution_enabled {
                    ((800 + 65 * q_vid) * 7, 100000)
                } else {
                    (800 + 65 * q_vid, 10000)
                }
            },
            MediaType::Other => (1, 1),
        };
        let size = self.original_size as u128;
        assert(size * num <= 0xffff_ffff_ffff_ffff * 200000) by (nonlinear_arith)
            requires
                size <= 0xffff_ffff_ffff_ffff,
                num <= 200000,
        ;
        let e: u128 = size * num / den;
        if e > u64::MAX as u128 {
            u64::MAX
        } else {
            e as u64
        }
    }
}

/// The CRF value that a video quality maps to: 51 - quality·51/100 rounded to the nearest whole
/// number (halves up), and 0 above quality 100.
pub open spec fn crf_of(quality: u8) -> int {
    if quality * 51 >= 5100 {
        0
    } else {
        (5150 - quality * 51) / 100
    }
}

impl CompressionSettings {
    /// Apply "High quality" preset.
    pub fn preset_high(&mut self)
        ensures
            *final(self) == (CompressionSettings {
                image_quality: 90,
                video_quality: 65,
                ..*old(self)
            }),
    {
        self.image_quality = 90;
        self.video_quality = 65;
    }

    /// Apply "Medium quality" preset.
    pub fn preset_medium(&mut self)
        ensures
            *final(self) == (CompressionSettings {
                image_quality: 75,
                video_quality: 45,
                ..*old(self)
            }),
    {
        self.image_quality = 75;
        self.video_quality = 45;
    }

    /// Apply "Low quality" preset.
    pub fn preset_low(&mut self)
        ensures
            *final(self) == (CompressionSettings {
                image_quality: 30,
                video_quality: 18,
                image_max_width_enabled: true,
                image_max_width: 1024,
                video_max_resolution_enabled: true,
                video_max_height: 720,
                ..*old(self)
            }),
    {
        self.image_quality = 30;
        self.video_quality = 18;
        self.image_max_width_enabled = true;
        self.image_max_width = 1024;
        self.video_max_resolution_enabled = true;
        self.video_max_height = 720;
    }

    /// The H.264 constant rate factor that the video quality maps to.
    pub fn video_crf(&self) -> (r: u8)
        ensures
            r == crf_of(self.video_quality),
    {
        let scaled: u32 = (self.video_quality as u32) * 51;
        if scaled >= 5100 {
            0
        } else {
            ((5150 - scaled) / 100) as u8
        }
    }
}

/// With both qualities on their 0–100 scale, the estimate of a file never exceeds its original
/// size, and a disabled file is estimated at exactly its original size.
pub proof fn law_estimate_never_exceeds_original(m: MediaInfo, s: CompressionSettings)
    requires
        s.image_quality <= 100,
        s.video_quality <= 100,
    ensures
        estimated_size_of(m, s) <= m.original_size,
        !m.enabled ==> estimated_size_of(m, s) == m.original_size,
{
    if m.enabled {
        let (num, den) = estimate_ratio(m.media_type, s);
        assert(0 <= num <= den && den > 0);
        let size = m.original_size as int;
        assert(size * num / den <= size) by (nonlinear_arith)
            requires
                0 <= num <= den,
                den > 0,
                size >= 0,
        {
            assert(size * num <= size * den);
            vstd::arithmetic::div_mod::lemma_div_is_ordered(size * num, size * den, den);
            vstd::arithmetic::div_mod::lemma_div_by_multiple(size, den);
        }
    }
}

/// The video quality scale maps onto CRF 51 at quality 0 down to CRF 0 at quality 100; every
/// quality gives a CRF within 0–51, and a higher quality never gives a higher CRF.
pub proof fn law_crf_scale(q1: u8, q2: u8)
    ensures
        0 <= crf_of(q1) <= 51,
        crf_of(0) == 51,
        crf_of(100) == 0,
        q1 <= q2 ==> crf_of(q2) <= crf_of(q1),
{
    if q1 <= q2 && q2 * 51 < 5100 {
        assert((5150 - q2 * 51) / 100 <= (5150 - q1 * 51) / 100) by (nonlinear_arith)
            requires
                q1 <= q2,
                q2 * 51 < 5100,
        {
            vstd::arithmetic::div_mod::lemma_div_is_ordered(5150 - q2 * 51, 5150 - q1 * 51, 100);
        }
    }
    assert(0 <= crf_of(q1) <= 51) by (nonlinear_arith)
        requires
            crf_of(q1) == if q1 * 51 >= 5100 { 0 } else { (5150 - q1 * 51) / 100 },
    ;
}

/// A short description of a CRF value's quality.
pub fn crf_quality(crf: u8) -> (r: &'static str)
    ensures
        crf <= 17 ==> r@ == "Very high quality, larger file"@,
        18 <= crf <= 23 ==> r@ == "High quality"@,
        24 <= crf <= 28 ==> r@ == "Balanced"@,
        29 <= crf <= 35 ==> r@ == "Lower quality, smaller file"@,
        36 <= crf <= 51 ==> r@ == "Very low quality"@,
        crf > 51 ==> r@ == ""@,
{
    if crf <= 17 {
        "Very high quality, larger file"
    } else if crf <= 23 {
        "High quality"
    } else if crf <= 28 {
        "Balanced"
    } else if crf <= 35 {
        "Lower quality, smaller file"
    } else if crf <= 51 {
        "Very low quality"
    } else {
        ""
    }
}

impl Default for CompressionSettings {
    fn default() -> (r: Self)
        ensures
            r == (CompressionSettings {
                image_quality: 75,
                video_quality: 45,
                gif_palette_optimize: true,
                gif_frame_drop: true,
                gif_target_fps: 15,
                image_max_width_enabled: false,
                image_max_width: 1920,
                video_max_resolution_enabled: false,
                video_max_height: 1080,
            }),
    {
        CompressionSettings {
            image_quality: 75,
            video_quality: 45,
            gif_palette_optimize: true,
            gif_frame_drop: true,
            gif_target_fps: 15,
            image_max_width_enabled: false,
            image_max_width: 1920,
            video_max_resolution_enabled: false,
            video_max_height: 1080,
        }
    }
}

/// Message from the background compression worker to the GUI.
#[derive(Debug, Clone)]
pub enum CompressMessage {
    /// (index, status, compressed_size) — a media file's status changed
    StatusUpdate(usize, MediaStatus, u64),
    /// (completed_count, total_count, current_file_name)
    Progress(usize, usize, String),
    /// All done: (original_total_bytes, compressed_total_bytes)
    Finished(u64, u64),
    /// An error occurred (non-fatal, single file skipped)
    Error(String),
    /// Fatal error — cannot continue
    FatalError(String),
}

} // verus!
