use pptx_compressor::media::{
    crf_quality, CompressMessage, CompressionSettings, MediaInfo, MediaStatus, MediaType,
};
use pptx_compressor::scanner::{category_label, is_compressible_extension};

fn settings() -> CompressionSettings {
    CompressionSettings::default()
}

fn record(t: MediaType, size: u64) -> MediaInfo {
    MediaInfo::new("ppt/media/x".to_string(), "/tmp/x".to_string(), t, size)
}

#[test]
fn from_extension_recognises_each_type() {
    assert_eq!(MediaType::from_extension("jpg"), MediaType::Jpeg);
    assert_eq!(MediaType::from_extension("JPEG"), MediaType::Jpeg);
    assert_eq!(MediaType::from_extension("Png"), MediaType::Png);
    assert_eq!(MediaType::from_extension("gif"), MediaType::Gif);
    for v in ["mp4", "wmv", "avi", "mov", "m4v", "mpg", "mpeg", "webm", "ASF"] {
        assert_eq!(MediaType::from_extension(v), MediaType::Video);
    }
    assert_eq!(MediaType::from_extension("emf"), MediaType::Other);
    assert_eq!(MediaType::from_extension(""), MediaType::Other);
    assert_eq!(MediaType::from_extension("jpgx"), MediaType::Other);
}

#[test]
fn compressible_and_labels() {
    assert!(MediaType::Jpeg.is_compressible());
    assert!(MediaType::Video.is_compressible());
    assert!(!MediaType::Other.is_compressible());
    assert_eq!(MediaType::Gif.label(), "GIF");
    assert_eq!(MediaType::Video.label(), "Video");
    assert_eq!(MediaType::Other.label(), "Other");
    assert!(is_compressible_extension("PNG"));
    assert!(!is_compressible_extension("wmf"));
    assert_eq!(category_label("jpeg"), "JPEG");
    assert_eq!(category_label("svg"), "Other");
}

#[test]
fn new_record_is_pending_and_enabled_when_compressible() {
    let m = record(MediaType::Png, 1234);
    assert_eq!(m.relative_path, "ppt/media/x");
    assert_eq!(m.original_size, 1234);
    assert_eq!(m.compressed_size, 0);
    assert!(m.enabled);
    assert_eq!(m.status, MediaStatus::Pending);
    let o = record(MediaType::Other, 10);
    assert!(!o.enabled);
}

#[test]
fn estimated_size_exact_values() {
    let s = settings();
    // JPEG at quality 75: 0.15 + 0.55 * 0.75 = 0.5625
    assert_eq!(record(MediaType::Jpeg, 10_000).estimated_size(&s), 5_625);
    // PNG without width limit: 0.88
    assert_eq!(record(MediaType::Png, 1_000).estimated_size(&s), 880);
    // GIF with palette optimisation and frame drop: 0.40
    assert_eq!(record(MediaType::Gif, 1_000).estimated_size(&s), 400);
    // Video at quality 45: 0.08 + 0.65 * 0.45 = 0.3725
    assert_eq!(record(MediaType::Video, 10_000).estimated_size(&s), 3_725);
    assert_eq!(record(MediaType::Other, 777).estimated_size(&s), 777);
    let mut low = settings();
    low.preset_low();
    // JPEG at 30 with width limit: (0.15 + 0.165) * 0.75 = 0.23625
    assert_eq!(record(MediaType::Jpeg, 100_000).estimated_size(&low), 23_625);
    assert_eq!(record(MediaType::Png, 1_000).estimated_size(&low), 550);
    // Video at 18 with height limit: (0.08 + 0.117) * 0.7 = 0.1379
    assert_eq!(record(MediaType::Video, 100_000).estimated_size(&low), 13_790);
}

#[test]
fn estimate_of_disabled_file_is_original() {
    let mut m = record(MediaType::Jpeg, 5_000);
    m.enabled = false;
    assert_eq!(m.estimated_size(&settings()), 5_000);
}

#[test]
fn estimate_never_exceeds_original_on_quality_scale() {
    let mut s = settings();
    s.image_quality = 100;
    s.video_quality = 100;
    for t in [MediaType::Jpeg, MediaType::Png, MediaType::Gif, MediaType::Video, MediaType::Other] {
        let m = record(t, 1_000_000);
        assert!(m.estimated_size(&s) <= 1_000_000);
    }
}

#[test]
fn estimate_saturates_at_u64_max() {
    let mut s = settings();
    s.image_quality = 255;
    let m = record(MediaType::Jpeg, u64::MAX);
    assert_eq!(m.estimated_size(&s), u64::MAX);
}

#[test]
fn presets_set_documented_values() {
    let mut s = settings();
    s.preset_high();
    assert_eq!((s.image_quality, s.video_quality), (90, 65));
    s.preset_medium();
    assert_eq!((s.image_quality, s.video_quality), (75, 45));
    s.preset_low();
    assert_eq!((s.image_quality, s.video_quality), (30, 18));
    assert!(s.image_max_width_enabled && s.video_max_resolution_enabled);
    assert_eq!((s.image_max_width, s.video_max_height), (1024, 720));
}

#[test]
fn default_settings() {
    let s = settings();
    assert_eq!(s.image_quality, 75);
    assert_eq!(s.video_quality, 45);
    assert!(s.gif_palette_optimize && s.gif_frame_drop);
    assert_eq!(s.gif_target_fps, 15);
    assert!(!s.image_max_width_enabled);
    assert_eq!(s.image_max_width, 1920);
    assert_eq!(s.video_max_height, 1080);
}

#[test]
fn video_crf_scale() {
    let mut s = settings();
    let mut last = 52u8;
    for q in 0..=100u8 {
        s.video_quality = q;
        let c = s.video_crf();
        assert!(c <= 51);
        assert!(c <= last);
        last = c;
    }
    s.video_quality = 0;
    assert_eq!(s.video_crf(), 51);
    s.video_quality = 45;
    assert_eq!(s.video_crf(), 28);
    s.video_quality = 65;
    assert_eq!(s.video_crf(), 18);
    s.video_quality = 18;
    assert_eq!(s.video_crf(), 42);
    s.video_quality = 99;
    assert_eq!(s.video_crf(), 1);
    s.video_quality = 100;
    assert_eq!(s.video_crf(), 0);
    s.video_quality = 200;
    assert_eq!(s.video_crf(), 0);
}

#[test]
fn crf_quality_bands() {
    assert_eq!(crf_quality(0), "Very high quality, larger file");
    assert_eq!(crf_quality(17), "Very high quality, larger file");
    assert_eq!(crf_quality(18), "High quality");
    assert_eq!(crf_quality(28), "Balanced");
    assert_eq!(crf_quality(35), "Lower quality, smaller file");
    assert_eq!(crf_quality(51), "Very low quality");
    assert_eq!(crf_quality(52), "");
}

#[test]
fn message_variants_carry_values() {
    let m = CompressMessage::Progress(1, 3, "a.png".to_string());
    match m {
        CompressMessage::Progress(c, t, f) => assert_eq!((c, t, f.as_str()), (1, 3, "a.png")),
        _ => panic!("wrong variant"),
    }
}

#[test]
fn from_extension_ignores_case_of_every_letter() {
    for e in ["jpg", "jpeg", "png", "gif", "mp4", "mov", "avi", "wmv", "m4v", "emf", "x"] {
        let upper = e.to_ascii_uppercase();
        let lower = upper.to_ascii_lowercase();
        assert_eq!(MediaType::from_extension(e), MediaType::from_extension(&upper));
        assert_eq!(MediaType::from_extension(e), MediaType::from_extension(&lower));
    }
    assert_eq!(MediaType::from_extension("mP4"), MediaType::Video);
    assert_eq!(MediaType::from_extension("GiF"), MediaType::Gif);
}
