use pptx_compressor::media::{CompressMessage, CompressionSettings, MediaInfo, MediaStatus, MediaType};
use pptx_compressor::pipeline::{
    compressible_indices, keeps_reencode, replacement_bytes, FileOutcome, PipelineRun, PipelineStep,
};
use pptx_compressor::repack::{plan_repack, RepackSource, ZipKind};
use pptx_compressor::session::{compressed_file_name, AppState, Session};
use pptx_compressor::summary::{media_summary, percent_saved, saved_detail, totals_fit};

fn rec(name: &str, t: MediaType, size: u64) -> MediaInfo {
    MediaInfo::new(name.to_string(), String::new(), t, size)
}

fn src(path: &str, is_dir: bool, ext: &str) -> RepackSource {
    RepackSource {
        parts: path.split('/').map(|p| p.to_string()).collect(),
        is_dir,
        ext: ext.to_string(),
    }
}

#[test]
fn repack_plan_puts_content_types_first_then_path_order() {
    let sources = vec![
        src("ppt/media/b.png", false, "png"),
        src("ppt", true, ""),
        src("[Content_Types].xml", false, "xml"),
        src("_rels/.rels", false, "rels"),
        src("ppt/media/a.xml", false, "xml"),
        src("ppt/media", true, ""),
    ];
    let items = plan_repack(&sources);
    let names: Vec<&str> = items.iter().map(|i| i.name.as_str()).collect();
    assert_eq!(
        names,
        vec![
            "[Content_Types].xml",
            "_rels/.rels",
            "ppt/",
            "ppt/media/",
            "ppt/media/a.xml",
            "ppt/media/b.png",
        ]
    );
    let kinds: Vec<ZipKind> = items.iter().map(|i| i.kind).collect();
    assert_eq!(
        kinds,
        vec![
            ZipKind::Deflated,
            ZipKind::Deflated,
            ZipKind::Directory,
            ZipKind::Directory,
            ZipKind::Deflated,
            ZipKind::Stored,
        ]
    );
    assert_eq!(items[0].source, 2);
}

#[test]
fn repack_plan_skips_the_root_and_stores_only_media() {
    let sources = vec![
        RepackSource { parts: vec![], is_dir: true, ext: String::new() },
        src("docProps/thumbnail.jpeg", false, "jpeg"),
        src("ppt/media/clip.MP4", false, "MP4"),
    ];
    let items = plan_repack(&sources);
    assert_eq!(items.len(), 2);
    assert_eq!(items[0].name, "docProps/thumbnail.jpeg");
    assert_eq!(items[0].kind, ZipKind::Deflated);
    assert_eq!(items[1].name, "ppt/media/clip.MP4");
    assert_eq!(items[1].kind, ZipKind::Stored);
}

#[test]
fn pipeline_selects_enabled_compressible_files() {
    let mut media = vec![
        rec("a", MediaType::Jpeg, 100),
        rec("b", MediaType::Other, 100),
        rec("c", MediaType::Gif, 100),
        rec("d", MediaType::Png, 100),
    ];
    media[3].enabled = false;
    assert_eq!(compressible_indices(&media), vec![0, 2]);
}

#[test]
fn pipeline_run_walks_files_then_repacks() {
    let mut media = vec![rec("a", MediaType::Jpeg, 1000), rec("b", MediaType::Png, 500), rec("c", MediaType::Gif, 300)];
    let mut run = PipelineRun::new(&media);
    assert_eq!(run.total(), 3);
    assert_eq!(run.next_step(false), PipelineStep::Compress(0));
    let msgs = run.begin_file("a.jpg".to_string());
    match &msgs[0] {
        CompressMessage::Progress(c, t, f) => assert_eq!((*c, *t, f.as_str()), (0, 3, "a.jpg")),
        _ => panic!("expected progress"),
    }
    match &msgs[1] {
        CompressMessage::StatusUpdate(i, s, n) => assert_eq!((*i, *s, *n), (0, MediaStatus::Processing, 0)),
        _ => panic!("expected status"),
    }
    let out = run.finish_file(&mut media, "a.jpg", FileOutcome::Compressed(400));
    assert_eq!(media[0].compressed_size, 400);
    assert_eq!(out.len(), 1);
    match &out[0] {
        CompressMessage::StatusUpdate(i, s, n) => assert_eq!((*i, *s, *n), (0, MediaStatus::Done, 400)),
        _ => panic!("expected status"),
    }
    assert_eq!(run.next_step(false), PipelineStep::Compress(1));
    let out = run.finish_file(&mut media, "b.png", FileOutcome::Compressed(900));
    assert_eq!(media[1].compressed_size, 500);
    match &out[0] {
        CompressMessage::StatusUpdate(i, s, n) => assert_eq!((*i, *s, *n), (1, MediaStatus::Skipped, 500)),
        _ => panic!("expected status"),
    }
    let out = run.finish_file(&mut media, "c.gif", FileOutcome::Failed("bad header".to_string()));
    assert_eq!(media[2].compressed_size, 300);
    assert_eq!(out.len(), 2);
    match &out[1] {
        CompressMessage::Error(e) => assert_eq!(e, "Failed to compress c.gif: bad header"),
        _ => panic!("expected error"),
    }
    assert_eq!(run.next_step(false), PipelineStep::Repack);
    match run.repack_message() {
        CompressMessage::Progress(c, t, f) => assert_eq!((c, t, f.as_str()), (3, 3, "Repacking PPTX...")),
        _ => panic!("expected progress"),
    }
    for m in &media {
        assert!(m.compressed_size <= m.original_size);
    }
}

#[test]
fn pipeline_cancel_before_a_file() {
    let media = vec![rec("a", MediaType::Jpeg, 1000)];
    let run = PipelineRun::new(&media);
    assert_eq!(run.next_step(true), PipelineStep::Cancel);
    match PipelineRun::cancel_message() {
        CompressMessage::Error(e) => assert_eq!(e, "Cancelled by user"),
        _ => panic!("expected error"),
    }
    let empty: Vec<MediaInfo> = vec![];
    assert_eq!(PipelineRun::new(&empty).next_step(true), PipelineStep::Cancel);
    assert_eq!(PipelineRun::new(&empty).next_step(false), PipelineStep::Repack);
}

#[test]
fn session_state_machine() {
    let mut s = Session::new();
    assert_eq!(s.state, AppState::Idle);
    s.begin_loading();
    assert_eq!(s.state, AppState::Loading);
    s.loaded(vec![rec("a", MediaType::Png, 10)]);
    assert_eq!(s.state, AppState::Ready);
    s.begin_compression();
    assert_eq!(s.state, AppState::Compressing);
    s.apply_message(CompressMessage::Progress(0, 1, "a".to_string()));
    assert_eq!((s.progress_current, s.progress_total, s.progress_file.as_str()), (0, 1, "a"));
    s.apply_message(CompressMessage::StatusUpdate(0, MediaStatus::Done, 7));
    assert_eq!(s.media_files[0].status, MediaStatus::Done);
    assert_eq!(s.media_files[0].compressed_size, 7);
    s.apply_message(CompressMessage::StatusUpdate(0, MediaStatus::Processing, 0));
    assert_eq!(s.media_files[0].compressed_size, 7);
    s.apply_message(CompressMessage::StatusUpdate(5, MediaStatus::Failed, 1));
    assert_eq!(s.media_files.len(), 1);
    s.apply_message(CompressMessage::Error("warn".to_string()));
    assert_eq!(s.state, AppState::Compressing);
    s.apply_message(CompressMessage::Finished(100, 60));
    assert_eq!(s.state, AppState::Done);
    assert_eq!((s.result_original, s.result_compressed), (100, 60));
    assert!(s.progress_file.is_empty());
    assert_eq!(s.error_messages, vec!["warn".to_string()]);
}

#[test]
fn session_fatal_error_and_retry() {
    let mut s = Session::new();
    s.loaded(vec![]);
    s.begin_compression();
    s.apply_message(CompressMessage::FatalError("Failed to repack PPTX: disk full".to_string()));
    assert_eq!(s.state, AppState::Error);
    assert_eq!(s.error_messages.len(), 1);
    s.retry();
    assert_eq!(s.state, AppState::Ready);
    assert!(s.error_messages.is_empty());
    s.load_failed("Failed to extract".to_string());
    assert_eq!(s.state, AppState::Error);
    s.clear();
    assert_eq!(s.state, AppState::Idle);
    assert!(s.media_files.is_empty());
}

#[test]
fn output_name() {
    assert_eq!(compressed_file_name("deck"), "deck_compressed.pptx");
    assert_eq!(compressed_file_name(""), "_compressed.pptx");
}

#[test]
fn percentages() {
    assert_eq!(percent_saved(1000, 250), 75);
    assert_eq!(percent_saved(3, 2), 33);
    assert_eq!(percent_saved(0, 0), 0);
    assert_eq!(percent_saved(100, 150), 0);
    assert_eq!(percent_saved(100, 0), 100);
}

#[test]
fn summary_uses_actual_sizes_when_known() {
    let settings = CompressionSettings::default();
    let mut media = vec![rec("a", MediaType::Png, 1_000_000), rec("b", MediaType::Other, 500)];
    assert!(totals_fit(&media, &settings));
    let s = media_summary(&media, &settings);
    assert_eq!(s.file_count, 2);
    assert_eq!(s.total_original, 1_000_500);
    assert_eq!(s.display_total, 880_500);
    assert!(!s.has_actual);
    assert_eq!(s.savings, 11);
    assert_eq!(s.original_text, "1000.5 KB");
    assert_eq!(s.display_text, "880.5 KB");
    media[0].status = MediaStatus::Done;
    media[0].compressed_size = 500_000;
    let s = media_summary(&media, &settings);
    assert!(s.has_actual);
    assert_eq!(s.display_total, 500_500);
    assert_eq!(s.savings, 49);
}

#[test]
fn saved_detail_for_done_files() {
    let mut m = rec("a", MediaType::Jpeg, 2_000);
    assert!(saved_detail(&m).is_none());
    m.status = MediaStatus::Done;
    m.compressed_size = 500;
    let d = saved_detail(&m).unwrap();
    assert_eq!(d.compressed_text, "500 B");
    assert_eq!(d.saved_text, "1.5 KB");
    assert_eq!(d.percent, 75);
}

#[test]
fn reencode_written_back_only_when_smaller() {
    assert!(keeps_reencode(1000, 999));
    assert!(!keeps_reencode(1000, 1000));
    assert!(!keeps_reencode(1000, 5000));
    assert_eq!(replacement_bytes(4, vec![1, 2, 3]), Some(vec![1, 2, 3]));
    assert_eq!(replacement_bytes(3, vec![1, 2, 3]), None);
    assert_eq!(replacement_bytes(0, vec![]), None);
}

#[test]
fn kept_original_is_reported_skipped() {
    let mut media = vec![rec("a.jpg", MediaType::Jpeg, 100)];
    let mut run = PipelineRun::new(&media);
    assert_eq!(run.next_step(false), PipelineStep::Compress(0));
    let _ = run.begin_file("a.jpg".to_string());
    let new_len = 150u64;
    let on_disk = if keeps_reencode(100, new_len) { new_len } else { 100 };
    let msgs = run.finish_file(&mut media, "a.jpg", FileOutcome::Compressed(on_disk));
    assert!(matches!(msgs[0], CompressMessage::StatusUpdate(0, MediaStatus::Skipped, 100)));
    assert_eq!(media[0].compressed_size, 100);
}
