use pptx_compressor::archive::PathPart;
use pptx_compressor::unzip::{extraction_plan, ffmpeg_binary_in, path_parts};
use std::io::{Cursor, Write};
use zip::write::SimpleFileOptions;

fn archive(files: &[(&str, &[u8])], dirs: &[&str]) -> Vec<u8> {
    let mut w = zip::ZipWriter::new(Cursor::new(Vec::new()));
    let options = SimpleFileOptions::default();
    for d in dirs {
        w.add_directory(*d, options).unwrap();
    }
    for (name, data) in files {
        w.start_file(*name, options).unwrap();
        w.write_all(data).unwrap();
    }
    w.finish().unwrap().into_inner()
}

#[test]
fn path_parts_of_plain_names() {
    assert_eq!(path_parts("ppt/media/image1.png"), vec![PathPart::Normal, PathPart::Normal, PathPart::Normal]);
    assert_eq!(path_parts("ppt//./a"), vec![PathPart::Normal, PathPart::CurDir, PathPart::Normal]);
    assert_eq!(path_parts("a/../b"), vec![PathPart::Normal, PathPart::ParentDir, PathPart::Normal]);
    assert_eq!(path_parts("ppt/"), vec![PathPart::Normal]);
    assert_eq!(path_parts(""), Vec::<PathPart>::new());
}

#[test]
fn path_parts_of_rooted_names() {
    assert_eq!(path_parts("/etc/passwd"), vec![PathPart::RootDir]);
    assert_eq!(path_parts("\\x"), vec![PathPart::RootDir]);
    assert_eq!(path_parts("C:/x"), vec![PathPart::Prefix]);
    assert_eq!(path_parts("a\\..\\b"), vec![PathPart::Normal, PathPart::ParentDir, PathPart::Normal]);
}

#[test]
fn extraction_plan_keeps_safe_entries_in_order() {
    let data = archive(
        &[
            ("[Content_Types].xml", b"<Types/>"),
            ("ppt/media/image1.png", &[1, 2, 3]),
            ("../evil.txt", b"x"),
            ("C:/x.txt", b"y"),
            ("/abs.txt", b"z"),
        ],
        &["ppt/"],
    );
    let plan = extraction_plan(&data).unwrap();
    let got: Vec<(String, bool, Vec<u8>)> = plan.into_iter().map(|i| (i.path, i.is_dir, i.data)).collect();
    assert_eq!(
        got,
        vec![
            ("ppt/".to_string(), true, vec![]),
            ("[Content_Types].xml".to_string(), false, b"<Types/>".to_vec()),
            ("ppt/media/image1.png".to_string(), false, vec![1, 2, 3]),
            ("abs.txt".to_string(), false, b"z".to_vec()),
        ]
    );
}

#[test]
fn extraction_plan_refuses_what_is_no_archive() {
    assert!(extraction_plan(b"this is not a zip archive").is_err());
    assert!(extraction_plan(&[]).is_err());
}

#[test]
fn binary_found_by_its_last_component() {
    let data = archive(
        &[
            ("ffmpeg-7.1/README.txt", b"readme"),
            ("ffmpeg-7.1/bin/ffprobe", b"probe"),
            ("ffmpeg-7.1/bin/ffmpeg", b"the binary"),
            ("other/ffmpeg", b"second copy"),
        ],
        &["ffmpeg-7.1/bin/ffmpeg/"],
    );
    assert_eq!(ffmpeg_binary_in(&data, "ffmpeg"), Some(b"the binary".to_vec()));
    assert_eq!(ffmpeg_binary_in(&data, "ffprobe"), Some(b"probe".to_vec()));
    assert_eq!(ffmpeg_binary_in(&data, "ffmpeg.exe"), None);
}

#[test]
fn binary_not_found_in_unreadable_archive() {
    assert_eq!(ffmpeg_binary_in(b"garbage", "ffmpeg"), None);
}
