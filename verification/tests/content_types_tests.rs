use pptx_compressor::content_types::{png_media_overrides, update_content_types};

const HEAD: &str = "<?xml version=\"1.0\"?>\n<Types xmlns=\"x\">\n";
const IMG1: &str = "<Override PartName=\"/ppt/media/image1.png\" ContentType=\"image/png\"/>";
const IMG2: &str = "<Override PartName=\"/ppt/media/image2.png\" ContentType=\"image/png\"/>";
const SLIDE: &str = "<Override PartName=\"/ppt/slides/slide1.xml\" ContentType=\"app/xml\"/>";

fn doc() -> String {
    format!("{}{}\n{}\n{}\n</Types>", HEAD, IMG1, IMG2, SLIDE)
}

fn jpeg_line(name: &str) -> String {
    format!("\n<Override PartName=\"/ppt/media/{}\" ContentType=\"image/jpeg\"/>", name)
}

#[test]
fn lists_png_overrides_with_their_media_files() {
    let d = doc();
    let tags = png_media_overrides(&d);
    assert_eq!(tags.len(), 2);
    let chars: Vec<char> = d.chars().collect();
    let t0: String = chars[tags[0].start..tags[0].end].iter().collect();
    let t1: String = chars[tags[1].start..tags[1].end].iter().collect();
    assert_eq!(t0, IMG1);
    assert_eq!(t1, IMG2);
    assert_eq!(tags[0].media_files, vec!["image1.png".to_string()]);
    assert_eq!(tags[1].media_files, vec!["image2.png".to_string()]);
}

#[test]
fn removes_stale_png_and_adds_jpeg_overrides() {
    let d = doc();
    let present = vec![vec![true], vec![false]];
    let names: Vec<String> = ["image1.png", "photo.jpg", ".jpg", "image3.JPG", "x.jpeg"]
        .iter()
        .map(|s| s.to_string())
        .collect();
    let got = update_content_types(&d, &present, &names).unwrap();
    let want = format!(
        "{}{}\n\n{}\n{}{}</Types>",
        HEAD,
        IMG1,
        SLIDE,
        jpeg_line("photo.jpg"),
        jpeg_line("x.jpeg")
    );
    assert_eq!(got, want);
}

#[test]
fn unchanged_text_gives_none() {
    let d = doc();
    let present = vec![vec![true], vec![true]];
    assert_eq!(update_content_types(&d, &present, &vec!["image1.png".to_string()]), None);
    let already = format!("{}{}</Types>", HEAD, jpeg_line("p.jpg"));
    assert_eq!(update_content_types(&already, &vec![], &vec!["p.jpg".to_string()]), None);
}

#[test]
fn single_line_document() {
    let d = format!("<Types>{}{}</Types>", IMG1, IMG2);
    let got = update_content_types(&d, &vec![vec![false], vec![true]], &vec![]).unwrap();
    assert_eq!(got, format!("<Types>{}</Types>", IMG2));
}

#[test]
fn png_override_outside_media_is_kept() {
    let tag = "<Override PartName=\"/ppt/slides/a.png\" ContentType=\"image/png\"/>";
    let d = format!("<Types>{}</Types>", tag);
    let tags = png_media_overrides(&d);
    assert_eq!(tags.len(), 1);
    assert!(tags[0].media_files.is_empty());
    assert_eq!(update_content_types(&d, &vec![vec![]], &vec![]), None);
}

#[test]
fn no_types_close_means_no_insertion() {
    let d = "<Types>".to_string();
    assert_eq!(update_content_types(&d, &vec![], &vec!["a.jpg".to_string()]), None);
}

#[test]
fn second_update_changes_nothing() {
    let d = doc();
    let names: Vec<String> = ["image1.png", "photo.jpg", "b.jpeg"].iter().map(|s| s.to_string()).collect();
    let first = update_content_types(&d, &vec![vec![true], vec![false]], &names).unwrap();
    let present_after: Vec<Vec<bool>> =
        png_media_overrides(&first).iter().map(|t| vec![true; t.media_files.len()]).collect();
    assert_eq!(present_after.len(), 1);
    assert_eq!(update_content_types(&first, &present_after, &names), None);
}
