use pptx_compressor::ffmpeg::{
    curl_failure_message, download_total, ffmpeg_args, ffmpeg_failure_message, parse_content_length,
};
use pptx_compressor::lines::{parse_u64, split_lines, to_decimal, trim_chars};
use pptx_compressor::media::CompressionSettings;
use pptx_compressor::text::{chars_of, to_lower_char};

fn chars(s: &str) -> Vec<char> {
    s.chars().collect()
}

fn text(v: &[char]) -> String {
    v.iter().collect()
}

#[test]
fn lines_follow_str_lines() {
    for s in ["a\nb", "a\r\nb\n", "", "\n", "x\r", "one\n\ntwo\r\n\r\n"] {
        let got: Vec<String> = split_lines(s).iter().map(|l| text(l)).collect();
        let want: Vec<String> = s.lines().map(|l| l.to_string()).collect();
        assert_eq!(got, want, "{:?}", s);
    }
}

#[test]
fn trimming_and_numbers() {
    assert_eq!(text(&trim_chars(&chars("  12 \t"))), "12");
    assert_eq!(text(&trim_chars(&chars("\u{3000}x\u{a0}"))), "x");
    assert_eq!(parse_u64(&chars("42")), Some(42));
    assert_eq!(parse_u64(&chars("+7")), Some(7));
    assert_eq!(parse_u64(&chars("18446744073709551615")), Some(u64::MAX));
    assert_eq!(parse_u64(&chars("18446744073709551616")), None);
    assert_eq!(parse_u64(&chars("")), None);
    assert_eq!(parse_u64(&chars("-1")), None);
    assert_eq!(parse_u64(&chars("1 2")), None);
    assert_eq!(text(&to_decimal(0)), "0");
    assert_eq!(text(&to_decimal(1_234_567)), "1234567");
    assert_eq!(to_lower_char('Q'), 'q');
    assert_eq!(to_lower_char('é'), 'é');
    assert_eq!(chars_of("añb"), vec!['a', 'ñ', 'b']);
}

#[test]
fn content_length_from_headers() {
    let h = "HTTP/1.1 302 Found\r\nContent-Length: 0\r\n\r\nHTTP/1.1 200 OK\r\ncontent-length: 31457280\r\n";
    assert_eq!(parse_content_length(h), Some(31457280));
    let h = "HTTP/1.1 302 Found\r\nContent-Length: 0\r\nLocation: https://example.org/f.zip\r\n\r\nHTTP/1.1 200 OK\r\nContent-Length: 26214400\r\n\r\n";
    assert_eq!(parse_content_length(h), Some(26214400));
    let h = "HTTP/1.1 302 Found\r\nContent-Length: 0\r\n\r\nHTTP/1.1 200 OK\r\n\r\n";
    assert_eq!(parse_content_length(h), None);
    let h = "HTTP/2 200\r\nCONTENT-LENGTH:  9 \r\n";
    assert_eq!(parse_content_length(h), Some(9));
    assert_eq!(parse_content_length("Content-Type: text/html\n"), None);
    assert_eq!(parse_content_length("Content-Length: abc\nContent-Length: 5\n"), Some(5));
    assert_eq!(parse_content_length(""), None);
}

#[test]
fn ffmpeg_command_line() {
    let mut s = CompressionSettings::default();
    let args = ffmpeg_args("in.mp4", "in.tmp.mp4", &s);
    let want: Vec<&str> = vec![
        "-y", "-i", "in.mp4", "-c:v", "libx264", "-crf", "28", "-preset", "medium", "-c:a", "aac",
        "-b:a", "128k", "-movflags", "+faststart", "in.tmp.mp4",
    ];
    assert_eq!(args, want);
    s.video_max_resolution_enabled = true;
    s.video_max_height = 720;
    s.video_quality = 100;
    let args = ffmpeg_args("a", "b", &s);
    assert_eq!(args[6], "0");
    assert_eq!(args[15], "-vf");
    assert_eq!(args[16], "scale=-2:'min(ih,720)'");
    assert_eq!(args[17], "b");
    assert_eq!(args.len(), 18);
}

#[test]
fn failure_messages() {
    assert_eq!(ffmpeg_failure_message("frame=1\nError opening input\n"), "FFmpeg failed: Error opening input");
    assert_eq!(ffmpeg_failure_message(""), "FFmpeg failed: unknown error");
    assert_eq!(
        curl_failure_message(Some(22), "  curl: (22) 404 Not Found\n"),
        "curl download failed (exit: 22): curl: (22) 404 Not Found"
    );
    assert_eq!(curl_failure_message(None, ""), "curl download failed (exit: -1): ");
    assert_eq!(curl_failure_message(Some(i32::MIN), "x"), "curl download failed (exit: -2147483648): x");
    assert_eq!(download_total(100, 7), 100);
    assert_eq!(download_total(0, 7), 7);
}
