use pptx_compressor::gif_codec::{compress_gif, decode_gif, encode_gif};
use pptx_compressor::gif_opt::{
    build_optimized_palette, find_closest_color, frame_stride, keep_frames, plan_gif, requantize_frame,
    Disposal, GifFrame,
};
use pptx_compressor::media::CompressionSettings;
use std::borrow::Cow;

fn frame(delay: u16, palette: Option<Vec<u8>>, buffer: Vec<u8>) -> GifFrame {
    GifFrame {
        delay,
        dispose: Disposal::Keep,
        transparent: None,
        needs_user_input: false,
        top: 0,
        left: 0,
        width: buffer.len() as u16,
        height: 1,
        interlaced: false,
        palette,
        buffer,
    }
}

fn gif_file(frames: usize, delay: u16) -> Vec<u8> {
    let mut out = Vec::new();
    {
        let palette = [255, 0, 0, 0, 255, 0, 0, 0, 255, 9, 9, 9];
        let mut enc = gif::Encoder::new(&mut out, 4, 2, &palette).unwrap();
        for i in 0..frames {
            let f = gif::Frame {
                width: 4,
                height: 2,
                delay,
                buffer: Cow::Owned(vec![(i % 4) as u8, 0, 1, 2, 3, 0, 0, 1]),
                ..Default::default()
            };
            enc.write_frame(&f).unwrap();
        }
    }
    out
}

#[test]
fn closest_colour() {
    let bw = [0, 0, 0, 255, 255, 255];
    assert_eq!(find_closest_color(10, 10, 10, &bw), 0);
    assert_eq!(find_closest_color(200, 200, 200, &bw), 1);
    assert_eq!(find_closest_color(128, 128, 128, &bw), 1);
    assert_eq!(find_closest_color(5, 0, 5, &[10, 0, 0, 0, 0, 10]), 0);
    assert_eq!(find_closest_color(1, 2, 3, &[]), 0);
    assert_eq!(find_closest_color(1, 2, 3, &[1, 2]), 0);
}

#[test]
fn requantize_to_new_palette() {
    let f = frame(1, Some(vec![0, 0, 0, 250, 250, 250, 10, 10, 10]), vec![0, 1, 2, 7]);
    assert_eq!(requantize_frame(&f, &None, &[0, 0, 0, 255, 255, 255]), vec![0, 1, 0, 0]);
    let g = frame(1, None, vec![3, 2, 1]);
    assert_eq!(requantize_frame(&g, &None, &[0, 0, 0, 255, 255, 255]), vec![0, 0, 0]);
    let global = Some(vec![255, 255, 255, 0, 0, 0, 9, 9, 9, 250, 250, 250]);
    assert_eq!(requantize_frame(&g, &global, &[0, 0, 0, 255, 255, 255]), vec![1, 0, 0]);
    let mut t = frame(1, Some(vec![0, 0, 0, 5, 5, 5, 255, 255, 255]), vec![0, 1, 2]);
    t.transparent = Some(1);
    assert_eq!(requantize_frame(&t, &None, &[0, 0, 0, 255, 255, 255, 0, 0, 0, 0, 0, 0]), vec![0, 3, 1]);
    let many: Vec<u8> = (0..=255u8).flat_map(|i| [i, i, i]).collect();
    let h = frame(1, Some(many), (0..=255u8).collect());
    for p in requantize_frame(&h, &None, &[0, 0, 0, 255, 255, 255, 128, 128, 128]) {
        assert!(p < 3);
    }
}

#[test]
fn palette_by_frequency_with_black_and_white_first() {
    let global = Some(vec![255, 0, 0, 0, 255, 0, 0, 0, 255]);
    let frames = vec![frame(1, None, vec![0, 0, 0, 1, 1, 2])];
    let p = build_optimized_palette(&frames, &global, false);
    assert_eq!(
        p,
        vec![0, 0, 0, 255, 255, 255, 255, 0, 0, 0, 255, 0, 0, 0, 255, 0, 0, 0, 0, 0, 0, 0, 0, 0]
    );
    let none: Vec<GifFrame> = vec![];
    assert_eq!(build_optimized_palette(&none, &None, false), vec![0, 0, 0, 255, 255, 255]);
    assert_eq!(build_optimized_palette(&none, &None, true), vec![0, 0, 0, 255, 255, 255, 0, 0, 0, 0, 0, 0]);
}

#[test]
fn frame_dropping_to_target_rate() {
    let s = CompressionSettings::default();
    let frames: Vec<GifFrame> = (0..10).map(|i| frame(2, None, vec![i])).collect();
    assert_eq!(frame_stride(&frames, &s), 4);
    let kept = keep_frames(&frames, 4);
    let firsts: Vec<u8> = kept.iter().map(|f| f.buffer[0]).collect();
    assert_eq!(firsts, vec![0, 4, 8]);
    let slow: Vec<GifFrame> = (0..10).map(|i| frame(10, None, vec![i])).collect();
    assert_eq!(frame_stride(&slow, &s), 1);
    let zero: Vec<GifFrame> = (0..3).map(|i| frame(0, None, vec![i])).collect();
    let mut s5 = s;
    s5.gif_target_fps = 5;
    assert_eq!(frame_stride(&zero, &s5), 3);
    let mut off = s;
    off.gif_frame_drop = false;
    assert_eq!(frame_stride(&frames, &off), 1);
}

#[test]
fn plan_retimes_and_requantizes() {
    let s = CompressionSettings::default();
    let global = Some(vec![255, 0, 0, 0, 255, 0]);
    let frames: Vec<GifFrame> = (0..10).map(|_| frame(2, None, vec![0, 1])).collect();
    let plan = plan_gif(&frames, &global, &s);
    assert_eq!(plan.frames.len(), 3);
    assert_eq!(plan.palette, vec![0, 0, 0, 255, 255, 255, 255, 0, 0, 0, 255, 0]);
    for f in &plan.frames {
        assert_eq!(f.delay, 6);
        assert_eq!(f.dispose, Disposal::Any);
        assert_eq!(f.buffer, vec![2, 3]);
        assert!(f.palette.is_none());
        assert_eq!(f.transparent, None);
    }
    let mut keep = s;
    keep.gif_palette_optimize = false;
    keep.gif_frame_drop = false;
    let plan = plan_gif(&frames, &Some(vec![1, 2, 3, 4, 5]), &keep);
    assert_eq!(plan.palette, vec![1, 2, 3]);
    assert_eq!(plan.frames.len(), 10);
    assert!(plan.frames.iter().all(|f| f.delay == 2 && f.buffer == vec![0, 1]));
    let mut slow = s;
    slow.gif_target_fps = 60;
    let plan = plan_gif(&frames, &global, &slow);
    assert_eq!(plan.frames.len(), 10);
    assert!(plan.frames.iter().all(|f| f.delay == 2));
}

#[test]
fn gif_file_round_trip() {
    let data = gif_file(10, 2);
    let (w, h, global, frames) = decode_gif(data.clone()).unwrap();
    assert_eq!((w, h), (4, 2));
    assert_eq!(global.unwrap().len(), 12);
    assert_eq!(frames.len(), 10);
    let out = compress_gif(data, &CompressionSettings::default()).unwrap();
    let (w2, h2, _, frames2) = decode_gif(out).unwrap();
    assert_eq!((w2, h2), (4, 2));
    assert_eq!(frames2.len(), 3);
    assert!(frames2.iter().all(|f| f.delay == 6));
}

#[test]
fn gif_errors() {
    let err = compress_gif(b"PNG".to_vec(), &CompressionSettings::default()).err().unwrap();
    assert!(err.starts_with("Failed to decode GIF"), "{}", err);
    let mut empty = b"GIF89a".to_vec();
    empty.extend_from_slice(&[4, 0, 2, 0, 0x80, 0, 0, 0, 0, 0, 255, 255, 255, 0x3b, 0]);
    assert_eq!(
        compress_gif(empty, &CompressionSettings::default()).err().unwrap(),
        "GIF has no frames"
    );
}

#[test]
fn dropping_reaches_target_rate() {
    for (n, delay, fps) in [(10usize, 2u16, 15u8), (7, 3, 10), (30, 1, 24), (5, 7, 60), (12, 0, 4)] {
        let mut s = CompressionSettings::default();
        s.gif_target_fps = fps;
        let frames: Vec<GifFrame> = (0..n).map(|i| frame(delay, None, vec![i as u8])).collect();
        let k = frame_stride(&frames, &s);
        let total = n as u128 * delay as u128;
        if total == 0 {
            assert!(15 <= fps as u128 * k);
        } else {
            assert!(100 * n as u128 <= fps as u128 * total * k);
        }
    }
}

#[test]
fn encoded_stream_has_header_and_trailer() {
    let frames = vec![frame(5, None, vec![0, 1, 1, 0])];
    let mut f = frames.clone();
    f[0].width = 2;
    f[0].height = 2;
    let out = encode_gif(300, 2, &vec![0, 0, 0, 255, 255, 255], &f).unwrap();
    assert_eq!(&out[..10], &[0x47, 0x49, 0x46, 0x38, 0x39, 0x61, 44, 1, 2, 0]);
    assert_eq!(*out.last().unwrap(), 0x3b);
    let big = vec![7u8; 3 * 257];
    let err = encode_gif(2, 2, &big, &f).err().unwrap();
    assert!(err.starts_with("Failed to create GIF encoder: "), "{}", err);
}

#[test]
fn transparency_moves_to_the_free_slot() {
    let global = Some(vec![255, 0, 0, 0, 255, 0, 0, 0, 0]);
    let mut f = frame(10, None, vec![0, 1, 2, 2]);
    f.transparent = Some(2);
    let plan = plan_gif(&vec![f], &global, &CompressionSettings::default());
    let n = plan.palette.len() / 3;
    assert_eq!(n, 8);
    let out = &plan.frames[0];
    assert_eq!(out.transparent, Some((n - 1) as u8));
    assert_eq!(out.buffer[2], (n - 1) as u8);
    assert_eq!(out.buffer[3], (n - 1) as u8);
    assert!(out.buffer[0] != (n - 1) as u8 && out.buffer[1] != (n - 1) as u8);
    assert_eq!(out.delay, 10);
}

#[test]
fn keep_frames_with_any_stride() {
    let frames: Vec<GifFrame> = (0..5).map(|i| frame(2, None, vec![i])).collect();
    let kept = keep_frames(&frames, 1_000_000);
    assert_eq!(kept.len(), 1);
    assert_eq!(kept[0].buffer, vec![0]);
    let all = keep_frames(&frames, 1);
    assert_eq!(all.len(), 5);
    let two = keep_frames(&frames, 5);
    assert_eq!(two.len(), 1);
    assert!(keep_frames(&Vec::new(), 3).is_empty());
}

#[test]
fn requantize_into_an_empty_palette_gives_zeros() {
    let mut f = frame(2, Some(vec![10, 10, 10, 200, 200, 200]), vec![0, 1, 1, 7]);
    f.transparent = Some(1);
    assert_eq!(requantize_frame(&f, &None, &[]), vec![0, 0, 0, 0]);
    assert_eq!(requantize_frame(&f, &None, &[1, 2]), vec![0, 0, 0, 0]);
}
