//! GIF decoding and encoding through the `gif` crate, around the verified optimisation plan.

use vstd::prelude::*;
use std::io::Cursor;
use crate::gif_opt::{disposal_code, frame_view, frames_view, is_gif_plan, opt_view, plan_gif, Disposal, GifFrame};
use crate::media::CompressionSettings;
use crate::text::message_with;

verus! {

/// The header that `gif::DecodeOptions::read_info` reads from a GIF stream (logical screen
/// width and height, global colour table), or `None` when it rejects the stream.
pub uninterp spec fn gif_header(data: Seq<u8>) -> Option<(u16, u16, Option<Seq<u8>>)>;

/// The frames that `gif::Decoder::read_next_frame` yields, one after the other up to the end
/// of the stream, after `DecodeOptions::read_info` with indexed colour output; each as plain
/// values: (delay, disposal code, transparent index, waits for input), (top, left, width,
/// height, interlaced), (own colour table, pixel indices). `None` where reading the header or
/// a frame fails.
pub uninterp spec fn gif_frames(data: Seq<u8>) -> Option<
    Seq<((u16, u8, Option<u8>, bool), (u16, u16, u16, u16, bool), (Option<Seq<u8>>, Seq<u8>))>,
>;

/// The bytes that the `gif` encoder writes for a `width` × `height` screen with this global
/// colour table, looping forever, and these frames (as plain values); `None` where a step of
/// the encoder fails.
pub uninterp spec fn gif_encoding(
    width: u16,
    height: u16,
    palette: Seq<u8>,
    frames: Seq<((u16, u8, Option<u8>, bool), (u16, u16, u16, u16, bool), (Option<Seq<u8>>, Seq<u8>))>,
) -> Option<Seq<u8>>;

/// A decoding error: the header or a frame could not be read.
pub open spec fn decode_message(m: Seq<char>) -> bool {
    message_with(m, "Failed to decode GIF: "@) || message_with(m, "Failed to read frame: "@)
}

/// An encoding error: the encoder could not be set up, or a frame or the end not written.
pub open spec fn encode_message(m: Seq<char>) -> bool {
    ||| message_with(m, "Failed to create GIF encoder: "@)
    ||| message_with(m, "Failed to set repeat: "@)
    ||| message_with(m, "Failed to write frame: "@)
    ||| message_with(m, "Failed to write GIF: "@)
}

/// The message for a colour table the encoder refuses.
pub open spec fn too_many_colors_message(m: Seq<char>) -> bool {
    message_with(m, "Failed to create GIF encoder: "@)
}

/// A frame as the crate hands it to and from the `gif` crate: plain values, with the
/// disposal method as its code.
pub type RawFrame = ((u16, u8, Option<u8>, bool), (u16, u16, u16, u16, bool), (Option<Vec<u8>>, Vec<u8>));

/// A raw frame's plain values.
pub open spec fn raw_view(t: RawFrame) -> ((u16, u8, Option<u8>, bool), (u16, u16, u16, u16, bool), (Option<Seq<u8>>, Seq<u8>)) {
    (t.0, t.1, (opt_view(t.2.0), t.2.1@))
}

/// Raw frames' plain values.
pub open spec fn raws_view(ts: Seq<RawFrame>) -> Seq<((u16, u8, Option<u8>, bool), (u16, u16, u16, u16, bool), (Option<Seq<u8>>, Seq<u8>))> {
    ts.map_values(|t: RawFrame| raw_view(t))
}

/// A frame that the encoder takes without tripping its debug check: it has pixels (width and
/// height above 0), or its buffer is empty.
pub open spec fn fits_encoder(v: ((u16, u8, Option<u8>, bool), (u16, u16, u16, u16, bool), (Option<Seq<u8>>, Seq<u8>))) -> bool {
    (v.1.2 > 0 && v.1.3 > 0) || v.2.1.len() == 0
}

/// Decodes a whole GIF into palette indices with the `gif` crate: `DecodeOptions::read_info`
/// with indexed colour output, then `Decoder::read_next_frame` up to the end of the stream,
/// copying each frame's fields (the disposal method as its `repr(u8)` code). The contract
/// claims that decoding succeeds exactly where `gif_frames` names frames, that the screen size,
/// global colour table and frames returned are those of `gif_header` and `gif_frames`, that
/// disposal codes are those of the four `DisposalMethod` variants, that each frame's buffer
/// holds one index per pixel (`PixelConverter::read_frame` sizes it to width × height for
/// indexed output), and which message prefix an error carries.
#[verifier::external_body]
fn gif_decode(data: Vec<u8>) -> (r: Result<(u16, u16, Option<Vec<u8>>, Vec<RawFrame>), String>)
    ensures
        r is Ok <==> gif_frames(data@) is Some,
        gif_header(data@) is None ==> r is Err,
        r matches Ok((w, h, g, fs)) ==> gif_header(data@) == Some((w, h, opt_view(g))) && gif_frames(
            data@,
        ) == Some(raws_view(fs@)) && forall|i: int| 0 <= i < fs@.len() ==> (#[trigger] fs@[i]).0.1 <= 3
            && fs@[i].2.1@.len() == fs@[i].1.2 * fs@[i].1.3,
        r matches Err(m) ==> decode_message(m@),
{
    let mut opts = gif::DecodeOptions::new();
    opts.set_color_output(gif::ColorOutput::Indexed);
    let mut d = opts.read_info(Cursor::new(data)).map_err(|e| format!("Failed to decode GIF: {e}"))?;
    let mut fs = Vec::new();
    while let Some(f) = d.read_next_frame().map_err(|e| format!("Failed to read frame: {e}"))? {
        let t = (f.delay, f.dispose as u8, f.transparent, f.needs_user_input);
        fs.push((t, (f.top, f.left, f.width, f.height, f.interlaced), (f.palette.clone(), f.buffer.to_vec())));
    }
    Ok((d.width(), d.height(), d.global_palette().map(|p| p.to_vec()), fs))
}

/// Reads a GIF's header with `gif::DecodeOptions::new().read_info(..)`. The contract claims the
/// screen width and height of `gif_header`, and `None` exactly where it names no header.
#[verifier::external_body]
pub(crate) fn gif_screen_size(data: &[u8]) -> (r: Option<(u16, u16)>)
    ensures
        match gif_header(data@) {
            Some((w, h, _)) => r == Some((w, h)),
            None => r is None,
        },
{
    let d = gif::DecodeOptions::new().read_info(Cursor::new(data)).ok()?;
    Some((d.width(), d.height()))
}

/// Encodes a GIF in memory with the `gif` crate: `Encoder::new` with the screen size and global
/// colour table, `set_repeat(Repeat::Infinite)`, `write_frame` for each frame (built field for
/// field, the disposal method from its code by `DisposalMethod::from_u8`), and `into_inner`
/// for the bytes. The contract claims that encoding succeeds exactly where `gif_encoding` names
/// bytes, and gives them; what `Encoder::new` (`write_screen_desc`) and `into_inner`
/// (`write_trailer`) write (`GIF89a`, the width and height in little-endian order, the trailer
/// byte); that a table of more than 256 colours is refused (`check_color_table`); and the
/// message prefix of the step that failed. It leaves out codes above 3, for which `from_u8`
/// gives no method. It does not claim success where the colour tables fit and each buffer
/// covers its frame: `write_frame` reserves its LZW buffer with `try_reserve` and reports a
/// failure to allocate as an error. It leaves out frames with no pixels but a non-empty buffer,
/// on which `write_frame`'s `debug_assert!` panics.
#[verifier::external_body]
fn gif_encode(width: u16, height: u16, palette: &[u8], frames: &[RawFrame]) -> (r: Result<Vec<u8>, String>)
    requires
        forall|i: int| 0 <= i < frames@.len() ==> (#[trigger] frames@[i]).0.1 <= 3,
        forall|i: int| 0 <= i < frames@.len() ==> fits_encoder(raw_view(#[trigger] frames@[i])),
    ensures
        r is Ok <==> gif_encoding(width, height, palette@, raws_view(frames@)) is Some,
        r matches Ok(b) ==> gif_encoding(width, height, palette@, raws_view(frames@)) == Some(b@),
        r matches Err(m) ==> encode_message(m@),
        r matches Ok(b) ==> gif_stream_frame(b@, width, height),
        palette@.len() / 3 > 256 ==> r is Err,
        r matches Err(m) ==> (palette@.len() / 3 > 256 ==> too_many_colors_message(m@)),
{
    let mut enc = gif::Encoder::new(Vec::new(), width, height, palette).map_err(|e| format!("Failed to create GIF encoder: {e}"))?;
    enc.set_repeat(gif::Repeat::Infinite).map_err(|e| format!("Failed to set repeat: {e}"))?;
    for ((delay, d, transparent, needs_user_input), (top, left, width, height, interlaced), (palette, buffer)) in frames.iter().cloned() {
        let dispose = gif::DisposalMethod::from_u8(d).unwrap();
        let f = gif::Frame { delay, dispose, transparent, needs_user_input, top, left, width, height, interlaced, palette, buffer: buffer.into() };
        enc.write_frame(&f).map_err(|e| format!("Failed to write frame: {e}"))?;
    }
    enc.into_inner().map_err(|e| format!("Failed to write GIF: {e}"))
}

/// The bytes are a GIF stream for a `width` × `height` screen as the `gif` encoder frames it:
/// the `GIF89a` signature, the width and the height as little-endian 16-bit numbers, and the
/// trailer byte `0x3B` at the end.
pub open spec fn gif_stream_frame(b: Seq<u8>, width: u16, height: u16) -> bool {
    &&& b.len() >= 14
    &&& b.take(6) == seq![0x47u8, 0x49u8, 0x46u8, 0x38u8, 0x39u8, 0x61u8]
    &&& b[6] == (width % 256) as u8
    &&& b[7] == (width / 256) as u8
    &&& b[8] == (height % 256) as u8
    &&& b[9] == (height / 256) as u8
    &&& b.last() == 0x3Bu8
}

fn frame_of_raw(t: &RawFrame) -> (f: GifFrame)
    requires
        t.0.1 <= 3,
    ensures
        frame_view(f) == raw_view(*t),
{
    let dispose = if t.0.1 == 1 {
        Disposal::Keep
    } else if t.0.1 == 2 {
        Disposal::Background
    } else if t.0.1 == 3 {
        Disposal::Previous
    } else {
        Disposal::Any
    };
    let palette = match &t.2.0 {
        Some(p) => {
            let q = p.clone();
            assert(q@ =~= p@);
            Some(q)
        },
        None => None,
    };
    let buffer = t.2.1.clone();
    assert(buffer@ =~= t.2.1@);
    GifFrame {
        delay: t.0.0,
        dispose,
        transparent: t.0.2,
        needs_user_input: t.0.3,
        top: t.1.0,
        left: t.1.1,
        width: t.1.2,
        height: t.1.3,
        interlaced: t.1.4,
        palette,
        buffer,
    }
}

fn raw_of_frame(f: &GifFrame) -> (t: RawFrame)
    ensures
        raw_view(t) == frame_view(*f),
        t.0.1 <= 3,
{
    let code: u8 = match f.dispose {
        Disposal::Any => 0,
        Disposal::Keep => 1,
        Disposal::Background => 2,
        Disposal::Previous => 3,
    };
    let palette = match &f.palette {
        Some(p) => {
            let q = p.clone();
            assert(q@ =~= p@);
            Some(q)
        },
        None => None,
    };
    let buffer = f.buffer.clone();
    assert(buffer@ =~= f.buffer@);
    (
        (f.delay, code, f.transparent, f.needs_user_input),
        (f.top, f.left, f.width, f.height, f.interlaced),
        (palette, buffer),
    )
}

/// Decodes a GIF into palette indices: screen size, global colour table and frames.
pub fn decode_gif(data: Vec<u8>) -> (r: Result<(u16, u16, Option<Vec<u8>>, Vec<GifFrame>), String>)
    ensures
        r is Ok <==> gif_frames(data@) is Some,
        gif_header(data@) is None ==> r is Err,
        r matches Ok((w, h, g, frames)) ==> gif_header(data@) == Some((w, h, opt_view(g)))
            && gif_frames(data@) == Some(frames_view(frames@)),
        r matches Ok((w, h, g, frames)) ==> forall|i: int|
            0 <= i < frames@.len() ==> (#[trigger] frames@[i]).buffer@.len() == frames@[i].width * frames@[i].height,
        r matches Err(m) ==> decode_message(m@),
{
    let (width, height, global, raw) = gif_decode(data)?;
    let mut frames: Vec<GifFrame> = Vec::new();
    let mut i: usize = 0;
    while i < raw.len()
        invariant
            i <= raw@.len(),
            forall|j: int| 0 <= j < raw@.len() ==> (#[trigger] raw@[j]).0.1 <= 3
                && raw@[j].2.1@.len() == raw@[j].1.2 * raw@[j].1.3,
            frames_view(frames@) == raws_view(raw@.take(i as int)),
            frames@.len() == i,
            forall|j: int| 0 <= j < i ==> (#[trigger] frames@[j]).buffer@.len() == frames@[j].width * frames@[j].height,
        decreases raw@.len() - i,
    {
        let f = frame_of_raw(&raw[i]);
        frames.push(f);
        assert(raws_view(raw@.take(i + 1)) =~= raws_view(raw@.take(i as int)).push(raw_view(raw@[i as int])));
        assert(frames_view(frames@) =~= frames_view(frames@.drop_last()).push(frame_view(f)));
        assert(frames@.drop_last() =~= frames@.take(i as int));
        i = i + 1;
    }
    assert(raw@.take(raw@.len() as int) =~= raw@);
    Ok((width, height, global, frames))
}

/// Encodes planned frames in memory: screen size, colour table, looping forever, then the frames.
pub fn encode_gif(width: u16, height: u16, palette: &Vec<u8>, frames: &Vec<GifFrame>) -> (r: Result<Vec<u8>, String>)
    requires
        forall|i: int| 0 <= i < frames@.len() ==> fits_encoder(frame_view(#[trigger] frames@[i])),
    ensures
        r is Ok <==> gif_encoding(width, height, palette@, frames_view(frames@)) is Some,
        r matches Ok(b) ==> gif_encoding(width, height, palette@, frames_view(frames@)) == Some(b@),
        r matches Err(m) ==> encode_message(m@),
        r matches Ok(b) ==> gif_stream_frame(b@, width, height),
        palette@.len() / 3 > 256 ==> (r matches Err(m) && too_many_colors_message(m@)),
{
    let mut raw: Vec<RawFrame> = Vec::new();
    let mut i: usize = 0;
    while i < frames.len()
        invariant
            i <= frames@.len(),
            raw@.len() == i,
            forall|j: int| 0 <= j < i ==> (#[trigger] raw@[j]).0.1 <= 3,
            forall|j: int| 0 <= j < frames@.len() ==> fits_encoder(frame_view(#[trigger] frames@[j])),
            forall|j: int| 0 <= j < i ==> raw_view(#[trigger] raw@[j]) == frame_view(frames@[j]),
            raws_view(raw@) == frames_view(frames@.take(i as int)),
        decreases frames@.len() - i,
    {
        let t = raw_of_frame(&frames[i]);
        raw.push(t);
        assert(frames_view(frames@.take(i + 1)) =~= frames_view(frames@.take(i as int)).push(frame_view(frames@[i as int])));
        assert(raws_view(raw@) =~= raws_view(raw@.drop_last()).push(raw_view(t)));
        assert(raw@.drop_last() =~= raw@.take(i as int));
        i = i + 1;
    }
    assert(frames@.take(frames@.len() as int) =~= frames@);
    gif_encode(width, height, palette.as_slice(), raw.as_slice())
}

/// The GIF that compression gives for a stream whose header is (`width`, `height`, `global`)
/// and whose frames are `frames`: when it has frames, the result of encoding some plan of
/// them under `s`; a stream without frames is refused.
pub open spec fn compressed_gif(
    width: u16,
    height: u16,
    global: Option<Seq<u8>>,
    frames: Seq<GifFrame>,
    s: CompressionSettings,
    r: Result<Vec<u8>, String>,
) -> bool {
    if frames.len() == 0 {
        r matches Err(m) && m@ == "GIF has no frames"@
    } else {
        exists|palette: Seq<u8>, out: Seq<GifFrame>|
            {
                &&& is_gif_plan(frames, global, s, palette, out)
                &&& (r is Ok <==> gif_encoding(width, height, palette, frames_view(out)) is Some)
                &&& (r matches Ok(b) ==> gif_encoding(width, height, palette, frames_view(out)) == Some(b@))
                &&& (r matches Err(m) ==> encode_message(m@))
            }
    }
}

/// Compress a GIF by reducing colors and optionally dropping frames: decodes it, plans the
/// optimised frames and palette, and encodes the result. A stream that does not decode gives
/// the decoder's error; one without frames gives "GIF has no frames"; otherwise the result is
/// the encoding of the plan of its frames.
pub fn compress_gif(data: Vec<u8>, settings: &CompressionSettings) -> (r: Result<Vec<u8>, String>)
    ensures
        gif_frames(data@) is None ==> (r matches Err(m) && decode_message(m@)),
        gif_frames(data@) matches Some(fs) ==> exists|frames: Seq<GifFrame>|
            {
                &&& frames_view(frames) == fs
                &&& gif_header(data@) matches Some((w, h, g)) && compressed_gif(w, h, g, frames, *settings, r)
            },
{
    let ghost d = data@;
    let (width, height, global, frames) = decode_gif(data)?;
    if frames.len() == 0 {
        let r = Err(String::from_str("GIF has no frames"));
        assert(compressed_gif(width, height, opt_view(global), frames@, *settings, r));
        return r;
    }
    let plan = plan_gif(&frames, &global, settings);
    proof {
        assert forall|m: int| 0 <= m < plan.frames@.len() implies fits_encoder(frame_view(#[trigger] plan.frames@[m])) by {
            let f = plan.frames@[m];
            if f.width == 0 || f.height == 0 {
                assert(f.width * f.height == 0) by (nonlinear_arith)
                    requires
                        f.width == 0 || f.height == 0,
                ;
            }
        }
    }
    let r = encode_gif(width, height, &plan.palette, &plan.frames);
    assert(is_gif_plan(frames@, opt_view(global), *settings, plan.palette@, plan.frames@));
    assert(compressed_gif(width, height, opt_view(global), frames@, *settings, r));
    r
}

} // verus!
