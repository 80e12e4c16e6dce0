//! GIF optimisation: frame dropping, palette reduction and pixel re-quantisation.

use vstd::prelude::*;
use std::collections::HashMap;
use crate::media::CompressionSettings;

verus! {

broadcast use vstd::std_specs::hash::group_hash_axioms;

/// How a GIF frame is disposed of before the next one is drawn.
#[derive(Debug, Clone, Copy, PartialEq, Eq, Structural)]
pub enum Disposal {
    Any,
    Keep,
    Background,
    Previous,
}

/// One decoded GIF frame, held as plain values.
#[derive(Debug, Clone)]
pub struct GifFrame {
    /// Delay in hundredths of a second.
    pub delay: u16,
    pub dispose: Disposal,
    pub transparent: Option<u8>,
    pub needs_user_input: bool,
    pub top: u16,
    pub left: u16,
    pub width: u16,
    pub height: u16,
    pub interlaced: bool,
    /// The frame's own colour table (RGB triples), if it has one.
    pub palette: Option<Vec<u8>>,
    /// Colour-table index of each pixel.
    pub buffer: Vec<u8>,
}

/// Squared Euclidean distance between `(r, g, b)` and colour `i` of an RGB palette.
pub open spec fn color_distance(r: u8, g: u8, b: u8, palette: Seq<u8>, i: int) -> int {
    let dr = r - palette[3 * i];
    let dg = g - palette[3 * i + 1];
    let db = b - palette[3 * i + 2];
    dr * dr + dg * dg + db * db
}

/// Index of the first colour at minimal distance among the first `n` colours (0 when `n` is 0).
pub open spec fn closest_among(r: u8, g: u8, b: u8, palette: Seq<u8>, n: int) -> int
    decreases n,
{
    if n <= 1 {
        0
    } else {
        let best = closest_among(r, g, b, palette, n - 1);
        if color_distance(r, g, b, palette, n - 1) < color_distance(r, g, b, palette, best) {
            n - 1
        } else {
            best
        }
    }
}

/// `k` is the first colour at minimal distance among the first `n` colours.
pub open spec fn is_first_closest(r: u8, g: u8, b: u8, palette: Seq<u8>, n: int, k: int) -> bool {
    &&& 0 <= k < n
    &&& forall|j: int|
        0 <= j < n ==> color_distance(r, g, b, palette, k) <= #[trigger] color_distance(
            r,
            g,
            b,
            palette,
            j,
        )
    &&& forall|j: int|
        0 <= j < k ==> color_distance(r, g, b, palette, k) < #[trigger] color_distance(
            r,
            g,
            b,
            palette,
            j,
        )
}

/// The recursive choice is the first closest colour.
pub proof fn lemma_closest_is_first_minimum(r: u8, g: u8, b: u8, palette: Seq<u8>, n: int)
    requires
        n >= 1,
    ensures
        is_first_closest(r, g, b, palette, n, closest_among(r, g, b, palette, n)),
    decreases n,
{
    if n > 1 {
        lemma_closest_is_first_minimum(r, g, b, palette, n - 1);
    }
}

/// The closest colour is chosen by the full squared Euclidean distance over red, green and
/// blue: for the chosen colour `k` of the first `n` and any colour `j` among them,
/// `(r-R_k)² + (g-G_k)² + (b-B_k)² ≤ (r-R_j)² + (g-G_j)² + (b-B_j)²`, strictly when `j` comes
/// before `k`; so a colour equal to `(r, g, b)` with no equal colour before it is the one chosen.
pub proof fn law_closest_by_rgb_distance(r: u8, g: u8, b: u8, palette: Seq<u8>, n: int, j: int)
    requires
        1 <= n,
        0 <= j < n,
    ensures
        0 <= closest_among(r, g, b, palette, n) < n,
        ({
            let k = closest_among(r, g, b, palette, n);
            let dk = (r - palette[3 * k]) * (r - palette[3 * k]) + (g - palette[3 * k + 1]) * (g
                - palette[3 * k + 1]) + (b - palette[3 * k + 2]) * (b - palette[3 * k + 2]);
            let dj = (r - palette[3 * j]) * (r - palette[3 * j]) + (g - palette[3 * j + 1]) * (g
                - palette[3 * j + 1]) + (b - palette[3 * j + 2]) * (b - palette[3 * j + 2]);
            &&& dk <= dj
            &&& j < k ==> dk < dj
        }),
        palette[3 * j] == r && palette[3 * j + 1] == g && palette[3 * j + 2] == b && (forall|m: int|
            0 <= m < j ==> !(palette[3 * m] == r && palette[3 * m + 1] == g && #[trigger] palette[3 * m + 2]
                == b)) ==> closest_among(r, g, b, palette, n) == j,
{
    lemma_closest_is_first_minimum(r, g, b, palette, n);
    let k = closest_among(r, g, b, palette, n);
    assert(color_distance(r, g, b, palette, k) <= color_distance(r, g, b, palette, j));
    if j < k {
        assert(color_distance(r, g, b, palette, k) < color_distance(r, g, b, palette, j));
    }
    if palette[3 * j] == r && palette[3 * j + 1] == g && palette[3 * j + 2] == b && (forall|m: int|
        0 <= m < j ==> !(palette[3 * m] == r && palette[3 * m + 1] == g && #[trigger] palette[3 * m + 2] == b)) {
        let dr = r - palette[3 * k];
        let dg = g - palette[3 * k + 1];
        let db = b - palette[3 * k + 2];
        let er = r - palette[3 * j];
        let eg = g - palette[3 * j + 1];
        let eb = b - palette[3 * j + 2];
        assert(er == 0 && eg == 0 && eb == 0);
        assert(er * er + eg * eg + eb * eb == 0) by (nonlinear_arith)
            requires
                er == 0 && eg == 0 && eb == 0,
        ;
        assert(color_distance(r, g, b, palette, j) == 0);
        assert(dr == 0 && dg == 0 && db == 0) by (nonlinear_arith)
            requires
                dr * dr + dg * dg + db * db <= 0,
        ;
        if k < j {
            assert(palette[3 * k + 2] == b);
        } else if k > j {
            assert(color_distance(r, g, b, palette, k) < color_distance(r, g, b, palette, j));
            assert(dr * dr + dg * dg + db * db >= 0) by (nonlinear_arith);
        }
    }
}

/// Find the index of the closest color in a palette using Euclidean distance.
pub fn find_closest_color(r: u8, g: u8, b: u8, palette: &[u8]) -> (idx: u8)
    ensures
        palette@.len() / 3 == 0 ==> idx == 0,
        palette@.len() / 3 > 0 ==> idx == #[verifier::truncate] (closest_among(r, g, b, palette@, (palette@.len() / 3) as int) as u8),
        palette@.len() / 3 > 0 ==> is_first_closest(
            r,
            g,
            b,
            palette@,
            (palette@.len() / 3) as int,
            closest_among(r, g, b, palette@, (palette@.len() / 3) as int),
        ),
        1 <= palette@.len() / 3 <= 256 ==> (idx as int) < palette@.len() / 3 && forall|j: int|
            0 <= j < palette@.len() / 3 ==> (r - palette@[3 * idx]) * (r - palette@[3 * idx]) + (g
                - palette@[3 * idx + 1]) * (g - palette@[3 * idx + 1]) + (b - palette@[3 * idx + 2])
                * (b - palette@[3 * idx + 2]) <= (r - palette@[3 * j]) * (r - palette@[3 * j]) + (g
                - palette@[3 * j + 1]) * (g - palette@[3 * j + 1]) + (b - #[trigger] palette@[3 * j + 2])
                * (b - palette@[3 * j + 2]),
{
    let mut best_idx: usize = 0;
    let mut best_dist: u32 = u32::MAX;
    let plen = palette.len();
    let num_colors = plen / 3;
    let mut i: usize = 0;
    while i < num_colors
        invariant
            plen == palette@.len(),
            num_colors == palette@.len() / 3,
            i <= num_colors,
            i == 0 ==> best_idx == 0 && best_dist == u32::MAX,
            i > 0 ==> best_idx == closest_among(r, g, b, palette@, i as int),
            i > 0 ==> best_dist == color_distance(r, g, b, palette@, best_idx as int),
            best_idx < num_colors || num_colors == 0,
        decreases num_colors - i,
    {
        assert(i * 3 + 2 < palette@.len()) by (nonlinear_arith)
            requires
                i < num_colors,
                num_colors == palette@.len() / 3,
        ;
        let dr: i32 = r as i32 - palette[i * 3] as i32;
        let dg: i32 = g as i32 - palette[i * 3 + 1] as i32;
        let db: i32 = b as i32 - palette[i * 3 + 2] as i32;
        assert(dr * dr <= 65025 && dg * dg <= 65025 && db * db <= 65025) by (nonlinear_arith)
            requires
                -255 <= dr <= 255,
                -255 <= dg <= 255,
                -255 <= db <= 255,
        ;
        assert(dr * dr >= 0 && dg * dg >= 0 && db * db >= 0) by (nonlinear_arith);
        let dist: u32 = (dr * dr + dg * dg + db * db) as u32;
        if dist < best_dist {
            best_dist = dist;
            best_idx = i;
        }
        i = i + 1;
    }
    proof {
        if num_colors > 0 {
            lemma_closest_is_first_minimum(r, g, b, palette@, num_colors as int);
        }
        if 1 <= num_colors <= 256 {
            assert(best_idx < 256);
            assert((best_idx as u8) as int == best_idx);
            assert forall|j: int| 0 <= j < num_colors implies (r - palette@[3 * best_idx]) * (r - palette@[3 * best_idx]) + (g
                - palette@[3 * best_idx + 1]) * (g - palette@[3 * best_idx + 1]) + (b - palette@[3 * best_idx + 2])
                * (b - palette@[3 * best_idx + 2]) <= (r - palette@[3 * j]) * (r - palette@[3 * j]) + (g
                - palette@[3 * j + 1]) * (g - palette@[3 * j + 1]) + (b - #[trigger] palette@[3 * j + 2])
                * (b - palette@[3 * j + 2]) by {
                law_closest_by_rgb_distance(r, g, b, palette@, num_colors as int, j);
            }
        }
    }
    #[verifier::truncate]
    (best_idx as u8)
}

/// The palette index that `find_closest_color` yields for `(r, g, b)`.
pub open spec fn closest_index_byte(r: u8, g: u8, b: u8, palette: Seq<u8>) -> u8 {
    if palette.len() / 3 == 0 {
        0
    } else {
        #[verifier::truncate]
        (closest_among(r, g, b, palette, (palette.len() / 3) as int) as u8)
    }
}

/// A pixel index re-mapped from `old` to `new`: the colour it named in `old`, matched to its
/// closest colour in `new`; an index outside `old` becomes 0.
pub open spec fn remapped_index(idx: u8, old: Seq<u8>, new: Seq<u8>) -> u8 {
    if (idx as int) < old.len() / 3 {
        closest_index_byte(old[3 * idx], old[3 * idx + 1], old[3 * idx + 2], new)
    } else {
        0
    }
}

/// Requantizing into a palette of 1 to 256 colours only ever gives indices of that palette.
pub proof fn law_remapped_in_palette(idx: u8, old: Seq<u8>, new: Seq<u8>)
    requires
        1 <= new.len() / 3 <= 256,
    ensures
        (remapped_index(idx, old, new) as int) < new.len() / 3,
{
    if (idx as int) < old.len() / 3 {
        let n = (new.len() / 3) as int;
        lemma_closest_is_first_minimum(old[3 * idx], old[3 * idx + 1], old[3 * idx + 2], new, n);
        let k = closest_among(old[3 * idx], old[3 * idx + 1], old[3 * idx + 2], new, n);
        assert(0 <= k < 256);
        assert(k as u8 == k);
    }
}

/// The colour table a frame's pixels refer to (its own, else `global`), or the empty one.
pub open spec fn source_palette(f: GifFrame, global: Option<Seq<u8>>) -> Seq<u8> {
    match effective_palette(f, global) {
        Some(p) => p,
        None => Seq::empty(),
    }
}

/// The new index of a pixel with index `idx` of frame `f`: where `new` has colours, the frame's
/// transparent index goes to its last slot (the one an optimised palette keeps free for
/// transparency, counted modulo 256); any other index is re-mapped from the colour it names in
/// the frame's table to its closest colour in `new`, which is 0 when `new` is empty.
pub open spec fn requantized_pixel(f: GifFrame, global: Option<Seq<u8>>, new: Seq<u8>, idx: u8) -> u8 {
    if new.len() / 3 > 0 && f.transparent == Some(idx) {
        (new.len() / 3 - 1) as u8
    } else {
        remapped_index(idx, source_palette(f, global), new)
    }
}

/// The pixels a frame gets after re-quantisation to `new`.
pub open spec fn requantized(f: GifFrame, global: Option<Seq<u8>>, new: Seq<u8>) -> Seq<u8> {
    Seq::new(f.buffer@.len(), |j: int| requantized_pixel(f, global, new, f.buffer@[j]))
}

/// Re-quantize a frame's indexed pixels to the nearest colour in the new palette: each pixel's
/// colour, read through the frame's own colour table or else the global one, is matched to its
/// closest colour in `new_palette`, and the frame's transparent index goes to the last slot.
pub fn requantize_frame(frame: &GifFrame, global_palette: &Option<Vec<u8>>, new_palette: &[u8]) -> (pixels: Vec<u8>)
    ensures
        pixels@ == requantized(*frame, opt_view(*global_palette), new_palette@),
{
    let empty: Vec<u8> = Vec::new();
    let old_palette: &Vec<u8> = match &frame.palette {
        Some(p) => p,
        None => match global_palette {
            Some(g) => g,
            None => &empty,
        },
    };
    assert(old_palette@ == source_palette(*frame, opt_view(*global_palette)));
    let plen = old_palette.len();
    let old_colors = plen / 3;
    let new_colors = new_palette.len() / 3;
    let slot: u8 = if new_colors > 0 {
        (new_colors - 1) as u8
    } else {
        0
    };
    let mut mapping: Vec<u8> = Vec::new();
    let mut k: usize = 0;
    while k < old_colors
        invariant
            plen == old_palette@.len(),
            old_colors == plen / 3,
            k <= old_colors,
            mapping@.len() == k,
            forall|m: int|
                0 <= m < k ==> #[trigger] mapping@[m] == closest_index_byte(
                    old_palette@[3 * m],
                    old_palette@[3 * m + 1],
                    old_palette@[3 * m + 2],
                    new_palette@,
                ),
        decreases old_colors - k,
    {
        assert(k * 3 + 2 < plen) by (nonlinear_arith)
            requires
                k < old_colors,
                old_colors == plen / 3,
        ;
        let r = old_palette[k * 3];
        let g = old_palette[k * 3 + 1];
        let b = old_palette[k * 3 + 2];
        let c = find_closest_color(r, g, b, new_palette);
        mapping.push(c);
        k = k + 1;
    }
    let ghost src = source_palette(*frame, opt_view(*global_palette));
    let mut pixels: Vec<u8> = Vec::new();
    let mut j: usize = 0;
    while j < frame.buffer.len()
        invariant
            old_palette@ == src,
            src == source_palette(*frame, opt_view(*global_palette)),
            new_colors == new_palette@.len() / 3,
            new_colors > 0 ==> slot == (new_palette@.len() / 3 - 1) as u8,
            mapping@.len() == old_palette@.len() / 3,
            forall|m: int|
                0 <= m < mapping@.len() ==> #[trigger] mapping@[m] == closest_index_byte(
                    old_palette@[3 * m],
                    old_palette@[3 * m + 1],
                    old_palette@[3 * m + 2],
                    new_palette@,
                ),
            j <= frame.buffer@.len(),
            pixels@.len() == j,
            forall|m: int|
                0 <= m < j ==> #[trigger] pixels@[m] == requantized_pixel(
                    *frame,
                    opt_view(*global_palette),
                    new_palette@,
                    frame.buffer@[m],
                ),
        decreases frame.buffer@.len() - j,
    {
        let idx = frame.buffer[j];
        if new_colors > 0 && frame.transparent == Some(idx) {
            pixels.push(slot);
        } else if (idx as usize) < mapping.len() {
            pixels.push(mapping[idx as usize]);
        } else {
            pixels.push(0);
        }
        j = j + 1;
    }
    assert(pixels@ =~= requantized(*frame, opt_view(*global_palette), new_palette@));
    pixels
}

/// Number of pixels in `buf` that carry index `v`.
pub open spec fn count_of(buf: Seq<u8>, v: int) -> nat
    decreases buf.len(),
{
    if buf.len() == 0 {
        0
    } else {
        count_of(buf.drop_last(), v) + if buf.last() == v {
            1nat
        } else {
            0nat
        }
    }
}

/// Total of `count_of(buf, v)` over the indices `v < m`.
pub open spec fn counts_below(buf: Seq<u8>, m: int) -> nat
    decreases m,
{
    if m <= 0 {
        0
    } else {
        counts_below(buf, m - 1) + count_of(buf, m - 1)
    }
}

proof fn lemma_count_of_le(buf: Seq<u8>, v: int)
    ensures
        count_of(buf, v) <= buf.len(),
    decreases buf.len(),
{
    if buf.len() > 0 {
        lemma_count_of_le(buf.drop_last(), v);
    }
}

proof fn lemma_counts_below_le(buf: Seq<u8>, m: int)
    ensures
        counts_below(buf, m) <= buf.len(),
    decreases buf.len(), m,
{
    if buf.len() > 0 && m > 0 {
        lemma_counts_below_split(buf, m);
        lemma_counts_below_le(buf.drop_last(), m);
    } else if buf.len() == 0 {
        lemma_counts_below_empty(buf, m);
    }
}

proof fn lemma_counts_below_empty(buf: Seq<u8>, m: int)
    requires
        buf.len() == 0,
    ensures
        counts_below(buf, m) == 0,
    decreases m,
{
    if m > 0 {
        lemma_counts_below_empty(buf, m - 1);
    }
}

proof fn lemma_counts_below_split(buf: Seq<u8>, m: int)
    requires
        buf.len() > 0,
    ensures
        counts_below(buf, m) <= counts_below(buf.drop_last(), m) + 1,
        counts_below(buf, m) >= counts_below(buf.drop_last(), m),
    decreases m,
{
    if m > 0 {
        lemma_counts_below_split(buf, m - 1);
        if buf.last() == m - 1 {
            lemma_counts_below_no_last(buf, m - 1);
        }
    }
}

/// Below the last pixel's own index, the last pixel adds nothing.
proof fn lemma_counts_below_no_last(buf: Seq<u8>, m: int)
    requires
        buf.len() > 0,
        buf.last() >= m,
    ensures
        counts_below(buf, m) == counts_below(buf.drop_last(), m),
    decreases m,
{
    if m > 0 {
        lemma_counts_below_no_last(buf, m - 1);
    }
}

/// How many pixels of `buf` use each of the first `m` palette indices.
pub fn palette_usage(buf: &Vec<u8>, m: usize) -> (usage: Vec<u64>)
    ensures
        usage@.len() == m,
        forall|i: int| 0 <= i < m ==> #[trigger] usage@[i] == count_of(buf@, i),
{
    let mut usage: Vec<u64> = Vec::new();
    let mut i: usize = 0;
    while i < m
        invariant
            i <= m,
            usage@.len() == i,
            forall|k: int| 0 <= k < i ==> #[trigger] usage@[k] == 0,
        decreases m - i,
    {
        usage.push(0);
        i = i + 1;
    }
    let mut j: usize = 0;
    while j < buf.len()
        invariant
            j <= buf@.len(),
            usage@.len() == m,
            forall|k: int| 0 <= k < m ==> #[trigger] usage@[k] == count_of(buf@.take(j as int), k),
        decreases buf@.len() - j,
    {
        let idx = buf[j] as usize;
        proof {
            assert(buf@.take(j + 1).drop_last() =~= buf@.take(j as int));
            assert forall|k: int| 0 <= k < m implies count_of(buf@.take(j as int), k) <= j by {
                lemma_count_of_le(buf@.take(j as int), k);
            }
        }
        if idx < m {
            let c = usage[idx];
            usage.set(idx, c + 1);
        }
        j = j + 1;
    }
    assert(buf@.take(buf@.len() as int) =~= buf@);
    usage
}

/// The 24-bit RGB key of colour `i` of a palette.
pub open spec fn color_key(p: Seq<u8>, i: int) -> u32 {
    (p[3 * i] * 65536 + p[3 * i + 1] * 256 + p[3 * i + 2]) as u32
}

pub open spec fn opt_view(o: Option<Vec<u8>>) -> Option<Seq<u8>> {
    match o {
        Some(v) => Some(v@),
        None => None,
    }
}

/// The colour table that a frame's pixels refer to: its own, else the global one.
pub open spec fn effective_palette(f: GifFrame, global: Option<Seq<u8>>) -> Option<Seq<u8>> {
    match f.palette {
        Some(p) => Some(p@),
        None => global,
    }
}

/// (colour, pixel count) for each of the first `i` indices of palette `p` that `buf` uses.
pub open spec fn palette_events(p: Seq<u8>, buf: Seq<u8>, i: int) -> Seq<(u32, nat)>
    decreases i,
{
    if i <= 0 {
        Seq::empty()
    } else {
        let e = palette_events(p, buf, i - 1);
        if count_of(buf, i - 1) > 0 {
            e.push((color_key(p, i - 1), count_of(buf, i - 1)))
        } else {
            e
        }
    }
}

/// The colour usage of one frame, palette index by palette index.
pub open spec fn frame_events(f: GifFrame, global: Option<Seq<u8>>) -> Seq<(u32, nat)> {
    match effective_palette(f, global) {
        Some(p) => palette_events(p, f.buffer@, (p.len() / 3) as int),
        None => Seq::empty(),
    }
}

/// The colour usage of all frames, in frame order.
pub open spec fn frames_events(frames: Seq<GifFrame>, global: Option<Seq<u8>>) -> Seq<(u32, nat)>
    decreases frames.len(),
{
    if frames.len() == 0 {
        Seq::empty()
    } else {
        frames_events(frames.drop_last(), global) + frame_events(frames.last(), global)
    }
}

/// The distinct colours of a usage record, in order of first use.
pub open spec fn table_colors(ev: Seq<(u32, nat)>) -> Seq<u32>
    decreases ev.len(),
{
    if ev.len() == 0 {
        Seq::empty()
    } else {
        let t = table_colors(ev.drop_last());
        if t.contains(ev.last().0) {
            t
        } else {
            t.push(ev.last().0)
        }
    }
}

/// Total pixel count of colour `c` in a usage record.
pub open spec fn weight(ev: Seq<(u32, nat)>, c: u32) -> nat
    decreases ev.len(),
{
    if ev.len() == 0 {
        0
    } else {
        weight(ev.drop_last(), c) + if ev.last().0 == c {
            ev.last().1
        } else {
            0nat
        }
    }
}

/// Total number of pixels over all frames.
pub open spec fn total_pixels(frames: Seq<GifFrame>) -> nat
    decreases frames.len(),
{
    if frames.len() == 0 {
        0
    } else {
        total_pixels(frames.drop_last()) + frames.last().buffer@.len()
    }
}

/// Total pixel count of a usage record.
pub open spec fn events_total(ev: Seq<(u32, nat)>) -> nat
    decreases ev.len(),
{
    if ev.len() == 0 {
        0
    } else {
        events_total(ev.drop_last()) + ev.last().1
    }
}

proof fn lemma_weight_le_total(ev: Seq<(u32, nat)>, c: u32)
    ensures
        weight(ev, c) <= events_total(ev),
    decreases ev.len(),
{
    if ev.len() > 0 {
        lemma_weight_le_total(ev.drop_last(), c);
    }
}

proof fn lemma_events_total_concat(a: Seq<(u32, nat)>, b: Seq<(u32, nat)>)
    ensures
        events_total(a + b) == events_total(a) + events_total(b),
    decreases b.len(),
{
    if b.len() == 0 {
        assert(a + b =~= a);
    } else {
        lemma_events_total_concat(a, b.drop_last());
        assert((a + b).drop_last() =~= a + b.drop_last());
    }
}

proof fn lemma_weight_concat(a: Seq<(u32, nat)>, b: Seq<(u32, nat)>, c: u32)
    ensures
        weight(a + b, c) == weight(a, c) + weight(b, c),
    decreases b.len(),
{
    if b.len() == 0 {
        assert(a + b =~= a);
    } else {
        lemma_weight_concat(a, b.drop_last(), c);
        assert((a + b).drop_last() =~= a + b.drop_last());
    }
}

proof fn lemma_palette_events_total(p: Seq<u8>, buf: Seq<u8>, i: int)
    ensures
        events_total(palette_events(p, buf, i)) == counts_below(buf, i),
    decreases i,
{
    if i > 0 {
        lemma_palette_events_total(p, buf, i - 1);
        let e = palette_events(p, buf, i - 1);
        let x = (color_key(p, i - 1), count_of(buf, i - 1));
        assert(e.push(x).drop_last() =~= e);
    }
}

proof fn lemma_frames_events_total(frames: Seq<GifFrame>, global: Option<Seq<u8>>)
    ensures
        events_total(frames_events(frames, global)) <= total_pixels(frames),
    decreases frames.len(),
{
    if frames.len() > 0 {
        let f = frames.last();
        lemma_frames_events_total(frames.drop_last(), global);
        lemma_events_total_concat(frames_events(frames.drop_last(), global), frame_events(f, global));
        match effective_palette(f, global) {
            Some(p) => {
                lemma_palette_events_total(p, f.buffer@, (p.len() / 3) as int);
                lemma_counts_below_le(f.buffer@, (p.len() / 3) as int);
            },
            None => {},
        }
    }
}

proof fn lemma_weight_absent(ev: Seq<(u32, nat)>, c: u32)
    requires
        !table_colors(ev).contains(c),
    ensures
        weight(ev, c) == 0,
    decreases ev.len(),
{
    if ev.len() > 0 {
        lemma_table_contains(ev, c);
        lemma_table_contains(ev.drop_last(), c);
        assert(ev[ev.len() - 1].0 != c);
        if exists|k: int| 0 <= k < ev.drop_last().len() && ev.drop_last()[k].0 == c {
            let k = choose|k: int| 0 <= k < ev.drop_last().len() && ev.drop_last()[k].0 == c;
            assert(ev[k].0 == c);
        }
        lemma_weight_absent(ev.drop_last(), c);
    }
}

proof fn lemma_table_contains(ev: Seq<(u32, nat)>, c: u32)
    ensures
        table_colors(ev).contains(c) <==> exists|k: int| 0 <= k < ev.len() && ev[k].0 == c,
        table_colors(ev).no_duplicates(),
    decreases ev.len(),
{
    if ev.len() > 0 {
        lemma_table_contains(ev.drop_last(), c);
        lemma_table_contains(ev.drop_last(), ev.last().0);
        if exists|k: int| 0 <= k < ev.drop_last().len() && ev.drop_last()[k].0 == c {
            let k = choose|k: int| 0 <= k < ev.drop_last().len() && ev.drop_last()[k].0 == c;
            assert(ev[k].0 == c);
        }
        if exists|k: int| 0 <= k < ev.len() && ev[k].0 == c {
            let k = choose|k: int| 0 <= k < ev.len() && ev[k].0 == c;
            if k < ev.len() - 1 {
                assert(ev.drop_last()[k].0 == c);
            }
        }
        let t = table_colors(ev.drop_last());
        if ev.last().0 == c {
            assert(ev[ev.len() - 1].0 == c);
            if !t.contains(c) {
                assert(t.push(c)[t.len() as int] == c);
            }
        } else if !t.contains(ev.last().0) {
            assert(t.push(ev.last().0).contains(c) == t.contains(c)) by {
                if t.push(ev.last().0).contains(c) {
                    let j = choose|j: int| 0 <= j < t.len() + 1 && t.push(ev.last().0)[j] == c;
                    assert(j < t.len());
                    assert(t[j] == c);
                }
                if t.contains(c) {
                    let j = choose|j: int| 0 <= j < t.len() && t[j] == c;
                    assert(t.push(ev.last().0)[j] == c);
                }
            }
        }
    }
}

proof fn lemma_total_pixels_bound(frames: Seq<GifFrame>)
    requires
        frames.len() <= 0xffff_ffff_ffff_ffff,
    ensures
        total_pixels(frames) <= frames.len() * 0xffff_ffff_ffff_ffff,
        total_pixels(frames) <= 0xffff_ffff_ffff_ffff * 0xffff_ffff_ffff_ffff,
    decreases frames.len(),
{
    if frames.len() > 0 {
        lemma_total_pixels_bound(frames.drop_last());
        assert(frames.last().buffer.len() == frames.last().buffer@.len());
        assert(frames.len() * 0xffff_ffff_ffff_ffff <= 0xffff_ffff_ffff_ffff * 0xffff_ffff_ffff_ffff) by (nonlinear_arith)
            requires
                frames.len() <= 0xffff_ffff_ffff_ffff,
        ;
    }
}

proof fn lemma_total_pixels_prefix(frames: Seq<GifFrame>, n: int)
    requires
        0 <= n <= frames.len(),
    ensures
        total_pixels(frames.take(n)) <= total_pixels(frames),
    decreases frames.len(),
{
    if n < frames.len() {
        assert(frames.drop_last().take(n) =~= frames.take(n));
        lemma_total_pixels_prefix(frames.drop_last(), n);
    } else {
        assert(frames.take(n) =~= frames);
    }
}

/// The index map holds exactly the table's colours, each at its position.
pub open spec fn indexes_table(index: Map<u32, usize>, colors: Seq<u32>) -> bool {
    &&& forall|k: int|
        0 <= k < colors.len() ==> #[trigger] index.contains_key(colors[k]) && index[colors[k]]
            == k
    &&& forall|c: u32| #[trigger] index.contains_key(c) ==> colors.contains(c)
}

/// The colours in use across the frames, in order of first use, with their pixel counts.
pub fn color_table(frames: &Vec<GifFrame>, global: &Option<Vec<u8>>) -> (r: (Vec<u32>, Vec<u128>))
    ensures
        r.0@ == table_colors(frames_events(frames@, opt_view(*global))),
        r.1@.len() == r.0@.len(),
        forall|k: int|
            0 <= k < r.1@.len() ==> #[trigger] r.1@[k] == weight(
                frames_events(frames@, opt_view(*global)),
                r.0@[k],
            ),
{
    let ghost g = opt_view(*global);
    let mut colors: Vec<u32> = Vec::new();
    let mut counts: Vec<u128> = Vec::new();
    proof {
        assert(frames.len() == frames@.len());
        lemma_total_pixels_bound(frames@);
    }
    let mut index: HashMap<u32, usize> = HashMap::new();
    let mut fi: usize = 0;
    while fi < frames.len()
        invariant
            g == opt_view(*global),
            total_pixels(frames@) <= 0xffff_ffff_ffff_ffff * 0xffff_ffff_ffff_ffff,
            fi <= frames@.len(),
            colors@ == table_colors(frames_events(frames@.take(fi as int), g)),
            counts@.len() == colors@.len(),
            forall|k: int|
                0 <= k < counts@.len() ==> #[trigger] counts@[k] == weight(
                    frames_events(frames@.take(fi as int), g),
                    colors@[k],
                ),
            indexes_table(index@, colors@),
        decreases frames@.len() - fi,
    {
        let f = &frames[fi];
        let ghost done = frames_events(frames@.take(fi as int), g);
        proof {
            assert(frames@.take(fi + 1).drop_last() =~= frames@.take(fi as int));
            assert(frames@.take(fi + 1).last() == frames@[fi as int]);
            lemma_total_pixels_prefix(frames@, fi + 1);
            lemma_frames_events_total(frames@.take(fi as int), g);
        }
        let pal: Option<&Vec<u8>> = match &f.palette {
            Some(p) => Some(p),
            None => match global {
                Some(gp) => Some(gp),
                None => None,
            },
        };
        match pal {
            Some(p) => {
                assert(effective_palette(*f, g) == Some(p@));
                let plen = p.len();
                let m = plen / 3;
                let usage = palette_usage(&f.buffer, m);
                let mut i: usize = 0;
                while i < m
                    invariant
                        plen == p@.len(),
                        m == p@.len() / 3,
                        i <= m,
                        usage@.len() == m,
                        forall|k: int| 0 <= k < m ==> #[trigger] usage@[k] == count_of(f.buffer@, k),
                        events_total(done) + f.buffer@.len() <= u128::MAX,
                        colors@ == table_colors(done + palette_events(p@, f.buffer@, i as int)),
                        counts@.len() == colors@.len(),
                        forall|k: int|
                            0 <= k < counts@.len() ==> #[trigger] counts@[k] == weight(
                                done + palette_events(p@, f.buffer@, i as int),
                                colors@[k],
                            ),
                        indexes_table(index@, colors@),
                    decreases m - i,
                {
                    let ghost ev = done + palette_events(p@, f.buffer@, i as int);
                    assert(i * 3 + 2 < p@.len()) by (nonlinear_arith)
                        requires
                            i < m,
                            m == p@.len() / 3,
                    ;
                    let u = usage[i];
                    if u > 0 {
                        let key: u32 = (p[i * 3] as u32) * 65536 + (p[i * 3 + 1] as u32) * 256
                            + (p[i * 3 + 2] as u32);
                        let ghost item = (key, count_of(f.buffer@, i as int));
                        assert(key == color_key(p@, i as int));
                        assert(palette_events(p@, f.buffer@, i + 1) == palette_events(
                            p@,
                            f.buffer@,
                            i as int,
                        ).push(item));
                        assert(done + palette_events(p@, f.buffer@, i + 1) =~= ev.push(item));
                        assert(ev.push(item).drop_last() =~= ev);
                        proof {
                            lemma_palette_events_total(p@, f.buffer@, i + 1);
                            lemma_counts_below_le(f.buffer@, i + 1);
                            lemma_events_total_concat(done, palette_events(p@, f.buffer@, i + 1));
                            lemma_weight_le_total(ev.push(item), key);
                            lemma_table_contains(ev, key);
                        }
                        match index.get(&key) {
                            Some(pos_ref) => {
                                let pos = *pos_ref;
                                assert(colors@.contains(key));
                                let ghost kk = choose|kk: int| 0 <= kk < colors@.len() && colors@[kk] == key;
                                assert(index@[colors@[kk]] == kk);
                                assert(colors@[pos as int] == key);
                                let c = counts[pos];
                                assert(weight(ev.push(item), key) == weight(ev, key) + u);
                                counts.set(pos, c + u as u128);
                                assert forall|k: int| 0 <= k < counts@.len() implies #[trigger] counts@[k] == weight(ev.push(item), colors@[k]) by {
                                    assert(weight(ev.push(item), colors@[k]) == weight(ev, colors@[k]) + if colors@[k] == key { u as nat } else { 0nat });
                                    if k != pos as int {
                                        assert(colors@[k] != key);
                                    }
                                };
                            },
                            None => {
                                assert(!colors@.contains(key)) by {
                                    if colors@.contains(key) {
                                        let kk = choose|kk: int|
                                            0 <= kk < colors@.len() && colors@[kk] == key;
                                        assert(index@.contains_key(colors@[kk]));
                                    }
                                };
                                proof {
                                    lemma_table_contains(ev, key);
                                    assert forall|k: int| 0 <= k < colors@.len() implies colors@[k] != key by {
                                        assert(colors@.contains(colors@[k]));
                                    }
                                }
                                let ghost old_index = index@;
                                let ghost old_colors = colors@;
                                assert(weight(ev, key) == 0) by {
                                    lemma_weight_absent(ev, key);
                                };
                                index.insert(key, colors.len());
                                colors.push(key);
                                counts.push(u as u128);
                                assert(colors@.drop_last() =~= old_colors);
                                assert forall|k: int| 0 <= k < counts@.len() implies #[trigger] counts@[k] == weight(ev.push(item), colors@[k]) by {
                                    assert(weight(ev.push(item), colors@[k]) == weight(ev, colors@[k]) + if colors@[k] == key { u as nat } else { 0nat });
                                };
                                assert forall|c: u32| #[trigger] index@.contains_key(c) implies colors@.contains(c) by {
                                    if c == key {
                                        assert(colors@[colors@.len() - 1] == key);
                                    } else {
                                        let ghost oldc = colors@.drop_last();
                                        assert(old_index.contains_key(c));
                                        assert(oldc.contains(c));
                                        let kk = choose|kk: int| 0 <= kk < oldc.len() && oldc[kk] == c;
                                        assert(colors@[kk] == c);
                                    }
                                };
                            },
                        }
                    } else {
                        assert(palette_events(p@, f.buffer@, i + 1) == palette_events(
                            p@,
                            f.buffer@,
                            i as int,
                        ));
                    }
                    i = i + 1;
                }
                assert(frames_events(frames@.take(fi + 1), g) =~= done + palette_events(
                    p@,
                    f.buffer@,
                    m as int,
                ));
            },
            None => {
                assert(frames_events(frames@.take(fi + 1), g) =~= done);
            },
        }
        fi = fi + 1;
    }
    assert(frames@.take(frames@.len() as int) =~= frames@);
    (colors, counts)
}

/// Position `a` ranks before position `b`: it is used more, or as much and appears earlier.
pub open spec fn ranks_before(w: Seq<u128>, a: int, b: int) -> bool {
    w[a] > w[b] || (w[a] == w[b] && a < b)
}

/// `ps` lists, in rank order, the `min(k, w.len())` positions of `w` that rank first.
pub open spec fn is_top_prefix(w: Seq<u128>, k: int, ps: Seq<usize>) -> bool {
    &&& ps.len() == if k < w.len() {
        k
    } else {
        w.len() as int
    }
    &&& forall|i: int| 0 <= i < ps.len() ==> #[trigger] ps[i] < w.len()
    &&& forall|i: int, j: int|
        0 <= i < j < ps.len() ==> ranks_before(w, #[trigger] ps[i] as int, #[trigger] ps[j] as int)
    &&& forall|q: int, i: int|
        0 <= q < w.len() && !ps.contains(q as usize) && 0 <= i < ps.len() ==> #[trigger] ranks_before(
            w,
            ps[i] as int,
            q,
        )
}

/// A list that contains every value below `n` has at least `n` entries.
proof fn lemma_covering_list_len(ps: Seq<usize>, n: int)
    requires
        0 <= n <= usize::MAX,
        forall|q: int| 0 <= q < n ==> #[trigger] ps.contains(q as usize),
    ensures
        ps.len() >= n,
{
    let ints = ps.map_values(|x: usize| x as int);
    let range = vstd::set_lib::set_int_range(0, n);
    vstd::set_lib::lemma_int_range(0, n);
    assert forall|q: int| range.contains(q) implies ints.to_set().contains(q) by {
        assert(ps.contains(q as usize));
        let i = choose|i: int| 0 <= i < ps.len() && ps[i] == q as usize;
        assert(ints[i] == q);
    };
    ints.lemma_cardinality_of_set();
    vstd::seq_lib::seq_to_set_is_finite(ints);
    vstd::set_lib::lemma_len_subset(range, ints.to_set());
}

/// The `k` most used positions of `w` (earlier first among equals), most used first.
pub fn top_positions(w: &Vec<u128>, k: usize) -> (ps: Vec<usize>)
    ensures
        is_top_prefix(w@, k as int, ps@),
{
    let n = w.len();
    let mut taken: Vec<bool> = Vec::new();
    let mut q: usize = 0;
    while q < n
        invariant
            q <= n,
            taken@.len() == q,
            forall|j: int| 0 <= j < q ==> !#[trigger] taken@[j],
        decreases n - q,
    {
        taken.push(false);
        q = q + 1;
    }
    let mut ps: Vec<usize> = Vec::new();
    while ps.len() < k && ps.len() < n
        invariant
            n == w@.len(),
            taken@.len() == n,
            ps@.len() <= n,
            ps@.len() <= k,
            forall|j: int| 0 <= j < n ==> (#[trigger] taken@[j] <==> ps@.contains(j as usize)),
            forall|i: int| 0 <= i < ps@.len() ==> #[trigger] ps@[i] < n,
            forall|i: int, j: int|
                0 <= i < j < ps@.len() ==> ranks_before(
                    w@,
                    #[trigger] ps@[i] as int,
                    #[trigger] ps@[j] as int,
                ),
            forall|q: int, i: int|
                0 <= q < n && !ps@.contains(q as usize) && 0 <= i < ps@.len() ==> #[trigger] ranks_before(
                    w@,
                    ps@[i] as int,
                    q,
                ),
        decreases n - ps@.len(),
    {
        let mut best: usize = n;
        let mut j: usize = 0;
        while j < n
            invariant
                n == w@.len(),
                taken@.len() == n,
                j <= n,
                best == n || (best < j && !taken@[best as int]),
                best == n ==> forall|x: int| 0 <= x < j ==> #[trigger] taken@[x],
                best < n ==> forall|x: int|
                    0 <= x < j && !#[trigger] taken@[x] && x != best ==> ranks_before(
                        w@,
                        best as int,
                        x,
                    ),
            decreases n - j,
        {
            if !taken[j] && (best == n || w[j] > w[best]) {
                best = j;
            }
            j = j + 1;
        }
        if best == n {
            proof {
                assert forall|x: int| 0 <= x < n implies #[trigger] ps@.contains(x as usize) by {
                    assert(taken@[x]);
                };
                lemma_covering_list_len(ps@, n as int);
            }
            assert(false);
        }
        let ghost old_ps = ps@;
        assert(!old_ps.contains(best));
        taken.set(best, true);
        ps.push(best);
        proof {
            assert forall|x: int| 0 <= x < n implies (#[trigger] taken@[x] <==> ps@.contains(x as usize)) by {
                if x == best as int {
                    assert(ps@[ps@.len() - 1] == best);
                } else {
                    if ps@.contains(x as usize) {
                        let i = choose|i: int| 0 <= i < ps@.len() && ps@[i] == x as usize;
                        assert(i < old_ps.len());
                        assert(old_ps[i] == x as usize);
                    }
                    if old_ps.contains(x as usize) {
                        let i = choose|i: int| 0 <= i < old_ps.len() && old_ps[i] == x as usize;
                        assert(ps@[i] == x as usize);
                    }
                }
            };
            assert forall|q: int, i: int|
                0 <= q < n && !ps@.contains(q as usize) && 0 <= i < ps@.len() implies #[trigger] ranks_before(
                    w@,
                    ps@[i] as int,
                    q,
                ) by {
                assert(!taken@[q]);
                if i < old_ps.len() {
                    assert(ps@[i] == old_ps[i]);
                    assert(!old_ps.contains(q as usize)) by {
                        if old_ps.contains(q as usize) {
                            let m = choose|m: int| 0 <= m < old_ps.len() && old_ps[m] == q as usize;
                            assert(ps@[m] == q as usize);
                        }
                    };
                }
            };
            assert forall|i: int, j: int|
                0 <= i < j < ps@.len() implies ranks_before(
                    w@,
                    #[trigger] ps@[i] as int,
                    #[trigger] ps@[j] as int,
                ) by {
                if j == ps@.len() - 1 {
                    assert(ps@[i] == old_ps[i]);
                }
            };
        }
    }
    ps
}

/// Black or white, which every optimised palette already starts with.
pub open spec fn is_black_or_white(c: u32) -> bool {
    c == 0 || c == 0xFF_FFFF
}

/// The RGB bytes of a 24-bit colour key.
pub open spec fn rgb_bytes(c: u32) -> Seq<u8> {
    seq![(c / 65536) as u8, ((c / 256) % 256) as u8, (c % 256) as u8]
}

/// The colours at positions `ps` of `colors`, in that order, black and white left out.
pub open spec fn kept_colors(colors: Seq<u32>, ps: Seq<usize>) -> Seq<u32>
    decreases ps.len(),
{
    if ps.len() == 0 {
        Seq::empty()
    } else {
        let r = kept_colors(colors, ps.drop_last());
        let c = colors[ps.last() as int];
        if is_black_or_white(c) {
            r
        } else {
            r.push(c)
        }
    }
}

/// The RGB bytes of a list of colours.
pub open spec fn colors_bytes(cs: Seq<u32>) -> Seq<u8>
    decreases cs.len(),
{
    if cs.len() == 0 {
        Seq::empty()
    } else {
        colors_bytes(cs.drop_last()) + rgb_bytes(cs.last())
    }
}

pub open spec fn is_pow2(x: int) -> bool
    decreases x,
{
    if x <= 0 {
        false
    } else if x == 1 {
        true
    } else {
        x % 2 == 0 && is_pow2(x / 2)
    }
}

/// `t` is the smallest power of two that is at least `c` (for `c >= 1`).
pub open spec fn is_pow2_ceiling(t: int, c: int) -> bool {
    is_pow2(t) && c <= t && t < 2 * c
}

/// An optimised palette: black, white, the kept colours, then zero padding up to `target`
/// colours.
pub open spec fn assembled_palette(kept: Seq<u32>, target: int) -> Seq<u8> {
    seq![0u8, 0u8, 0u8, 255u8, 255u8, 255u8] + colors_bytes(kept) + Seq::new(
        (3 * (target - 2 - kept.len())) as nat,
        |i: int| 0u8,
    )
}

/// Per-colour pixel counts of a usage record, in table order.
pub open spec fn weights_of(ev: Seq<(u32, nat)>, colors: Seq<u32>) -> Seq<u128> {
    colors.map_values(|c: u32| weight(ev, c) as u128)
}

/// The palette that optimisation yields for these frames: the 254 most used colours (253 when
/// a slot is kept free for transparency; earlier first use wins among equals), black and white
/// dropped from them, after a black and a white entry, padded with zeros to a power-of-two
/// number of colours that leaves the free slot, when one is kept, as the last entry.
pub open spec fn is_optimized_palette(
    frames: Seq<GifFrame>,
    global: Option<Seq<u8>>,
    reserve: bool,
    palette: Seq<u8>,
) -> bool {
    let ev = frames_events(frames, global);
    let colors = table_colors(ev);
    let r: int = if reserve { 1 } else { 0 };
    exists|ps: Seq<usize>, target: int|
        {
            &&& is_top_prefix(weights_of(ev, colors), 254 - r, ps)
            &&& is_pow2_ceiling(target, 2 + kept_colors(colors, ps).len() + r)
            &&& palette == assembled_palette(kept_colors(colors, ps), target)
        }
}

proof fn lemma_pow2_below(x: int, m: int)
    requires
        is_pow2(x),
        is_pow2(m),
        x < 2 * m,
    ensures
        x <= m,
    decreases m,
{
    if m > 1 && x > 1 {
        lemma_pow2_below(x / 2, m / 2);
    }
}

proof fn lemma_kept_len(colors: Seq<u32>, ps: Seq<usize>)
    ensures
        kept_colors(colors, ps).len() <= ps.len(),
    decreases ps.len(),
{
    if ps.len() > 0 {
        lemma_kept_len(colors, ps.drop_last());
    }
}

proof fn lemma_colors_bytes_len(cs: Seq<u32>)
    ensures
        colors_bytes(cs).len() == 3 * cs.len(),
    decreases cs.len(),
{
    if cs.len() > 0 {
        lemma_colors_bytes_len(cs.drop_last());
    }
}

/// Build an optimized (reduced) color palette from the frames.
/// This collects all colors across frames, counts frequency, and keeps the
/// most common 256 (or fewer) colors.
pub fn build_optimized_palette(frames: &Vec<GifFrame>, global_palette: &Option<Vec<u8>>, reserve: bool) -> (palette: Vec<u8>)
    ensures
        is_optimized_palette(frames@, opt_view(*global_palette), reserve, palette@),
        palette@.len() % 3 == 0,
        2 <= palette@.len() / 3 <= 256,
        is_pow2((palette@.len() / 3) as int),
{
    let ghost ev = frames_events(frames@, opt_view(*global_palette));
    let (colors, counts) = color_table(frames, global_palette);
    assert(counts@ =~= weights_of(ev, colors@));
    let r: usize = if reserve {
        1
    } else {
        0
    };
    let top: usize = 254 - r;
    let ps = top_positions(&counts, top);
    let mut palette: Vec<u8> = Vec::new();
    palette.push(0);
    palette.push(0);
    palette.push(0);
    palette.push(255);
    palette.push(255);
    palette.push(255);
    let ghost header = palette@;
    let mut kept_count: usize = 0;
    let mut i: usize = 0;
    while i < ps.len()
        invariant
            is_top_prefix(counts@, top as int, ps@),
            top <= 254,
            counts@.len() == colors@.len(),
            i <= ps@.len(),
            header == seq![0u8, 0u8, 0u8, 255u8, 255u8, 255u8],
            kept_count == kept_colors(colors@, ps@.take(i as int)).len(),
            kept_count <= i,
            palette@ == header + colors_bytes(kept_colors(colors@, ps@.take(i as int))),
        decreases ps@.len() - i,
    {
        let c = colors[ps[i]];
        let ghost before = kept_colors(colors@, ps@.take(i as int));
        assert(ps@.take(i + 1).drop_last() =~= ps@.take(i as int));
        if !(c == 0 || c == 0xFF_FFFF) {
            let ghost pal_before = palette@;
            palette.push(#[verifier::truncate] ((c / 65536) as u8));
            palette.push(((c / 256) % 256) as u8);
            palette.push((c % 256) as u8);
            kept_count = kept_count + 1;
            assert(kept_colors(colors@, ps@.take(i + 1)) == before.push(c));
            assert(before.push(c).drop_last() =~= before);
            assert(palette@ =~= header + colors_bytes(before.push(c)));
        }
        i = i + 1;
    }
    assert(ps@.take(ps@.len() as int) =~= ps@);
    let ghost kept = kept_colors(colors@, ps@);
    proof {
        lemma_kept_len(colors@, ps@);
        lemma_colors_bytes_len(kept);
    }
    let used: usize = 2 + kept_count + r;
    let mut target: usize = 1;
    while target < used
        invariant
            used == 2 + kept.len() + r,
            used <= 256,
            1 <= target < 2 * used,
            target <= 256,
            is_pow2(target as int),
        decreases 512 - target,
    {
        proof {
            reveal_with_fuel(is_pow2, 9);
            assert(is_pow2(128));
            lemma_pow2_below(target as int, 128);
        }
        assert(is_pow2((target * 2) as int)) by {
            assert((target * 2) as int / 2 == target as int);
        };
        target = target * 2;
    }
    let ghost filled = palette@;
    while palette.len() < 3 * target
        invariant
            filled.len() == 3 * (used - r),
            r <= 1,
            used <= target,
            target <= 512,
            palette@.len() <= 3 * target,
            palette@.len() >= filled.len(),
            palette@ == filled + Seq::new((palette@.len() - filled.len()) as nat, |j: int| 0u8),
        decreases 3 * target - palette@.len(),
    {
        let ghost prev = palette@;
        palette.push(0);
        assert(palette@ =~= filled + Seq::new((palette@.len() - filled.len()) as nat, |j: int| 0u8));
    }
    assert(palette@ =~= assembled_palette(kept, target as int));
    assert(is_top_prefix(weights_of(ev, colors@), top as int, ps@));
    assert((palette@.len() / 3) as int == target as int);
    palette
}

/// Sum of the frame delays.
pub open spec fn delay_total(frames: Seq<GifFrame>) -> int
    decreases frames.len(),
{
    if frames.len() == 0 {
        0
    } else {
        delay_total(frames.drop_last()) + frames.last().delay
    }
}

/// The target frame rate, at least 1.
pub open spec fn fps_target(s: CompressionSettings) -> int {
    if s.gif_target_fps == 0 {
        1
    } else {
        s.gif_target_fps as int
    }
}

pub open spec fn ceil_div(a: int, b: int) -> int {
    (a + b - 1) / b
}

/// Every how many frames one is kept. The source frame rate is 100·n / (sum of delays), or
/// 15 when all delays are zero; frames are dropped only with frame dropping on and a source
/// rate above the target, keeping one frame in ⌈source rate / target⌉.
pub open spec fn frame_stride_of(n: int, total_delay: int, s: CompressionSettings) -> int {
    let t = fps_target(s);
    if !s.gif_frame_drop {
        1
    } else if total_delay == 0 {
        if 15 > t {
            ceil_div(15, t)
        } else {
            1
        }
    } else if 100 * n > t * total_delay {
        ceil_div(100 * n, t * total_delay)
    } else {
        1
    }
}

/// Frame dropping brings the frame rate down to the target: with frame dropping on, keeping one
/// frame in `k` leaves at most the target rate (`100·n / total_delay / k ≤ target`, or
/// `15 / k ≤ target` for a GIF without delays).
pub proof fn law_stride_reaches_target(n: int, total_delay: int, s: CompressionSettings)
    requires
        n >= 0,
        total_delay >= 0,
        s.gif_frame_drop,
    ensures
        ({
            let k = frame_stride_of(n, total_delay, s);
            let t = fps_target(s);
            &&& k >= 1
            &&& total_delay == 0 ==> 15 <= t * k
            &&& total_delay > 0 ==> 100 * n <= t * total_delay * k
        }),
{
    let t = fps_target(s);
    let k = frame_stride_of(n, total_delay, s);
    if total_delay == 0 {
        if 15 > t {
            assert(15 <= t * ((15 + t - 1) / t) && (15 + t - 1) / t >= 1) by (nonlinear_arith)
                requires
                    t >= 1,
            {
                vstd::arithmetic::div_mod::lemma_fundamental_div_mod(15 + t - 1, t);
            }
        }
    } else {
        let b = t * total_delay;
        assert(b >= 1) by (nonlinear_arith)
            requires
                b == t * total_delay,
                t >= 1,
                total_delay >= 1,
        ;
        if 100 * n > b {
            assert(100 * n <= b * ((100 * n + b - 1) / b) && (100 * n + b - 1) / b >= 1) by (nonlinear_arith)
                requires
                    b >= 1,
                    100 * n > b,
            {
                vstd::arithmetic::div_mod::lemma_fundamental_div_mod(100 * n + b - 1, b);
            }
        }
    }
}

/// `q` is the least `k >= 1` with `a <= b·k`: it reaches `a` and `q - 1` does not.
proof fn lemma_ceil_div_least(a: int, b: int)
    requires
        b >= 1,
        a > b,
    ensures
        ceil_div(a, b) >= 2,
        a <= b * ceil_div(a, b),
        b * (ceil_div(a, b) - 1) < a,
{
    let q = (a + b - 1) / b;
    let r = (a + b - 1) % b;
    vstd::arithmetic::div_mod::lemma_fundamental_div_mod(a + b - 1, b);
    assert(0 <= r < b);
    assert(a <= b * q && b * (q - 1) < a && q >= 2) by (nonlinear_arith)
        requires
            a + b - 1 == b * q + r,
            0 <= r < b,
            a > b,
            b >= 1,
    ;
}

/// The stride is the least one that reaches the target rate. With frame dropping on and
/// `t` the target (`gif_target_fps`, 1 when that is 0): for a source of `n` frames whose delays
/// add up to `total_delay` > 0 and a rate above the target (`100·n > t·total_delay`), the
/// stride `k` keeps the rate at most the target (`100·n ≤ t·total_delay·k`) while `k - 1`
/// would not (`100·n > t·total_delay·(k - 1)`); for a GIF without delays (read as 15 frames a
/// second) the same holds of 15; in every other case every frame is kept (`k == 1`).
pub proof fn law_stride_is_least(n: int, total_delay: int, s: CompressionSettings)
    requires
        n >= 0,
        total_delay >= 0,
    ensures
        ({
            let k = frame_stride_of(n, total_delay, s);
            let t: int = if s.gif_target_fps == 0 { 1 } else { s.gif_target_fps as int };
            &&& k >= 1
            &&& !s.gif_frame_drop ==> k == 1
            &&& s.gif_frame_drop && total_delay > 0 && 100 * n > t * total_delay ==> 100 * n <= t
                * total_delay * k && 100 * n > t * total_delay * (k - 1)
            &&& s.gif_frame_drop && total_delay > 0 && 100 * n <= t * total_delay ==> k == 1
            &&& s.gif_frame_drop && total_delay == 0 && 15 > t ==> 15 <= t * k && 15 > t * (k - 1)
            &&& s.gif_frame_drop && total_delay == 0 && 15 <= t ==> k == 1
        }),
{
    let t: int = if s.gif_target_fps == 0 { 1 } else { s.gif_target_fps as int };
    assert(t == fps_target(s));
    if s.gif_frame_drop {
        if total_delay == 0 {
            if 15 > t {
                lemma_ceil_div_least(15, t);
            }
        } else {
            let b = t * total_delay;
            assert(b >= 1) by (nonlinear_arith)
                requires
                    b == t * total_delay,
                    t >= 1,
                    total_delay >= 1,
            ;
            if 100 * n > b {
                lemma_ceil_div_least(100 * n, b);
                let k = ceil_div(100 * n, b);
                assert(t * total_delay * k == b * k && t * total_delay * (k - 1) == b * (k - 1)) by (nonlinear_arith)
                    requires
                        b == t * total_delay,
                ;
            }
        }
    }
}

proof fn lemma_delay_total_bound(frames: Seq<GifFrame>)
    ensures
        0 <= delay_total(frames) <= 65535 * frames.len(),
    decreases frames.len(),
{
    if frames.len() > 0 {
        lemma_delay_total_bound(frames.drop_last());
    }
}

/// Every how many frames one is kept (1 keeps all).
pub fn frame_stride(frames: &Vec<GifFrame>, settings: &CompressionSettings) -> (k: u128)
    ensures
        k == frame_stride_of(frames@.len() as int, delay_total(frames@), *settings),
        k >= 1,
        k <= 100 * frames@.len() + 15,
{
    let t: u128 = if settings.gif_target_fps == 0 {
        1
    } else {
        settings.gif_target_fps as u128
    };
    if !settings.gif_frame_drop {
        return 1;
    }
    let mut total: u128 = 0;
    let mut i: usize = 0;
    while i < frames.len()
        invariant
            i <= frames@.len(),
            total == delay_total(frames@.take(i as int)),
            total <= 65535 * i,
        decreases frames@.len() - i,
    {
        assert(frames@.take(i + 1).drop_last() =~= frames@.take(i as int));
        total = total + frames[i].delay as u128;
        i = i + 1;
    }
    assert(frames@.take(frames@.len() as int) =~= frames@);
    let n: u128 = frames.len() as u128;
    if total == 0 {
        if 15 > t {
            let r = (15 + t - 1) / t;
            assert(r >= 1 && r <= 15) by (nonlinear_arith)
                requires
                    t >= 1,
                    15 > t,
                    r as int == (15 + t - 1) as int / t as int,
            ;
            r
        } else {
            1
        }
    } else {
        assert(t * total <= 255 * (65535 * n)) by (nonlinear_arith)
            requires
                t <= 255,
                total <= 65535 * n,
        ;
        assert(n <= 0xffff_ffff_ffff_ffff);
        if 100 * n > t * total {
            let d = t * total;
            assert(d >= 1) by (nonlinear_arith)
                requires
                    t >= 1,
                    total >= 1,
                    d == t * total,
            ;
            let r = (100 * n + d - 1) / d;
            assert(r >= 1 && r <= 100 * n) by (nonlinear_arith)
                requires
                    d >= 1,
                    100 * n > d,
                    r as int == (100 * n + d - 1) as int / d as int,
            ;
            r
        } else {
            1
        }
    }
}

/// The per-frame delay (hundredths of a second) for the target frame rate.
pub open spec fn frame_delay_of(s: CompressionSettings) -> int {
    100int / fps_target(s)
}

/// Two frames carry the same values.
pub open spec fn same_frame(a: GifFrame, b: GifFrame) -> bool {
    &&& a.delay == b.delay
    &&& a.dispose == b.dispose
    &&& a.transparent == b.transparent
    &&& a.needs_user_input == b.needs_user_input
    &&& a.top == b.top
    &&& a.left == b.left
    &&& a.width == b.width
    &&& a.height == b.height
    &&& a.interlaced == b.interlaced
    &&& opt_view(a.palette) == opt_view(b.palette)
    &&& a.buffer@ == b.buffer@
}

/// A copy of a frame.
pub fn copy_frame(f: &GifFrame) -> (r: GifFrame)
    ensures
        same_frame(r, *f),
{
    let palette = match &f.palette {
        Some(p) => {
            let q = p.clone();
            assert(q@ =~= p@);
            Some(q)
        },
        None => None,
    };
    let buffer = f.buffer.clone();
    assert(buffer@ =~= f.buffer@);
    GifFrame {
        delay: f.delay,
        dispose: f.dispose,
        transparent: f.transparent,
        needs_user_input: f.needs_user_input,
        top: f.top,
        left: f.left,
        width: f.width,
        height: f.height,
        interlaced: f.interlaced,
        palette,
        buffer,
    }
}

/// The frames that frame dropping keeps: every `k`-th, starting with the first.
pub open spec fn kept_frames(frames: Seq<GifFrame>, k: int) -> Seq<GifFrame> {
    Seq::new(ceil_div(frames.len() as int, k) as nat, |m: int| frames[m * k])
}

/// Frame sequences that agree frame by frame.
pub open spec fn same_frames(a: Seq<GifFrame>, b: Seq<GifFrame>) -> bool {
    a.len() == b.len() && forall|i: int| 0 <= i < a.len() ==> same_frame(#[trigger] a[i], b[i])
}

proof fn lemma_same_frames_events(a: Seq<GifFrame>, b: Seq<GifFrame>, g: Option<Seq<u8>>)
    requires
        same_frames(a, b),
    ensures
        frames_events(a, g) == frames_events(b, g),
    decreases a.len(),
{
    if a.len() > 0 {
        assert(same_frame(a[a.len() - 1], b[b.len() - 1]));
        assert(same_frames(a.drop_last(), b.drop_last())) by {
            assert forall|i: int| 0 <= i < a.drop_last().len() implies same_frame(
                #[trigger] a.drop_last()[i],
                b.drop_last()[i],
            ) by {
                assert(same_frame(a[i], b[i]));
            };
        };
        lemma_same_frames_events(a.drop_last(), b.drop_last(), g);
    }
}

/// The frames that frame dropping keeps.
pub fn keep_frames(frames: &Vec<GifFrame>, k: u128) -> (kept: Vec<GifFrame>)
    requires
        k >= 1,
    ensures
        same_frames(kept@, kept_frames(frames@, k as int)),
{
    let n = frames.len();
    let mut kept: Vec<GifFrame> = Vec::new();
    if n > 0 {
        let mut idx: usize = 0;
        assert(0 * (k as int) == 0);
        loop
            invariant_except_break
                idx < n,
                idx as int == kept@.len() * (k as int),
            invariant
                n == frames@.len(),
                n > 0,
                k >= 1,
                kept@.len() == 0 || (kept@.len() - 1) * k < n,
                forall|m: int|
                    0 <= m < kept@.len() ==> same_frame(#[trigger] kept@[m], frames@[m * k]),
            ensures
                kept@.len() >= 1,
                kept@.len() * k >= n,
            decreases n - idx,
        {
            let f = copy_frame(&frames[idx]);
            let ghost c = kept@.len() as int;
            kept.push(f);
            let rest: usize = n - idx;
            if (rest as u128) <= k {
                assert((c + 1) * (k as int) >= n) by (nonlinear_arith)
                    requires
                        idx as int == c * (k as int),
                        rest as int == n - idx,
                        rest as int <= k as int,
                ;
                break;
            }
            assert((idx as int) + (k as int) == (c + 1) * (k as int)) by (nonlinear_arith)
                requires
                    idx as int == c * (k as int),
            ;
            idx = idx + (k as usize);
        }
    }
    proof {
        let c = kept@.len() as int;
        let kk = k as int;
        let nn = n as int;
        assert(c == ceil_div(nn, kk)) by (nonlinear_arith)
            requires
                kk >= 1,
                nn >= 0,
                c * kk >= nn,
                c == 0 || (c - 1) * kk < nn,
                c == 0 ==> nn == 0,
        ;
        assert forall|m: int| 0 <= m < kept@.len() implies same_frame(
            #[trigger] kept@[m],
            kept_frames(frames@, k as int)[m],
        ) by {
            assert(kept_frames(frames@, k as int)[m] == frames@[m * k]);
        };
    }
    kept
}

/// The colour table written to the output GIF.
pub open spec fn planned_palette_ok(
    kept: Seq<GifFrame>,
    global: Option<Seq<u8>>,
    s: CompressionSettings,
    palette: Seq<u8>,
) -> bool {
    if s.gif_palette_optimize {
        is_optimized_palette(kept, global, any_transparent(kept), palette)
    } else {
        let g = match global {
            Some(p) => p,
            None => Seq::empty(),
        };
        palette == g.take((3 * (g.len() / 3)) as int)
    }
}

/// Some frame declares a transparent index.
pub open spec fn any_transparent(frames: Seq<GifFrame>) -> bool {
    exists|m: int| 0 <= m < frames.len() && (#[trigger] frames[m]).transparent is Some
}

/// Output frame `out` is input frame `f` with disposal "any", retimed to the target rate when
/// frames were dropped (its own delay otherwise), and, when the palette was optimised (and is
/// not empty), drawn with that palette: its own colour table dropped, every pixel re-quantised,
/// and transparency moved to the palette's last slot.
pub open spec fn planned_frame_ok(
    f: GifFrame,
    out: GifFrame,
    s: CompressionSettings,
    dropped: bool,
    global: Option<Seq<u8>>,
    palette: Seq<u8>,
) -> bool {
    &&& out.delay == if dropped {
        frame_delay_of(s)
    } else {
        f.delay as int
    }
    &&& out.dispose == Disposal::Any
    &&& out.needs_user_input == f.needs_user_input
    &&& out.top == f.top
    &&& out.left == f.left
    &&& out.width == f.width
    &&& out.height == f.height
    &&& out.interlaced == f.interlaced
    &&& if s.gif_palette_optimize && palette.len() / 3 > 0 {
        &&& out.palette is None
        &&& out.transparent == match f.transparent {
            Some(_) => Some((palette.len() / 3 - 1) as u8),
            None => None,
        }
        &&& out.buffer@ == requantized(f, global, palette)
    } else {
        &&& opt_view(out.palette) == opt_view(f.palette)
        &&& out.transparent == f.transparent
        &&& out.buffer@ == f.buffer@
    }
}

/// The last slot of an optimised palette that keeps one free is a black entry after index 0.
proof fn lemma_free_slot(frames: Seq<GifFrame>, global: Option<Seq<u8>>, palette: Seq<u8>)
    requires
        is_optimized_palette(frames, global, true, palette),
    ensures
        palette.len() % 3 == 0,
        3 <= palette.len() / 3 <= 256,
        palette[0] == 0 && palette[1] == 0 && palette[2] == 0,
        ({
            let t = palette.len() / 3 - 1;
            palette[3 * t] == 0 && palette[3 * t + 1] == 0 && palette[3 * t + 2] == 0
        }),
{
    let ev = frames_events(frames, global);
    let colors = table_colors(ev);
    let r: int = 1;
    let (ps, target) = choose|ps: Seq<usize>, target: int|
        {
            &&& is_top_prefix(weights_of(ev, colors), 254 - r, ps)
            &&& is_pow2_ceiling(target, 2 + kept_colors(colors, ps).len() + r)
            &&& palette == assembled_palette(kept_colors(colors, ps), target)
        };
    let kept = kept_colors(colors, ps);
    lemma_kept_len(colors, ps);
    lemma_colors_bytes_len(kept);
    assert(ps.len() <= 253);
    assert(target <= 256) by {
        reveal_with_fuel(is_pow2, 9);
        assert(is_pow2(256));
        lemma_pow2_below(target, 256);
    }
    let head = seq![0u8, 0u8, 0u8, 255u8, 255u8, 255u8];
    let pad = Seq::new((3 * (target - 2 - kept.len())) as nat, |i: int| 0u8);
    assert(palette == head + colors_bytes(kept) + pad);
    assert(palette.len() == 3 * target);
    let t = target - 1;
    assert(3 * t >= 6 + 3 * kept.len());
    assert(palette[3 * t] == pad[3 * t - 6 - 3 * kept.len()]);
    assert(palette[3 * t + 1] == pad[3 * t + 1 - 6 - 3 * kept.len()]);
    assert(palette[3 * t + 2] == pad[3 * t + 2 - 6 - 3 * kept.len()]);
    assert(palette.len() / 3 == target);
}

/// Transparency survives re-quantisation into an optimised palette that keeps a free slot: a
/// pixel ends up in that slot exactly when it carried the frame's transparent index, since no
/// colour is ever matched to the slot (it repeats black, which comes first).
pub proof fn law_transparency_kept(
    frames: Seq<GifFrame>,
    global: Option<Seq<u8>>,
    palette: Seq<u8>,
    f: GifFrame,
    source: Option<Seq<u8>>,
    j: int,
)
    requires
        is_optimized_palette(frames, global, true, palette),
        f.transparent is Some,
        0 <= j < f.buffer@.len(),
    ensures
        (requantized(f, source, palette)[j] == (palette.len() / 3 - 1) as u8) <==> f.buffer@[j]
            == f.transparent->0,
{
    lemma_free_slot(frames, global, palette);
    let n = (palette.len() / 3) as int;
    let t = n - 1;
    let idx = f.buffer@[j];
    assert(requantized(f, source, palette)[j] == requantized_pixel(f, source, palette, idx));
    assert(t as u8 == t);
    if f.transparent != Some(idx) {
        let src = source_palette(f, source);
        if (idx as int) < src.len() / 3 {
            let (r, g, b) = (src[3 * idx], src[3 * idx + 1], src[3 * idx + 2]);
            lemma_closest_is_first_minimum(r, g, b, palette, n);
            let k = closest_among(r, g, b, palette, n);
            assert(color_distance(r, g, b, palette, t) == color_distance(r, g, b, palette, 0));
            assert(k != t);
            assert(k as u8 == k);
        }
    }
}

/// The re-encoding plan for a GIF: the colour table and the frames to write.
pub struct GifPlan {
    pub palette: Vec<u8>,
    pub frames: Vec<GifFrame>,
}

/// `palette` and `out` are the plan for `frames`: the frames kept at the stride the settings
/// ask for, the colour table chosen for them, and each kept frame planned with it.
pub open spec fn is_gif_plan(
    frames: Seq<GifFrame>,
    global: Option<Seq<u8>>,
    s: CompressionSettings,
    palette: Seq<u8>,
    out: Seq<GifFrame>,
) -> bool {
    let k = frame_stride_of(frames.len() as int, delay_total(frames), s);
    let kept = kept_frames(frames, k);
    &&& planned_palette_ok(kept, global, s, palette)
    &&& palette.len() % 3 == 0
    &&& out.len() == kept.len()
    &&& forall|m: int|
        0 <= m < kept.len() ==> planned_frame_ok(#[trigger] kept[m], out[m], s, k > 1, global, palette)
}

/// The code of a disposal method in a GIF stream.
pub open spec fn disposal_code(d: Disposal) -> u8 {
    match d {
        Disposal::Any => 0,
        Disposal::Keep => 1,
        Disposal::Background => 2,
        Disposal::Previous => 3,
    }
}

/// A frame as plain values: (delay, disposal code, transparent index, waits for input),
/// (top, left, width, height, interlaced), (own colour table, pixel indices).
pub open spec fn frame_view(f: GifFrame) -> (
    (u16, u8, Option<u8>, bool),
    (u16, u16, u16, u16, bool),
    (Option<Seq<u8>>, Seq<u8>),
) {
    (
        (f.delay, disposal_code(f.dispose), f.transparent, f.needs_user_input),
        (f.top, f.left, f.width, f.height, f.interlaced),
        (opt_view(f.palette), f.buffer@),
    )
}

/// Frames as plain values.
pub open spec fn frames_view(fs: Seq<GifFrame>) -> Seq<(
    (u16, u8, Option<u8>, bool),
    (u16, u16, u16, u16, bool),
    (Option<Seq<u8>>, Seq<u8>),
)> {
    fs.map_values(|f: GifFrame| frame_view(f))
}

/// Plans the optimised GIF: drops frames down to the target frame rate (retiming the kept
/// frames when some were dropped), chooses the colour table (optimised, with a free slot for
/// transparency where a frame needs one, or the global one) and re-quantises pixels to it.
pub fn plan_gif(frames: &Vec<GifFrame>, global_palette: &Option<Vec<u8>>, settings: &CompressionSettings) -> (plan: GifPlan)
    ensures
        is_gif_plan(frames@, opt_view(*global_palette), *settings, plan.palette@, plan.frames@),
        (forall|i: int| 0 <= i < frames@.len() ==> (#[trigger] frames@[i]).buffer@.len() == frames@[i].width * frames@[i].height)
            ==> forall|m: int| 0 <= m < plan.frames@.len() ==> (#[trigger] plan.frames@[m]).buffer@.len()
                == plan.frames@[m].width * plan.frames@[m].height,
{
    let k = frame_stride(frames, settings);
    let kept = keep_frames(frames, k);
    let ghost kept_spec = kept_frames(frames@, k as int);
    proof {
        lemma_same_frames_events(kept@, kept_spec, opt_view(*global_palette));
    }
    let t: u16 = if settings.gif_target_fps == 0 {
        1
    } else {
        settings.gif_target_fps as u16
    };
    let new_delay: u16 = 100 / t;
    let mut reserve = false;
    let mut i: usize = 0;
    while i < kept.len()
        invariant
            i <= kept@.len(),
            same_frames(kept@, kept_spec),
            reserve <==> exists|m: int| 0 <= m < i && (#[trigger] kept_spec[m]).transparent is Some,
        decreases kept@.len() - i,
    {
        assert(same_frame(kept@[i as int], kept_spec[i as int]));
        if kept[i].transparent.is_some() {
            reserve = true;
        }
        i = i + 1;
    }
    assert(reserve == any_transparent(kept_spec));
    let palette: Vec<u8> = if settings.gif_palette_optimize {
        let p = build_optimized_palette(&kept, global_palette, reserve);
        p
    } else {
        let g: Vec<u8> = match global_palette {
            Some(p) => p.clone(),
            None => Vec::new(),
        };
        let whole = g.len() / 3 * 3;
        let mut q: Vec<u8> = Vec::new();
        let mut i: usize = 0;
        while i < whole
            invariant
                whole <= g@.len(),
                i <= whole,
                q@ == g@.take(i as int),
            decreases whole - i,
        {
            q.push(g[i]);
            assert(g@.take(i + 1) =~= g@.take(i as int).push(g@[i as int]));
            i = i + 1;
        }
        assert(opt_view(*global_palette) matches Some(gp) ==> gp =~= g@);
        q
    };
    let num_colors = palette.len() / 3;
    let optimize = settings.gif_palette_optimize && num_colors > 0;
    if optimize {
        assert(1 <= palette@.len() / 3 <= 256);
    }
    let mut out: Vec<GifFrame> = Vec::new();
    let mut m: usize = 0;
    while m < kept.len()
        invariant
            same_frames(kept@, kept_spec),
            new_delay == frame_delay_of(*settings),
            num_colors == palette@.len() / 3,
            optimize == (settings.gif_palette_optimize && num_colors > 0),
            optimize ==> 1 <= palette@.len() / 3 <= 256,
            m <= kept@.len(),
            out@.len() == m,
            forall|j: int|
                0 <= j < m ==> planned_frame_ok(
                    #[trigger] kept_spec[j],
                    out@[j],
                    *settings,
                    k > 1,
                    opt_view(*global_palette),
                    palette@,
                ),
        decreases kept@.len() - m,
    {
        let f = &kept[m];
        assert(same_frame(kept@[m as int], kept_spec[m as int]));
        let delay = if k > 1 {
            new_delay
        } else {
            f.delay
        };
        let nf = if optimize {
            let px = requantize_frame(f, global_palette, palette.as_slice());
            assert(px@ =~= requantized(kept_spec[m as int], opt_view(*global_palette), palette@));
            let tr = match f.transparent {
                Some(_) => Some((num_colors - 1) as u8),
                None => None,
            };
            GifFrame {
                delay,
                dispose: Disposal::Any,
                transparent: tr,
                needs_user_input: f.needs_user_input,
                top: f.top,
                left: f.left,
                width: f.width,
                height: f.height,
                interlaced: f.interlaced,
                palette: None,
                buffer: px,
            }
        } else {
            let b = f.buffer.clone();
            assert(b@ =~= f.buffer@);
            let pal = match &f.palette {
                Some(p) => {
                    let q = p.clone();
                    assert(q@ =~= p@);
                    Some(q)
                },
                None => None,
            };
            GifFrame {
                delay,
                dispose: Disposal::Any,
                transparent: f.transparent,
                needs_user_input: f.needs_user_input,
                top: f.top,
                left: f.left,
                width: f.width,
                height: f.height,
                interlaced: f.interlaced,
                palette: pal,
                buffer: b,
            }
        };
        out.push(nf);
        m = m + 1;
    }
    proof {
        if forall|i: int| 0 <= i < frames@.len() ==> (#[trigger] frames@[i]).buffer@.len() == frames@[i].width * frames@[i].height {
            assert forall|j: int| 0 <= j < out@.len() implies (#[trigger] out@[j]).buffer@.len() == out@[j].width * out@[j].height by {
                let n = frames@.len() as int;
                let kk = k as int;
                assert(j * kk < n) by (nonlinear_arith)
                    requires
                        0 <= j < (n + kk - 1) / kk,
                        kk >= 1,
                        n >= 0,
                ;
                assert(kept_spec[j] == frames@[j * kk]);
                assert(frames@[j * kk].buffer@.len() == frames@[j * kk].width * frames@[j * kk].height);
                assert(planned_frame_ok(kept_spec[j], out@[j], *settings, k > 1, opt_view(*global_palette), palette@));
            }
        }
    }
    GifPlan { palette, frames: out }
}

} // verus!
