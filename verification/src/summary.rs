//! Figures shown to the user: savings percentages, the media list summary and per-file details.

use vstd::prelude::*;
use crate::media::{estimated_size_of, CompressionSettings, MediaInfo, MediaStatus};

verus! {

/// Whole percent of `original` that was saved by shrinking it to `compressed` (rounded down;
/// 0 when nothing was saved or `original` is 0).
pub open spec fn percent_saved_of(original: u64, compressed: u64) -> int {
    if original == 0 || compressed >= original {
        0
    } else {
        (original - compressed) * 100 / original as int
    }
}

/// Percentage of the original size saved, rounded down.
pub fn percent_saved(original: u64, compressed: u64) -> (p: u8)
    ensures
        p == percent_saved_of(original, compressed),
        p <= 100,
{
    if original == 0 || compressed >= original {
        return 0;
    }
    let saved = (original - compressed) as u128;
    let r = saved * 100 / (original as u128);
    assert(r <= 100) by (nonlinear_arith)
        requires
            saved <= original,
            original > 0,
            r as int == (saved as int) * 100 / (original as int),
    ;
    r as u8
}

/// The size a file is counted with in the summary: its compressed size once done (when known),
/// its original size once skipped or failed, otherwise the estimate.
pub open spec fn display_size_of(m: MediaInfo, s: CompressionSettings) -> int {
    match m.status {
        MediaStatus::Done => if m.compressed_size > 0 {
            m.compressed_size as int
        } else {
            estimated_size_of(m, s)
        },
        MediaStatus::Skipped => m.original_size as int,
        MediaStatus::Failed => m.original_size as int,
        _ => estimated_size_of(m, s),
    }
}

pub open spec fn total_original_of(media: Seq<MediaInfo>) -> int
    decreases media.len(),
{
    if media.len() == 0 {
        0
    } else {
        total_original_of(media.drop_last()) + media.last().original_size
    }
}

pub open spec fn total_display_of(media: Seq<MediaInfo>, s: CompressionSettings) -> int
    decreases media.len(),
{
    if media.len() == 0 {
        0
    } else {
        total_display_of(media.drop_last(), s) + display_size_of(media.last(), s)
    }
}

/// A file that was skipped or whose compression failed is counted at its original size, and a
/// list of such files shows its original total and no savings.
pub proof fn law_skipped_and_failed_count_original(media: Seq<MediaInfo>, s: CompressionSettings)
    requires
        forall|i: int|
            0 <= i < media.len() ==> (#[trigger] media[i]).status == MediaStatus::Skipped || media[i].status
                == MediaStatus::Failed,
    ensures
        forall|i: int| 0 <= i < media.len() ==> display_size_of(#[trigger] media[i], s) == media[i].original_size,
        total_display_of(media, s) == total_original_of(media),
        savings_of(total_original_of(media), total_display_of(media, s)) == 0,
    decreases media.len(),
{
    if media.len() > 0 {
        let init = media.drop_last();
        assert forall|i: int| 0 <= i < init.len() implies (#[trigger] init[i]).status == MediaStatus::Skipped
            || init[i].status == MediaStatus::Failed by {
            assert(init[i] == media[i]);
        }
        law_skipped_and_failed_count_original(init, s);
        assert(media.last() == media[media.len() - 1]);
    }
}

/// A file counts at its original size in the summary whenever it was skipped or failed,
/// whatever its recorded compressed size and the settings.
pub proof fn law_kept_file_counts_original(m: MediaInfo, s: CompressionSettings)
    requires
        m.status == MediaStatus::Skipped || m.status == MediaStatus::Failed,
    ensures
        display_size_of(m, s) == m.original_size,
{
}

/// Some file already has a final result (done, skipped or failed).
pub open spec fn has_actual_of(media: Seq<MediaInfo>) -> bool {
    exists|i: int|
        0 <= i < media.len() && (#[trigger] media[i].status == MediaStatus::Done || media[i].status
            == MediaStatus::Skipped || media[i].status == MediaStatus::Failed)
}

/// Savings percentage of the summary: whole percent of the total saved, 0 when the display
/// total is not smaller.
pub open spec fn savings_of(total: int, display: int) -> int {
    if total <= 0 || display >= total {
        0
    } else {
        (total - display) * 100 / total
    }
}

/// The summary line of the media list.
pub struct MediaSummary {
    pub file_count: usize,
    pub total_original: u64,
    pub display_total: u64,
    pub has_actual: bool,
    pub savings: u8,
    /// `total_original` as a human-readable size.
    pub original_text: String,
    /// `display_total` as a human-readable size.
    pub display_text: String,
}

/// The text that `bytesize::ByteSize`'s `Display` gives for a byte count.
pub uninterp spec fn byte_size_text(n: u64) -> Seq<char>;

/// Formats a byte count with `Display` for `bytesize::ByteSize` (decimal units, one decimal
/// place); the contract only names the result.
#[verifier::external_body]
fn size_text(n: u64) -> (s: String)
    ensures
        s@ == byte_size_text(n),
{
    bytesize::ByteSize(n).to_string()
}

/// Details shown under a file that got smaller: its new size, the bytes saved and the
/// percentage saved.
pub struct SavedDetail {
    pub compressed_text: String,
    pub saved_text: String,
    pub percent: u8,
}

/// The detail line for a file, present once it is done with a known compressed size.
pub fn saved_detail(m: &MediaInfo) -> (r: Option<SavedDetail>)
    ensures
        r is Some <==> m.status == MediaStatus::Done && m.compressed_size > 0,
        r matches Some(d) ==> {
            &&& d.compressed_text@ == byte_size_text(m.compressed_size)
            &&& d.saved_text@ == byte_size_text(
                if m.compressed_size >= m.original_size {
                    0u64
                } else {
                    (m.original_size - m.compressed_size) as u64
                },
            )
            &&& d.percent == percent_saved_of(m.original_size, m.compressed_size)
        },
{
    if m.status == MediaStatus::Done && m.compressed_size > 0 {
        let saved = m.original_size.saturating_sub(m.compressed_size);
        Some(
            SavedDetail {
                compressed_text: size_text(m.compressed_size),
                saved_text: size_text(saved),
                percent: percent_saved(m.original_size, m.compressed_size),
            },
        )
    } else {
        None
    }
}

proof fn lemma_totals_bound(media: Seq<MediaInfo>, s: CompressionSettings)
    ensures
        0 <= total_original_of(media) <= media.len() * 0xffff_ffff_ffff_ffff,
        0 <= total_display_of(media, s) <= media.len() * 0xffff_ffff_ffff_ffff,
    decreases media.len(),
{
    if media.len() > 0 {
        lemma_totals_bound(media.drop_last(), s);
    }
}

/// The summary totals fit in 64 bits.
pub open spec fn totals_fit_spec(media: Seq<MediaInfo>, s: CompressionSettings) -> bool {
    total_original_of(media) <= u64::MAX && total_display_of(media, s) <= u64::MAX
}

/// Whether the summary totals of this list fit in 64 bits (they always do for files that fit
/// on a disk).
pub fn totals_fit(media: &Vec<MediaInfo>, settings: &CompressionSettings) -> (b: bool)
    ensures
        b == totals_fit_spec(media@, *settings),
{
    let (t, d, _) = summary_totals(media, settings);
    t <= u64::MAX as u128 && d <= u64::MAX as u128
}

/// Totals over the media list: original bytes, the bytes expected (actual where known,
/// estimated otherwise), whether any actual result exists, and the savings percentage.
pub fn media_summary(media: &Vec<MediaInfo>, settings: &CompressionSettings) -> (r: MediaSummary)
    requires
        totals_fit_spec(media@, *settings),
    ensures
        r.file_count == media@.len(),
        r.total_original == total_original_of(media@),
        r.display_total == total_display_of(media@, *settings),
        r.has_actual == has_actual_of(media@),
        r.savings == savings_of(total_original_of(media@), total_display_of(media@, *settings)),
        r.original_text@ == byte_size_text(r.total_original),
        r.display_text@ == byte_size_text(r.display_total),
{
    let (total, display, has_actual) = summary_totals(media, settings);
    let total = total as u64;
    let display = display as u64;
    let savings: u8 = if total == 0 || display >= total {
        0
    } else {
        let a = (total - display) as u128;
        let r = a * 100 / (total as u128);
        assert(r <= 100) by (nonlinear_arith)
            requires
                a <= total,
                total > 0,
                r as int == (a as int) * 100 / (total as int),
        ;
        r as u8
    };
    MediaSummary {
        file_count: media.len(),
        total_original: total,
        display_total: display,
        has_actual,
        savings,
        original_text: size_text(total),
        display_text: size_text(display),
    }
}

fn summary_totals(media: &Vec<MediaInfo>, settings: &CompressionSettings) -> (r: (u128, u128, bool))
    ensures
        r.0 == total_original_of(media@),
        r.1 == total_display_of(media@, *settings),
        r.2 == has_actual_of(media@),
{
    let mut total: u128 = 0;
    let mut display: u128 = 0;
    let mut has_actual = false;
    let mut i: usize = 0;
    while i < media.len()
        invariant
            i <= media@.len(),
            total == total_original_of(media@.take(i as int)),
            display == total_display_of(media@.take(i as int), *settings),
            has_actual == has_actual_of(media@.take(i as int)),
            i <= 0xffff_ffff_ffff_ffff,
        decreases media@.len() - i,
    {
        let m = &media[i];
        proof {
            assert(media@.take(i + 1).drop_last() =~= media@.take(i as int));
            lemma_totals_bound(media@.take(i as int), *settings);
            assert(i * 0xffff_ffff_ffff_ffff + 0xffff_ffff_ffff_ffff <= 0xffff_ffff_ffff_ffff * 0x1_0000_0000_0000_0000) by (nonlinear_arith)
                requires
                    i <= 0xffff_ffff_ffff_ffff,
            ;
        }
        total = total + m.original_size as u128;
        let shown: u64 = match m.status {
            MediaStatus::Done => if m.compressed_size > 0 {
                m.compressed_size
            } else {
                m.estimated_size(settings)
            },
            MediaStatus::Skipped => m.original_size,
            MediaStatus::Failed => m.original_size,
            _ => m.estimated_size(settings),
        };
        display = display + shown as u128;
        let actual = match m.status {
            MediaStatus::Done => true,
            MediaStatus::Skipped => true,
            MediaStatus::Failed => true,
            _ => false,
        };
        proof {
            let t = media@.take(i + 1);
            if has_actual_of(media@.take(i as int)) {
                let k = choose|k: int|
                    0 <= k < media@.take(i as int).len() && (#[trigger] media@.take(
                        i as int,
                    )[k].status == MediaStatus::Done || media@.take(i as int)[k].status
                        == MediaStatus::Skipped || media@.take(i as int)[k].status
                        == MediaStatus::Failed);
                assert(t[k] == media@.take(i as int)[k]);
            }
            if actual {
                assert(t[i as int] == media@[i as int]);
            }
            if has_actual_of(t) {
                let k = choose|k: int|
                    0 <= k < t.len() && (#[trigger] t[k].status == MediaStatus::Done || t[k].status
                        == MediaStatus::Skipped || t[k].status == MediaStatus::Failed);
                if k < i {
                    assert(media@.take(i as int)[k] == t[k]);
                }
            }
        }
        has_actual = has_actual || actual;
        i = i + 1;
    }
    assert(media@.take(media@.len() as int) =~= media@);
    (total, display, has_actual)
}

} // verus!
