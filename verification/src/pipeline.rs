//! Decisions of the compression pipeline: which files to compress, in what order, what each
//! result means for the file's record, and which progress messages to report.
//!
//! The caller runs the loop: it asks for the next step, does the compression work the step
//! names, and hands the outcome back.

use vstd::prelude::*;
use crate::media::{CompressMessage, MediaInfo, MediaStatus};

verus! {

/// Indices (in increasing order) of the first `n` files that are enabled and compressible.
pub open spec fn selected_upto(media: Seq<MediaInfo>, n: int) -> Seq<usize>
    decreases n,
{
    if n <= 0 {
        Seq::empty()
    } else {
        let s = selected_upto(media, n - 1);
        if media[n - 1].enabled && media[n - 1].media_type.compressible() {
            s.push((n - 1) as usize)
        } else {
            s
        }
    }
}

/// Indices of the files the pipeline compresses: enabled and of a compressible type.
pub open spec fn selected(media: Seq<MediaInfo>) -> Seq<usize> {
    selected_upto(media, media.len() as int)
}

/// Collects the indices of the files to compress, in file order.
pub fn compressible_indices(media: &Vec<MediaInfo>) -> (r: Vec<usize>)
    ensures
        r@ == selected(media@),
{
    let mut r: Vec<usize> = Vec::new();
    let mut i: usize = 0;
    while i < media.len()
        invariant
            i <= media@.len(),
            r@ == selected_upto(media@, i as int),
        decreases media@.len() - i,
    {
        if media[i].enabled && media[i].media_type.is_compressible() {
            r.push(i);
        }
        i = i + 1;
    }
    r
}

/// The result of compressing one file, as reported by the worker.
pub enum FileOutcome {
    /// The file was re-encoded; its size on disk is now this many bytes.
    Compressed(u64),
    /// Compression failed with this message.
    Failed(String),
}

/// What the pipeline does next.
#[derive(Debug, Clone, Copy, PartialEq, Eq, Structural)]
pub enum PipelineStep {
    /// Stop: the user cancelled.
    Cancel,
    /// Compress the file with this index.
    Compress(usize),
    /// All files are done: clean up XML, strip thumbnails and repack.
    Repack,
}

/// Progress of one pipeline run over a fixed list of files.
pub struct PipelineRun {
    /// Indices of the files to compress, in order.
    pub order: Vec<usize>,
    /// How many of them are done.
    pub completed: usize,
}

/// `m` is `old` with file `idx` given the compressed size that `outcome` implies.
pub open spec fn outcome_applied(old: Seq<MediaInfo>, m: Seq<MediaInfo>, idx: int, outcome: FileOutcome) -> bool {
    &&& m.len() == old.len()
    &&& forall|j: int| 0 <= j < m.len() && j != idx ==> #[trigger] m[j] == old[j]
    &&& m[idx].relative_path == old[idx].relative_path
    &&& m[idx].extracted_path == old[idx].extracted_path
    &&& m[idx].media_type == old[idx].media_type
    &&& m[idx].original_size == old[idx].original_size
    &&& m[idx].enabled == old[idx].enabled
    &&& m[idx].status == old[idx].status
    &&& m[idx].compressed_size == match outcome {
        FileOutcome::Compressed(n) => if n < old[idx].original_size {
            n
        } else {
            old[idx].original_size
        },
        FileOutcome::Failed(_) => old[idx].original_size,
    }
}

/// The status a file ends in: done when it got smaller, skipped when it did not, failed on error.
pub open spec fn outcome_status(original: u64, outcome: FileOutcome) -> MediaStatus {
    match outcome {
        FileOutcome::Compressed(n) => if n < original {
            MediaStatus::Done
        } else {
            MediaStatus::Skipped
        },
        FileOutcome::Failed(_) => MediaStatus::Failed,
    }
}

/// A re-encoded file of `new_size` bytes is written back over one of `original_size` bytes
/// only when it is smaller; otherwise the original stays as it was.
pub open spec fn replaces_original(original_size: int, new_size: int) -> bool {
    new_size < original_size
}

/// Decides whether a re-encoded file (of `new_size` bytes) replaces the original.
pub fn keeps_reencode(original_size: u64, new_size: u64) -> (r: bool)
    ensures
        r == replaces_original(original_size as int, new_size as int),
{
    new_size < original_size
}

/// The bytes to write back for a re-encoded file: the new bytes where they are smaller than the
/// original's `original_size`, else `None`, and the original stays.
pub fn replacement_bytes(original_size: u64, encoded: Vec<u8>) -> (r: Option<Vec<u8>>)
    ensures
        replaces_original(original_size as int, encoded@.len() as int) ==> r == Some(encoded),
        !replaces_original(original_size as int, encoded@.len() as int) ==> r is None,
{
    if (encoded.len() as u64) < original_size {
        Some(encoded)
    } else {
        None
    }
}

/// A re-encoded file is written back exactly when the run records it as done: a file that is
/// not replaced keeps its original size on disk, which the run reports as skipped.
pub proof fn law_written_back_iff_done(original_size: u64, new_size: u64)
    ensures
        replaces_original(original_size as int, new_size as int) <==> outcome_status(
            original_size,
            FileOutcome::Compressed(new_size),
        ) == MediaStatus::Done,
        outcome_status(original_size, FileOutcome::Compressed(original_size)) == MediaStatus::Skipped,
{
}

impl PipelineRun {
    /// The run is consistent with the file list it was made for.
    pub open spec fn wf(&self, media: Seq<MediaInfo>) -> bool {
        &&& self.order@ == selected(media)
        &&& self.completed <= self.order@.len()
    }

    /// A run over the enabled, compressible files of `media`.
    pub fn new(media: &Vec<MediaInfo>) -> (r: Self)
        ensures
            r.wf(media@),
            r.completed == 0,
    {
        PipelineRun { order: compressible_indices(media), completed: 0 }
    }

    /// Number of files the run compresses.
    pub fn total(&self) -> (n: usize)
        ensures
            n == self.order@.len(),
    {
        self.order.len()
    }

    /// The next step: cancel whenever cancelling was asked for, otherwise compress the next
    /// file, or repack once every file is done.
    pub fn next_step(&self, cancelled: bool) -> (s: PipelineStep)
        requires
            self.completed <= self.order@.len(),
        ensures
            cancelled ==> s == PipelineStep::Cancel,
            !cancelled && self.completed < self.order@.len() ==> s == PipelineStep::Compress(
                self.order@[self.completed as int],
            ),
            !cancelled && self.completed == self.order@.len() ==> s == PipelineStep::Repack,
    {
        if cancelled {
            PipelineStep::Cancel
        } else if self.completed < self.order.len() {
            PipelineStep::Compress(self.order[self.completed])
        } else {
            PipelineStep::Repack
        }
    }

    /// Messages announcing the next file: progress, then the file entering processing.
    pub fn begin_file(&self, file_name: String) -> (msgs: Vec<CompressMessage>)
        requires
            self.completed < self.order@.len(),
        ensures
            msgs@.len() == 2,
            msgs@[0] matches CompressMessage::Progress(c, t, f) && c == self.completed && t
                == self.order@.len() && f@ == file_name@,
            msgs@[1] == CompressMessage::StatusUpdate(
                self.order@[self.completed as int],
                MediaStatus::Processing,
                0,
            ),
    {
        let mut msgs: Vec<CompressMessage> = Vec::new();
        msgs.push(CompressMessage::Progress(self.completed, self.order.len(), file_name));
        msgs.push(
            CompressMessage::StatusUpdate(self.order[self.completed], MediaStatus::Processing, 0),
        );
        msgs
    }

    /// Records the outcome for the current file: a file that did not get smaller keeps its
    /// original size (skipped), a failed one too (failed, with an error message); the run moves
    /// on to the next file. Returns the messages to report.
    pub fn finish_file(
        &mut self,
        media: &mut Vec<MediaInfo>,
        file_name: &str,
        outcome: FileOutcome,
    ) -> (msgs: Vec<CompressMessage>)
        requires
            old(self).wf(old(media)@),
            old(self).completed < old(self).order@.len(),
        ensures
            final(self).wf(final(media)@),
            final(self).order@ == old(self).order@,
            final(self).completed == old(self).completed + 1,
            ({
                let idx = old(self).order@[old(self).completed as int] as int;
                let orig = old(media)@[idx].original_size;
                let status = outcome_status(orig, outcome);
                &&& outcome_applied(old(media)@, final(media)@, idx, outcome)
                &&& final(media)@[idx].compressed_size <= orig
                &&& msgs@.len() >= 1
                &&& msgs@[0] == CompressMessage::StatusUpdate(
                    idx as usize,
                    status,
                    final(media)@[idx].compressed_size,
                )
                &&& (match outcome {
                    FileOutcome::Failed(e) => msgs@.len() == 2 && (msgs@[1] matches CompressMessage::Error(t) && t@ == "Failed to compress "@ + file_name@ + ": "@ + e@),
                    FileOutcome::Compressed(_) => msgs@.len() == 1,
                })
            }),
    {
        let total = self.order.len();
        let idx = self.order[self.completed];
        proof {
            lemma_selected_in_range(media@, media@.len() as int, self.completed as int);
        }
        let orig = media[idx].original_size;
        let mut msgs: Vec<CompressMessage> = Vec::new();
        let ghost old_media = media@;
        match outcome {
            FileOutcome::Compressed(n) => {
                let size = if n < orig {
                    n
                } else {
                    orig
                };
                let mut m = media[idx].clone_record();
                m.compressed_size = size;
                media.set(idx, m);
                if n < orig {
                    msgs.push(CompressMessage::StatusUpdate(idx, MediaStatus::Done, size));
                } else {
                    msgs.push(CompressMessage::StatusUpdate(idx, MediaStatus::Skipped, size));
                }
            },
            FileOutcome::Failed(e) => {
                let mut m = media[idx].clone_record();
                m.compressed_size = orig;
                media.set(idx, m);
                msgs.push(CompressMessage::StatusUpdate(idx, MediaStatus::Failed, orig));
                let mut text = String::from_str("Failed to compress ");
                text.append(file_name);
                text.append(": ");
                text.append(e.as_str());
                msgs.push(CompressMessage::Error(text));
            },
        }
        proof {
            assert(same_selection_fields(old_media, media@)) by {
                assert forall|j: int| 0 <= j < old_media.len() implies (#[trigger] old_media[j]).enabled == media@[j].enabled && old_media[j].media_type == media@[j].media_type by {
                    if j != idx as int {
                        assert(media@[j] == old_media[j]);
                    }
                };
            };
            lemma_selected_ignores_sizes(old_media, media@, media@.len() as int);
        }
        self.completed = self.completed + 1;
        msgs
    }

    /// Message sent when the user cancels.
    pub fn cancel_message() -> (m: CompressMessage)
        ensures
            m matches CompressMessage::Error(t) && t@ == "Cancelled by user"@,
    {
        CompressMessage::Error(String::from_str("Cancelled by user"))
    }

    /// Message sent before repacking: progress complete, with the repacking note.
    pub fn repack_message(&self) -> (m: CompressMessage)
        ensures
            m matches CompressMessage::Progress(c, t, f) && c == self.order@.len() && t
                == self.order@.len() && f@ == "Repacking PPTX..."@,
    {
        CompressMessage::Progress(
            self.order.len(),
            self.order.len(),
            String::from_str("Repacking PPTX..."),
        )
    }
}

/// Every selected index is in range, and the selection is strictly increasing.
proof fn lemma_selected_in_range(media: Seq<MediaInfo>, n: int, k: int)
    requires
        0 <= n <= media.len(),
        0 <= k < selected_upto(media, n).len(),
    ensures
        selected_upto(media, n)[k] < n,
    decreases n,
{
    if n > 0 {
        let s = selected_upto(media, n - 1);
        if k < s.len() {
            lemma_selected_in_range(media, n - 1, k);
        }
    }
}

/// Two file lists agree on which files are enabled and on their types.
pub open spec fn same_selection_fields(a: Seq<MediaInfo>, b: Seq<MediaInfo>) -> bool {
    forall|j: int|
        0 <= j < a.len() ==> (#[trigger] a[j]).enabled == b[j].enabled && a[j].media_type
            == b[j].media_type
}

/// The selection only looks at whether files are enabled and compressible.
proof fn lemma_selected_ignores_sizes(a: Seq<MediaInfo>, b: Seq<MediaInfo>, n: int)
    requires
        a.len() == b.len(),
        0 <= n <= a.len(),
        same_selection_fields(a, b),
    ensures
        selected_upto(a, n) == selected_upto(b, n),
    decreases n,
{
    if n > 0 {
        lemma_selected_ignores_sizes(a, b, n - 1);
        assert(a[n - 1].enabled == b[n - 1].enabled);
    }
}

proof fn lemma_selected_upto(media: Seq<MediaInfo>, n: int)
    requires
        0 <= n <= media.len(),
        media.len() <= usize::MAX,
    ensures
        forall|k: int| 0 <= k < selected_upto(media, n).len() ==> {
            let i = #[trigger] selected_upto(media, n)[k] as int;
            &&& 0 <= i < n
            &&& media[i].enabled
            &&& media[i].media_type.compressible()
        },
        forall|k: int, l: int|
            0 <= k < l < selected_upto(media, n).len() ==> #[trigger] selected_upto(media, n)[k]
                < #[trigger] selected_upto(media, n)[l],
        forall|i: int|
            0 <= i < n && media[i].enabled && media[i].media_type.compressible() ==> selected_upto(
                media,
                n,
            ).contains(i as usize),
    decreases n,
{
    if n > 0 {
        lemma_selected_upto(media, n - 1);
        let prev = selected_upto(media, n - 1);
        let cur = selected_upto(media, n);
        if media[n - 1].enabled && media[n - 1].media_type.compressible() {
            assert(cur == prev.push((n - 1) as usize));
            assert forall|k: int| 0 <= k < cur.len() implies {
                let i = #[trigger] cur[k] as int;
                &&& 0 <= i < n
                &&& media[i].enabled
                &&& media[i].media_type.compressible()
            } by {
                if k < prev.len() {
                    assert(cur[k] == prev[k]);
                }
            };
            assert forall|k: int, l: int| 0 <= k < l < cur.len() implies #[trigger] cur[k] < #[trigger] cur[l] by {
                assert(cur[k] == prev[k]);
                if l < prev.len() {
                    assert(cur[l] == prev[l]);
                }
            };
            assert forall|i: int| 0 <= i < n && media[i].enabled && media[i].media_type.compressible() implies cur.contains(i as usize) by {
                if i < n - 1 {
                    let k = choose|k: int| 0 <= k < prev.len() && prev[k] == i as usize;
                    assert(cur[k] == prev[k]);
                } else {
                    assert(cur[cur.len() - 1] == (n - 1) as usize);
                }
            };
        }
    }
}

/// A run compresses exactly the enabled files of a compressible type, each once, in file
/// order (for any file list that a `Vec` can hold).
pub proof fn law_selection_exact(media: Seq<MediaInfo>)
    requires
        media.len() <= usize::MAX,
    ensures
        forall|k: int| 0 <= k < selected(media).len() ==> {
            let i = #[trigger] selected(media)[k] as int;
            &&& 0 <= i < media.len()
            &&& media[i].enabled
            &&& media[i].media_type.compressible()
        },
        forall|k: int, l: int|
            0 <= k < l < selected(media).len() ==> #[trigger] selected(media)[k] < #[trigger] selected(media)[l],
        forall|i: int|
            0 <= i < media.len() && media[i].enabled && media[i].media_type.compressible() ==> selected(
                media,
            ).contains(i as usize),
{
    lemma_selected_upto(media, media.len() as int);
}

} // verus!
