//! The application's state: the loaded media files, progress and results, and how messages
//! from the compression worker and user actions change them.

use vstd::prelude::*;
use crate::media::{CompressMessage, MediaInfo, MediaStatus};

verus! {

/// Current application state.
#[derive(Debug, Clone, Copy, PartialEq, Eq, Structural)]
pub enum AppState {
    Idle,
    Loading,
    Ready,
    Compressing,
    Done,
    Error,
}

/// Everything the application shows besides file-system handles.
pub struct Session {
    pub state: AppState,
    pub media_files: Vec<MediaInfo>,
    pub progress_current: usize,
    pub progress_total: usize,
    pub progress_file: String,
    pub result_original: u64,
    pub result_compressed: u64,
    pub error_messages: Vec<String>,
}

/// `m` is `old` with file `idx` given `status`, and `size` when it is not 0.
pub open spec fn status_applied(old: Seq<MediaInfo>, m: Seq<MediaInfo>, idx: int, status: MediaStatus, size: u64) -> bool {
    &&& m.len() == old.len()
    &&& forall|j: int| 0 <= j < m.len() && j != idx ==> #[trigger] m[j] == old[j]
    &&& m[idx] == (MediaInfo {
        status,
        compressed_size: if size > 0 {
            size
        } else {
            old[idx].compressed_size
        },
        ..old[idx]
    })
}

impl Session {
    /// A fresh, idle session.
    pub fn new() -> (s: Self)
        ensures
            s.state == AppState::Idle,
            s.media_files@.len() == 0,
            s.progress_current == 0,
            s.progress_total == 0,
            s.progress_file@.len() == 0,
            s.result_original == 0,
            s.result_compressed == 0,
            s.error_messages@.len() == 0,
    {
        Session {
            state: AppState::Idle,
            media_files: Vec::new(),
            progress_current: 0,
            progress_total: 0,
            progress_file: String::new(),
            result_original: 0,
            result_compressed: 0,
            error_messages: Vec::new(),
        }
    }

    /// Extraction of a newly chosen file has started.
    pub fn begin_loading(&mut self)
        ensures
            *final(self) == (Session { state: AppState::Loading, ..*old(self) }),
    {
        self.state = AppState::Loading;
    }

    /// Extraction succeeded: the file's media are listed and compression can start.
    pub fn loaded(&mut self, media: Vec<MediaInfo>)
        ensures
            *final(self) == (Session { state: AppState::Ready, media_files: media, ..*old(self) }),
    {
        self.media_files = media;
        self.state = AppState::Ready;
    }

    /// Extraction (or setting it up) failed with this message.
    pub fn load_failed(&mut self, message: String)
        ensures
            final(self).state == AppState::Error,
            final(self).error_messages@ == old(self).error_messages@.push(message),
            final(self).media_files == old(self).media_files,
            final(self).progress_current == old(self).progress_current,
            final(self).progress_total == old(self).progress_total,
            final(self).progress_file == old(self).progress_file,
            final(self).result_original == old(self).result_original,
            final(self).result_compressed == old(self).result_compressed,
    {
        self.error_messages.push(message);
        self.state = AppState::Error;
    }

    /// Compression has started: earlier errors are dropped.
    pub fn begin_compression(&mut self)
        ensures
            final(self).state == AppState::Compressing,
            final(self).error_messages@.len() == 0,
            final(self).media_files == old(self).media_files,
            final(self).progress_current == old(self).progress_current,
            final(self).progress_total == old(self).progress_total,
            final(self).progress_file == old(self).progress_file,
            final(self).result_original == old(self).result_original,
            final(self).result_compressed == old(self).result_compressed,
    {
        self.state = AppState::Compressing;
        self.error_messages = Vec::new();
    }

    /// "Try again" after a failure: errors are dropped and the file is ready again.
    pub fn retry(&mut self)
        ensures
            final(self).state == AppState::Ready,
            final(self).error_messages@.len() == 0,
            final(self).media_files == old(self).media_files,
            final(self).progress_current == old(self).progress_current,
            final(self).progress_total == old(self).progress_total,
            final(self).progress_file == old(self).progress_file,
            final(self).result_original == old(self).result_original,
            final(self).result_compressed == old(self).result_compressed,
    {
        self.error_messages = Vec::new();
        self.state = AppState::Ready;
    }

    /// The chosen file is dropped: back to idle with no media listed.
    pub fn clear(&mut self)
        ensures
            final(self).state == AppState::Idle,
            final(self).media_files@.len() == 0,
            final(self).error_messages == old(self).error_messages,
            final(self).progress_current == old(self).progress_current,
            final(self).progress_total == old(self).progress_total,
            final(self).progress_file == old(self).progress_file,
            final(self).result_original == old(self).result_original,
            final(self).result_compressed == old(self).result_compressed,
    {
        self.state = AppState::Idle;
        self.media_files = Vec::new();
    }

    /// Applies one message from the compression worker.
    ///
    /// A status update for a known file sets its status (and its compressed size, when not 0);
    /// progress is recorded; `Finished` records the result sizes and ends in `Done`; errors are
    /// collected, and a fatal one ends in `Error`.
    pub fn apply_message(&mut self, msg: CompressMessage)
        ensures
            match msg {
                CompressMessage::StatusUpdate(idx, status, size) => {
                    &&& final(self).state == old(self).state
                    &&& final(self).progress_current == old(self).progress_current
                    &&& final(self).progress_total == old(self).progress_total
                    &&& final(self).progress_file@ == old(self).progress_file@
                    &&& final(self).result_original == old(self).result_original
                    &&& final(self).result_compressed == old(self).result_compressed
                    &&& final(self).error_messages@ == old(self).error_messages@
                    &&& if idx < old(self).media_files@.len() {
                        status_applied(
                            old(self).media_files@,
                            final(self).media_files@,
                            idx as int,
                            status,
                            size,
                        )
                    } else {
                        final(self).media_files@ == old(self).media_files@
                    }
                },
                CompressMessage::Progress(c, t, f) => {
                    &&& final(self).state == old(self).state
                    &&& final(self).media_files@ == old(self).media_files@
                    &&& final(self).progress_current == c
                    &&& final(self).progress_total == t
                    &&& final(self).progress_file@ == f@
                    &&& final(self).result_original == old(self).result_original
                    &&& final(self).result_compressed == old(self).result_compressed
                    &&& final(self).error_messages@ == old(self).error_messages@
                },
                CompressMessage::Finished(o, c) => {
                    &&& final(self).state == AppState::Done
                    &&& final(self).media_files@ == old(self).media_files@
                    &&& final(self).progress_current == old(self).progress_current
                    &&& final(self).progress_total == old(self).progress_total
                    &&& final(self).progress_file@.len() == 0
                    &&& final(self).result_original == o
                    &&& final(self).result_compressed == c
                    &&& final(self).error_messages@ == old(self).error_messages@
                },
                CompressMessage::Error(e) => {
                    &&& final(self).state == old(self).state
                    &&& final(self).media_files@ == old(self).media_files@
                    &&& final(self).progress_current == old(self).progress_current
                    &&& final(self).progress_total == old(self).progress_total
                    &&& final(self).progress_file@ == old(self).progress_file@
                    &&& final(self).result_original == old(self).result_original
                    &&& final(self).result_compressed == old(self).result_compressed
                    &&& final(self).error_messages@ == old(self).error_messages@.push(e)
                },
                CompressMessage::FatalError(e) => {
                    &&& final(self).state == AppState::Error
                    &&& final(self).media_files@ == old(self).media_files@
                    &&& final(self).progress_current == old(self).progress_current
                    &&& final(self).progress_total == old(self).progress_total
                    &&& final(self).progress_file@ == old(self).progress_file@
                    &&& final(self).result_original == old(self).result_original
                    &&& final(self).result_compressed == old(self).result_compressed
                    &&& final(self).error_messages@ == old(self).error_messages@.push(e)
                },
            },
    {
        match msg {
            CompressMessage::StatusUpdate(idx, status, compressed_size) => {
                if idx < self.media_files.len() {
                    let mut m = self.media_files[idx].clone_record();
                    m.status = status;
                    if compressed_size > 0 {
                        m.compressed_size = compressed_size;
                    }
                    self.media_files.set(idx, m);
                }
            },
            CompressMessage::Progress(current, total, file) => {
                self.progress_current = current;
                self.progress_total = total;
                self.progress_file = file;
            },
            CompressMessage::Finished(original, compressed) => {
                self.result_original = original;
                self.result_compressed = compressed;
                self.state = AppState::Done;
                self.progress_file = String::new();
            },
            CompressMessage::Error(msg) => {
                self.error_messages.push(msg);
            },
            CompressMessage::FatalError(msg) => {
                self.error_messages.push(msg);
                self.state = AppState::Error;
            },
        }
    }
}

/// The name of the compressed copy of an input file whose name without extension is `stem`.
pub fn compressed_file_name(stem: &str) -> (r: String)
    ensures
        r@ == stem@ + "_compressed.pptx"@,
{
    let mut r = String::from_str(stem);
    r.append("_compressed.pptx");
    r
}

} // verus!
