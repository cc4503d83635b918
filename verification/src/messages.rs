use vstd::prelude::*;

use crate::paths::FileEntry;

verus! {

/// The kinds of request a receiver opens the control connection with.
#[derive(Debug)]
pub enum DSMessageType {
    GetFileList,
}

/// The first control message of a session: the receiver asks the sender
/// for the list of files under its root.
#[derive(Debug)]
pub struct DSMessage {
    pub message_type: DSMessageType,
}

/// The sender's reply on the control connection: every file under its
/// root, in list order. The index of an entry in `files` is the file id
/// used on the wire for the rest of the session.
#[derive(Debug)]
pub struct MessageFiles {
    pub files: Vec<FileEntry>,
}

/// The single message a receiver sends on a fresh data connection: the id
/// of the file whose chunks that connection should carry.
#[derive(Debug)]
pub struct DownloadFile {
    pub id: u32,
}

/// Progress events handed to the progress reporter.
pub enum LoggerMessage {
    /// A file began to transfer; sent once per file that starts.
    StartFile { id: u32, name: String, size: u64 },
    /// One chunk of `data` bytes was observed for the file.
    AddData { id: u32, data: u64 },
    /// The file completed; sent exactly once per finished file.
    FinishFile { id: u32 },
}

/// Control events sent to the orchestrator's control loop by sub-streams
/// and writers.
#[derive(Clone, Copy, Debug, PartialEq, Eq, Structural)]
pub enum FileStreamMessage {
    /// A sub-stream began serving the file.
    Start(u32),
    /// A sub-stream (sender side) or the writer (receiver side) saw the
    /// file through to its end.
    Finish(u32),
}

/// The requests understood by the reader-manager custodian.
#[derive(Clone, Copy, Debug)]
pub enum FileReaderMessage {
    /// Look up (and on first use create) the reader for the file id.
    GetReader(u32),
    /// The reader for the file id has produced all its bytes.
    ReaderFinished(u32),
}

} // verus!
