//! The verified core of a peer-to-peer directory-synchronization tool: the
//! chunk wire codec, the brace-framed JSON carving, path component handling,
//! the per-file chunk reader with bounded in-flight slots, the reader
//! manager, the out-of-order reassembly writer, and the bounded-concurrency
//! session state machine that both sides' control loops run.

use vstd::prelude::*;

pub mod errors;
pub mod file_chunk;
pub mod file_reader;
pub mod file_reader_manager;
pub mod file_writer;
pub mod json_frame;
pub mod messages;
pub mod paths;
pub mod session;

verus! {

/// Largest payload a single chunk may carry on the wire, in bytes.
pub const FILE_CHUNK_SIZE: usize = 8 * 1024 * 1024;

/// Size of a full chunk frame: two big-endian `u64` header words plus the payload.
pub const FILE_CHUNK_MAX_SIZE: usize = 16 + FILE_CHUNK_SIZE;

} // verus!
