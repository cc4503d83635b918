use vstd::prelude::*;

use vstd::pervasive::VecAdditionalExecFns;

use crate::file_chunk::FileChunk;
use crate::file_reader::{FileReader, MAX_CHUNKS};
use crate::paths::{join_path, list_to_path, FileEntry};
use crate::FILE_CHUNK_SIZE;

verus! {

/// The manager's record for one file id.
pub enum ReaderState {
    /// No reader exists yet; the entry waits for the first request.
    Def(FileEntry),
    /// The file's reader, shared by every sub-stream serving the file.
    Reader(FileReader),
    /// The reader has produced the whole file and was retired.
    Closed,
}

/// What a `get_reader` request found.
#[derive(Clone, Copy, Debug, PartialEq, Eq, Structural)]
pub enum ReaderResult {
    /// The reader was created by this request; the caller must acquire a
    /// file-parallelism slot before serving it.
    FirstInstance,
    /// The reader already existed.
    Instance,
    /// The reader was already retired: the file's bytes have all been
    /// produced, and the requesting side has been told everything.
    NoReader,
}

/// Custodian of the per-file reader states on the sender side.
///
/// Every transition runs through this one value: a reader is created on
/// the first request for its id, shared on later requests, and retired
/// when it has produced its whole file. `FirstInstance` is therefore
/// returned at most once per id, and `NoReader` only after end of file.
pub struct FileReaderManager {
    /// One state per file id, indexed by id.
    pub states: Vec<ReaderState>,
}

impl FileReaderManager {
    /// Every existing reader satisfies its own invariant.
    pub open spec fn wf(&self) -> bool {
        forall|i: int|
            0 <= i < self.states@.len() ==> ((#[trigger] self.states@[i]) matches
            ReaderState::Reader(r) ==> r.wf())
    }

    /// Whether the id currently has a live reader.
    pub open spec fn has_reader(&self, i: int) -> bool {
        self.states@[i] is Reader
    }

    /// The live reader for the id.
    pub open spec fn reader_at(&self, i: int) -> FileReader {
        self.states@[i]->Reader_0
    }

    /// Takes ownership of the scanned file list; every id starts with no
    /// reader.
    pub fn new(files: Vec<FileEntry>) -> (m: FileReaderManager)
        ensures
            m.wf(),
            m.states@.len() == files@.len(),
            forall|i: int|
                0 <= i < files@.len() ==> ((#[trigger] m.states@[i]) matches ReaderState::Def(f)
                    && f == files@[i]),
    {
        let ghost orig = files@;
        let mut files = files;
        let mut states: Vec<ReaderState> = Vec::new();
        while files.len() > 0
            invariant
                orig.len() == states@.len() + files@.len(),
                files@ == orig.skip(states@.len() as int),
                forall|i: int|
                    0 <= i < states@.len() ==> ((#[trigger] states@[i]) matches ReaderState::Def(f)
                        && f == orig[i]),
            decreases files@.len(),
        {
            let ghost k = states@.len() as int;
            let e = files.remove(0);
            proof {
                assert(orig.skip(k)[0] == orig[k]);
                assert(orig.skip(k).drop_first() =~= orig.skip(k + 1));
            }
            states.push(ReaderState::Def(e));
        }
        FileReaderManager { states }
    }

    /// Looks up the reader for `id`, creating it on first request.
    ///
    /// The first request finds the entry's definition, builds a reader
    /// named after the entry's relative path, and reports `FirstInstance`;
    /// later requests report `Instance`; after the reader is retired every
    /// request reports `NoReader`.
    pub fn get_reader(&mut self, id: u32) -> (r: ReaderResult)
        requires
            old(self).wf(),
            (id as int) < old(self).states@.len(),
        ensures
            final(self).wf(),
            final(self).states@.len() == old(self).states@.len(),
            forall|j: int|
                0 <= j < old(self).states@.len() && j != id as int
                    ==> final(self).states@[j] == old(self).states@[j],
            match old(self).states@[id as int] {
                ReaderState::Def(f) => {
                    &&& r is FirstInstance
                    &&& final(self).states@[id as int] matches ReaderState::Reader(rd)
                        && rd.name@ == join_path(f.partial_path.deep_view()) && rd.size == f.size
                        && rd.bytes_read() == 0 && rd.queued() == Seq::<FileChunk>::empty()
                        && rd.produced() == Seq::<FileChunk>::empty()
                },
                ReaderState::Reader(_) => {
                    &&& r is Instance
                    &&& final(self).states@[id as int] == old(self).states@[id as int]
                },
                ReaderState::Closed => {
                    &&& r is NoReader
                    &&& final(self).states@[id as int] == old(self).states@[id as int]
                },
            },
    {
        let idx = id as usize;
        let mut make: Option<(String, u64)> = None;
        let r = match &self.states[idx] {
            ReaderState::Closed => ReaderResult::NoReader,
            ReaderState::Reader(_) => ReaderResult::Instance,
            ReaderState::Def(f) => {
                make = Some((list_to_path(&f.partial_path), f.size));
                ReaderResult::FirstInstance
            },
        };
        match make {
            Some(p) => {
                let reader = FileReader::new(p.0, p.1);
                self.states.set(idx, ReaderState::Reader(reader));
            },
            None => {},
        }
        r
    }

    /// Hands the next run of file bytes to the id's reader, which shapes
    /// them into the next chunk.
    pub fn produce_chunk(&mut self, id: u32, data: Vec<u8>)
        requires
            old(self).wf(),
            (id as int) < old(self).states@.len(),
            old(self).has_reader(id as int),
            data@.len() > 0,
            data@.len() <= FILE_CHUNK_SIZE as int,
            old(self).reader_at(id as int).bytes_read() + data@.len() <= old(self).reader_at(
                id as int,
            ).size,
            old(self).reader_at(id as int).queued().len() < MAX_CHUNKS as int,
        ensures
            final(self).wf(),
            final(self).states@.len() == old(self).states@.len(),
            forall|j: int|
                0 <= j < old(self).states@.len() && j != id as int
                    ==> final(self).states@[j] == old(self).states@[j],
            final(self).has_reader(id as int),
            ({
                let rd0 = old(self).reader_at(id as int);
                let rd1 = final(self).reader_at(id as int);
                let c = FileChunk {
                    offset: rd0.bytes_read(),
                    size: data@.len() as u64,
                    data,
                };
                &&& rd1.name == rd0.name
                &&& rd1.size == rd0.size
                &&& rd1.bytes_read() == rd0.bytes_read() + data@.len()
                &&& rd1.produced() == rd0.produced().push(c)
                &&& rd1.queued() == rd0.queued().push(c)
            }),
    {
        let idx = id as usize;
        let st = self.states.remove(idx);
        match st {
            ReaderState::Reader(mut rd) => {
                rd.produce_chunk(data);
                self.states.insert(idx, ReaderState::Reader(rd));
                proof {
                    assert(final(self).states@ =~= old(self).states@.update(
                        id as int,
                        final(self).states@[id as int],
                    ));
                }
            },
            other => {
                self.states.insert(idx, other);
                proof {
                    assert(false);
                }
            },
        }
    }

    /// Takes the next chunk from the id's reader for one sub-stream, or
    /// reports end of file once everything was produced and taken.
    pub fn get_chunk(&mut self, id: u32) -> (r: Option<FileChunk>)
        requires
            old(self).wf(),
            (id as int) < old(self).states@.len(),
            old(self).has_reader(id as int),
            old(self).reader_at(id as int).queued().len() > 0 || old(self).reader_at(
                id as int,
            ).eof(),
        ensures
            final(self).wf(),
            final(self).states@.len() == old(self).states@.len(),
            forall|j: int|
                0 <= j < old(self).states@.len() && j != id as int
                    ==> final(self).states@[j] == old(self).states@[j],
            final(self).has_reader(id as int),
            ({
                let rd0 = old(self).reader_at(id as int);
                let rd1 = final(self).reader_at(id as int);
                &&& rd1.name == rd0.name
                &&& rd1.size == rd0.size
                &&& rd1.bytes_read() == rd0.bytes_read()
                &&& rd1.produced() == rd0.produced()
                &&& match r {
                    Some(c) => {
                        &&& rd0.queued().len() > 0
                        &&& c == rd0.queued()[0]
                        &&& rd1.queued() == rd0.queued().drop_first()
                    },
                    None => {
                        &&& rd0.queued().len() == 0
                        &&& rd0.eof()
                        &&& rd1.queued() == rd0.queued()
                    },
                }
            }),
    {
        let idx = id as usize;
        let st = self.states.remove(idx);
        match st {
            ReaderState::Reader(mut rd) => {
                let r = rd.get_chunk();
                self.states.insert(idx, ReaderState::Reader(rd));
                proof {
                    assert(final(self).states@ =~= old(self).states@.update(
                        id as int,
                        final(self).states@[id as int],
                    ));
                }
                r
            },
            other => {
                self.states.insert(idx, other);
                proof {
                    assert(false);
                }
                None
            },
        }
    }

    /// Retires the id's reader once it has produced its whole file; from
    /// now on `get_reader` reports `NoReader` for this id.
    pub fn reader_finished(&mut self, id: u32)
        requires
            old(self).wf(),
            (id as int) < old(self).states@.len(),
            old(self).has_reader(id as int),
            old(self).reader_at(id as int).eof(),
        ensures
            final(self).wf(),
            final(self).states@.len() == old(self).states@.len(),
            forall|j: int|
                0 <= j < old(self).states@.len() && j != id as int
                    ==> final(self).states@[j] == old(self).states@[j],
            final(self).states@[id as int] is Closed,
    {
        self.states.set(id as usize, ReaderState::Closed);
    }
}

} // verus!
