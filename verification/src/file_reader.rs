use vstd::prelude::*;

use crate::file_chunk::{contiguous_from, total_size, FileChunk};
use crate::file_chunk::lemma_contiguous_offsets_increase;
use crate::FILE_CHUNK_SIZE;

verus! {

/// Upper bound on chunks a reader may hold that no consumer has taken yet.
pub const MAX_CHUNKS: u8 = 10;

/// The chunk source for one file on the sender side.
///
/// The file's bytes are handed in from the front of the file onward;
/// the reader shapes them into chunks with cumulative offsets and queues
/// them, holding at most `MAX_CHUNKS` chunks in flight. Consumers take
/// chunks from the front of the queue, each chunk going to exactly one
/// consumer; a taken chunk frees one in-flight slot.
pub struct FileReader {
    /// The file's path relative to the transfer root.
    pub name: String,
    /// The file's size in bytes.
    pub size: u64,
    /// Bytes of the file shaped into chunks so far.
    pub read: u64,
    /// Chunks produced and not yet taken by a consumer.
    pub queue: Vec<FileChunk>,
    /// Every chunk ever produced, in production order.
    pub produced: Ghost<Seq<FileChunk>>,
}

impl FileReader {
    /// How many bytes of the file have been shaped into chunks so far.
    pub open spec fn bytes_read(&self) -> u64 {
        self.read
    }

    /// The chunks produced so far and not yet taken by a consumer.
    pub open spec fn queued(&self) -> Seq<FileChunk> {
        self.queue@
    }

    /// Every chunk this reader has produced, in production order.
    pub open spec fn produced(&self) -> Seq<FileChunk> {
        self.produced@
    }

    /// The reader's invariant: the produced chunks tile the file from byte
    /// zero up to `bytes_read`, and the queue is the yet-untaken suffix of
    /// them, no longer than the in-flight bound.
    pub open spec fn wf(&self) -> bool {
        &&& self.read <= self.size
        &&& contiguous_from(self.produced@, 0)
        &&& total_size(self.produced@) == self.read
        &&& self.queue@.len() <= self.produced@.len()
        &&& self.queue@ == self.produced@.skip(self.produced@.len() - self.queue@.len())
        &&& self.queue@.len() <= MAX_CHUNKS as int
    }

    /// All of the file has been shaped into chunks.
    pub open spec fn eof(&self) -> bool {
        self.bytes_read() == self.size
    }

    /// A fresh reader for a file of `size` bytes: nothing read, nothing
    /// queued.
    pub fn new(name: String, size: u64) -> (r: FileReader)
        ensures
            r.wf(),
            r.name == name,
            r.size == size,
            r.bytes_read() == 0,
            r.queued() == Seq::<FileChunk>::empty(),
            r.produced() == Seq::<FileChunk>::empty(),
    {
        proof {
            assert(contiguous_from(Seq::<FileChunk>::empty(), 0));
            assert(total_size(Seq::<FileChunk>::empty()) == 0);
            assert(Seq::<FileChunk>::empty().skip(0) =~= Seq::<FileChunk>::empty());
        }
        FileReader { name, size, read: 0, queue: Vec::new(), produced: Ghost(Seq::empty()) }
    }

    /// Shapes the next run of file bytes into a chunk and queues it. The
    /// bytes must continue the file where the last chunk ended, fit in one
    /// chunk frame, not run past the file's size, and there must be a free
    /// in-flight slot.
    pub fn produce_chunk(&mut self, data: Vec<u8>)
        requires
            old(self).wf(),
            data@.len() > 0,
            data@.len() <= FILE_CHUNK_SIZE as int,
            old(self).bytes_read() + data@.len() <= old(self).size,
            old(self).queued().len() < MAX_CHUNKS as int,
        ensures
            final(self).wf(),
            final(self).name == old(self).name,
            final(self).size == old(self).size,
            final(self).bytes_read() == old(self).bytes_read() + data@.len(),
            final(self).produced() == old(self).produced().push(
                FileChunk { offset: old(self).bytes_read(), size: data@.len() as u64, data },
            ),
            final(self).queued() == old(self).queued().push(
                FileChunk { offset: old(self).bytes_read(), size: data@.len() as u64, data },
            ),
    {
        let offset = self.read;
        let size = data.len() as u64;
        let chunk = FileChunk { offset, size, data };
        self.read = self.read + size;
        proof {
            self.produced@ = self.produced@.push(chunk);
        }
        self.queue.push(chunk);
        proof {
            let p = self.produced@;
            let q = self.queue@;
            lemma_contiguous_push(old(self).produced@, 0, p[p.len() - 1]);
            lemma_total_size_push(old(self).produced@, p[p.len() - 1]);
            assert(q =~= p.skip(p.len() - q.len()));
        }
    }

    /// Hands the next chunk to a consumer, or reports end of file.
    ///
    /// Returns the chunk at the front of the queue, freeing its in-flight
    /// slot; returns nothing exactly when the queue is empty, which the
    /// caller may only rely on once the whole file has been produced.
    pub fn get_chunk(&mut self) -> (r: Option<FileChunk>)
        requires
            old(self).wf(),
            old(self).queued().len() > 0 || old(self).eof(),
        ensures
            final(self).wf(),
            final(self).name == old(self).name,
            final(self).size == old(self).size,
            final(self).bytes_read() == old(self).bytes_read(),
            final(self).produced() == old(self).produced(),
            match r {
                Some(c) => {
                    &&& old(self).queued().len() > 0
                    &&& c == old(self).queued()[0]
                    &&& final(self).queued() == old(self).queued().drop_first()
                },
                None => {
                    &&& old(self).queued().len() == 0
                    &&& old(self).eof()
                    &&& final(self).queued() == old(self).queued()
                },
            },
    {
        if self.queue.len() == 0 {
            return None;
        }
        let c = self.queue.remove(0);
        proof {
            let p = self.produced@;
            let q = self.queue@;
            assert(q =~= old(self).queue@.drop_first());
            assert(q =~= p.skip(p.len() - q.len()));
        }
        Some(c)
    }
}

/// Appending a chunk that continues a contiguous sequence keeps it
/// contiguous.
proof fn lemma_contiguous_push(q: Seq<FileChunk>, off: int, c: FileChunk)
    requires
        contiguous_from(q, off),
        c.wf(),
        c.size > 0,
        c.offset == off + total_size(q),
    ensures
        contiguous_from(q.push(c), off),
    decreases q.len(),
{
    if q.len() == 0 {
        assert(q.push(c)[0] == c);
        assert(q.push(c).drop_first() =~= Seq::<FileChunk>::empty());
        assert(contiguous_from(Seq::<FileChunk>::empty(), off + c.size));
    } else {
        lemma_contiguous_push(q.drop_first(), off + q[0].size, c);
        assert(q.push(c)[0] == q[0]);
        assert(q.push(c).drop_first() =~= q.drop_first().push(c));
    }
}

/// Appending a chunk adds its size to the total.
proof fn lemma_total_size_push(q: Seq<FileChunk>, c: FileChunk)
    ensures
        total_size(q.push(c)) == total_size(q) + c.size,
    decreases q.len(),
{
    if q.len() == 0 {
        assert(q.push(c)[0] == c);
        assert(q.push(c).drop_first() =~= Seq::<FileChunk>::empty());
        assert(total_size(Seq::<FileChunk>::empty()) == 0);
    } else {
        lemma_total_size_push(q.drop_first(), c);
        assert(q.push(c)[0] == q[0]);
        assert(q.push(c).drop_first() =~= q.drop_first().push(c));
    }
}

/// Law: chunks leave one reader with strictly increasing offsets, tiling
/// the file from its start; once the whole file has been read, the chunk
/// sizes sum to exactly the file size.
pub proof fn lemma_reader_chunks_tile_file(r: &FileReader)
    requires
        r.wf(),
    ensures
        contiguous_from(r.produced(), 0),
        total_size(r.produced()) == r.bytes_read(),
        forall|i: int, j: int|
            0 <= i < j < r.produced().len() ==> r.produced()[i].offset < r.produced()[j].offset,
        r.eof() ==> total_size(r.produced()) == r.size,
{
    lemma_contiguous_offsets_increase(r.produced(), 0);
}

} // verus!
