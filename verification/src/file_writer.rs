use vstd::prelude::*;

use crate::errors::GenericError;
use crate::file_chunk::{concat_data, total_size, FileChunk};

verus! {

/// Two chunks claim at least one byte position in common.
pub open spec fn overlaps(a: FileChunk, b: FileChunk) -> bool {
    !(a.offset + a.size <= b.offset || b.offset + b.size <= a.offset)
}

/// A chunk that could belong to a file of `size` bytes: well formed,
/// non-empty, and inside the file's range.
pub open spec fn chunk_fits(c: FileChunk, size: int) -> bool {
    &&& c.wf()
    &&& c.size > 0
    &&& c.offset + c.size <= size
}

/// The reorder buffer is sound: every buffered chunk fits the file, lies
/// entirely at or beyond the write position, and the buffer is sorted by
/// offset without overlaps.
pub open spec fn pending_ok(q: Seq<FileChunk>, written: int, size: int) -> bool {
    &&& forall|i: int|
        0 <= i < q.len() ==> chunk_fits(#[trigger] q[i], size) && written <= q[i].offset
    &&& forall|i: int, j: int|
        0 <= i < j < q.len() ==> #[trigger] q[i].offset + q[i].size <= #[trigger] q[j].offset
}

/// Where an accepted chunk stands: its bytes already sit in the emitted
/// prefix at its own offset, or it still waits in the reorder buffer.
pub open spec fn recorded(
    c: FileChunk,
    emitted: Seq<u8>,
    pending: Seq<FileChunk>,
    written: int,
) -> bool {
    ||| (c.offset + c.size <= written && emitted.subrange(c.offset as int, c.offset + c.size)
        == c.data@)
    ||| (written <= c.offset && exists|j: int| 0 <= j < pending.len() && pending[j] == c)
}

/// Every accepted chunk fits the file and is recorded.
pub open spec fn accepted_ok(
    acc: Seq<FileChunk>,
    emitted: Seq<u8>,
    pending: Seq<FileChunk>,
    written: int,
    size: int,
) -> bool {
    forall|k: int|
        0 <= k < acc.len() ==> chunk_fits(#[trigger] acc[k], size)
            && recorded(acc[k], emitted, pending, written)
}

/// `q` with `c` inserted before the first chunk of larger offset.
pub open spec fn insert_by_offset(q: Seq<FileChunk>, c: FileChunk) -> Seq<FileChunk>
    decreases q.len(),
{
    if q.len() == 0 {
        seq![c]
    } else if c.offset < q[0].offset {
        seq![c] + q
    } else {
        seq![q[0]] + insert_by_offset(q.drop_first(), c)
    }
}

/// The longest prefix of `q` that continues the file contiguously from
/// write position `w`.
pub open spec fn drained_prefix(q: Seq<FileChunk>, w: int) -> Seq<FileChunk>
    decreases q.len(),
{
    if q.len() > 0 && q[0].offset == w {
        seq![q[0]] + drained_prefix(q.drop_first(), w + q[0].size)
    } else {
        Seq::empty()
    }
}

/// What remains of `q` after removing `drained_prefix(q, w)`.
pub open spec fn drained_rest(q: Seq<FileChunk>, w: int) -> Seq<FileChunk>
    decreases q.len(),
{
    if q.len() > 0 && q[0].offset == w {
        drained_rest(q.drop_first(), w + q[0].size)
    } else {
        q
    }
}

/// Reassembly of one received file.
///
/// Chunks arrive in any order across sub-streams; the writer keeps them in
/// an offset-sorted reorder buffer and releases the maximal contiguous run
/// at the current write position, so the file's bytes leave the writer
/// strictly in file order.
pub struct FileWriter {
    /// The size the finished file must have.
    pub size: u64,
    /// How many bytes have been released for writing; the file's prefix
    /// `[0, written)` is complete.
    pub written: u64,
    /// Received chunks that cannot be written yet, sorted by offset.
    pub pending: Vec<FileChunk>,
    /// Every chunk accepted so far, in arrival order.
    pub accepted: Ghost<Seq<FileChunk>>,
    /// The bytes released for writing, in file order.
    pub emitted: Ghost<Seq<u8>>,
}

impl FileWriter {
    /// The writer's invariant.
    pub open spec fn wf(&self) -> bool {
        &&& self.written <= self.size
        &&& self.emitted@.len() == self.written
        &&& pending_ok(self.pending@, self.written as int, self.size as int)
        &&& accepted_ok(
            self.accepted@,
            self.emitted@,
            self.pending@,
            self.written as int,
            self.size as int,
        )
        &&& total_size(self.accepted@) == self.written + total_size(self.pending@)
    }

    /// A fresh writer for a file of `size` bytes.
    pub fn new(size: u64) -> (w: FileWriter)
        ensures
            w.wf(),
            w.size == size,
            w.written == 0,
            w.pending@ == Seq::<FileChunk>::empty(),
            w.accepted@ == Seq::<FileChunk>::empty(),
            w.emitted@ == Seq::<u8>::empty(),
    {
        proof {
            assert(total_size(Seq::<FileChunk>::empty()) == 0);
        }
        FileWriter {
            size,
            written: 0,
            pending: Vec::new(),
            accepted: Ghost(Seq::empty()),
            emitted: Ghost(Seq::empty()),
        }
    }

    /// Whether every byte of the file has been released for writing.
    pub fn is_finished(&self) -> (r: bool)
        ensures
            r == (self.written == self.size),
    {
        self.written == self.size
    }

    /// Accepts one received chunk, reorders it into the buffer, and returns
    /// the chunks that have become writable, in file order: the maximal
    /// contiguous run starting at the current write position.
    ///
    /// A zero-size chunk is a framing error; a chunk that reaches past the
    /// file's end, lies inside the already-written prefix, or overlaps a
    /// buffered chunk is a protocol state error. A failed push leaves the
    /// writer unchanged.
    pub fn push_chunk(&mut self, chunk: FileChunk) -> (r: Result<Vec<FileChunk>, GenericError>)
        requires
            old(self).wf(),
            chunk.wf(),
        ensures
            final(self).wf(),
            final(self).size == old(self).size,
            match r {
                Ok(drained) => ({
                    let q2 = insert_by_offset(old(self).pending@, chunk);
                    &&& chunk.size > 0
                    &&& chunk.offset + chunk.size <= old(self).size
                    &&& old(self).written <= chunk.offset
                    &&& forall|j: int|
                        0 <= j < old(self).pending@.len()
                            ==> !overlaps(#[trigger] old(self).pending@[j], chunk)
                    &&& drained@ == drained_prefix(q2, old(self).written as int)
                    &&& final(self).pending@ == drained_rest(q2, old(self).written as int)
                    &&& final(self).written == old(self).written + total_size(drained@)
                    &&& final(self).emitted@ == old(self).emitted@ + concat_data(drained@)
                    &&& final(self).accepted@ == old(self).accepted@.push(chunk)
                }),
                Err(e) => ({
                    &&& *final(self) == *old(self)
                    &&& (e is FramingError <==> chunk.size == 0)
                    &&& (e is StateError <==> chunk.size > 0 && (chunk.offset + chunk.size
                        > old(self).size || chunk.offset < old(self).written || exists|j: int|
                        0 <= j < old(self).pending@.len() && overlaps(
                            #[trigger] old(self).pending@[j],
                            chunk,
                        )))
                    &&& (e is FramingError || e is StateError)
                }),
            },
            r is Err <==> (chunk.size == 0 || chunk.offset + chunk.size > old(self).size
                || chunk.offset < old(self).written || exists|j: int|
                0 <= j < old(self).pending@.len() && overlaps(
                    #[trigger] old(self).pending@[j],
                    chunk,
                )),
    {
        let csize = chunk.size;
        if csize == 0 {
            return Err(GenericError::FramingError("zero size chunk".to_owned()));
        }
        if chunk.offset > self.size || csize > self.size - chunk.offset {
            return Err(GenericError::StateError("chunk reaches past the end of the file".to_owned()));
        }
        if chunk.offset < self.written {
            return Err(GenericError::StateError("chunk inside the written prefix".to_owned()));
        }
        let n = self.pending.len();
        let mut i: usize = 0;
        while i < n && self.pending[i].offset <= chunk.offset
            invariant
                i <= n,
                n == self.pending@.len(),
                forall|j: int| 0 <= j < i ==> #[trigger] self.pending@[j].offset <= chunk.offset,
            decreases n - i,
        {
            i += 1;
        }
        if i > 0 {
            let prev_end_ok = {
                let prev = &self.pending[i - 1];
                prev.offset + prev.size <= chunk.offset
            };
            if !prev_end_ok {
                proof {
                    assert(overlaps(self.pending@[i - 1], chunk));
                }
                return Err(GenericError::StateError("chunk overlaps a buffered chunk".to_owned()));
            }
        }
        if i < n {
            let next_off = self.pending[i].offset;
            if chunk.offset + csize > next_off {
                proof {
                    assert(overlaps(self.pending@[i as int], chunk));
                }
                return Err(GenericError::StateError("chunk overlaps a buffered chunk".to_owned()));
            }
        }
        proof {
            assert forall|j: int| 0 <= j < self.pending@.len() implies !overlaps(
                #[trigger] self.pending@[j],
                chunk,
            ) by {
                if j < i {
                    if j < i - 1 {
                        assert(self.pending@[j].offset + self.pending@[j].size
                            <= self.pending@[i - 1].offset);
                    }
                } else {
                    if i < j {
                        assert(self.pending@[i as int].offset + self.pending@[i as int].size
                            <= self.pending@[j].offset);
                    }
                }
            }
            lemma_insert_by_offset_at(self.pending@, chunk, i as int);
            self.accepted@ = self.accepted@.push(chunk);
        }
        let ghost w0 = self.written as int;
        let ghost e0 = self.emitted@;
        let ghost acc0 = old(self).accepted@;
        let ghost q2 = insert_by_offset(self.pending@, chunk);
        self.pending.insert(i, chunk);
        proof {
            assert(self.pending@ =~= q2);
            lemma_total_size_insert(old(self).pending@, chunk, i as int, q2);
            lemma_total_size_push_chunk(acc0, chunk);
            assert(accepted_ok(
                self.accepted@,
                self.emitted@,
                self.pending@,
                w0,
                self.size as int,
            )) by {
                assert forall|k: int| 0 <= k < self.accepted@.len() implies chunk_fits(
                    #[trigger] self.accepted@[k],
                    self.size as int,
                ) && recorded(self.accepted@[k], self.emitted@, self.pending@, w0) by {
                    let c = self.accepted@[k];
                    if k < acc0.len() {
                        assert(acc0[k] == c);
                        if w0 <= c.offset {
                            let j = choose|j: int|
                                0 <= j < old(self).pending@.len() && old(self).pending@[j] == c;
                            if j < i {
                                assert(self.pending@[j] == c);
                            } else {
                                assert(self.pending@[j + 1] == c);
                            }
                        }
                    } else {
                        assert(c == chunk);
                        assert(self.pending@[i as int] == chunk);
                    }
                }
            }
            assert(pending_ok(self.pending@, w0, self.size as int)) by {
                lemma_pending_ok_insert(old(self).pending@, chunk, i as int, w0, self.size as int);
            }
        }
        let mut drained: Vec<FileChunk> = Vec::new();
        while self.pending.len() > 0 && self.pending[0].offset == self.written
            invariant
                self.size == old(self).size,
                self.written <= self.size,
                self.emitted@.len() == self.written,
                pending_ok(self.pending@, self.written as int, self.size as int),
                accepted_ok(
                    self.accepted@,
                    self.emitted@,
                    self.pending@,
                    self.written as int,
                    self.size as int,
                ),
                self.accepted@ == acc0.push(chunk),
                total_size(self.accepted@) == self.written + total_size(self.pending@),
                w0 <= self.written,
                drained@ + drained_prefix(self.pending@, self.written as int)
                    == drained_prefix(q2, w0),
                drained_rest(self.pending@, self.written as int) == drained_rest(q2, w0),
                self.written == w0 + total_size(drained@),
                self.emitted@ == e0 + concat_data(drained@),
            decreases self.pending@.len(),
        {
            let ghost pend_before = self.pending@;
            let ghost w_before = self.written as int;
            let ghost e_before = self.emitted@;
            let ghost drained_before = drained@;
            let c = self.pending.remove(0);
            self.written = self.written + c.size;
            proof {
                self.emitted@ = self.emitted@ + c.data@;
            }
            drained.push(c);
            proof {
                let cg = pend_before[0];
                assert(self.pending@ =~= pend_before.drop_first());
                lemma_drain_step(pend_before, w_before);
                lemma_total_size_push_chunk(drained_before, cg);
                lemma_concat_data_push_chunk(drained_before, cg);
                assert(e0 + (concat_data(drained_before) + cg.data@)
                    =~= (e0 + concat_data(drained_before)) + cg.data@);
                assert(drained@ =~= drained_before.push(cg));
                assert(drained@ + drained_prefix(self.pending@, self.written as int)
                    =~= drained_before + (seq![cg] + drained_prefix(
                    pend_before.drop_first(),
                    w_before + cg.size,
                )));
                assert(accepted_ok(
                    self.accepted@,
                    self.emitted@,
                    self.pending@,
                    self.written as int,
                    self.size as int,
                )) by {
                    assert forall|k: int| 0 <= k < self.accepted@.len() implies chunk_fits(
                        #[trigger] self.accepted@[k],
                        self.size as int,
                    ) && recorded(self.accepted@[k], self.emitted@, self.pending@,
                        self.written as int,
                    ) by {
                        let a = self.accepted@[k];
                        if a.offset + a.size <= w_before {
                            assert(self.emitted@.subrange(a.offset as int, a.offset + a.size)
                                =~= e_before.subrange(a.offset as int, a.offset + a.size));
                        } else if w_before <= a.offset {
                            let j = choose|j: int|
                                0 <= j < pend_before.len() && pend_before[j] == a;
                            if j == 0 {
                                assert(a == cg);
                                assert(self.emitted@.subrange(a.offset as int, a.offset + a.size)
                                    =~= a.data@);
                            } else {
                                assert(self.pending@[j - 1] == a);
                                assert(pend_before[0].offset + pend_before[0].size
                                    <= pend_before[j].offset);
                            }
                        }
                    }
                }
                assert(pending_ok(self.pending@, self.written as int, self.size as int)) by {
                    assert forall|jj: int| 0 <= jj < self.pending@.len() implies chunk_fits(
                        #[trigger] self.pending@[jj],
                        self.size as int,
                    ) && self.written as int <= self.pending@[jj].offset by {
                        assert(pend_before[jj + 1] == self.pending@[jj]);
                        assert(pend_before[0].offset + pend_before[0].size
                            <= pend_before[jj + 1].offset);
                    }
                }
            }
        }
        proof {
            assert(drained_prefix(self.pending@, self.written as int) =~= Seq::<FileChunk>::empty());
            assert(drained_rest(self.pending@, self.written as int) =~= self.pending@);
            assert(drained@ + Seq::<FileChunk>::empty() =~= drained@);
        }
        Ok(drained)
    }
}

/// Inserting at the position found by the sorted scan matches the spec
/// insertion.
proof fn lemma_insert_by_offset_at(q: Seq<FileChunk>, c: FileChunk, i: int)
    requires
        0 <= i <= q.len(),
        forall|j: int| 0 <= j < i ==> #[trigger] q[j].offset <= c.offset,
        i < q.len() ==> c.offset < q[i].offset,
    ensures
        insert_by_offset(q, c) == q.take(i) + seq![c] + q.skip(i),
    decreases q.len(),
{
    if q.len() == 0 {
        assert(q.take(0) =~= Seq::<FileChunk>::empty());
        assert(q.skip(0) =~= Seq::<FileChunk>::empty());
        assert(insert_by_offset(q, c) =~= q.take(i) + seq![c] + q.skip(i));
    } else if i == 0 {
        assert(c.offset < q[0].offset);
        assert(q.take(0) =~= Seq::<FileChunk>::empty());
        assert(q.skip(0) =~= q);
        assert(insert_by_offset(q, c) =~= q.take(i) + seq![c] + q.skip(i));
    } else {
        assert(q[0].offset <= c.offset);
        lemma_insert_by_offset_at(q.drop_first(), c, i - 1);
        assert(q.drop_first().take(i - 1) =~= q.take(i).drop_first());
        assert(q.drop_first().skip(i - 1) =~= q.skip(i));
        assert(seq![q[0]] + (q.take(i).drop_first() + seq![c] + q.skip(i))
            =~= q.take(i) + seq![c] + q.skip(i));
    }
}

/// Inserting a chunk adds its size to the buffer's total.
proof fn lemma_total_size_insert(q: Seq<FileChunk>, c: FileChunk, i: int, q2: Seq<FileChunk>)
    requires
        0 <= i <= q.len(),
        q2 == q.take(i) + seq![c] + q.skip(i),
    ensures
        total_size(q2) == total_size(q) + c.size,
{
    crate::file_chunk::lemma_total_size_add(q.take(i), seq![c] + q.skip(i));
    crate::file_chunk::lemma_total_size_add(seq![c], q.skip(i));
    crate::file_chunk::lemma_total_size_add(q.take(i), q.skip(i));
    assert(q.take(i) + q.skip(i) =~= q);
    assert(q.take(i) + seq![c] + q.skip(i) =~= q.take(i) + (seq![c] + q.skip(i)));
    assert(total_size(seq![c]) == c.size) by {
        assert(seq![c][0] == c);
        assert(seq![c].drop_first() =~= Seq::<FileChunk>::empty());
        assert(total_size(Seq::<FileChunk>::empty()) == 0);
    }
}

/// A sound buffer stays sound after inserting a non-overlapping chunk at
/// its sorted position.
proof fn lemma_pending_ok_insert(q: Seq<FileChunk>, c: FileChunk, i: int, written: int, size: int)
    requires
        pending_ok(q, written, size),
        chunk_fits(c, size),
        written <= c.offset,
        0 <= i <= q.len(),
        forall|j: int| 0 <= j < i ==> #[trigger] q[j].offset <= c.offset,
        i < q.len() ==> c.offset < q[i].offset,
        i > 0 ==> q[i - 1].offset + q[i - 1].size <= c.offset,
        i < q.len() ==> c.offset + c.size <= q[i].offset,
    ensures
        pending_ok(q.take(i) + seq![c] + q.skip(i), written, size),
{
    let q2 = q.take(i) + seq![c] + q.skip(i);
    assert forall|k: int| 0 <= k < q2.len() implies chunk_fits(#[trigger] q2[k], size)
        && written <= q2[k].offset by {
        if k < i {
            assert(q2[k] == q[k]);
        } else if k == i {
            assert(q2[k] == c);
        } else {
            assert(q2[k] == q[k - 1]);
        }
    }
    assert forall|k: int, l: int| 0 <= k < l < q2.len() implies #[trigger] q2[k].offset
        + q2[k].size <= #[trigger] q2[l].offset by {
        if k < i {
            assert(q2[k] == q[k]);
        } else if k == i {
            assert(q2[k] == c);
        } else {
            assert(q2[k] == q[k - 1]);
        }
        if l < i {
            assert(q2[l] == q[l]);
        } else if l == i {
            assert(q2[l] == c);
        } else {
            assert(q2[l] == q[l - 1]);
        }
        if k < i && l == i {
            assert(q[k].offset + q[k].size <= q[i - 1].offset + q[i - 1].size);
        }
        if k == i && l > i {
            assert(q[i as int].offset <= q[l - 1].offset);
        }
    }
}

/// One drain step peels the head of the contiguous run.
proof fn lemma_drain_step(q: Seq<FileChunk>, w: int)
    requires
        q.len() > 0,
        q[0].offset == w,
    ensures
        drained_prefix(q, w) == seq![q[0]] + drained_prefix(q.drop_first(), w + q[0].size),
        drained_rest(q, w) == drained_rest(q.drop_first(), w + q[0].size),
{
}

/// Appending a chunk adds its size to the total.
proof fn lemma_total_size_push_chunk(q: Seq<FileChunk>, c: FileChunk)
    ensures
        total_size(q.push(c)) == total_size(q) + c.size,
{
    crate::file_chunk::lemma_total_size_add(q, seq![c]);
    assert(q + seq![c] =~= q.push(c));
    assert(total_size(seq![c]) == c.size) by {
        assert(seq![c][0] == c);
        assert(seq![c].drop_first() =~= Seq::<FileChunk>::empty());
        assert(total_size(Seq::<FileChunk>::empty()) == 0);
    }
}

/// Appending a chunk appends its payload to the concatenation.
proof fn lemma_concat_data_push_chunk(q: Seq<FileChunk>, c: FileChunk)
    ensures
        concat_data(q.push(c)) == concat_data(q) + c.data@,
{
    crate::file_chunk::lemma_concat_data_add(q, seq![c]);
    assert(q + seq![c] =~= q.push(c));
    assert(concat_data(seq![c]) == c.data@) by {
        assert(seq![c][0] == c);
        assert(seq![c].drop_first() =~= Seq::<FileChunk>::empty());
        assert(concat_data(Seq::<FileChunk>::empty()) == Seq::<u8>::empty());
        assert(c.data@ + Seq::<u8>::empty() =~= c.data@);
    }
}

/// Law: once the write position reaches the file's size, the reorder
/// buffer is empty, the sizes of the accepted chunks sum to exactly the
/// file's size, and the emitted bytes are the file: every accepted chunk's
/// payload sits at its own offset, and the chunks tile the whole range.
pub proof fn lemma_writer_reassembles_file(w: &FileWriter)
    requires
        w.wf(),
        w.written == w.size,
    ensures
        w.pending@.len() == 0,
        w.emitted@.len() == w.size,
        total_size(w.accepted@) == w.size,
        forall|k: int|
            0 <= k < w.accepted@.len() ==> w.emitted@.subrange(
                #[trigger] w.accepted@[k].offset as int,
                w.accepted@[k].offset + w.accepted@[k].size,
            ) == w.accepted@[k].data@,
{
    if w.pending@.len() > 0 {
        assert(chunk_fits(w.pending@[0], w.size as int) && w.written as int
            <= w.pending@[0].offset);
        assert(false);
    }
    assert(total_size(w.pending@) == 0) by {
        assert(w.pending@ =~= Seq::<FileChunk>::empty());
        assert(total_size(Seq::<FileChunk>::empty()) == 0);
    }
    assert forall|k: int| 0 <= k < w.accepted@.len() implies w.emitted@.subrange(
        #[trigger] w.accepted@[k].offset as int,
        w.accepted@[k].offset + w.accepted@[k].size,
    ) == w.accepted@[k].data@ by {
        let c = w.accepted@[k];
        assert(chunk_fits(c, w.size as int) && recorded(c, w.emitted@, w.pending@,
            w.written as int,
        ));
        if w.written as int <= c.offset {
            assert(false);
        }
    }
}

} // verus!
