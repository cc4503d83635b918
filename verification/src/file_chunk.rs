use vstd::prelude::*;

use crate::errors::GenericError;
use crate::FILE_CHUNK_SIZE;

verus! {

/// One contiguous range of a file's bytes, as carried by a data connection.
///
/// `offset` is the absolute byte position within the file and `data` holds
/// exactly `size` payload bytes.
#[derive(Debug)]
pub struct FileChunk {
    pub offset: u64,
    pub size: u64,
    pub data: Vec<u8>,
}

/// The eight bytes of `x` in network order, most significant first.
pub open spec fn u64_be_bytes(x: u64) -> Seq<u8> {
    seq![
        (x >> 56) as u8,
        (x >> 48) as u8,
        (x >> 40) as u8,
        (x >> 32) as u8,
        (x >> 24) as u8,
        (x >> 16) as u8,
        (x >> 8) as u8,
        x as u8,
    ]
}

/// The `u64` read from eight bytes in network order.
pub open spec fn u64_from_be_bytes(b: Seq<u8>) -> u64
    recommends
        b.len() == 8,
{
    ((b[0] as u64) << 56) | ((b[1] as u64) << 48) | ((b[2] as u64) << 40)
        | ((b[3] as u64) << 32) | ((b[4] as u64) << 24) | ((b[5] as u64) << 16)
        | ((b[6] as u64) << 8) | (b[7] as u64)
}

/// Reading back the eight network-order bytes of a `u64` gives the number.
pub proof fn lemma_u64_be_round_trip(x: u64)
    ensures
        u64_from_be_bytes(u64_be_bytes(x)) == x,
{
    assert((((x >> 56) as u8 as u64) << 56) | (((x >> 48) as u8 as u64) << 48)
        | (((x >> 40) as u8 as u64) << 40) | (((x >> 32) as u8 as u64) << 32)
        | (((x >> 24) as u8 as u64) << 24) | (((x >> 16) as u8 as u64) << 16)
        | (((x >> 8) as u8 as u64) << 8) | ((x as u8) as u64) == x) by (bit_vector);
}

/// Appends the eight network-order bytes of `x` to `out`.
fn push_u64_be(out: &mut Vec<u8>, x: u64)
    ensures
        final(out)@ == old(out)@ + u64_be_bytes(x),
{
    out.push(#[verifier::truncate] ((x >> 56) as u8));
    out.push(#[verifier::truncate] ((x >> 48) as u8));
    out.push(#[verifier::truncate] ((x >> 40) as u8));
    out.push(#[verifier::truncate] ((x >> 32) as u8));
    out.push(#[verifier::truncate] ((x >> 24) as u8));
    out.push(#[verifier::truncate] ((x >> 16) as u8));
    out.push(#[verifier::truncate] ((x >> 8) as u8));
    out.push(#[verifier::truncate] (x as u8));
    proof {
        assert(out@ =~= old(out)@ + u64_be_bytes(x));
    }
}

/// Reads the network-order `u64` whose first byte sits at `at` in `b`.
fn read_u64_be(b: &[u8], at: usize) -> (x: u64)
    requires
        at + 8 <= b@.len(),
    ensures
        x == u64_from_be_bytes(b@.subrange(at as int, at as int + 8)),
{
    let x: u64 = ((b[at] as u64) << 56) | ((b[at + 1] as u64) << 48)
        | ((b[at + 2] as u64) << 40) | ((b[at + 3] as u64) << 32)
        | ((b[at + 4] as u64) << 24) | ((b[at + 5] as u64) << 16)
        | ((b[at + 6] as u64) << 8) | (b[at + 7] as u64);
    proof {
        let s = b@.subrange(at as int, at as int + 8);
        assert(s[0] == b@[at as int]);
        assert(s[1] == b@[at as int + 1]);
        assert(s[2] == b@[at as int + 2]);
        assert(s[3] == b@[at as int + 3]);
        assert(s[4] == b@[at as int + 4]);
        assert(s[5] == b@[at as int + 5]);
        assert(s[6] == b@[at as int + 6]);
        assert(s[7] == b@[at as int + 7]);
    }
    x
}

impl FileChunk {
    /// A chunk is well formed when its payload is exactly `size` bytes long
    /// and no larger than the frame limit.
    pub open spec fn wf(&self) -> bool {
        &&& self.data@.len() == self.size
        &&& self.size <= FILE_CHUNK_SIZE as u64
    }

    /// The wire frame of this chunk: offset, size, then the payload,
    /// contiguous and without padding.
    pub open spec fn spec_bytes(&self) -> Seq<u8> {
        u64_be_bytes(self.offset) + u64_be_bytes(self.size) + self.data@
    }

    /// An empty chunk, to be filled in by a reader.
    pub fn new() -> (c: FileChunk)
        ensures
            c.offset == 0,
            c.size == 0,
            c.data@ == Seq::<u8>::empty(),
            c.wf(),
    {
        FileChunk { offset: 0, size: 0, data: Vec::new() }
    }

    /// Encodes the chunk as its wire frame of `16 + size` bytes.
    pub fn to_bytes(&self) -> (r: Vec<u8>)
        requires
            self.wf(),
        ensures
            r@ == self.spec_bytes(),
            r@.len() == 16 + self.size,
    {
        let mut res: Vec<u8> = Vec::new();
        push_u64_be(&mut res, self.offset);
        push_u64_be(&mut res, self.size);
        let mut i: usize = 0;
        while i < self.data.len()
            invariant
                i <= self.data@.len(),
                self.wf(),
                res@ == u64_be_bytes(self.offset) + u64_be_bytes(self.size)
                    + self.data@.subrange(0, i as int),
            decreases self.data@.len() - i,
        {
            res.push(self.data[i]);
            i += 1;
            proof {
                assert(self.data@.subrange(0, i as int)
                    =~= self.data@.subrange(0, i - 1).push(self.data@[i - 1]));
            }
        }
        proof {
            assert(self.data@.subrange(0, self.data@.len() as int) =~= self.data@);
        }
        res
    }

    /// Decodes a whole wire frame back into a chunk.
    pub fn from_bytes(bytes: &[u8]) -> (c: FileChunk)
        requires
            bytes@.len() >= 16,
            u64_from_be_bytes(bytes@.subrange(8, 16)) <= FILE_CHUNK_SIZE as u64,
            16 + u64_from_be_bytes(bytes@.subrange(8, 16)) as int <= bytes@.len() as int,
        ensures
            c.offset == u64_from_be_bytes(bytes@.subrange(0, 8)),
            c.size == u64_from_be_bytes(bytes@.subrange(8, 16)),
            c.data@ == bytes@.subrange(16, 16 + c.size as int),
            c.wf(),
    {
        let offset = read_u64_be(bytes, 0);
        let size = read_u64_be(bytes, 8);
        let n = size as usize;
        let total = bytes.len();
        let mut data: Vec<u8> = Vec::new();
        let mut i: usize = 0;
        while i < n
            invariant
                i <= n,
                n == size,
                total == bytes@.len(),
                16 + n <= total,
                data@ == bytes@.subrange(16, 16 + i as int),
            decreases n - i,
        {
            data.push(bytes[16 + i]);
            i += 1;
            proof {
                assert(bytes@.subrange(16, 16 + i as int)
                    =~= bytes@.subrange(16, 16 + i - 1).push(bytes@[16 + i - 1]));
            }
        }
        FileChunk { offset, size, data }
    }
}

/// Splits a 16-byte frame header into offset and payload size, rejecting a
/// zero or oversized payload as a framing error.
pub fn decode_chunk_header(header: &[u8]) -> (r: Result<(u64, u64), GenericError>)
    requires
        header@.len() == 16,
    ensures
        ({
            let off = u64_from_be_bytes(header@.subrange(0, 8));
            let sz = u64_from_be_bytes(header@.subrange(8, 16));
            match r {
                Ok(p) => p.0 == off && p.1 == sz && 1 <= sz && sz <= FILE_CHUNK_SIZE as u64,
                Err(e) => e is FramingError && (sz == 0 || sz > FILE_CHUNK_SIZE as u64),
            }
        }),
{
    let offset = read_u64_be(header, 0);
    let size = read_u64_be(header, 8);
    if size == 0 {
        return Err(GenericError::FramingError("zero size chunk".to_owned()));
    }
    if size > FILE_CHUNK_SIZE as u64 {
        return Err(GenericError::FramingError("chunk payload over the frame limit".to_owned()));
    }
    Ok((offset, size))
}

/// The total payload size of a sequence of chunks.
pub open spec fn total_size(q: Seq<FileChunk>) -> int
    decreases q.len(),
{
    if q.len() == 0 {
        0
    } else {
        q[0].size + total_size(q.drop_first())
    }
}

/// The payloads of a sequence of chunks, concatenated in sequence order.
pub open spec fn concat_data(q: Seq<FileChunk>) -> Seq<u8>
    decreases q.len(),
{
    if q.len() == 0 {
        Seq::empty()
    } else {
        q[0].data@ + concat_data(q.drop_first())
    }
}

/// The chunks of `q` are well formed, non-empty, and tile the byte range
/// starting at `off` without gaps or overlaps, in order.
pub open spec fn contiguous_from(q: Seq<FileChunk>, off: int) -> bool
    decreases q.len(),
{
    q.len() == 0 || {
        &&& q[0].wf()
        &&& q[0].size > 0
        &&& q[0].offset == off
        &&& contiguous_from(q.drop_first(), off + q[0].size)
    }
}

/// In a contiguous chunk sequence the offsets are strictly increasing.
pub proof fn lemma_contiguous_offsets_increase(q: Seq<FileChunk>, off: int)
    requires
        contiguous_from(q, off),
    ensures
        forall|i: int, j: int| 0 <= i < j < q.len() ==> q[i].offset < q[j].offset,
        forall|i: int| 0 <= i < q.len() ==> off <= #[trigger] q[i].offset,
    decreases q.len(),
{
    if q.len() > 0 {
        lemma_contiguous_offsets_increase(q.drop_first(), off + q[0].size);
        assert forall|i: int, j: int| 0 <= i < j < q.len() implies q[i].offset < q[j].offset by {
            if i > 0 {
                assert(q.drop_first()[i - 1].offset < q.drop_first()[j - 1].offset);
            } else {
                assert(off + q[0].size <= q.drop_first()[j - 1].offset);
            }
        }
        assert forall|i: int| 0 <= i < q.len() implies off <= #[trigger] q[i].offset by {
            if i > 0 {
                assert(off + q[0].size <= q.drop_first()[i - 1].offset);
            }
        }
    }
}

/// Total size distributes over concatenation of chunk sequences.
pub proof fn lemma_total_size_add(a: Seq<FileChunk>, b: Seq<FileChunk>)
    ensures
        total_size(a + b) == total_size(a) + total_size(b),
    decreases a.len(),
{
    if a.len() == 0 {
        assert(a + b =~= b);
    } else {
        lemma_total_size_add(a.drop_first(), b);
        assert((a + b).drop_first() =~= a.drop_first() + b);
    }
}

/// Concatenated payloads distribute over concatenation of chunk sequences.
pub proof fn lemma_concat_data_add(a: Seq<FileChunk>, b: Seq<FileChunk>)
    ensures
        concat_data(a + b) == concat_data(a) + concat_data(b),
    decreases a.len(),
{
    if a.len() == 0 {
        assert(a + b =~= b);
        assert(concat_data(a) + concat_data(b) =~= concat_data(b));
    } else {
        lemma_concat_data_add(a.drop_first(), b);
        assert((a + b).drop_first() =~= a.drop_first() + b);
        assert(concat_data(a + b) =~= concat_data(a) + concat_data(b));
    }
}

/// Law: decoding an encoded chunk gives back the chunk, field for field,
/// for every well-formed chunk whose payload has between one byte and the
/// frame limit.
pub proof fn lemma_chunk_round_trip(c: FileChunk)
    requires
        c.wf(),
        1 <= c.size,
    ensures
        ({
            let bs = c.spec_bytes();
            &&& bs.len() == 16 + c.size
            &&& u64_from_be_bytes(bs.subrange(0, 8)) == c.offset
            &&& u64_from_be_bytes(bs.subrange(8, 16)) == c.size
            &&& bs.subrange(16, bs.len() as int) == c.data@
        }),
{
    let bs = c.spec_bytes();
    assert(bs.subrange(0, 8) =~= u64_be_bytes(c.offset));
    assert(bs.subrange(8, 16) =~= u64_be_bytes(c.size));
    assert(bs.subrange(16, bs.len() as int) =~= c.data@);
    lemma_u64_be_round_trip(c.offset);
    lemma_u64_be_round_trip(c.size);
}

} // verus!
