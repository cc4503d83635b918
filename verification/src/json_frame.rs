use vstd::prelude::*;

verus! {

/// The byte `{`, which opens a JSON object.
pub const LEFT_BRACE: u8 = 123;

/// The byte `}`, which closes a JSON object.
pub const RIGHT_BRACE: u8 = 125;

/// How one byte changes the brace depth of a scan.
pub open spec fn brace_delta(b: u8) -> int {
    if b == LEFT_BRACE {
        1
    } else if b == RIGHT_BRACE {
        -1
    } else {
        0
    }
}

/// The brace depth after the first `n` bytes of `s`: opening braces counted
/// up, closing braces counted down.
pub open spec fn brace_depth(s: Seq<u8>, n: int) -> int
    recommends
        0 <= n <= s.len(),
    decreases n,
{
    if n <= 0 {
        0
    } else {
        brace_depth(s, n - 1) + brace_delta(s[n - 1])
    }
}

/// Position `i` is where a brace-balanced frame starting at byte 0 ends:
/// the depth first returns to zero after the byte at `i - 1`.
pub open spec fn is_frame_end(s: Seq<u8>, i: int) -> bool {
    &&& 1 <= i <= s.len()
    &&& brace_depth(s, i) == 0
    &&& forall|j: int| 1 <= j < i ==> brace_depth(s, j) > 0
}

/// A byte sequence that is exactly one brace-balanced object: it opens with
/// `{`, its depth stays positive inside, and returns to zero only at the end.
pub open spec fn well_framed(f: Seq<u8>) -> bool {
    &&& f.len() >= 2
    &&& f[0] == LEFT_BRACE
    &&& brace_depth(f, f.len() as int) == 0
    &&& forall|j: int| 1 <= j < f.len() ==> brace_depth(f, j) > 0
}

/// The depth of a concatenation agrees with the depth of its first part
/// while the scan is still inside that part.
pub proof fn lemma_depth_concat(f: Seq<u8>, r: Seq<u8>, n: int)
    requires
        0 <= n <= f.len(),
    ensures
        brace_depth(f + r, n) == brace_depth(f, n),
    decreases n,
{
    if n > 0 {
        lemma_depth_concat(f, r, n - 1);
        assert((f + r)[n - 1] == f[n - 1]);
    }
}

/// A scan stops at exactly one place: the frame end of a byte sequence is
/// unique when it exists.
pub proof fn lemma_frame_end_unique(s: Seq<u8>, i: int, j: int)
    requires
        is_frame_end(s, i),
        is_frame_end(s, j),
    ensures
        i == j,
{
    if i < j {
        assert(brace_depth(s, i) > 0);
    }
    if j < i {
        assert(brace_depth(s, j) > 0);
    }
}

/// Whatever follows a well-framed object on the stream, the scan carves off
/// exactly that object and leaves the rest.
pub proof fn lemma_well_framed_concat(f: Seq<u8>, r: Seq<u8>)
    requires
        well_framed(f),
    ensures
        is_frame_end(f + r, f.len() as int),
        (f + r).subrange(0, f.len() as int) == f,
        (f + r).skip(f.len() as int) == r,
{
    lemma_depth_concat(f, r, f.len() as int);
    assert forall|j: int| 1 <= j < f.len() implies brace_depth(f + r, j) > 0 by {
        lemma_depth_concat(f, r, j);
    }
    assert((f + r).subrange(0, f.len() as int) =~= f);
    assert((f + r).skip(f.len() as int) =~= r);
}

/// A proper prefix of a well-framed object holds no frame end: the scan has
/// to wait for more bytes.
pub proof fn lemma_prefix_has_no_frame_end(f: Seq<u8>, m: int)
    requires
        well_framed(f),
        0 <= m < f.len(),
    ensures
        forall|i: int| !is_frame_end(f.subrange(0, m), i),
{
    let p = f.subrange(0, m);
    assert(f =~= p + f.skip(m));
    assert forall|i: int| !is_frame_end(p, i) by {
        if 1 <= i <= m {
            lemma_depth_concat(p, f.skip(m), i);
            assert(brace_depth(f, i) > 0);
        }
    }
}

/// The frames peeled from a byte stream, scanning one brace-balanced object
/// at a time from the front until no further frame end exists.
pub open spec fn peel_all(s: Seq<u8>) -> Seq<Seq<u8>>
    decreases s.len(),
{
    if exists|i: int| is_frame_end(s, i) {
        let i = choose|i: int| is_frame_end(s, i);
        seq![s.subrange(0, i)] + peel_all(s.skip(i))
    } else {
        Seq::empty()
    }
}

/// Law: concatenating any number of well-framed JSON objects and scanning
/// them off one at a time yields exactly the original objects, in order.
/// How the bytes arrived makes no difference, since the scan only ever sees
/// their concatenation.
pub proof fn lemma_json_framing_round_trip(fs: Seq<Seq<u8>>)
    requires
        forall|k: int| 0 <= k < fs.len() ==> well_framed(#[trigger] fs[k]),
    ensures
        peel_all(fs.flatten()) == fs,
    decreases fs.len(),
{
    let s = fs.flatten();
    if fs.len() == 0 {
        assert(s =~= Seq::<u8>::empty());
        assert(forall|i: int| !is_frame_end(s, i));
        assert(peel_all(s) =~= fs);
    } else {
        let f = fs[0];
        let rest = fs.drop_first();
        assert(s == f + rest.flatten());
        lemma_well_framed_concat(f, rest.flatten());
        let i = choose|i: int| is_frame_end(s, i);
        lemma_frame_end_unique(s, i, f.len() as int);
        lemma_json_framing_round_trip(rest);
        assert(peel_all(s) =~= seq![f] + peel_all(rest.flatten()));
        assert(seq![f] + rest =~= fs);
    }
}

/// What one scan of the buffered bytes produced.
pub enum FrameResult {
    /// One complete brace-balanced frame, removed from the buffer.
    Frame(Vec<u8>),
    /// No complete frame yet; more bytes are needed.
    NeedMore,
    /// The buffer opens with a closing brace, so no scan can ever balance it.
    Malformed,
}

/// Incremental carving of brace-framed JSON objects out of a byte stream.
///
/// Bytes arrive in arbitrary increments through `push_bytes`; `take_frame`
/// removes and returns the first complete object once it is fully buffered,
/// keeping the residue for the next call.
pub struct JsonFramer {
    residue: Vec<u8>,
}

impl JsonFramer {
    /// The bytes received so far but not yet carved off as frames.
    pub closed spec fn pending(&self) -> Seq<u8> {
        self.residue@
    }

    pub fn new() -> (f: JsonFramer)
        ensures
            f.pending() == Seq::<u8>::empty(),
    {
        JsonFramer { residue: Vec::new() }
    }

    /// Appends newly received bytes to the buffered residue.
    pub fn push_bytes(&mut self, bytes: &[u8])
        ensures
            final(self).pending() == old(self).pending() + bytes@,
    {
        let n = bytes.len();
        let mut i: usize = 0;
        while i < n
            invariant
                i <= n,
                n == bytes@.len(),
                self.residue@ == old(self).residue@ + bytes@.subrange(0, i as int),
            decreases n - i,
        {
            self.residue.push(bytes[i]);
            i += 1;
            proof {
                assert(bytes@.subrange(0, i as int)
                    =~= bytes@.subrange(0, i - 1).push(bytes@[i - 1]));
            }
        }
        proof {
            assert(old(self).residue@ + bytes@.subrange(0, n as int)
                =~= old(self).residue@ + bytes@);
        }
    }

    /// Scans the buffered bytes for the first complete brace-balanced frame
    /// and removes it; reports when more bytes are needed, and when the
    /// buffer can never balance because it opens with a closing brace.
    pub fn take_frame(&mut self) -> (r: FrameResult)
        ensures
            ({
                let s = old(self).pending();
                match r {
                    FrameResult::Frame(f) => {
                        &&& is_frame_end(s, f@.len() as int)
                        &&& f@ == s.subrange(0, f@.len() as int)
                        &&& final(self).pending() == s.skip(f@.len() as int)
                    },
                    FrameResult::NeedMore => {
                        &&& final(self).pending() == s
                        &&& forall|i: int| !is_frame_end(s, i)
                        &&& (s.len() == 0 || s[0] != RIGHT_BRACE)
                    },
                    FrameResult::Malformed => {
                        &&& final(self).pending() == s
                        &&& s.len() >= 1
                        &&& s[0] == RIGHT_BRACE
                    },
                }
            }),
    {
        let n = self.residue.len();
        if n == 0 {
            return FrameResult::NeedMore;
        }
        if self.residue[0] == RIGHT_BRACE {
            return FrameResult::Malformed;
        }
        let mut i: usize = 0;
        let mut depth: usize = 0;
        let mut end: usize = 0;
        let mut found: bool = false;
        while i < n
            invariant_except_break
                !found,
                self.residue@ == old(self).residue@,
                n == self.residue@.len(),
                i <= n,
                depth <= i,
                self.residue@[0] != RIGHT_BRACE,
                depth == brace_depth(self.residue@, i as int),
                forall|j: int| 1 <= j <= i ==> brace_depth(self.residue@, j) > 0,
            ensures
                self.residue@ == old(self).residue@,
                n == self.residue@.len(),
                found ==> 1 <= end <= n && is_frame_end(self.residue@, end as int),
                !found ==> forall|j: int| 1 <= j <= n ==> brace_depth(self.residue@, j) > 0,
            decreases n - i,
        {
            let b = self.residue[i];
            proof {
                assert(brace_depth(self.residue@, i + 1)
                    == brace_depth(self.residue@, i as int) + brace_delta(self.residue@[i as int]));
            }
            if b == LEFT_BRACE {
                depth = depth + 1;
            } else if b == RIGHT_BRACE {
                assert(depth > 0);
                depth = depth - 1;
            }
            i = i + 1;
            if depth == 0 {
                end = i;
                found = true;
                break;
            }
        }
        if found {
            let mut rest = self.residue.split_off(end);
            core::mem::swap(&mut self.residue, &mut rest);
            proof {
                assert(old(self).residue@.subrange(end as int, old(self).residue@.len() as int)
                    =~= old(self).residue@.skip(end as int));
            }
            FrameResult::Frame(rest)
        } else {
            proof {
                assert forall|i2: int| !is_frame_end(old(self).pending(), i2) by {
                    if 1 <= i2 <= n {
                        assert(brace_depth(old(self).residue@, i2) > 0);
                    }
                }
            }
            FrameResult::NeedMore
        }
    }
}

} // verus!
