use vstd::prelude::*;

use vstd::pervasive::VecAdditionalExecFns;

use crate::errors::GenericError;
use crate::messages::FileStreamMessage;
use crate::paths::FileEntry;

verus! {

/// How many distinct files may be in flight at once on each side.
pub const FILE_PARALLELISM: u8 = 4;

/// How many data connections each side opens per file.
pub const FAN_OUT: usize = 2;

/// The transfer state of one file, on either side.
#[derive(Clone, Copy, Debug, PartialEq, Eq, Structural)]
pub enum FileStreamState {
    /// No sub-stream has begun for the file.
    NotStarted,
    /// The file is transferring; the count is the number of concurrent
    /// sub-streams serving it.
    Working(u8),
    /// The file is done and its parallelism slot has been released, or it
    /// was empty at list time.
    Finished,
}

/// One if the state counts as in flight, zero otherwise.
pub open spec fn working_val(st: FileStreamState) -> int {
    if st is Working {
        1
    } else {
        0
    }
}

/// One if the state still owes a completion, zero otherwise.
pub open spec fn unfinished_val(st: FileStreamState) -> int {
    if st is Finished {
        0
    } else {
        1
    }
}

/// How many files are in flight.
pub open spec fn count_working(s: Seq<FileStreamState>) -> int
    decreases s.len(),
{
    if s.len() == 0 {
        0
    } else {
        working_val(s[0]) + count_working(s.drop_first())
    }
}

/// How many files have not finished.
pub open spec fn count_unfinished(s: Seq<FileStreamState>) -> int
    decreases s.len(),
{
    if s.len() == 0 {
        0
    } else {
        unfinished_val(s[0]) + count_unfinished(s.drop_first())
    }
}

/// The control loop's state, abstracted: the per-file stream states, the
/// free file-parallelism slots, and how many files still owe a completion.
pub ghost struct SessionModel {
    pub streams: Seq<FileStreamState>,
    pub free_slots: int,
    pub files_left: int,
}

impl SessionModel {
    /// The counters agree with the stream states, a slot is held for
    /// exactly each in-flight file, and a working file has at least one
    /// sub-stream.
    pub open spec fn wf(&self) -> bool {
        &&& self.files_left == count_unfinished(self.streams)
        &&& count_working(self.streams) + self.free_slots == FILE_PARALLELISM as int
        &&& self.free_slots >= 0
        &&& forall|i: int|
            0 <= i < self.streams.len() ==> ((#[trigger] self.streams[i]) matches
            FileStreamState::Working(n) ==> n >= 1)
    }
}

/// The state after a `Start(id)` event. A first start takes a free slot
/// and puts the file to work; a further start adds one sub-stream; a start
/// for a finished file is ignored. An id out of range, a first start with
/// no free slot, and a sub-stream count at its ceiling leave the state
/// unchanged (the control loop reports those as errors).
pub open spec fn model_start(m: SessionModel, id: int) -> SessionModel {
    if 0 <= id < m.streams.len() {
        match m.streams[id] {
            FileStreamState::NotStarted => {
                if m.free_slots > 0 {
                    SessionModel {
                        streams: m.streams.update(id, FileStreamState::Working(1)),
                        free_slots: m.free_slots - 1,
                        files_left: m.files_left,
                    }
                } else {
                    m
                }
            },
            FileStreamState::Working(n) => {
                if n < 255 {
                    SessionModel {
                        streams: m.streams.update(id, FileStreamState::Working((n + 1) as u8)),
                        free_slots: m.free_slots,
                        files_left: m.files_left,
                    }
                } else {
                    m
                }
            },
            FileStreamState::Finished => m,
        }
    } else {
        m
    }
}

/// The state after a `Finish(id)` event, and whether the file's completion
/// is emitted. The last sub-stream's finish completes the file, returns
/// its slot, and emits the completion exactly then; an earlier finish only
/// drops the sub-stream count. A finish for a file never started is a
/// protocol error and changes nothing; one for a finished file is ignored.
pub open spec fn model_finish(m: SessionModel, id: int) -> (SessionModel, bool) {
    if 0 <= id < m.streams.len() {
        match m.streams[id] {
            FileStreamState::NotStarted => (m, false),
            FileStreamState::Working(n) => {
                if n == 1 {
                    (
                        SessionModel {
                            streams: m.streams.update(id, FileStreamState::Finished),
                            free_slots: m.free_slots + 1,
                            files_left: m.files_left - 1,
                        },
                        true,
                    )
                } else {
                    (
                        SessionModel {
                            streams: m.streams.update(id, FileStreamState::Working((n - 1) as u8)),
                            free_slots: m.free_slots,
                            files_left: m.files_left,
                        },
                        false,
                    )
                }
            },
            FileStreamState::Finished => (m, false),
        }
    } else {
        (m, false)
    }
}

/// One control event applied to the state; the flag says whether the
/// event's file completed at this very event.
pub open spec fn model_step(m: SessionModel, e: FileStreamMessage) -> (SessionModel, bool) {
    match e {
        FileStreamMessage::Start(id) => (model_start(m, id as int), false),
        FileStreamMessage::Finish(id) => model_finish(m, id as int),
    }
}

/// The state after a whole sequence of control events.
pub open spec fn model_run(m: SessionModel, evs: Seq<FileStreamMessage>) -> SessionModel
    decreases evs.len(),
{
    if evs.len() == 0 {
        m
    } else {
        model_run(model_step(m, evs[0]).0, evs.drop_first())
    }
}

/// How many times the completion of file `id` is emitted while the event
/// sequence runs.
pub open spec fn finish_emissions(m: SessionModel, evs: Seq<FileStreamMessage>, id: u32) -> int
    decreases evs.len(),
{
    if evs.len() == 0 {
        0
    } else {
        let here = if model_step(m, evs[0]).1 && evs[0] == FileStreamMessage::Finish(id) {
            1int
        } else {
            0int
        };
        here + finish_emissions(model_step(m, evs[0]).0, evs.drop_first(), id)
    }
}

proof fn lemma_count_working_nonneg(s: Seq<FileStreamState>)
    ensures
        0 <= count_working(s) <= s.len(),
    decreases s.len(),
{
    if s.len() > 0 {
        lemma_count_working_nonneg(s.drop_first());
    }
}

proof fn lemma_count_unfinished_nonneg(s: Seq<FileStreamState>)
    ensures
        0 <= count_unfinished(s) <= s.len(),
    decreases s.len(),
{
    if s.len() > 0 {
        lemma_count_unfinished_nonneg(s.drop_first());
    }
}

proof fn lemma_counts_update(s: Seq<FileStreamState>, i: int, v: FileStreamState)
    requires
        0 <= i < s.len(),
    ensures
        count_working(s.update(i, v)) == count_working(s) + working_val(v) - working_val(s[i]),
        count_unfinished(s.update(i, v)) == count_unfinished(s) + unfinished_val(v)
            - unfinished_val(s[i]),
    decreases s.len(),
{
    let s2 = s.update(i, v);
    if i == 0 {
        assert(s2[0] == v);
        assert(s2.drop_first() =~= s.drop_first());
    } else {
        assert(s2[0] == s[0]);
        lemma_counts_update(s.drop_first(), i - 1, v);
        assert(s2.drop_first() =~= s.drop_first().update(i - 1, v));
        assert(s.drop_first()[i - 1] == s[i]);
    }
}

proof fn lemma_counts_push(s: Seq<FileStreamState>, v: FileStreamState)
    ensures
        count_working(s.push(v)) == count_working(s) + working_val(v),
        count_unfinished(s.push(v)) == count_unfinished(s) + unfinished_val(v),
    decreases s.len(),
{
    if s.len() == 0 {
        assert(s.push(v)[0] == v);
        assert(s.push(v).drop_first() =~= Seq::<FileStreamState>::empty());
        assert(count_working(Seq::<FileStreamState>::empty()) == 0);
        assert(count_unfinished(Seq::<FileStreamState>::empty()) == 0);
    } else {
        lemma_counts_push(s.drop_first(), v);
        assert(s.push(v)[0] == s[0]);
        assert(s.push(v).drop_first() =~= s.drop_first().push(v));
    }
}

/// One event keeps the control state sound.
pub proof fn lemma_step_preserves_wf(m: SessionModel, e: FileStreamMessage)
    requires
        m.wf(),
    ensures
        model_step(m, e).0.wf(),
{
    match e {
        FileStreamMessage::Start(id) => {
            let i = id as int;
            if 0 <= i < m.streams.len() {
                match m.streams[i] {
                    FileStreamState::NotStarted => {
                        if m.free_slots > 0 {
                            lemma_counts_update(m.streams, i, FileStreamState::Working(1));
                        }
                    },
                    FileStreamState::Working(n) => {
                        if n < 255 {
                            lemma_counts_update(
                                m.streams,
                                i,
                                FileStreamState::Working((n + 1) as u8),
                            );
                        }
                    },
                    FileStreamState::Finished => {},
                }
            }
        },
        FileStreamMessage::Finish(id) => {
            let i = id as int;
            if 0 <= i < m.streams.len() {
                match m.streams[i] {
                    FileStreamState::Working(n) => {
                        if n == 1 {
                            lemma_counts_update(m.streams, i, FileStreamState::Finished);
                        } else {
                            lemma_counts_update(
                                m.streams,
                                i,
                                FileStreamState::Working((n - 1) as u8),
                            );
                        }
                    },
                    _ => {},
                }
            }
        },
    }
}

/// Law: the control state stays sound under every sequence of events, so
/// the parallelism bound below holds at every instant of a session.
pub proof fn lemma_run_preserves_wf(m: SessionModel, evs: Seq<FileStreamMessage>)
    requires
        m.wf(),
    ensures
        model_run(m, evs).wf(),
    decreases evs.len(),
{
    if evs.len() > 0 {
        lemma_step_preserves_wf(m, evs[0]);
        lemma_run_preserves_wf(model_step(m, evs[0]).0, evs.drop_first());
    }
}

/// Law: at any instant, at most `FILE_PARALLELISM` files are in flight:
/// every file put to work holds one of the finitely many slots.
pub proof fn lemma_parallelism_bound(m: SessionModel)
    requires
        m.wf(),
    ensures
        count_working(m.streams) <= FILE_PARALLELISM as int,
{
}

/// A finished file stays finished over any sequence of events.
proof fn lemma_finished_absorbing(m: SessionModel, evs: Seq<FileStreamMessage>, id: u32)
    requires
        0 <= id < m.streams.len(),
        m.streams[id as int] is Finished,
    ensures
        model_run(m, evs).streams[id as int] is Finished,
    decreases evs.len(),
{
    if evs.len() > 0 {
        let m2 = model_step(m, evs[0]).0;
        assert(m2.streams.len() == m.streams.len());
        assert(m2.streams[id as int] is Finished);
        lemma_finished_absorbing(m2, evs.drop_first(), id);
    }
}

/// Law: over any sequence of control events, the completion of a file is
/// emitted exactly once if the file reaches `Finished` during the run,
/// and never otherwise. In particular it is emitted at most once, and
/// never again for a file already finished.
pub proof fn lemma_finish_emitted_exactly_once(
    m: SessionModel,
    evs: Seq<FileStreamMessage>,
    id: u32,
)
    ensures
        finish_emissions(m, evs, id) == if 0 <= id < m.streams.len() && !(m.streams[id as int]
            is Finished) && model_run(m, evs).streams[id as int] is Finished {
            1int
        } else {
            0int
        },
        finish_emissions(m, evs, id) <= 1,
    decreases evs.len(),
{
    if evs.len() > 0 {
        let (m2, em) = model_step(m, evs[0]);
        assert(m2.streams.len() == m.streams.len());
        lemma_finish_emitted_exactly_once(m2, evs.drop_first(), id);
        if 0 <= id < m.streams.len() {
            if em && evs[0] == FileStreamMessage::Finish(id) {
                assert(m.streams[id as int] matches FileStreamState::Working(n) && n == 1);
                assert(m2.streams[id as int] is Finished);
                lemma_finished_absorbing(m2, evs.drop_first(), id);
            } else {
                assert(m2.streams[id as int] is Finished <==> m.streams[id as int] is Finished);
            }
        }
    }
}

/// A file seen working or finished was started: some `Start(id)` event
/// occurred, and until then nothing is emitted for the id.
proof fn lemma_started_if_left_not_started(
    m: SessionModel,
    evs: Seq<FileStreamMessage>,
    id: u32,
)
    requires
        0 <= id < m.streams.len(),
        m.streams[id as int] is NotStarted,
    ensures
        !(model_run(m, evs).streams[id as int] is NotStarted) ==> exists|j: int|
            0 <= j < evs.len() && evs[j] == FileStreamMessage::Start(id),
        finish_emissions(m, evs, id) > 0 ==> exists|j: int|
            0 <= j < evs.len() && evs[j] == FileStreamMessage::Start(id),
    decreases evs.len(),
{
    if evs.len() > 0 {
        let (m2, em) = model_step(m, evs[0]);
        assert(m2.streams.len() == m.streams.len());
        if evs[0] == FileStreamMessage::Start(id) {
            if !(model_run(m, evs).streams[id as int] is NotStarted) || finish_emissions(
                m,
                evs,
                id,
            ) > 0 {
                assert(evs[0] == FileStreamMessage::Start(id));
            }
        } else {
            assert(m2.streams[id as int] is NotStarted);
            lemma_started_if_left_not_started(m2, evs.drop_first(), id);
            if !(model_run(m, evs).streams[id as int] is NotStarted) || finish_emissions(
                m,
                evs,
                id,
            ) > 0 {
                let j = choose|j: int|
                    0 <= j < evs.drop_first().len() && evs.drop_first()[j]
                        == FileStreamMessage::Start(id);
                assert(evs[j + 1] == FileStreamMessage::Start(id));
            }
        }
    }
}

/// Law: for a file not yet started, an emitted completion is always
/// preceded by a `Start(id)` event: whenever a prefix of the events has
/// emitted the file's completion, that prefix already holds a start.
pub proof fn lemma_start_precedes_finish(
    m: SessionModel,
    evs: Seq<FileStreamMessage>,
    id: u32,
)
    requires
        0 <= id < m.streams.len(),
        m.streams[id as int] is NotStarted,
    ensures
        forall|k: int|
            0 <= k <= evs.len() && finish_emissions(m, #[trigger] evs.take(k), id) > 0
                ==> exists|j: int| 0 <= j < k && evs[j] == FileStreamMessage::Start(id),
{
    assert forall|k: int|
        0 <= k <= evs.len() && finish_emissions(m, #[trigger] evs.take(k), id) > 0
            implies exists|j: int| 0 <= j < k && evs[j] == FileStreamMessage::Start(id) by {
        lemma_started_if_left_not_started(m, evs.take(k), id);
        let j = choose|j: int|
            0 <= j < evs.take(k).len() && evs.take(k)[j] == FileStreamMessage::Start(id);
        assert(evs[j] == FileStreamMessage::Start(id));
    }
}

/// The per-file bookkeeping of one side's control loop.
///
/// Both orchestrators run the same machine: the file list fixes the
/// initial states, `Start`/`Finish` events drive the transitions, and the
/// session is over when no file still owes a completion.
pub struct SessionState {
    /// One state per file id, indexed by id.
    pub streams: Vec<FileStreamState>,
    /// How many files have not yet finished.
    pub files_left: usize,
    /// Free file-parallelism slots.
    pub free_slots: u8,
}

impl SessionState {
    /// The abstract control state.
    pub open spec fn model(&self) -> SessionModel {
        SessionModel {
            streams: self.streams@,
            free_slots: self.free_slots as int,
            files_left: self.files_left as int,
        }
    }

    /// The counters agree with the stream states.
    pub open spec fn wf(&self) -> bool {
        self.model().wf()
    }

    /// Builds the per-file states from the exchanged file list: an empty
    /// file is finished on the spot, every other file waits to start; all
    /// parallelism slots start free.
    pub fn new(files: &Vec<FileEntry>) -> (s: SessionState)
        ensures
            s.wf(),
            s.streams@.len() == files@.len(),
            forall|i: int|
                0 <= i < files@.len() ==> s.streams@[i] == (if files@[i].size == 0 {
                    FileStreamState::Finished
                } else {
                    FileStreamState::NotStarted
                }),
            s.free_slots == FILE_PARALLELISM,
            s.files_left == count_unfinished(s.streams@),
    {
        let n = files.len();
        let mut streams: Vec<FileStreamState> = Vec::new();
        let mut files_left: usize = 0;
        let mut i: usize = 0;
        proof {
            assert(count_working(Seq::<FileStreamState>::empty()) == 0);
            assert(count_unfinished(Seq::<FileStreamState>::empty()) == 0);
        }
        while i < n
            invariant
                i <= n,
                n == files@.len(),
                streams@.len() == i,
                files_left <= i,
                forall|k: int|
                    0 <= k < i ==> streams@[k] == (if files@[k].size == 0 {
                        FileStreamState::Finished
                    } else {
                        FileStreamState::NotStarted
                    }),
                files_left == count_unfinished(streams@),
                count_working(streams@) == 0,
            decreases n - i,
        {
            let st = if files[i].size == 0 {
                FileStreamState::Finished
            } else {
                files_left += 1;
                FileStreamState::NotStarted
            };
            proof {
                lemma_counts_push(streams@, st);
            }
            streams.push(st);
            i += 1;
        }
        SessionState { streams, files_left, free_slots: FILE_PARALLELISM }
    }

    /// Whether every file has finished, so the session can end.
    pub fn done(&self) -> (r: bool)
        ensures
            r == (self.files_left == 0),
    {
        self.files_left == 0
    }

    /// The current state of one file.
    pub fn stream_state(&self, id: u32) -> (r: FileStreamState)
        requires
            (id as int) < self.streams@.len(),
        ensures
            r == self.streams@[id as int],
    {
        self.streams[id as usize]
    }

    /// Applies a `Start(id)` event: the first start of a file takes a free
    /// slot, later starts add a sub-stream. Reports a state error, changing
    /// nothing, when a first start arrives with no free slot or the
    /// sub-stream count would overflow.
    pub fn on_start(&mut self, id: u32) -> (r: Result<(), GenericError>)
        requires
            old(self).wf(),
            (id as int) < old(self).streams@.len(),
        ensures
            final(self).wf(),
            final(self).model() == model_start(old(self).model(), id as int),
            r is Err <==> ((old(self).streams@[id as int] is NotStarted && old(self).free_slots
                == 0) || (old(self).streams@[id as int] matches FileStreamState::Working(n) && n
                == 255)),
            r matches Err(e) ==> e is StateError,
    {
        let idx = id as usize;
        let st = self.streams[idx];
        match st {
            FileStreamState::NotStarted => {
                if self.free_slots == 0 {
                    return Err(GenericError::StateError(
                        "file started with no free parallelism slot".to_owned(),
                    ));
                }
                self.free_slots = self.free_slots - 1;
                proof {
                    lemma_counts_update(self.streams@, id as int, FileStreamState::Working(1));
                }
                self.streams.set(idx, FileStreamState::Working(1));
                Ok(())
            },
            FileStreamState::Working(n) => {
                if n == 255 {
                    return Err(GenericError::StateError(
                        "sub-stream count at its ceiling".to_owned(),
                    ));
                }
                proof {
                    lemma_counts_update(
                        self.streams@,
                        id as int,
                        FileStreamState::Working((n + 1) as u8),
                    );
                }
                self.streams.set(idx, FileStreamState::Working(n + 1));
                Ok(())
            },
            FileStreamState::Finished => Ok(()),
        }
    }

    /// Applies a `Finish(id)` event. Returns whether the file completed at
    /// this event; exactly then the caller emits the file's completion to
    /// the progress reporter and the freed slot lets the next file start.
    /// A finish for a file never started is a state error and changes
    /// nothing.
    pub fn on_finish(&mut self, id: u32) -> (r: Result<bool, GenericError>)
        requires
            old(self).wf(),
            (id as int) < old(self).streams@.len(),
        ensures
            final(self).wf(),
            final(self).model() == model_finish(old(self).model(), id as int).0,
            r matches Ok(b) ==> b == model_finish(old(self).model(), id as int).1,
            r is Err <==> old(self).streams@[id as int] is NotStarted,
            r matches Err(e) ==> e is StateError,
            r == Ok::<bool, GenericError>(true) <==> old(self).streams@[id as int]
                == FileStreamState::Working(1),
    {
        let idx = id as usize;
        let st = self.streams[idx];
        match st {
            FileStreamState::NotStarted => Err(GenericError::StateError(
                "finish for a file that never started".to_owned(),
            )),
            FileStreamState::Working(n) => {
                if n == 1 {
                    proof {
                        lemma_counts_update(self.streams@, id as int, FileStreamState::Finished);
                        lemma_count_working_nonneg(self.streams@.update(
                            id as int,
                            FileStreamState::Finished,
                        ));
                        lemma_count_unfinished_nonneg(self.streams@.update(
                            id as int,
                            FileStreamState::Finished,
                        ));
                    }
                    self.streams.set(idx, FileStreamState::Finished);
                    self.files_left = self.files_left - 1;
                    self.free_slots = self.free_slots + 1;
                    Ok(true)
                } else {
                    proof {
                        lemma_counts_update(
                            self.streams@,
                            id as int,
                            FileStreamState::Working((n - 1) as u8),
                        );
                    }
                    self.streams.set(idx, FileStreamState::Working(n - 1));
                    Ok(false)
                }
            },
            FileStreamState::Finished => Ok(false),
        }
    }
}

} // verus!
