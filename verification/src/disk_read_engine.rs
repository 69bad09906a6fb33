//! Turns the bytes of files into packets, and keeps the checksums of the files on the way.
use std::ops::Range;

use bytes::BytesMut;
use vstd::array::array_as_slice;
use vstd::prelude::*;
use vstd::slice::slice_subrange;

use crate::checksum::{calculate_checksum, hasher_checksum};
use crate::file_set::{FileSet, OwnedSource, OwnedSourceId, VisitTask};
use crate::messages::Payload;
use crate::packet::{
    calculate_phase_offset, copy_range, IndexInPhase, PacketIdx, PhaseOffset, PhaseSize,
    RetransmitGeneration, SessionId, CHECKSUM_SIZE, CHECKSUM_SIZE_U64, MAX_INDEX, MAX_OFFSET,
    PAYLOAD_SIZE, PAYLOAD_SIZE_USIZE, PRE_REQUEST_TIME,
};
use crate::tree::Kind;
use crate::{buffers, checksum, file_set, messages, packet, stream, tree};

verus! {

/// The bytes that one read takes at a time.
pub const READ_ENGINE_BUF_SIZE: u64 = 4096;

/// The bytes that one worker reads.
pub const WORK_DIVISION_LENGTH: u64 = 20 * READ_ENGINE_BUF_SIZE;

/// Cuts a range into pieces of [`WORK_DIVISION_LENGTH`] bytes; the last piece may be shorter.
pub open spec fn split_pieces(start: int, end: int) -> Seq<Range<PhaseOffset>>
    decreases end - start,
{
    if end <= start {
        Seq::empty()
    } else {
        let mid = if end - start < WORK_DIVISION_LENGTH {
            end
        } else {
            start + WORK_DIVISION_LENGTH
        };
        seq![Range { start: PhaseOffset(start as u64), end: PhaseOffset(mid as u64) }]
            + split_pieces(mid, end)
    }
}

/// Cuts a range into pieces of [`WORK_DIVISION_LENGTH`] bytes; the last piece may be shorter.
pub fn split_large_ranges(range: Range<PhaseOffset>) -> (r: Vec<Range<PhaseOffset>>)
    requires
        range.start.0 <= range.end.0,
    ensures
        r@ == split_pieces(range.start.0 as int, range.end.0 as int),
{
    let mut pieces: Vec<Range<PhaseOffset>> = Vec::new();
    let mut start: PhaseOffset = range.start;
    let end: PhaseOffset = range.end;
    while start.0 < end.0
        invariant
            start.0 <= end.0,
            split_pieces(range.start.0 as int, range.end.0 as int) =~= pieces@ + split_pieces(
                start.0 as int,
                end.0 as int,
            ),
        decreases end.0 - start.0,
    {
        let len: u64 = end - start;
        let mid: PhaseOffset = if len < WORK_DIVISION_LENGTH {
            end
        } else {
            PhaseOffset(start.0 + WORK_DIVISION_LENGTH)
        };
        pieces.push(Range { start, end: mid });
        start = mid;
    }
    pieces
}

/// How far the checksum of a source has come.
#[derive(Debug)]
pub enum ChecksummingState {
    /// The first `offset` bytes have been hashed.
    Hashing { hasher: blake3::Hasher, offset: u64, hashed_bytes: Vec<u8> },
    /// All bytes have been hashed.
    Finished([u8; CHECKSUM_SIZE], Vec<u8>),
}

/// What a [`ChecksummingState`] says. `seen` is the bytes as they were read last.
pub enum ChecksumModel {
    Hashing { hashed: Seq<u8>, seen: Seq<u8> },
    Finished { sum: Seq<u8>, seen: Seq<u8> },
}

/// The state after `chunk` was read at `offset` of a source of `real_file_size` bytes. A chunk
/// counts where it reaches beyond what has been hashed and leaves no gap before it.
pub open spec fn absorbed(
    state: ChecksumModel,
    offset: int,
    chunk: Seq<u8>,
    real_file_size: int,
) -> ChecksumModel {
    match state {
        ChecksumModel::Hashing { hashed, seen } => if offset <= hashed.len() < offset
            + chunk.len() {
            let all = hashed + chunk.skip(hashed.len() - offset);
            let seen = seen.take(offset) + chunk;
            if offset + chunk.len() == real_file_size {
                ChecksumModel::Finished { sum: checksum::checksum_of(all), seen }
            } else {
                ChecksumModel::Hashing { hashed: all, seen }
            }
        } else {
            state
        },
        ChecksumModel::Finished { .. } => state,
    }
}

/// The state of a source of which nothing has been read.
pub open spec fn nothing_read() -> ChecksumModel {
    ChecksumModel::Hashing { hashed: Seq::empty(), seen: Seq::empty() }
}

impl ChecksummingState {
    /// The hasher has taken in as many bytes as the state says.
    pub open spec fn inv(self) -> bool {
        match self {
            ChecksummingState::Hashing { hasher, offset, hashed_bytes } => {
                &&& checksum::taken_in(hasher) is Some
                &&& checksum::taken_in(hasher)->Some_0.len() == offset
                &&& hashed_bytes@.len() == offset
            },
            ChecksummingState::Finished(_, _) => true,
        }
    }

    /// Takes in `chunk`, which was read at `offset`.
    pub fn absorb(&mut self, offset: u64, chunk: &[u8], real_file_size: u64)
        requires
            old(self).inv(),
            offset + chunk@.len() <= u64::MAX,
        ensures
            final(self).inv(),
            final(self)@ == absorbed(old(self)@, offset as int, chunk@, real_file_size as int),
    {
        let mut finished: Option<([u8; CHECKSUM_SIZE], Vec<u8>)> = None;
        let ghost before = self@;
        let end: u64 = offset + chunk.len() as u64;
        match self {
            ChecksummingState::Hashing { hasher, offset: already_hashed_offset, hashed_bytes } => {
                if end > *already_hashed_offset && offset <= *already_hashed_offset {
                    let ghost seen = hashed_bytes@;
                    hashed_bytes.truncate(offset as usize);
                    hashed_bytes.extend_from_slice(chunk);
                    assert(hashed_bytes@ =~= seen.take(offset as int) + chunk@);
                    let new_part_start_at: u64 = *already_hashed_offset - offset;
                    let upd_part: &[u8] = slice_subrange(
                        chunk,
                        new_part_start_at as usize,
                        chunk.len(),
                    );
                    checksum::update_hasher(hasher, upd_part);
                    assert(upd_part@ =~= chunk@.skip(new_part_start_at as int));
                    *already_hashed_offset = end;
                    if end == real_file_size {
                        let sum = hasher_checksum(hasher);
                        let seen_bytes = file_set::copy_bytes(hashed_bytes);
                        finished = Some((sum, seen_bytes));
                    }
                }
            },
            ChecksummingState::Finished(_, _) => {},
        }
        if let Some((sum, seen_bytes)) = finished {
            *self = ChecksummingState::Finished(sum, seen_bytes);
        }
    }
}

impl View for ChecksummingState {
    type V = ChecksumModel;

    open spec fn view(&self) -> ChecksumModel {
        match *self {
            ChecksummingState::Hashing { hasher, offset, hashed_bytes } => ChecksumModel::Hashing {
                hashed: checksum::taken_in(hasher)->Some_0,
                seen: hashed_bytes@,
            },
            ChecksummingState::Finished(sum, seen) => ChecksumModel::Finished {
                sum: sum@,
                seen: seen@,
            },
        }
    }
}

impl Default for ChecksummingState {
    fn default() -> (r: Self)
        ensures
            r.inv(),
            r@ == nothing_read(),
    {
        ChecksummingState::Hashing {
            hasher: checksum::new_hasher(),
            offset: 0,
            hashed_bytes: Vec::new(),
        }
    }
}

/// Reads packets off the files of a file set.
pub struct ReadEngine {
    pub files: FileSet,
    /// The checksums of the sources that have been read, none of them twice.
    pub checksums: Vec<(OwnedSourceId, ChecksummingState)>,
}

/// The state of the source `id`; a source that is not in the list has not been read.
pub open spec fn state_in(
    list: Seq<(OwnedSourceId, ChecksummingState)>,
    id: Option<Seq<Seq<u8>>>,
) -> ChecksumModel
    decreases list.len(),
{
    if list.len() == 0 {
        nothing_read()
    } else if list.last().0@ == id {
        list.last().1@
    } else {
        state_in(list.drop_last(), id)
    }
}

proof fn lemma_state_at(
    list: Seq<(OwnedSourceId, ChecksummingState)>,
    id: Option<Seq<Seq<u8>>>,
    at: int,
)
    requires
        0 <= at < list.len(),
        list[at].0@ == id,
        forall|i: int| at < i < list.len() ==> (#[trigger] list[i]).0@ != id,
    ensures
        state_in(list, id) == list[at].1@,
    decreases list.len(),
{
    if at < list.len() - 1 {
        lemma_state_at(list.drop_last(), id, at);
    }
}

proof fn lemma_state_absent(
    list: Seq<(OwnedSourceId, ChecksummingState)>,
    id: Option<Seq<Seq<u8>>>,
)
    requires
        forall|i: int| 0 <= i < list.len() ==> (#[trigger] list[i]).0@ != id,
    ensures
        state_in(list, id) == nothing_read(),
    decreases list.len(),
{
    if list.len() > 0 {
        lemma_state_absent(list.drop_last(), id);
    }
}

proof fn lemma_state_others(
    a: Seq<(OwnedSourceId, ChecksummingState)>,
    b: Seq<(OwnedSourceId, ChecksummingState)>,
    at: int,
    id: Option<Seq<Seq<u8>>>,
)
    requires
        a.len() == b.len(),
        0 <= at < a.len(),
        a[at].0@ == b[at].0@,
        a[at].0@ != id,
        forall|i: int| 0 <= i < a.len() && i != at ==> #[trigger] a[i] == b[i],
    ensures
        state_in(a, id) == state_in(b, id),
    decreases a.len(),
{
    if at < a.len() - 1 {
        assert(a.last() == a[a.len() - 1] && b.last() == b[a.len() - 1]);
        lemma_state_others(a.drop_last(), b.drop_last(), at, id);
    } else {
        assert(a.drop_last() =~= b.drop_last());
    }
}

/// The states of all sources, with that of `id` replaced.
pub open spec fn with_state(
    states: spec_fn(Option<Seq<Seq<u8>>>) -> ChecksumModel,
    id: Option<Seq<Seq<u8>>>,
    state: ChecksumModel,
) -> spec_fn(Option<Seq<Seq<u8>>>) -> ChecksumModel {
    |other: Option<Seq<Seq<u8>>>|
        if other == id {
            state
        } else {
            states(other)
        }
}

impl ReadEngine {
    /// No source is in the list twice, and the hashers are where their states say.
    pub open spec fn inv(self) -> bool {
        &&& forall|i: int, j: int|
            0 <= i < j < self.checksums@.len() ==> (#[trigger] self.checksums@[i]).0@ != (
            #[trigger] self.checksums@[j]).0@
        &&& forall|i: int|
            0 <= i < self.checksums@.len() ==> (#[trigger] self.checksums@[i]).1.inv()
    }

    /// How far the checksum of each source has come.
    pub open spec fn states(self) -> spec_fn(Option<Seq<Seq<u8>>>) -> ChecksumModel {
        |id: Option<Seq<Seq<u8>>>| state_in(self.checksums@, id)
    }

    /// An engine that has read nothing.
    pub fn new(files: FileSet) -> (r: Self)
        ensures
            r.inv(),
            r.files == files,
            r.states() =~= (|id: Option<Seq<Seq<u8>>>| nothing_read()),
    {
        ReadEngine { files, checksums: Vec::new() }
    }

    /// Where the state of `id` is, if it is in the list.
    fn find(&self, id: &OwnedSourceId) -> (r: Option<usize>)
        requires
            self.inv(),
        ensures
            r matches Some(i) ==> i < self.checksums@.len() && self.checksums@[i as int].0@ == id@
                && self.checksums@[i as int].1@ == (self.states())(id@),
            r is None ==> (self.states())(id@) == nothing_read() && forall|i: int|
                0 <= i < self.checksums@.len() ==> (#[trigger] self.checksums@[i]).0@ != id@,
    {
        let mut i: usize = 0;
        while i < self.checksums.len()
            invariant
                i <= self.checksums@.len(),
                self.inv(),
                forall|j: int| 0 <= j < i ==> (#[trigger] self.checksums@[j]).0@ != id@,
            decreases self.checksums.len() - i,
        {
            if self.checksums[i].0.same(id) {
                proof {
                    lemma_state_at(self.checksums@, id@, i as int);
                }
                return Some(i);
            }
            i = i + 1;
        }
        proof {
            lemma_state_absent(self.checksums@, id@);
        }
        None
    }

    /// Where the state of `id` is, which is added at the end of the list if it is not there.
    fn position(&mut self, id: OwnedSourceId) -> (r: usize)
        requires
            old(self).inv(),
        ensures
            final(self).inv(),
            final(self).files == old(self).files,
            final(self).states() =~= old(self).states(),
            r < final(self).checksums@.len(),
            final(self).checksums@[r as int].0@ == id@,
            final(self).checksums@[r as int].1@ == (old(self).states())(id@),
    {
        if let Some(i) = self.find(&id) {
            return i;
        }
        let i: usize = self.checksums.len();
        let ghost before = self.checksums@;
        self.checksums.push((id, ChecksummingState::default()));
        proof {
            assert forall|other: Option<Seq<Seq<u8>>>| #[trigger]
                state_in(self.checksums@, other) == state_in(before, other) by {
                assert(self.checksums@.drop_last() =~= before);
                if other == id@ {
                    lemma_state_absent(before, other);
                }
            }
        }
        i
    }

    /// Takes in `chunk`, which was read at `offset` of `source`.
    pub fn absorb(
        &mut self,
        source: &OwnedSource,
        offset: u64,
        chunk: &[u8],
        real_file_size: u64,
    )
        requires
            old(self).inv(),
            offset + chunk@.len() <= u64::MAX,
        ensures
            final(self).inv(),
            final(self).files == old(self).files,
            ({
                let id = file_set::source_id(source@);
                final(self).states() =~= with_state(
                    old(self).states(),
                    id,
                    absorbed(
                        (old(self).states())(id),
                        offset as int,
                        chunk@,
                        real_file_size as int,
                    ),
                )
            }),
    {
        let ghost id = file_set::source_id(source@);
        let at: usize = self.position(source.to_owned_id());
        let ghost before = self.checksums@;
        self.checksums[at].1.absorb(offset, chunk, real_file_size);
        proof {
            let after = self.checksums@;
            assert forall|i: int, j: int| 0 <= i < j < after.len() implies (
            #[trigger] after[i]).0@ != (#[trigger] after[j]).0@ by {
                assert(before[i].0@ != before[j].0@);
            }
            assert forall|i: int| 0 <= i < after.len() implies (#[trigger] after[i]).1.inv() by {
                assert(before[i].1.inv());
            }
            lemma_state_at(after, id, at as int);
            assert forall|other: Option<Seq<Seq<u8>>>| other != id implies #[trigger] state_in(
                after,
                other,
            ) == state_in(before, other) by {
                lemma_state_others(after, before, at as int, other);
            }
        }
    }

    /// The checksum of `source`, where it is known without reading the source again: because all
    /// of it has been hashed, or because it is the description of the file set. `None` means that
    /// the file has to be hashed as a whole.
    pub fn get_checksum(&mut self, source: &OwnedSource) -> (r: Option<[u8; CHECKSUM_SIZE]>)
        requires
            old(self).inv(),
        ensures
            final(self).inv(),
            final(self).files == old(self).files,
            final(self).states() =~= old(self).states(),
            match known_sum((old(self).states())(file_set::source_id(source@)), source@) {
                Some(sum) => r is Some && r->Some_0@ == sum,
                None => r is None,
            },
    {
        let at: usize = self.position(source.to_owned_id());
        match &self.checksums[at].1 {
            ChecksummingState::Hashing { .. } => match source {
                OwnedSource::Path(_) => None,
                OwnedSource::FileSet(description) => Some(calculate_checksum(description)),
            },
            ChecksummingState::Finished(sum, _) => Some(*sum),
        }
    }
}

/// The checksum of a source in some state, where it is known without reading the source again.
pub open spec fn known_sum(state: ChecksumModel, source: tree::SourceModel) -> Option<Seq<u8>> {
    match state {
        ChecksumModel::Finished { sum, .. } => Some(sum),
        ChecksumModel::Hashing { .. } => match source {
            tree::SourceModel::FileSet(description) => Some(checksum::checksum_of(description)),
            tree::SourceModel::Path(_) => None,
        },
    }
}

/// What is read for a task: of a normal file the bytes that the task covers, of a symbolic link
/// the whole of its target. For the description of the file set nothing need be read.
pub open spec fn read_ok(t: tree::TaskModel, read: Seq<u8>) -> bool {
    match t.kind {
        Kind::Normal => read.len() == stream::chunk_size(t),
        Kind::Symlink => read.len() == stream::real_size(t),
        Kind::FileSet => true,
    }
}

/// The bytes of the source that a task covers.
pub open spec fn chunk_of(t: tree::TaskModel, read: Seq<u8>) -> Seq<u8> {
    match t.source {
        tree::SourceModel::FileSet(description) => description.subrange(
            t.offset,
            t.offset + stream::chunk_size(t),
        ),
        tree::SourceModel::Path(_) => if t.kind == Kind::Normal {
            read
        } else {
            read.subrange(t.offset, t.offset + stream::chunk_size(t))
        },
    }
}

/// The states of the checksums after a task.
pub open spec fn step_states(
    states: spec_fn(Option<Seq<Seq<u8>>>) -> ChecksumModel,
    t: tree::TaskModel,
    read: Seq<u8>,
) -> spec_fn(Option<Seq<Seq<u8>>>) -> ChecksumModel {
    let id = file_set::source_id(t.source);
    with_state(
        states,
        id,
        absorbed(states(id), t.offset, chunk_of(t, read), stream::real_size(t)),
    )
}

/// The bytes of a task. `whole` is the checksum of the source, for the case that it is not known
/// yet.
pub open spec fn step_bytes(
    states: spec_fn(Option<Seq<Seq<u8>>>) -> ChecksumModel,
    t: tree::TaskModel,
    read: Seq<u8>,
    whole: Seq<u8>,
) -> Seq<u8> {
    let after = step_states(states, t, read);
    let sum = match known_sum(after(file_set::source_id(t.source)), t.source) {
        Some(sum) => sum,
        None => whole,
    };
    stream::task_bytes(t, chunk_of(t, read), sum)
}

/// The tasks go on from each other: by ascending phases, and within a phase without going back.
pub open spec fn in_sequence(tasks: Seq<(u16, tree::TaskModel)>) -> bool {
    forall|i: int, j: int|
        0 <= i < j < tasks.len() ==> (#[trigger] tasks[i]).0 < (#[trigger] tasks[j]).0 || tasks[i].0
            == tasks[j].0 && tasks[i].1.end <= tasks[j].1.start
}

/// The number of the first packet of a phase.
pub open spec fn phase_base(phase: u16) -> int {
    phase * 0x1_0000_0000_0000
}

/// A burst of packets that is being read, task by task.
pub struct PacketJob {
    pub session_id: SessionId,
    pub retransmit_generation: RetransmitGeneration,
    /// The packet behind the burst.
    pub end: PacketIdx,
    /// The packet that comes next.
    pub next_index: u64,
    /// What has been read, and fills no packet yet.
    pub buf: BytesMut,
    pub tasks: Vec<VisitTask>,
    /// The task that comes next.
    pub next_task: usize,
}

impl PacketJob {
    /// What the packets have in common.
    pub open spec fn burst(self) -> stream::BurstModel {
        stream::BurstModel {
            session_id: self.session_id,
            retransmit_generation: self.retransmit_generation,
            end: self.end,
        }
    }

    /// The task that comes next.
    pub open spec fn task(self) -> tree::TaskModel {
        self.tasks@[self.next_task as int]@.1
    }

    /// The phase of the task that comes next.
    pub open spec fn phase(self) -> u16 {
        self.tasks@[self.next_task as int]@.0
    }

    /// Whether the task that comes next is the last of its phase.
    pub open spec fn ends_phase(self) -> bool {
        self.next_task + 1 == self.tasks@.len() || self.tasks@[self.next_task + 1]@.0
            != self.phase()
    }

    /// The tasks make sense and go on from each other, there are packet indices for all of their
    /// bytes, and no packet is numbered ahead of its bytes.
    pub open spec fn inv(self) -> bool {
        &&& self.next_task <= self.tasks@.len()
        &&& forall|i: int|
            0 <= i < self.tasks@.len() ==> stream::task_ok(#[trigger] self.tasks@[i]@.1)
                && self.tasks@[i]@.1.end <= MAX_OFFSET
        &&& in_sequence(file_set::tasks_view(self.tasks@))
        &&& self.next_task < self.tasks@.len() ==> phase_base(self.phase()) <= self.next_index && (
        self.next_index - phase_base(self.phase())) * PAYLOAD_SIZE + buffers::buf_of(
            self.buf,
        ).len() <= self.task().start
    }

    /// The task that comes next, `None` behind the last.
    pub fn current(&self) -> (r: Option<&VisitTask>)
        requires
            self.inv(),
        ensures
            r is None <==> self.next_task == self.tasks@.len(),
            r matches Some(task) ==> *task == self.tasks@[self.next_task as int],
    {
        if self.next_task < self.tasks.len() {
            Some(&self.tasks[self.next_task])
        } else {
            None
        }
    }

    /// How many bytes of the source the next task covers, without the checksum.
    pub fn chunk_size(&self) -> (r: u64)
        requires
            self.inv(),
            self.next_task < self.tasks@.len(),
        ensures
            r == stream::chunk_size(self.task()),
    {
        let task = &self.tasks[self.next_task];
        assert(stream::task_ok(self.tasks@[self.next_task as int]@.1));
        let real_file_size: u64 = task.file_size - CHECKSUM_SIZE_U64;
        let full_chunk_size: u64 = task.range.end - task.range.start;
        if task.offset >= real_file_size {
            0
        } else if full_chunk_size < real_file_size - task.offset {
            full_chunk_size
        } else {
            real_file_size - task.offset
        }
    }

    /// Cuts packets off the front of what has been read, and leaves what fills no packet, unless
    /// this is the `last` that comes.
    fn emit(&mut self, last: bool) -> (r: Vec<Payload>)
        requires
            old(self).next_index + stream::packet_count(
                buffers::buf_of(old(self).buf).len() as int,
                last,
            ) <= u64::MAX,
        ensures
            payloads_view(r@) == stream::packets(
                old(self).burst(),
                old(self).next_index as int,
                buffers::buf_of(old(self).buf),
                last,
            ),
            buffers::buf_of(final(self).buf) == if last {
                Seq::empty()
            } else {
                stream::left_over(buffers::buf_of(old(self).buf))
            },
            final(self).next_index == old(self).next_index + stream::packet_count(
                buffers::buf_of(old(self).buf).len() as int,
                last,
            ),
            final(self).burst() == old(self).burst(),
            final(self).tasks == old(self).tasks,
            final(self).next_task == old(self).next_task,
    {
        let ghost bytes = buffers::buf_of(self.buf);
        let ghost count = stream::packet_count(bytes.len() as int, last);
        let ghost first = self.next_index as int;
        let ghost burst = self.burst();
        let mut out: Vec<Payload> = Vec::new();
        let near: PacketIdx = self.end.saturating_sub(IndexInPhase(PRE_REQUEST_TIME as u64));
        proof {
            packet::law_packet_idx_parts(near);
            assert(bytes.skip(0) =~= bytes);
        }
        while self.buf.len() > 0 && (last || self.buf.len() >= PAYLOAD_SIZE_USIZE)
            invariant
                0 <= out@.len() <= count,
                count == stream::packet_count(bytes.len() as int, last),
                first + count <= u64::MAX,
                self.next_index == first + out@.len(),
                self.burst() == burst,
                near.0 == stream::near_end(burst.end),
                self.tasks == old(self).tasks,
                self.next_task == old(self).next_task,
                buffers::buf_of(self.buf) == if out@.len() * 1369 <= bytes.len() {
                    bytes.skip((out@.len() * 1369) as int)
                } else {
                    Seq::empty()
                },
                forall|k: int|
                    0 <= k < out@.len() ==> (#[trigger] out@[k])@ == stream::packet_of(
                        burst,
                        first + k,
                        stream::packet_data(bytes, k),
                    ),
            decreases buffers::buf_of(self.buf).len(),
        {
            let len: usize = if PAYLOAD_SIZE_USIZE < self.buf.len() {
                PAYLOAD_SIZE_USIZE
            } else {
                self.buf.len()
            };
            let ghost before = buffers::buf_of(self.buf);
            let ghost k = out@.len() as int;
            let data = self.buf.split_to(len).freeze();
            proof {
                assert(k * 1369 < bytes.len());
                assert(buffers::bytes_of(data) =~= stream::packet_data(bytes, k));
                assert(buffers::buf_of(self.buf) =~= if (k + 1) * 1369 <= bytes.len() {
                    bytes.skip((k + 1) * 1369)
                } else {
                    Seq::empty()
                });
            }
            let index = PacketIdx(self.next_index);
            let eof_approaching: PacketIdx = if index == near {
                self.end
            } else {
                PacketIdx::invalid()
            };
            out.push(
                Payload {
                    session_id: self.session_id,
                    retransmit_generation: self.retransmit_generation,
                    index,
                    eof_approaching,
                    data,
                },
            );
            self.next_index = self.next_index + 1;
        }
        proof {
            assert(out@.len() == count);
            assert(payloads_view(out@) =~= stream::packets(burst, first, bytes, last));
            assert(buffers::buf_of(self.buf) =~= if last {
                Seq::empty()
            } else {
                stream::left_over(bytes)
            });
        }
        out
    }
}

/// Whether the checksum of a source has to be had by hashing all of it again: the task reaches into
/// the checksum, which is not known even after what was read for the task.
pub open spec fn hash_needed(
    states: spec_fn(Option<Seq<Seq<u8>>>) -> ChecksumModel,
    t: tree::TaskModel,
    read: Seq<u8>,
) -> bool {
    &&& stream::reaches_sum(t)
    &&& known_sum(
        (step_states(states, t, read))(file_set::source_id(t.source)),
        t.source,
    ) is None
}

impl ReadEngine {
    /// The tasks of a burst.
    pub open spec fn tasks_for(self, idx: Range<PacketIdx>) -> Seq<(u16, tree::TaskModel)> {
        file_set::visit_tasks(self.files@, self.parts_for(idx))
    }

    /// The parts of phases that the packets of `idx` cover.
    pub open spec fn parts_for(self, idx: Range<PacketIdx>) -> Seq<(u16, Range<PhaseOffset>)> {
        packet::phases_from(idx, &self.files, idx.start.phase_of() as int)
    }

    /// The packets of `idx` are there to be read: they begin within phases that can be walked, and
    /// there are packet indices for all of their bytes.
    pub open spec fn can_read(self, idx: Range<PacketIdx>) -> bool {
        let parts = self.parts_for(idx);
        let tasks = self.tasks_for(idx);
        &&& forall|phase: u16|
            idx.start.phase_of() <= phase < idx.end.phase_of()
                ==> #[trigger] self.files.phase_known(phase)
        &&& forall|i: int|
            0 <= i < parts.len() ==> (#[trigger] parts[i]).0 < self.files@.len()
                && tree::well_placed(self.files@[parts[i].0 as int].tree) && file_set::part_present(
                self.files@,
                parts[i],
            )
        &&& !file_set::begins_behind_empty(idx, &self.files)
        &&& forall|i: int|
            0 <= i < tasks.len() ==> stream::task_ok((#[trigger] tasks[i]).1) && tasks[i].1.end
                <= MAX_OFFSET
        &&& idx.start.0 < idx.end.0 ==> tasks.len() > 0
    }

    /// Begins to read the packets of `idx`.
    pub fn start(
        &self,
        retransmit_generation: RetransmitGeneration,
        session_id: SessionId,
        idx: Range<PacketIdx>,
    ) -> (r: PacketJob)
        requires
            self.can_read(idx),
        ensures
            r.inv(),
            r.session_id == session_id,
            r.retransmit_generation == retransmit_generation,
            r.end == idx.end,
            r.next_index == if r.tasks@.len() > 0 {
                first_index(idx, r.tasks@[0]@.0)
            } else {
                idx.start.0 as int
            },
            buffers::buf_of(r.buf) == Seq::<u8>::empty(),
            file_set::tasks_view(r.tasks@) == self.tasks_for(idx),
            r.next_task == 0,
    {
        let start: PacketIdx = idx.start;
        let end: PacketIdx = idx.end;
        let ghost all = self.tasks_for(idx);
        let ghost parts = self.parts_for(idx);
        let tasks: Vec<VisitTask> = match self.files.visit(copy_range(&idx)) {
            Ok(tasks) => tasks,
            Err(_) => Vec::new(),
        };
        proof {
            assert(file_set::tasks_view(tasks@) == all);
            assert forall|i: int| 0 <= i < tasks@.len() implies stream::task_ok(
                #[trigger] tasks@[i]@.1,
            ) && tasks@[i]@.1.end <= MAX_OFFSET by {
                assert(all[i] == tasks@[i]@);
            }
            assert forall|i: int, j: int| 0 <= i < j < all.len() implies (#[trigger] all[i]).0 < (
            #[trigger] all[j]).0 || all[i].0 == all[j].0 && all[i].1.end <= all[j].1.start by {
                file_set::law_visit_in_order(self.files, idx, i, j);
            }
            packet::law_packet_idx_parts(start);
        }
        let mut next_index: u64 = start.0;
        if tasks.len() > 0 {
            proof {
                let i = file_set::lemma_task_part(self.files@, parts, 0);
                file_set::lemma_part_start(idx, &self.files, start.phase_of() as int, i);
                assert(all[0] == tasks@[0]@);
            }
            if tasks[0].phase != start.phase() {
                next_index = PacketIdx::new(tasks[0].phase, IndexInPhase(0)).0;
            }
        }
        PacketJob {
            session_id,
            retransmit_generation,
            end,
            next_index,
            buf: BytesMut::new(),
            tasks,
            next_task: 0,
        }
    }

    /// Whether the source of the next task has to be hashed as a whole to have its checksum.
    pub fn needs_hash(&self, job: &PacketJob) -> (r: bool)
        requires
            self.inv(),
            job.inv(),
            job.next_task < job.tasks@.len(),
        ensures
            forall|read: Seq<u8>| #[trigger]
                read_ok(job.task(), read) ==> r == hash_needed(self.states(), job.task(), read),
    {
        let task = &job.tasks[job.next_task];
        let ghost t = job.task();
        assert(stream::task_ok(job.tasks@[job.next_task as int]@.1));
        if let OwnedSource::FileSet(_) = &task.source {
            return false;
        }
        let real_file_size: u64 = task.file_size - CHECKSUM_SIZE_U64;
        let full_chunk_size: u64 = task.range.end - task.range.start;
        if full_chunk_size + task.offset <= real_file_size {
            return false;
        }
        let id = task.source.to_owned_id();
        let hashed: u64 = match self.find(&id) {
            None => 0,
            Some(i) => {
                assert(self.checksums@[i as int].1.inv());
                match &self.checksums[i].1 {
                    ChecksummingState::Finished(_, _) => {
                        return false;
                    },
                    ChecksummingState::Hashing { offset, .. } => *offset,
                }
            },
        };
        !(task.offset <= hashed && hashed < real_file_size)
    }

    /// Does the next task with what was `read` for it, and cuts packets off. `whole` is the
    /// checksum of the source; it is looked at only if [`ReadEngine::needs_hash`] asked for it.
    pub fn finish_task(
        &mut self,
        job: &mut PacketJob,
        read: &[u8],
        whole: &[u8; CHECKSUM_SIZE],
    ) -> (r: Vec<Payload>)
        requires
            old(self).inv(),
            old(job).inv(),
            old(job).next_task < old(job).tasks@.len(),
            read_ok(old(job).task(), read@),
        ensures
            final(self).inv(),
            final(self).files == old(self).files,
            final(self).states() =~= step_states(old(self).states(), old(job).task(), read@),
            final(job).inv(),
            final(job).burst() == old(job).burst(),
            final(job).tasks == old(job).tasks,
            final(job).next_task == old(job).next_task + 1,
            ({
                let bytes = buffers::buf_of(old(job).buf) + step_bytes(
                    old(self).states(),
                    old(job).task(),
                    read@,
                    whole@,
                );
                let last = old(job).ends_phase();
                &&& payloads_view(r@) == stream::packets(
                    old(job).burst(),
                    old(job).next_index as int,
                    bytes,
                    last,
                )
                &&& final(job).next_index == if last && final(job).next_task
                    < old(job).tasks@.len() {
                    phase_base(final(job).phase())
                } else {
                    old(job).next_index + stream::packet_count(bytes.len() as int, last)
                }
                &&& buffers::buf_of(final(job).buf) == if last {
                    Seq::empty()
                } else {
                    stream::left_over(bytes)
                }
            }),
    {
        let ghost t = job.task();
        let ghost before = buffers::buf_of(job.buf);
        let ghost all = file_set::tasks_view(job.tasks@);
        let ghost at = job.next_task as int;
        let ghost base = phase_base(job.phase());
        let ghost first = job.next_index as int;
        proof {
            assert(stream::task_ok(job.tasks@[at]@.1));
            assert(all[at] == job.tasks@[at]@);
            if at + 1 < all.len() {
                assert(all[at + 1] == job.tasks@[at + 1]@);
                assert(all[at].0 < all[at + 1].0 || all[at].1.end <= all[at + 1].1.start);
            }
            assert(PAYLOAD_SIZE == 1369);
            assert(MAX_OFFSET == MAX_INDEX * 1369);
        }
        let count: usize = job.tasks.len();
        let chunk_size: u64 = job.chunk_size();
        let task = &job.tasks[job.next_task];
        let real_file_size: u64 = task.file_size - CHECKSUM_SIZE_U64;
        let full_chunk_size: u64 = task.range.end - task.range.start;
        let chunk: &[u8] = match &task.source {
            OwnedSource::FileSet(description) => {
                let len: usize = description.len();
                assert(task.offset + chunk_size <= len);
                slice_subrange(
                    description,
                    task.offset as usize,
                    (task.offset + chunk_size) as usize,
                )
            },
            OwnedSource::Path(_) => match task.kind {
                Kind::Normal => read,
                _ => {
                    let len: usize = read.len();
                    assert(task.offset + chunk_size <= len);
                    slice_subrange(
                        read,
                        task.offset as usize,
                        (task.offset + chunk_size) as usize,
                    )
                },
            },
        };
        assert(chunk@ =~= chunk_of(t, read@));
        job.buf.extend_from_slice(chunk);
        self.absorb(&task.source, task.offset, chunk, real_file_size);
        if task.offset + full_chunk_size > real_file_size {
            let checksum_read_start: u64 = task.offset.saturating_sub(real_file_size);
            let checksum_read_end: u64 = task.offset + full_chunk_size - real_file_size;
            let sum: [u8; CHECKSUM_SIZE] = match self.get_checksum(&task.source) {
                Some(sum) => sum,
                None => *whole,
            };
            let part: &[u8] = slice_subrange(
                array_as_slice(&sum),
                checksum_read_start as usize,
                checksum_read_end as usize,
            );
            job.buf.extend_from_slice(part);
        }
        let ghost bytes = step_bytes(old(self).states(), t, read@, whole@);
        proof {
            assert(buffers::buf_of(job.buf) =~= before + bytes);
            assert(bytes.len() == stream::full_size(t));
        }
        let phase: u16 = job.tasks[job.next_task].phase;
        job.next_task = job.next_task + 1;
        let last = job.next_task == count || job.tasks[job.next_task].phase != phase;
        proof {
            assert(stream::packet_count((before + bytes).len() as int, last)
                <= stream::packet_count((before + bytes).len() as int, true));
            assert((first - base) * 1369 + (before + bytes).len() <= t.end);
        }
        let r = job.emit(last);
        if last && job.next_task < count {
            job.next_index = PacketIdx::new(job.tasks[job.next_task].phase, IndexInPhase(0)).0;
            proof {
                assert(stream::task_ok(job.tasks@[at + 1]@.1));
            }
        }
        r
    }
}

/// What was read for one task.
pub struct TaskRead {
    pub bytes: Vec<u8>,
    /// The checksum of the whole source. Any value will do where it is not needed.
    pub whole: [u8; CHECKSUM_SIZE],
}

/// The states of the checksums after some tasks.
pub open spec fn run_states(
    states: spec_fn(Option<Seq<Seq<u8>>>) -> ChecksumModel,
    tasks: Seq<(u16, tree::TaskModel)>,
    reads: Seq<TaskRead>,
) -> spec_fn(Option<Seq<Seq<u8>>>) -> ChecksumModel
    decreases tasks.len(),
{
    if tasks.len() == 0 {
        states
    } else {
        step_states(
            run_states(states, tasks.drop_last(), reads.drop_last()),
            tasks.last().1,
            reads.last().bytes@,
        )
    }
}

/// The bytes of some tasks, one after the other.
pub open spec fn run_bytes(
    states: spec_fn(Option<Seq<Seq<u8>>>) -> ChecksumModel,
    tasks: Seq<(u16, tree::TaskModel)>,
    reads: Seq<TaskRead>,
) -> Seq<u8>
    decreases tasks.len(),
{
    if tasks.len() == 0 {
        Seq::empty()
    } else {
        run_bytes(states, tasks.drop_last(), reads.drop_last()) + step_bytes(
            run_states(states, tasks.drop_last(), reads.drop_last()),
            tasks.last().1,
            reads.last().bytes@,
            reads.last().whole@,
        )
    }
}

/// The number of the first packet of a burst that is of some phase: the first of the burst, or the
/// first of the phase.
pub open spec fn first_index(idx: Range<PacketIdx>, phase: u16) -> int {
    if phase == idx.start.phase_of() {
        idx.start.0 as int
    } else {
        phase_base(phase)
    }
}

/// The number of the packet with which a part of a phase begins.
pub open spec fn part_index(part: (u16, Range<PhaseOffset>)) -> int {
    phase_base(part.0) + part.1.start.0 as int / PAYLOAD_SIZE as int
}

/// The packets of some parts of phases, given what was read for each task: part by part, each cut
/// into packets of its own, which are numbered within its phase.
pub open spec fn burst_packets(
    states: spec_fn(Option<Seq<Seq<u8>>>) -> ChecksumModel,
    set: Seq<file_set::PhaseModel>,
    burst: stream::BurstModel,
    parts: Seq<(u16, Range<PhaseOffset>)>,
    reads: Seq<TaskRead>,
) -> Seq<messages::PayloadModel>
    decreases parts.len(),
{
    if parts.len() == 0 {
        Seq::empty()
    } else {
        let earlier = parts.drop_last();
        let tasks = file_set::visit_tasks(set, earlier);
        let n = tasks.len() as int;
        burst_packets(states, set, burst, earlier, reads.take(n)) + stream::packets(
            burst,
            part_index(parts.last()),
            run_bytes(
                run_states(states, tasks, reads.take(n)),
                file_set::part_tasks(set, parts.last()),
                reads.skip(n),
            ),
            true,
        )
    }
}

/// The states after some tasks are those after the first of them, and then the others.
pub proof fn lemma_run_states_append(
    states: spec_fn(Option<Seq<Seq<u8>>>) -> ChecksumModel,
    a: Seq<(u16, tree::TaskModel)>,
    b: Seq<(u16, tree::TaskModel)>,
    reads: Seq<TaskRead>,
)
    requires
        reads.len() == a.len() + b.len(),
    ensures
        run_states(states, a + b, reads) == run_states(
            run_states(states, a, reads.take(a.len() as int)),
            b,
            reads.skip(a.len() as int),
        ),
    decreases b.len(),
{
    if b.len() == 0 {
        assert(a + b =~= a);
        assert(reads.take(a.len() as int) =~= reads);
    } else {
        let n = a.len() as int;
        lemma_run_states_append(states, a, b.drop_last(), reads.drop_last());
        assert((a + b).drop_last() =~= a + b.drop_last());
        assert(reads.drop_last().take(n) =~= reads.take(n));
        assert(reads.drop_last().skip(n) =~= reads.skip(n).drop_last());
    }
}

impl ReadEngine {
    /// The packets of `idx`, given what was read for each of its tasks.
    #[verifier::spinoff_prover]
    #[verifier::rlimit(60)]
    pub fn get_packets(
        &mut self,
        retransmit_generation: RetransmitGeneration,
        session_id: SessionId,
        idx: Range<PacketIdx>,
        reads: &Vec<TaskRead>,
    ) -> (r: Vec<Payload>)
        requires
            old(self).inv(),
            old(self).can_read(idx),
            reads@.len() == old(self).tasks_for(idx).len(),
            forall|i: int|
                0 <= i < reads@.len() ==> read_ok(
                    old(self).tasks_for(idx)[i].1,
                    (#[trigger] reads@[i]).bytes@,
                ),
        ensures
            final(self).inv(),
            final(self).files == old(self).files,
            final(self).states() =~= run_states(
                old(self).states(),
                old(self).tasks_for(idx),
                reads@,
            ),
            gives_packets(
                *old(self),
                retransmit_generation,
                session_id,
                idx,
                reads@,
                payloads_view(r@),
            ),
    {
        let ghost set = self.files@;
        let ghost parts = self.parts_for(idx);
        let ghost tasks = self.tasks_for(idx);
        let ghost states = self.states();
        let ranges = PacketIdx::phases(copy_range(&idx), &self.files);
        let mut job = self.start(retransmit_generation, session_id, copy_range(&idx));
        let ghost burst = job.burst();
        let mut out: Vec<Payload> = Vec::new();
        let mut i: usize = 0;
        let mut j: usize = 0;
        proof {
            file_set::lemma_parts_ascending(idx, &self.files, idx.start.phase_of() as int);
            assert(parts.take(0) =~= Seq::empty());
            assert(payloads_view(out@) =~= Seq::empty());
            if tasks.len() > 0 {
                assert(tasks[0] == job.tasks@[0]@);
            }
        }
        while j < ranges.len()
            invariant
                j <= ranges@.len(),
                ranges@ == parts,
                file_set::ascending(parts),
                parts == packet::phases_from(idx, &old(self).files, idx.start.phase_of() as int),
                set == old(self).files@,
                tasks == file_set::visit_tasks(set, parts),
                i <= reads@.len() == tasks.len(),
                i == job.next_task == file_set::visit_tasks(set, parts.take(j as int)).len(),
                self.inv(),
                self.files == old(self).files,
                job.inv(),
                job.burst() == burst,
                file_set::tasks_view(job.tasks@) == tasks,
                forall|k: int|
                    0 <= k < reads@.len() ==> read_ok(tasks[k].1, (#[trigger] reads@[k]).bytes@),
                self.states() =~= run_states(
                    states,
                    file_set::visit_tasks(set, parts.take(j as int)),
                    reads@.take(i as int),
                ),
                payloads_view(out@) == burst_packets(
                    states,
                    set,
                    burst,
                    parts.take(j as int),
                    reads@.take(i as int),
                ),
                i < tasks.len() ==> buffers::buf_of(job.buf) == Seq::<u8>::empty()
                    && job.next_index == first_index(idx, tasks[i as int].0),
            decreases ranges.len() - j,
        {
            let phase: u16 = ranges[j].0;
            let ghost n = i as int;
            let ghost part = file_set::part_tasks(set, parts[j as int]);
            let ghost upto = file_set::visit_tasks(set, parts.take(j + 1));
            let ghost first = part_index(parts[j as int]);
            let ghost begun = self.states();
            let ghost sent = payloads_view(out@);
            let ghost mut sofar = Seq::<u8>::empty();
            proof {
                file_set::lemma_visit_prefix(set, parts, j as int);
                file_set::lemma_part_start(
                    idx,
                    &self.files,
                    idx.start.phase_of() as int,
                    j as int,
                );
                packet::law_packet_idx_parts(idx.start);
                assert(PAYLOAD_SIZE == 1369);
                assert(first == first_index(idx, phase));
                assert forall|k: int| n <= k < upto.len() implies #[trigger] tasks[k] == part[k
                    - n] && tasks[k].0 == phase by {
                    assert(tasks.take(upto.len() as int)[k] == upto[k]);
                }
                assert(part.take(0) =~= Seq::empty());
                assert(reads@.subrange(n, n) =~= Seq::empty());
                assert(stream::packets(burst, first, sofar, false) =~= Seq::empty());
                assert(stream::packets(burst, first, sofar, true) =~= Seq::empty());
                assert(sent + Seq::<messages::PayloadModel>::empty() =~= sent);
                assert(stream::left_over(sofar) =~= sofar);
            }
            while i < job.tasks.len() && job.tasks[i].phase == phase
                invariant
                    0 <= n <= i <= upto.len() <= tasks.len() == reads@.len(),
                    upto.len() == n + part.len(),
                    i == job.next_task,
                    self.inv(),
                    self.files == old(self).files,
                    job.inv(),
                    job.burst() == burst,
                    file_set::tasks_view(job.tasks@) == tasks,
                    forall|k: int|
                        0 <= k < reads@.len() ==> read_ok(
                            tasks[k].1,
                            (#[trigger] reads@[k]).bytes@,
                        ),
                    forall|k: int|
                        n <= k < upto.len() ==> #[trigger] tasks[k] == part[k - n] && tasks[k].0
                            == phase,
                    forall|k: int|
                        upto.len() <= k < tasks.len() ==> (#[trigger] tasks[k]).0 > phase,
                    idx.start.phase_of() <= phase,
                    self.states() =~= run_states(
                        begun,
                        part.take(i - n),
                        reads@.subrange(n, i as int),
                    ),
                    sofar == run_bytes(begun, part.take(i - n), reads@.subrange(n, i as int)),
                    payloads_view(out@) == sent + stream::packets(
                        burst,
                        first,
                        sofar,
                        i == upto.len(),
                    ),
                    i < upto.len() ==> buffers::buf_of(job.buf) == stream::left_over(sofar)
                        && job.next_index == first + stream::packet_count(
                        sofar.len() as int,
                        false,
                    ),
                    i == upto.len() && i < tasks.len() ==> buffers::buf_of(job.buf) == Seq::<
                        u8,
                    >::empty() && job.next_index == first_index(idx, tasks[i as int].0),
                decreases reads.len() - i,
            {
                let ghost before = self.states();
                let ghost t = job.task();
                let ghost m = i - n;
                proof {
                    assert(tasks[i as int] == job.tasks@[i as int]@);
                    assert(i < upto.len());
                    assert(read_ok(tasks[i as int].1, reads@[i as int].bytes@));
                    if i + 1 < tasks.len() {
                        assert(tasks[i + 1] == job.tasks@[i + 1]@);
                    }
                    assert(job.ends_phase() == (i + 1 == upto.len()));
                }
                let ghost more = step_bytes(
                    before,
                    t,
                    reads@[i as int].bytes@,
                    reads@[i as int].whole@,
                );
                let ghost gone = payloads_view(out@);
                let mut cut: Vec<Payload> = self.finish_task(
                    &mut job,
                    reads[i].bytes.as_slice(),
                    &reads[i].whole,
                );
                let ghost fresh = payloads_view(cut@);
                out.append(&mut cut);
                proof {
                    assert(payloads_view(out@) =~= gone + fresh);
                    let last = i + 1 == upto.len();
                    stream::lemma_packets_append(burst, first, sofar, more, last);
                    assert(part.take(m + 1).drop_last() =~= part.take(m));
                    assert(part.take(m + 1).last() == tasks[i as int]);
                    assert(reads@.subrange(n, i + 1).drop_last() =~= reads@.subrange(
                        n,
                        i as int,
                    ));
                    assert(reads@.subrange(n, i + 1).last() == reads@[i as int]);
                    sofar = sofar + more;
                    assert(payloads_view(out@) =~= sent + stream::packets(
                        burst,
                        first,
                        sofar,
                        last,
                    ));
                }
                i = i + 1;
            }
            proof {
                if i < upto.len() {
                    assert(tasks[i as int] == job.tasks@[i as int]@);
                }
                assert(i == upto.len());
                assert(part.take(part.len() as int) =~= part);
                let done = reads@.take(i as int);
                let earlier = file_set::visit_tasks(set, parts.take(j as int));
                assert(done.take(n) =~= reads@.take(n));
                assert(done.skip(n) =~= reads@.subrange(n, i as int));
                assert(parts.take(j + 1).drop_last() =~= parts.take(j as int));
                assert(parts.take(j + 1).last() == parts[j as int]);
                lemma_run_states_append(states, earlier, part, done);
                assert(begun =~= run_states(states, earlier, reads@.take(n)));
            }
            j = j + 1;
        }
        proof {
            assert(parts.take(parts.len() as int) =~= parts);
            assert(reads@.take(tasks.len() as int) =~= reads@);
        }
        out
    }

    /// The packet behind `index`: the next of the phase, or the first of the next phase if `index`
    /// is not within its phase.
    pub fn successor(&self, index: PacketIdx) -> (r: PacketIdx)
        requires
            self.files.phase_known(index.phase_of()),
            if self.is_within(index) {
                index.index_of() < MAX_INDEX
            } else {
                index.phase_of() < u16::MAX
            },
        ensures
            self.is_successor(index, r),
    {
        let phase: u16 = index.phase();
        let phase_offset: PhaseOffset = calculate_phase_offset(index.index());
        let size: PhaseOffset = match self.files.max_offset_exclusive(phase) {
            Some(size) => size,
            None => PhaseOffset(0),
        };
        if phase_offset >= size && phase as usize != self.files.num_phases() {
            return PacketIdx::new(phase + 1, IndexInPhase(0));
        }
        PacketIdx::new(phase, IndexInPhase(index.index().0 + 1))
    }

    /// Whether `r` is the packet behind `index`.
    pub open spec fn is_successor(self, index: PacketIdx, r: PacketIdx) -> bool {
        if self.is_within(index) {
            r.phase_of() == index.phase_of() && r.index_of() == index.index_of() + 1
        } else {
            r.phase_of() == index.phase_of() + 1 && r.index_of() == 0
        }
    }

    /// Whether a packet begins within its phase; in an empty phase none does.
    pub open spec fn is_within(self, index: PacketIdx) -> bool {
        match self.files.phase_size(index.phase_of()) {
            Some(size) => index.index_of() * PAYLOAD_SIZE < size.0,
            None => false,
        }
    }
}

/// The packets of `idx` are `packets`, given what was read for each task.
pub open spec fn gives_packets(
    engine: ReadEngine,
    retransmit_generation: RetransmitGeneration,
    session_id: SessionId,
    idx: Range<PacketIdx>,
    reads: Seq<TaskRead>,
    packets: Seq<messages::PayloadModel>,
) -> bool {
    packets == burst_packets(
        engine.states(),
        engine.files@,
        stream::BurstModel { session_id, retransmit_generation, end: idx.end },
        engine.parts_for(idx),
        reads,
    )
}

/// What some payloads say.
pub open spec fn payloads_view(payloads: Seq<Payload>) -> Seq<messages::PayloadModel> {
    payloads.map_values(|p: Payload| p@)
}

/// Going on from packet to packet leaves none out: the packet behind another comes later, and no
/// packet that begins within its phase lies between them.
pub proof fn law_no_packet_is_left_out(
    engine: ReadEngine,
    index: PacketIdx,
    next: PacketIdx,
    other: PacketIdx,
)
    requires
        engine.is_successor(index, next),
        engine.is_within(other),
    ensures
        index.0 < next.0,
        index.0 < other.0 ==> next.0 <= other.0,
{
    packet::law_packet_idx_order(index, next);
    packet::law_packet_idx_order(index, other);
    packet::law_packet_idx_order(other, next);
    if index.0 < other.0 && !engine.is_within(index) && other.phase_of() == index.phase_of() {
        assert(index.index_of() * PAYLOAD_SIZE <= other.index_of() * PAYLOAD_SIZE)
            by (nonlinear_arith)
            requires
                index.index_of() <= other.index_of(),
        ;
    }
}

/// A range is cut without a gap: each piece begins where the one before ends, all have the same
/// length but for the last, which is not longer, and they end where the range ends.
pub proof fn law_pieces_follow_each_other(start: int, end: int, k: int)
    requires
        0 <= start <= end <= u64::MAX,
        0 <= k < split_pieces(start, end).len(),
    ensures
        ({
            let pieces = split_pieces(start, end);
            &&& pieces[k].start.0 == start + k * 81920
            &&& k < pieces.len() - 1 ==> pieces[k].end.0 == start + k * 81920 + 81920
            &&& k == pieces.len() - 1 ==> pieces[k].end.0 == end && start + k * 81920 < end <= start
                + k * 81920 + 81920
        }),
    decreases end - start,
{
    assert(WORK_DIVISION_LENGTH == 81920);
    let mid = if end - start < WORK_DIVISION_LENGTH {
        end
    } else {
        start + WORK_DIVISION_LENGTH
    };
    let rest = split_pieces(mid, end);
    if k > 0 {
        law_pieces_follow_each_other(mid, end, k - 1);
        assert(split_pieces(start, end)[k] == rest[k - 1]);
        assert(rest.len() > 0);
        assert(mid < end);
    } else if rest.len() == 0 {
        assert(mid >= end);
    } else {
        assert(mid < end);
    }
}

/// A range has pieces unless it is empty.
pub proof fn law_pieces_for_a_range(start: int, end: int)
    ensures
        split_pieces(start, end).len() == 0 <==> end <= start,
{
}

/// Whether a checksum is on the way to that of `content`: what has been hashed is the beginning of
/// it, or all of it.
pub open spec fn hashes(state: ChecksumModel, content: Seq<u8>) -> bool {
    match state {
        ChecksumModel::Hashing { hashed, .. } => hashed.len() <= content.len() && hashed
            == content.take(hashed.len() as int),
        ChecksumModel::Finished { sum, .. } => sum == checksum::checksum_of(content),
    }
}

/// However a file is read, its checksum comes out right: what is read again is not hashed again,
/// what follows what has been hashed is, and behind the last byte the checksum is there. What is
/// read ahead of that does not count.
pub proof fn law_checksum_goes_on(
    state: ChecksumModel,
    content: Seq<u8>,
    offset: int,
    end: int,
)
    requires
        hashes(state, content),
        0 <= offset <= end <= content.len(),
    ensures
        ({
            let after = absorbed(
                state,
                offset,
                content.subrange(offset, end),
                content.len() as int,
            );
            &&& hashes(after, content)
            &&& state is Finished ==> after == state
            &&& state matches ChecksumModel::Hashing { hashed, .. } ==> {
                &&& hashed.len() < offset || end <= hashed.len() ==> after == state
                &&& offset <= hashed.len() < end < content.len() ==> (
                after matches ChecksumModel::Hashing { hashed: more, .. } && more.len() == end)
                &&& offset <= hashed.len() < end && end == content.len() ==> after is Finished
            }
        }),
{
    if let ChecksumModel::Hashing { hashed, seen } = state {
        let chunk = content.subrange(offset, end);
        if offset <= hashed.len() < end {
            let all = hashed + chunk.skip(hashed.len() - offset);
            assert(all =~= content.take(end));
            if end == content.len() {
                assert(content.take(end) =~= content);
            }
        }
    }
}

/// A checksum is had without hashing the file again, where the file has been read from its start on
/// without a gap, to its last byte.
pub proof fn law_no_second_reading(
    states: spec_fn(Option<Seq<Seq<u8>>>) -> ChecksumModel,
    t: tree::TaskModel,
    read: Seq<u8>,
)
    requires
        0 <= t.offset < stream::real_size(t),
        t.offset + chunk_of(t, read).len() == stream::real_size(t),
        states(file_set::source_id(t.source)) matches ChecksumModel::Hashing { hashed, .. }
            ==> t.offset <= hashed.len() < stream::real_size(t),
    ensures
        !hash_needed(states, t, read),
{
}

/// A checksum is finished by the bytes that end where the file ends, and by no others.
pub proof fn law_checksum_is_finished_at_the_end(
    state: ChecksumModel,
    offset: int,
    chunk: Seq<u8>,
    size: int,
)
    requires
        state is Hashing,
        absorbed(state, offset, chunk, size) is Finished,
    ensures
        offset + chunk.len() == size,
{
}

/// A packet begins within its phase if, and only if, its first byte is a byte of one of the files of
/// the phase.
pub proof fn law_packet_begins_with_a_byte(engine: ReadEngine, index: PacketIdx)
    requires
        index.phase_of() < engine.files@.len(),
        tree::well_placed(engine.files@[index.phase_of() as int].tree),
        tree::start_of(engine.files@[index.phase_of() as int].tree) == 0,
    ensures
        engine.is_within(index) <==> exists|i: int|
            0 <= i < file_set::phase_spans(engine.files@[index.phase_of() as int]).len()
                && tree::covers(
                #[trigger] file_set::phase_spans(engine.files@[index.phase_of() as int])[i],
                index.index_of() * 1369,
            ),
{
    assert(PAYLOAD_SIZE == 1369);
    file_set::law_size_of_a_phase(engine.files, index.phase_of(), index.index_of() * 1369);
}

} // verus!
