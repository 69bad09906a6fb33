//! What is written to disk when packets arrive: which bytes go where, and when a file is complete.
use std::ops::Range;

use bytes::Bytes;
use vstd::array::array_as_slice;
use vstd::prelude::*;

use crate::checksum::AtomicChecksum;
use crate::cursor::{FileSetCursor, WriteNeed};
use crate::file_set::{copy_path, same_bytes, same_path, FileSet, FileSetError};
use crate::packet::{
    calculate_phase_offset, contains, copy_range, PacketIdx, PhaseOffset, CHECKSUM_SIZE,
    CHECKSUM_SIZE_U64, PAYLOAD_SIZE,
};
use crate::tree::{FileSpan, TaskModel};
use crate::{buffers, checksum, cursor, file_set, packet, stream, tree};

verus! {

/// A file that has arrived completely.
#[derive(Clone, Copy)]
pub struct FinishedFile {
    /// The size of the file, to which it has to be cut.
    pub size: u64,
    /// The checksum that its bytes have to have.
    pub sum: [u8; CHECKSUM_SIZE],
}

impl FinishedFile {
    /// Whether a file whose bytes have the checksum `hash` is the file that was sent.
    pub open spec fn accepts(self, hash: Seq<u8>) -> bool {
        hash == self.sum@
    }

    /// Whether the bytes of the file have the checksum that they have to have.
    pub fn is_intact(&self, hash: &[u8; CHECKSUM_SIZE]) -> (r: bool)
        ensures
            r == self.accepts(hash@),
    {
        same_bytes(array_as_slice(hash), array_as_slice(&self.sum))
    }
}

/// A file is accepted if, and only if, all sixteen bytes of its checksum are those of the checksum
/// that it has to have.
pub proof fn law_checksum_decides(file: FinishedFile, hash: Seq<u8>)
    requires
        hash.len() == 16,
    ensures
        file.accepts(hash) <==> forall|i: int| 0 <= i < 16 ==> hash[i] == #[trigger] file.sum@[i],
{
    if forall|i: int| 0 <= i < 16 ==> hash[i] == #[trigger] file.sum@[i] {
        assert(hash =~= file.sum@);
    }
}

/// Something to be written to a file.
pub struct FileWrite {
    /// The names that lead to the file.
    pub path: Vec<Vec<u8>>,
    /// Whether the file has to be opened, in place of the one that was open.
    pub open: bool,
    /// Where the bytes go.
    pub offset: u64,
    pub data: Bytes,
    /// Whether the file is complete then; it is closed in this case.
    pub finished: Option<FinishedFile>,
}

/// What a [`FileWrite`] says.
pub struct FileWriteModel {
    pub path: Seq<Seq<u8>>,
    pub open: bool,
    pub offset: int,
    pub data: Seq<u8>,
    /// The size and the checksum of a file that is complete.
    pub finished: Option<(int, Seq<u8>)>,
}

impl View for FileWrite {
    type V = FileWriteModel;

    open spec fn view(&self) -> FileWriteModel {
        FileWriteModel {
            path: file_set::names_of(self.path@),
            open: self.open,
            offset: self.offset as int,
            data: buffers::bytes_of(self.data),
            finished: match self.finished {
                Some(f) => Some((f.size as int, f.sum@)),
                None => None,
            },
        }
    }
}

/// What some [`FileWrite`]s say.
pub open spec fn writes_view(writes: Seq<FileWrite>) -> Seq<FileWriteModel> {
    writes.map_values(|w: FileWrite| w@)
}

/// The checksum that has arrived for the file that begins at `start` of `phase`; zeroes where none
/// has.
pub open spec fn sum_in(list: Seq<(u16, u64, AtomicChecksum)>, phase: u16, start: int) -> Seq<u8>
    decreases list.len(),
{
    if list.len() == 0 {
        no_sum()
    } else if list.last().0 == phase && list.last().1 == start {
        list.last().2@
    } else {
        sum_in(list.drop_last(), phase, start)
    }
}

/// A checksum of which nothing has arrived.
pub open spec fn no_sum() -> Seq<u8> {
    Seq::new(CHECKSUM_SIZE as nat, |i: int| 0u8)
}

proof fn lemma_sum_at(list: Seq<(u16, u64, AtomicChecksum)>, at: int)
    requires
        0 <= at < list.len(),
        forall|i: int|
            at < i < list.len() ==> !((#[trigger] list[i]).0 == list[at].0 && list[i].1
                == list[at].1),
    ensures
        sum_in(list, list[at].0, list[at].1 as int) == list[at].2@,
    decreases list.len(),
{
    if at < list.len() - 1 {
        assert(list.drop_last()[at] == list[at]);
        assert(list.last() == list[list.len() - 1]);
        assert forall|i: int| at < i < list.drop_last().len() implies !((
        #[trigger] list.drop_last()[i]).0 == list[at].0 && list.drop_last()[i].1
            == list[at].1) by {
            assert(list.drop_last()[i] == list[i]);
        }
        lemma_sum_at(list.drop_last(), at);
    }
}

proof fn lemma_sum_absent(list: Seq<(u16, u64, AtomicChecksum)>, phase: u16, start: int)
    requires
        forall|i: int|
            0 <= i < list.len() ==> !((#[trigger] list[i]).0 == phase && list[i].1 == start),
    ensures
        sum_in(list, phase, start) == no_sum(),
    decreases list.len(),
{
    if list.len() > 0 {
        assert(list.last() == list[list.len() - 1]);
        assert forall|i: int| 0 <= i < list.drop_last().len() implies !((
        #[trigger] list.drop_last()[i]).0 == phase && list.drop_last()[i].1 == start) by {
            assert(list.drop_last()[i] == list[i]);
        }
        lemma_sum_absent(list.drop_last(), phase, start);
    }
}

proof fn lemma_sum_others(
    a: Seq<(u16, u64, AtomicChecksum)>,
    b: Seq<(u16, u64, AtomicChecksum)>,
    at: int,
    phase: u16,
    start: int,
)
    requires
        a.len() == b.len(),
        0 <= at < a.len(),
        a[at].0 == b[at].0,
        a[at].1 == b[at].1,
        !(a[at].0 == phase && a[at].1 == start),
        forall|i: int| 0 <= i < a.len() && i != at ==> #[trigger] a[i] == b[i],
    ensures
        sum_in(a, phase, start) == sum_in(b, phase, start),
    decreases a.len(),
{
    if at < a.len() - 1 {
        assert(a.last() == a[a.len() - 1] && b.last() == b[a.len() - 1]);
        lemma_sum_others(a.drop_last(), b.drop_last(), at, phase, start);
    } else {
        assert(a.drop_last() =~= b.drop_last());
    }
}

/// What a writer knows: which file is open, and the checksums that have arrived.
pub struct WriterModel {
    pub open_file: Option<(u16, Seq<Seq<u8>>)>,
    pub sums: spec_fn(u16, int) -> Seq<u8>,
}

/// The names that lead to the file of a task.
pub open spec fn path_of(t: TaskModel) -> Seq<Seq<u8>> {
    t.source->Path_0
}

/// Where the file of a task begins in its phase.
pub open spec fn file_start(t: TaskModel) -> int {
    t.start - t.offset
}

/// The checksum that has arrived for the file of a task, when the `bytes` of the task have come.
pub open spec fn sum_after(m: WriterModel, phase: u16, t: TaskModel, bytes: Seq<u8>) -> Seq<u8> {
    let before = (m.sums)(phase, file_start(t));
    if stream::reaches_sum(t) {
        checksum::splice(before, stream::sum_start(t), bytes.skip(stream::chunk_size(t)))
    } else {
        before
    }
}

/// Whether the file of a task lies within what has arrived.
pub open spec fn completes(t: TaskModel, completed: Range<PhaseOffset>) -> bool {
    completed.start.0 <= file_start(t) && file_start(t) + t.file_size <= completed.end.0
}

/// What is written when the `bytes` of a task have come.
pub open spec fn write_of(
    m: WriterModel,
    phase: u16,
    t: TaskModel,
    bytes: Seq<u8>,
    completed: Range<PhaseOffset>,
) -> FileWriteModel {
    FileWriteModel {
        path: path_of(t),
        open: m.open_file != Some((phase, path_of(t))),
        offset: t.offset,
        data: bytes.take(stream::chunk_size(t)),
        finished: if completes(t, completed) {
            Some((stream::real_size(t), sum_after(m, phase, t, bytes)))
        } else {
            None
        },
    }
}

/// What a writer knows when the `bytes` of a task have come.
pub open spec fn writer_after(
    m: WriterModel,
    phase: u16,
    t: TaskModel,
    bytes: Seq<u8>,
    completed: Range<PhaseOffset>,
) -> WriterModel {
    let sum = sum_after(m, phase, t, bytes);
    WriterModel {
        open_file: if completes(t, completed) {
            None
        } else {
            Some((phase, path_of(t)))
        },
        sums: |p: u16, start: int|
            if p == phase && start == file_start(t) {
                sum
            } else {
                (m.sums)(p, start)
            },
    }
}

/// What a writer knows when the bytes of some tasks have come. `data` begins at `start` of the
/// phase.
pub open spec fn writer_after_all(
    m: WriterModel,
    phase: u16,
    tasks: Seq<TaskModel>,
    data: Seq<u8>,
    start: int,
    completed: Range<PhaseOffset>,
) -> WriterModel
    decreases tasks.len(),
{
    if tasks.len() == 0 {
        m
    } else {
        let t = tasks.last();
        writer_after(
            writer_after_all(m, phase, tasks.drop_last(), data, start, completed),
            phase,
            t,
            data.subrange(t.start - start, t.end - start),
            completed,
        )
    }
}

/// What is written when the bytes of some tasks have come. `data` begins at `start` of the phase.
pub open spec fn writes_of_all(
    m: WriterModel,
    phase: u16,
    tasks: Seq<TaskModel>,
    data: Seq<u8>,
    start: int,
    completed: Range<PhaseOffset>,
) -> Seq<FileWriteModel>
    decreases tasks.len(),
{
    if tasks.len() == 0 {
        Seq::empty()
    } else {
        let t = tasks.last();
        writes_of_all(m, phase, tasks.drop_last(), data, start, completed).push(
            write_of(
                writer_after_all(m, phase, tasks.drop_last(), data, start, completed),
                phase,
                t,
                data.subrange(t.start - start, t.end - start),
                completed,
            ),
        )
    }
}

/// Decides what is written to the files of a file set when packets arrive.
pub struct FileSetDiskWriter<'a> {
    pub cursor: FileSetCursor<'a>,
    /// The file that is open, with its phase.
    pub open_file: Option<(u16, Vec<Vec<u8>>)>,
    /// The checksums that have arrived, each with the phase and the start of its file.
    pub sums: Vec<(u16, u64, AtomicChecksum)>,
}

impl<'a> FileSetDiskWriter<'a> {
    /// The cursor stands within the file set, and no file has two checksums.
    pub open spec fn inv(self) -> bool {
        &&& self.cursor.inv()
        &&& forall|i: int, j: int|
            0 <= i < j < self.sums@.len() ==> !((#[trigger] self.sums@[i]).0 == (
            #[trigger] self.sums@[j]).0 && self.sums@[i].1 == self.sums@[j].1)
    }

    /// What the writer knows.
    pub open spec fn model(self) -> WriterModel {
        WriterModel {
            open_file: match self.open_file {
                Some((phase, path)) => Some((phase, file_set::names_of(path@))),
                None => None,
            },
            sums: |phase: u16, start: int| sum_in(self.sums@, phase, start),
        }
    }

    /// A writer to which nothing has come.
    pub fn new(fileset: &'a FileSet) -> (r: Self)
        ensures
            r.inv(),
            r.cursor.set_of() == fileset@,
            r.model().open_file is None,
            forall|phase: u16, start: int| #[trigger] (r.model().sums)(phase, start) == no_sum(),
    {
        FileSetDiskWriter {
            cursor: fileset.make_cursor(),
            open_file: None,
            sums: Vec::new(),
        }
    }

    /// Where the checksum of a file is, which is added at the end of the list if it is not there.
    fn position(&mut self, phase: u16, start: u64) -> (r: usize)
        requires
            old(self).inv(),
        ensures
            final(self).inv(),
            final(self).cursor == old(self).cursor,
            final(self).open_file == old(self).open_file,
            forall|p: u16, s: int| #[trigger]
                sum_in(final(self).sums@, p, s) == sum_in(old(self).sums@, p, s),
            r < final(self).sums@.len(),
            final(self).sums@[r as int].0 == phase,
            final(self).sums@[r as int].1 == start,
            final(self).sums@[r as int].2@ == sum_in(old(self).sums@, phase, start as int),
    {
        let mut i: usize = 0;
        while i < self.sums.len()
            invariant
                i <= self.sums@.len(),
                *self == *old(self),
                self.inv(),
                forall|j: int|
                    0 <= j < i ==> !((#[trigger] self.sums@[j]).0 == phase && self.sums@[j].1
                        == start),
            decreases self.sums.len() - i,
        {
            if self.sums[i].0 == phase && self.sums[i].1 == start {
                proof {
                    lemma_sum_at(self.sums@, i as int);
                }
                return i;
            }
            i = i + 1;
        }
        let ghost before = self.sums@;
        self.sums.push((phase, start, AtomicChecksum::new()));
        proof {
            lemma_sum_absent(before, phase, start as int);
            assert(self.sums@.drop_last() =~= before);
        }
        i
    }

    /// The bytes of a task have come.
    fn write_piece(
        &mut self,
        phase: u16,
        need: &WriteNeed,
        bytes: Bytes,
        completed_range: &Range<PhaseOffset>,
        Ghost(t): Ghost<TaskModel>,
    ) -> (r: FileWrite)
        requires
            old(self).inv(),
            t.source == tree::SourceModel::Path(file_set::names_of(need.path@)),
            t.offset == need.file_offset,
            t.file_size == need.file_size,
            need.file_range.start.0 == file_start(t),
            need.file_range.end.0 == file_start(t) + t.file_size,
            stream::full_size(t) == buffers::bytes_of(bytes).len(),
            CHECKSUM_SIZE <= t.file_size,
            t.offset + stream::full_size(t) <= t.file_size,
        ensures
            final(self).inv(),
            final(self).cursor == old(self).cursor,
            r@ == write_of(
                old(self).model(),
                phase,
                t,
                buffers::bytes_of(bytes),
                *completed_range,
            ),
            final(self).model().open_file == writer_after(
                old(self).model(),
                phase,
                t,
                buffers::bytes_of(bytes),
                *completed_range,
            ).open_file,
            final(self).model().sums =~= writer_after(
                old(self).model(),
                phase,
                t,
                buffers::bytes_of(bytes),
                *completed_range,
            ).sums,
    {
        let ghost all = buffers::bytes_of(bytes);
        let ghost model = self.model();
        let mut bytes: Bytes = bytes;
        let len: u64 = bytes.len() as u64;
        let open = match &self.open_file {
            Some((p, path)) => !(*p == phase && same_path(path, &need.path)),
            None => true,
        };
        let content_size: u64 = need.file_size - CHECKSUM_SIZE_U64;
        let over: u64 = (need.file_offset + len).saturating_sub(content_size);
        let checksum_bytes: u64 = if over < len {
            over
        } else {
            len
        };
        let data = bytes.split_to((len - checksum_bytes) as usize);
        proof {
            assert(len - checksum_bytes == stream::chunk_size(t));
            assert(buffers::bytes_of(data) =~= all.take(stream::chunk_size(t)));
        }
        let at: usize = self.position(phase, need.file_range.start.0);
        let ghost before = self.sums@;
        if checksum_bytes > 0 {
            let checksum_offset: u64 = need.file_offset.saturating_sub(content_size);
            assert(checksum_offset == stream::sum_start(t));
            self.sums[at].2.partial_update(
                checksum_offset as usize,
                buffers::as_slice(&bytes),
            );
        }
        let ghost sum = sum_after(model, phase, t, all);
        proof {
            let after = self.sums@;
            assert(after[at as int].2@ =~= sum);
            assert forall|i: int, j: int| 0 <= i < j < after.len() implies !((
            #[trigger] after[i]).0 == (#[trigger] after[j]).0 && after[i].1 == after[j].1) by {
                assert(!(before[i].0 == before[j].0 && before[i].1 == before[j].1));
            }
            assert forall|p: u16, s: int| #[trigger]
                sum_in(after, p, s) == if p == phase && s == file_start(t) {
                    sum
                } else {
                    (model.sums)(p, s)
                } by {
                if p == phase && s == file_start(t) {
                    lemma_sum_at(after, at as int);
                } else {
                    lemma_sum_others(after, before, at as int, p, s);
                    assert(sum_in(before, p, s) == (model.sums)(p, s));
                }
            }
        }
        let finished: Option<FinishedFile> = if contains(
            copy_range(completed_range),
            copy_range(&need.file_range),
        ) {
            Some(FinishedFile { size: content_size, sum: self.sums[at].2.bytes() })
        } else {
            None
        };
        self.open_file = match finished {
            Some(_) => None,
            None => Some((phase, copy_path(&need.path))),
        };
        FileWrite {
            path: copy_path(&need.path),
            open,
            offset: need.file_offset,
            data,
            finished,
        }
    }
}

/// The part of a span from `from` to `to`.
pub open spec fn part_of(span: FileSpan, from: int, to: int) -> TaskModel {
    TaskModel {
        start: from,
        end: to,
        source: span.source,
        offset: from - span.offset,
        file_size: span.size,
        kind: span.kind,
    }
}

/// The tasks up to `cur`, which are none where nothing lies between.
pub open spec fn tasks_upto(list: Seq<FileSpan>, start: int, cur: int) -> Seq<TaskModel> {
    if start == cur {
        Seq::empty()
    } else {
        tree::tasks_of(list, start, cur)
    }
}

/// Going on from `cur` within the span that holds it adds one task.
proof fn lemma_next_task(
    list: Seq<FileSpan>,
    from: int,
    to: int,
    start: int,
    cur: int,
    next: int,
    i: int,
)
    requires
        tree::tiled(list, from, to),
        0 <= i < list.len(),
        tree::covers(list[i], cur),
        start <= cur,
        cur == start || cur == list[i].offset,
        cur < next <= list[i].offset + list[i].size,
    ensures
        tasks_upto(list, start, next) == tasks_upto(list, start, cur).push(
            part_of(list[i], cur, next),
        ),
{
    tree::lemma_tiled_bounds(list, from, to);
    let a = list.take(i);
    let b = seq![list[i]];
    let c = list.skip(i + 1);
    assert(list =~= a + (b + c));
    tree::lemma_tasks_concat(a, b + c, start, next);
    tree::lemma_tasks_concat(b, c, start, next);
    tree::lemma_tasks_concat(a, b + c, start, cur);
    tree::lemma_tasks_concat(b, c, start, cur);
    assert forall|k: int| 0 <= k < c.len() implies (#[trigger] c[k]).offset + c[k].size <= start
        || next <= c[k].offset by {
        assert(c[k] == list[i + 1 + k]);
    }
    tree::lemma_tasks_outside(c, start, next);
    assert forall|k: int| 0 <= k < c.len() implies (#[trigger] c[k]).offset + c[k].size <= start
        || cur <= c[k].offset by {
        assert(c[k] == list[i + 1 + k]);
    }
    tree::lemma_tasks_outside(c, start, cur);
    reveal_with_fuel(tree::tasks_of, 2);
    assert(b.drop_last() =~= Seq::empty());
    assert(tree::tasks_of(b, start, next) =~= seq![part_of(list[i], cur, next)]);
    if cur == start {
        assert forall|k: int| 0 <= k < a.len() implies (#[trigger] a[k]).offset + a[k].size
            <= start || next <= a[k].offset by {
            assert(a[k] == list[k]);
        }
        tree::lemma_tasks_outside(a, start, next);
    } else {
        assert(tree::tasks_of(b, start, cur) =~= Seq::empty());
        assert forall|k: int| 0 <= k < a.len() implies (#[trigger] a[k]).offset + a[k].size
            <= cur by {
            assert(a[k] == list[k]);
        }
        lemma_tasks_before(a, start, cur, next);
    }
    assert(tasks_upto(list, start, next) =~= tasks_upto(list, start, cur).push(
        part_of(list[i], cur, next),
    ));
}

proof fn lemma_tasks_before(list: Seq<FileSpan>, start: int, cur: int, next: int)
    requires
        start < cur < next,
        forall|k: int|
            0 <= k < list.len() ==> (#[trigger] list[k]).offset + list[k].size <= cur
                && list[k].size > 0,
    ensures
        tree::tasks_of(list, start, next) == tree::tasks_of(list, start, cur),
    decreases list.len(),
{
    if list.len() > 0 {
        assert(list.last() == list[list.len() - 1]);
        assert forall|k: int| 0 <= k < list.drop_last().len() implies (
        #[trigger] list.drop_last()[k]).offset + list.drop_last()[k].size <= cur
            && list.drop_last()[k].size > 0 by {
            assert(list.drop_last()[k] == list[k]);
        }
        lemma_tasks_before(list.drop_last(), start, cur, next);
    }
}

/// What is said of what is to be written.
pub open spec fn result_view(r: Result<Vec<FileWrite>, FileSetError>) -> Result<
    Seq<FileWriteModel>,
    FileSetError,
> {
    match r {
        Ok(writes) => Ok(writes_view(writes@)),
        Err(e) => Err(e),
    }
}

/// `after` is what a writer knows, and `r` what is to be written to the files of `set`, when the
/// packet `dest` with `bytes` has come. `completed` is the run of bytes around the packet that have
/// arrived.
pub open spec fn writes_packet(
    set: Seq<file_set::PhaseModel>,
    before: WriterModel,
    dest: PacketIdx,
    bytes: Seq<u8>,
    completed: Range<PhaseOffset>,
    after: WriterModel,
    r: Result<Seq<FileWriteModel>, FileSetError>,
) -> bool {
    let phase = dest.phase_of();
    let start = dest.index_of() * PAYLOAD_SIZE;
    let tasks = tree::tasks_of(
        file_set::phase_spans(set[phase as int]),
        start,
        start + bytes.len(),
    );
    let nothing = after.open_file == before.open_file && after.sums =~= before.sums;
    if bytes.len() == 0 {
        r == Ok::<Seq<FileWriteModel>, FileSetError>(Seq::empty()) && nothing
    } else if phase >= set.len() {
        r == Err::<Seq<FileWriteModel>, FileSetError>(FileSetError::BadPhase) && nothing
    } else if phase == 0 {
        r == Err::<Seq<FileWriteModel>, FileSetError>(FileSetError::FileSetPhase) && nothing
    } else {
        let known = writer_after_all(before, phase, tasks, bytes, start, completed);
        &&& r == Ok::<Seq<FileWriteModel>, FileSetError>(
            writes_of_all(before, phase, tasks, bytes, start, completed),
        )
        &&& after.open_file == known.open_file
        &&& after.sums =~= known.sums
    }
}

impl<'a> FileSetDiskWriter<'a> {
    /// A packet has come: tells what is to be written, file by file. `completed_range` is the run
    /// of bytes around the packet that have arrived.
    #[verifier::spinoff_prover]
    #[verifier::rlimit(60)]
    pub fn write(
        &mut self,
        dest: PacketIdx,
        data: Bytes,
        completed_range: Range<PhaseOffset>,
    ) -> (r: Result<Vec<FileWrite>, FileSetError>)
        requires
            old(self).inv(),
            dest.index_of() * PAYLOAD_SIZE + buffers::bytes_of(data).len() <= u64::MAX,
            0 < dest.phase_of() < old(self).cursor.set_of().len() ==> {
                let t = old(self).cursor.set_of()[dest.phase_of() as int].tree;
                &&& tree::placed(t, 0)
                &&& dest.index_of() * PAYLOAD_SIZE + buffers::bytes_of(data).len()
                    <= tree::file_bytes(t)
            },
        ensures
            final(self).inv(),
            final(self).cursor.set_of() == old(self).cursor.set_of(),
            writes_packet(
                old(self).cursor.set_of(),
                old(self).model(),
                dest,
                buffers::bytes_of(data),
                completed_range,
                final(self).model(),
                result_view(r),
            ),
    {
        let phase: u16 = dest.phase();
        let ghost bytes = buffers::bytes_of(data);
        let ghost model = self.model();
        let ghost set = self.cursor.set_of();
        let ghost list = file_set::phase_spans(set[phase as int]);
        let ghost tree_of_phase = set[phase as int].tree;
        let ghost start = dest.index_of() * PAYLOAD_SIZE;
        let mut cur: PhaseOffset = calculate_phase_offset(dest.index());
        let end: PhaseOffset = PhaseOffset(cur.0 + data.len() as u64);
        let mut rest: Bytes = data.clone();
        let mut writes: Vec<FileWrite> = Vec::new();
        proof {
            assert(writes_view(writes@) =~= Seq::empty());
            if 0 < phase < set.len() {
                tree::lemma_placed_bounds(tree_of_phase, 0);
                tree::lemma_spans_tiled(tree_of_phase, 0, seq![set[phase as int].path]);
            }
        }
        while cur != end
            invariant
                phase == dest.phase_of(),
                self.inv(),
                self.cursor.set_of() == set,
                set == old(self).cursor.set_of(),
                model == old(self).model(),
                bytes == buffers::bytes_of(data),
                start == dest.index_of() * PAYLOAD_SIZE,
                list == file_set::phase_spans(set[phase as int]),
                tree_of_phase == set[phase as int].tree,
                start <= cur.0 <= end.0,
                end.0 == start + bytes.len(),
                buffers::bytes_of(rest) =~= bytes.skip(cur.0 - start),
                0 < phase < set.len() ==> {
                    &&& tree::placed(tree_of_phase, 0)
                    &&& end.0 <= tree::file_bytes(tree_of_phase)
                    &&& tree::start_of(tree_of_phase) == 0
                    &&& tree::tiled(list, 0, tree::file_bytes(tree_of_phase) as int)
                },
                !(0 < phase < set.len()) ==> cur.0 == start,
                cur.0 == start || cur.0 == end.0 || exists|i: int|
                    0 <= i < list.len() && (#[trigger] list[i]).offset == cur.0,
                writes_view(writes@) == writes_of_all(
                    model,
                    phase,
                    tasks_upto(list, start, cur.0 as int),
                    bytes,
                    start,
                    completed_range,
                ),
                self.model().open_file == writer_after_all(
                    model,
                    phase,
                    tasks_upto(list, start, cur.0 as int),
                    bytes,
                    start,
                    completed_range,
                ).open_file,
                self.model().sums =~= writer_after_all(
                    model,
                    phase,
                    tasks_upto(list, start, cur.0 as int),
                    bytes,
                    start,
                    completed_range,
                ).sums,
            decreases end.0 - cur.0,
        {
            let need: WriteNeed = match self.cursor.seek(phase, cur) {
                Ok(need) => need,
                Err(e) => return Err(e),
            };
            let ghost i = choose|i: int|
                0 <= i < list.len() && tree::covers(#[trigger] list[i], cur.0 as int)
                    && cursor::need_matches(need, list[i], cur.0 as int);
            let ghost tasks = tasks_upto(list, start, cur.0 as int);
            proof {
                tree::lemma_tiled_bounds(list, 0, tree::file_bytes(tree_of_phase) as int);
            }
            let left: u64 = need.file_size - need.file_offset;
            let whole: usize = rest.len();
            let now: usize = if whole as u64 > left {
                left as usize
            } else {
                whole
            };
            let bytes_now: Bytes = rest.split_to(now);
            let ghost next = cur.0 + now;
            let ghost t = part_of(list[i], cur.0 as int, next);
            let ghost known = self.model();
            proof {
                assert(buffers::bytes_of(bytes_now) =~= bytes.subrange(
                    t.start - start,
                    t.end - start,
                ));
                if cur.0 != start {
                    let k = choose|k: int| 0 <= k < list.len() && (#[trigger] list[k]).offset
                        == cur.0;
                    if k < i {
                        assert(list[k].offset + list[k].size <= list[i].offset);
                    }
                    if i < k {
                        assert(list[i].offset + list[i].size <= list[k].offset);
                    }
                    assert(k == i);
                }
                lemma_next_task(
                    list,
                    0,
                    tree::file_bytes(tree_of_phase) as int,
                    start,
                    cur.0 as int,
                    next,
                    i,
                );
                assert(tasks.push(t).drop_last() =~= tasks);
            }
            let ghost written = writes_view(writes@);
            let w = self.write_piece(phase, &need, bytes_now, &completed_range, Ghost(t));
            let ghost w_model = w@;
            writes.push(w);
            proof {
                assert(writes_view(writes@) =~= written.push(w_model));
                let before = writer_after_all(
                    model,
                    phase,
                    tasks,
                    bytes,
                    start,
                    completed_range,
                );
                assert(known.sums =~= before.sums);
                assert(known == before);
                if next < end.0 {
                    assert(next == list[i].offset + list[i].size);
                    lemma_next_span(
                        list,
                        0,
                        tree::file_bytes(tree_of_phase) as int,
                        i,
                    );
                    assert(list[i + 1].offset == next);
                }
            }
            cur = PhaseOffset(cur.0 + now as u64);
        }
        Ok(writes)
    }
}

/// A span of a tiling ends where the next begins.
proof fn lemma_next_span(list: Seq<FileSpan>, from: int, to: int, i: int)
    requires
        tree::tiled(list, from, to),
        0 <= i < list.len(),
    ensures
        list[i].offset + list[i].size < to ==> i + 1 < list.len() && list[i + 1].offset
            == list[i].offset + list[i].size,
    decreases list.len(),
{
    if i < list.len() - 1 {
        let init = list.drop_last();
        lemma_next_span(init, from, list.last().offset, i);
        assert(init[i] == list[i]);
        tree::lemma_tiled_bounds(list, from, to);
        if i < list.len() - 2 {
            assert(init[i + 1] == list[i + 1]);
            assert(list[i].offset + list[i].size <= list[i + 1].offset);
            assert(list[i + 1].offset + list[i + 1].size <= list.last().offset);
        } else {
            lemma_last_meets(init, from, list.last().offset);
        }
    }
}

proof fn lemma_last_meets(list: Seq<FileSpan>, from: int, to: int)
    requires
        tree::tiled(list, from, to),
        list.len() > 0,
    ensures
        list.last().offset + list.last().size == to,
{
}

} // verus!
