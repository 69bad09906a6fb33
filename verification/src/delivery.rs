//! What arrives is what was sent: packets hold the bytes of the files, in their places.
use std::ops::Range;

use vstd::prelude::*;

use crate::client::ClientProtocolHandler;
use crate::client_state::{ClientError, ClientStateEnum};
use crate::disk_read_engine::{ChecksumModel, ReadEngine, TaskRead};
use crate::disk_writer::WriterModel;
use crate::file_set::{FileSet, FileSetError};
use crate::meta::Meta;
use crate::packet::{
    PacketIdx, PhaseOffset, PhaseSize, RetransmitGeneration, SessionId, CHECKSUM_SIZE,
    INVALID_INDEX, MAX_INDEX, MAX_OFFSET, PAYLOAD_SIZE,
};
use crate::peer::PeerAddrV4;
use crate::tree::{FileSpan, Kind, SourceModel, TaskModel};
use crate::{
    checksum, client, client_state, disk_read_engine, disk_writer, file_set, file_set_wire, messages,
    meta, packet, range_set, server, stream, tree,
};

verus! {

/// What a file makes of its bytes in a phase: the bytes, then their checksum.
pub open spec fn with_sum(content: Seq<u8>) -> Seq<u8> {
    content + checksum::checksum_of(content)
}

/// What the source of a file holds.
pub open spec fn content_of(
    contents: spec_fn(Option<Seq<Seq<u8>>>) -> Seq<u8>,
    source: SourceModel,
) -> Seq<u8> {
    contents(file_set::source_id(source))
}

/// The source holds as many bytes as the size says, and the description of the file set is what is
/// in the file set.
pub open spec fn source_true(
    contents: spec_fn(Option<Seq<Seq<u8>>>) -> Seq<u8>,
    source: SourceModel,
    size: int,
) -> bool {
    &&& content_of(contents, source).len() + CHECKSUM_SIZE == size
    &&& source matches SourceModel::FileSet(description) ==> content_of(contents, source)
        == description
}

/// The bytes of a phase: those of its files, one after the other, each with its checksum.
pub open spec fn phase_bytes(
    list: Seq<FileSpan>,
    contents: spec_fn(Option<Seq<Seq<u8>>>) -> Seq<u8>,
) -> Seq<u8>
    decreases list.len(),
{
    if list.len() == 0 {
        Seq::empty()
    } else {
        phase_bytes(list.drop_last(), contents) + with_sum(
            content_of(contents, list.last().source),
        )
    }
}

/// The checksums that have been begun are those of what the sources hold.
pub open spec fn sums_true(
    states: spec_fn(Option<Seq<Seq<u8>>>) -> ChecksumModel,
    contents: spec_fn(Option<Seq<Seq<u8>>>) -> Seq<u8>,
) -> bool {
    forall|id: Option<Seq<Seq<u8>>>| match #[trigger] states(id) {
        ChecksumModel::Hashing { hashed, .. } => hashed.len() <= contents(id).len() && hashed
            == contents(id).take(hashed.len() as int),
        ChecksumModel::Finished { sum, .. } => sum == checksum::checksum_of(contents(id)),
    }
}

/// What was read for a task is what the source holds there.
pub open spec fn read_true(t: TaskModel, read: Seq<u8>, content: Seq<u8>) -> bool {
    match t.kind {
        Kind::Normal => read == with_sum(content).subrange(
            t.offset,
            t.offset + stream::chunk_size(t),
        ),
        Kind::Symlink => read == content,
        Kind::FileSet => true,
    }
}

/// A task that is read from what the source holds gives the bytes of the file, checksum included,
/// that lie in the place of the task; and the checksums stay true.
pub proof fn law_task_bytes(
    states: spec_fn(Option<Seq<Seq<u8>>>) -> ChecksumModel,
    contents: spec_fn(Option<Seq<Seq<u8>>>) -> Seq<u8>,
    t: TaskModel,
    read: Seq<u8>,
    whole: Seq<u8>,
)
    requires
        sums_true(states, contents),
        stream::task_ok(t),
        source_true(contents, t.source, t.file_size),
        read_true(t, read, content_of(contents, t.source)),
        disk_read_engine::hash_needed(states, t, read) ==> whole == checksum::checksum_of(
            content_of(contents, t.source),
        ),
    ensures
        sums_true(disk_read_engine::step_states(states, t, read), contents),
        disk_read_engine::step_bytes(states, t, read, whole) == with_sum(
            content_of(contents, t.source),
        ).subrange(t.offset, t.offset + stream::full_size(t)),
{
    let content = content_of(contents, t.source);
    let id = file_set::source_id(t.source);
    let chunk = disk_read_engine::chunk_of(t, read);
    let after = disk_read_engine::step_states(states, t, read);
    assert(chunk =~= with_sum(content).subrange(t.offset, t.offset + stream::chunk_size(t)));
    let state = states(id);
    assert(sums_true(after, contents)) by {
        assert forall|other: Option<Seq<Seq<u8>>>| match #[trigger] after(other) {
            ChecksumModel::Hashing { hashed, .. } => hashed.len() <= contents(other).len()
                && hashed == contents(other).take(hashed.len() as int),
            ChecksumModel::Finished { sum, .. } => sum == checksum::checksum_of(contents(other)),
        } by {
            if other == id {
                match state {
                    ChecksumModel::Hashing { hashed, .. } => {
                        if t.offset <= hashed.len() < t.offset + chunk.len() {
                            let all = hashed + chunk.skip(hashed.len() - t.offset);
                            assert(all =~= content.take(t.offset + chunk.len()));
                            if t.offset + chunk.len() == stream::real_size(t) {
                                assert(all =~= content);
                            }
                        }
                    },
                    ChecksumModel::Finished { .. } => {},
                }
            } else {
                assert(after(other) == states(other));
            }
        }
    }
    let sum = match disk_read_engine::known_sum(after(id), t.source) {
        Some(sum) => sum,
        None => whole,
    };
    if stream::reaches_sum(t) {
        assert(sum == checksum::checksum_of(content)) by {
            match after(id) {
                ChecksumModel::Hashing { .. } => {},
                ChecksumModel::Finished { .. } => {},
            }
        }
    }
    assert(disk_read_engine::step_bytes(states, t, read, whole) =~= with_sum(content).subrange(
        t.offset,
        t.offset + stream::full_size(t),
    ));
}

/// What was read for each task is what its source holds, and so is the checksum of the source
/// where it was needed.
pub open spec fn reads_true(
    states: spec_fn(Option<Seq<Seq<u8>>>) -> ChecksumModel,
    contents: spec_fn(Option<Seq<Seq<u8>>>) -> Seq<u8>,
    tasks: Seq<(u16, TaskModel)>,
    reads: Seq<TaskRead>,
) -> bool {
    &&& reads.len() == tasks.len()
    &&& forall|i: int|
        0 <= i < reads.len() ==> {
            let t = tasks[i].1;
            let content = content_of(contents, t.source);
            &&& read_true(t, (#[trigger] reads[i]).bytes@, content)
            &&& disk_read_engine::hash_needed(
                disk_read_engine::run_states(states, tasks.take(i), reads.take(i)),
                t,
                reads[i].bytes@,
            ) ==> reads[i].whole@ == checksum::checksum_of(content)
        }
}

proof fn lemma_reads_true_prefix(
    states: spec_fn(Option<Seq<Seq<u8>>>) -> ChecksumModel,
    contents: spec_fn(Option<Seq<Seq<u8>>>) -> Seq<u8>,
    tasks: Seq<(u16, TaskModel)>,
    reads: Seq<TaskRead>,
)
    requires
        reads_true(states, contents, tasks, reads),
        tasks.len() > 0,
    ensures
        reads_true(states, contents, tasks.drop_last(), reads.drop_last()),
{
    let shorter = reads.drop_last();
    assert forall|i: int| 0 <= i < shorter.len() implies {
        let t = tasks.drop_last()[i].1;
        let content = content_of(contents, t.source);
        &&& read_true(t, (#[trigger] shorter[i]).bytes@, content)
        &&& disk_read_engine::hash_needed(
            disk_read_engine::run_states(states, tasks.drop_last().take(i), shorter.take(i)),
            t,
            shorter[i].bytes@,
        ) ==> shorter[i].whole@ == checksum::checksum_of(content)
    } by {
        assert(shorter[i] == reads[i]);
        assert(tasks.drop_last().take(i) =~= tasks.take(i));
        assert(shorter.take(i) =~= reads.take(i));
    }
}

/// The last of some tasks, read truly, adds its bytes to those of the others.
proof fn lemma_run_last(
    states: spec_fn(Option<Seq<Seq<u8>>>) -> ChecksumModel,
    contents: spec_fn(Option<Seq<Seq<u8>>>) -> Seq<u8>,
    tasks: Seq<(u16, TaskModel)>,
    reads: Seq<TaskRead>,
)
    requires
        tasks.len() > 0,
        reads_true(states, contents, tasks, reads),
        sums_true(
            disk_read_engine::run_states(states, tasks.drop_last(), reads.drop_last()),
            contents,
        ),
        stream::task_ok(tasks.last().1),
        source_true(contents, tasks.last().1.source, tasks.last().1.file_size),
    ensures
        sums_true(disk_read_engine::run_states(states, tasks, reads), contents),
        disk_read_engine::run_bytes(states, tasks, reads) == disk_read_engine::run_bytes(
            states,
            tasks.drop_last(),
            reads.drop_last(),
        ) + with_sum(content_of(contents, tasks.last().1.source)).subrange(
            tasks.last().1.offset,
            tasks.last().1.offset + stream::full_size(tasks.last().1),
        ),
{
    let n = tasks.len() - 1;
    assert(reads[n] == reads.last());
    assert(tasks.take(n) =~= tasks.drop_last());
    assert(reads.take(n) =~= reads.drop_last());
    law_task_bytes(
        disk_read_engine::run_states(states, tasks.drop_last(), reads.drop_last()),
        contents,
        tasks.last().1,
        reads.last().bytes@,
        reads.last().whole@,
    );
}

/// All sources hold what the file set says of them.
pub open spec fn sources_true(
    contents: spec_fn(Option<Seq<Seq<u8>>>) -> Seq<u8>,
    list: Seq<FileSpan>,
) -> bool {
    forall|i: int|
        0 <= i < list.len() ==> source_true(contents, (#[trigger] list[i]).source, list[i].size)
}

/// The bytes of a phase are as many as its files say.
pub proof fn lemma_phase_bytes_len(
    list: Seq<FileSpan>,
    contents: spec_fn(Option<Seq<Seq<u8>>>) -> Seq<u8>,
    from: int,
    to: int,
)
    requires
        tree::tiled(list, from, to),
        sources_true(contents, list),
    ensures
        phase_bytes(list, contents).len() == to - from,
    decreases list.len(),
{
    if list.len() > 0 {
        assert(list.last() == list[list.len() - 1]);
        assert forall|i: int| 0 <= i < list.drop_last().len() implies source_true(
            contents,
            (#[trigger] list.drop_last()[i]).source,
            list.drop_last()[i].size,
        ) by {
            assert(list.drop_last()[i] == list[i]);
        }
        lemma_phase_bytes_len(list.drop_last(), contents, from, list.last().offset);
    }
}

/// Reading a range of a phase truly gives the bytes of the phase in that range; and the checksums
/// stay true.
pub proof fn law_run_bytes(
    states: spec_fn(Option<Seq<Seq<u8>>>) -> ChecksumModel,
    contents: spec_fn(Option<Seq<Seq<u8>>>) -> Seq<u8>,
    phase: u16,
    list: Seq<FileSpan>,
    from: int,
    to: int,
    start: int,
    end: int,
    reads: Seq<TaskRead>,
)
    requires
        sums_true(states, contents),
        tree::tiled(list, from, to),
        sources_true(contents, list),
        from <= start < end,
        start < to,
        forall|i: int|
            0 <= i < tree::tasks_of(list, start, end).len() ==> stream::task_ok(
                #[trigger] tree::tasks_of(list, start, end)[i],
            ),
        reads_true(
            states,
            contents,
            file_set::in_phase(phase, tree::tasks_of(list, start, end)),
            reads,
        ),
    ensures
        sums_true(
            disk_read_engine::run_states(
                states,
                file_set::in_phase(phase, tree::tasks_of(list, start, end)),
                reads,
            ),
            contents,
        ),
        disk_read_engine::run_bytes(
            states,
            file_set::in_phase(phase, tree::tasks_of(list, start, end)),
            reads,
        ) == phase_bytes(list, contents).subrange(
            start - from,
            (if to < end {
                to
            } else {
                end
            }) - from,
        ),
    decreases list.len(),
{
    lemma_phase_bytes_len(list, contents, from, to);
    if list.len() > 0 {
        let last = list.last();
        let init = list.drop_last();
        let mid = last.offset;
        let tasks = tree::tasks_of(list, start, end);
        let earlier = tree::tasks_of(init, start, end);
        let all = phase_bytes(list, contents);
        let content = content_of(contents, last.source);
        assert(last == list[list.len() - 1]);
        tree::lemma_tiled_bounds(list, from, to);
        assert forall|i: int| 0 <= i < init.len() implies source_true(
            contents,
            (#[trigger] init[i]).source,
            init[i].size,
        ) by {
            assert(init[i] == list[i]);
        }
        lemma_phase_bytes_len(init, contents, from, mid);
        let stop = if to < end {
            to
        } else {
            end
        };
        match tree::task_of(last, start, end) {
            None => {
                assert(end <= mid);
                law_run_bytes(
                    states,
                    contents,
                    phase,
                    init,
                    from,
                    mid,
                    start,
                    end,
                    reads,
                );
                assert(all.subrange(start - from, stop - from) =~= phase_bytes(
                    init,
                    contents,
                ).subrange(start - from, end - from));
            },
            Some(task) => {
                let marked = file_set::in_phase(phase, tasks);
                assert(marked.drop_last() =~= file_set::in_phase(phase, earlier));
                assert(marked.last().1 == task);
                assert(stream::task_ok(tasks[tasks.len() - 1]));
                assert forall|i: int| 0 <= i < earlier.len() implies stream::task_ok(
                    #[trigger] earlier[i],
                ) by {
                    assert(earlier[i] == tasks[i]);
                }
                lemma_reads_true_prefix(states, contents, marked, reads);
                if start < mid {
                    law_run_bytes(
                        states,
                        contents,
                        phase,
                        init,
                        from,
                        mid,
                        start,
                        end,
                        reads.drop_last(),
                    );
                    lemma_run_last(states, contents, marked, reads);
                    assert(all.subrange(start - from, stop - from) =~= phase_bytes(
                        init,
                        contents,
                    ).subrange(start - from, mid - from) + with_sum(content).subrange(
                        task.offset,
                        task.offset + stream::full_size(task),
                    ));
                } else {
                    assert forall|i: int| 0 <= i < init.len() implies (
                    #[trigger] init[i]).offset + init[i].size <= start || end
                        <= init[i].offset by {
                        assert(init[i] == list[i]);
                    }
                    tree::lemma_tasks_outside(init, start, end);
                    assert(marked.drop_last() =~= Seq::empty());
                    lemma_run_last(states, contents, marked, reads);
                    assert(all.subrange(start - from, stop - from) =~= Seq::<u8>::empty()
                        + with_sum(content).subrange(
                        task.offset,
                        task.offset + stream::full_size(task),
                    ));
                }
            },
        }
    }
}

/// The tasks of a range of packets within one phase are those of the bytes of the packets.
pub proof fn lemma_tasks_of_phase(engine: ReadEngine, idx: Range<PacketIdx>)
    requires
        idx.start.0 < idx.end.0,
        idx.start.phase_of() == idx.end.phase_of(),
    ensures
        engine.tasks_for(idx) == file_set::in_phase(
            idx.start.phase_of(),
            tree::tasks_of(
                file_set::phase_spans(engine.files@[idx.start.phase_of() as int]),
                idx.start.index_of() * PAYLOAD_SIZE,
                idx.end.index_of() * PAYLOAD_SIZE,
            ),
        ),
        ({
            let parts = packet::phases_from(idx, &engine.files, idx.start.phase_of() as int);
            &&& parts.len() == 1
            &&& parts[0].0 == idx.start.phase_of()
            &&& parts[0].1.start.0 == idx.start.index_of() * PAYLOAD_SIZE
        }),
{
    let phase = idx.start.phase_of() as int;
    packet::law_packet_idx_parts(idx.start);
    packet::law_packet_idx_parts(idx.end);
    reveal_with_fuel(packet::phases_from, 2);
    let parts = packet::phases_from(idx, &engine.files, phase);
    assert(parts.len() == 1);
    assert(parts.drop_last() =~= Seq::empty());
    reveal_with_fuel(file_set::visit_tasks, 2);
    assert(engine.tasks_for(idx) =~= file_set::in_phase(
        idx.start.phase_of(),
        tree::tasks_of(
            file_set::phase_spans(engine.files@[phase]),
            idx.start.index_of() * PAYLOAD_SIZE,
            idx.end.index_of() * PAYLOAD_SIZE,
        ),
    ));
}

/// The packets of a part of a phase: from the packet in which the part begins to the end of the part
/// or of the phase, each with the bytes of the phase that belong to its index.
pub open spec fn phase_packets(
    set: Seq<file_set::PhaseModel>,
    contents: spec_fn(Option<Seq<Seq<u8>>>) -> Seq<u8>,
    burst: stream::BurstModel,
    part: (u16, Range<PhaseOffset>),
) -> Seq<messages::PayloadModel> {
    let phase = phase_bytes(file_set::phase_spans(set[part.0 as int]), contents);
    let first = part.1.start.0 as int / PAYLOAD_SIZE as int;
    let stop = stream::packet_count(
        if phase.len() < part.1.end.0 {
            phase.len() as int
        } else {
            part.1.end.0 as int
        },
        true,
    );
    Seq::new(
        (stop - first) as nat,
        |k: int|
            stream::packet_of(
                burst,
                disk_read_engine::phase_base(part.0) + first + k,
                stream::packet_data(phase, first + k),
            ),
    )
}

/// The packets of some parts of phases, part by part.
pub open spec fn true_packets(
    set: Seq<file_set::PhaseModel>,
    contents: spec_fn(Option<Seq<Seq<u8>>>) -> Seq<u8>,
    burst: stream::BurstModel,
    parts: Seq<(u16, Range<PhaseOffset>)>,
) -> Seq<messages::PayloadModel>
    decreases parts.len(),
{
    if parts.len() == 0 {
        Seq::empty()
    } else {
        true_packets(set, contents, burst, parts.drop_last()) + phase_packets(
            set,
            contents,
            burst,
            parts.last(),
        )
    }
}

/// The part is one of a phase whose sources are true, begins within the phase with a packet, and
/// ends with a packet or with the phase.
pub open spec fn part_true(
    set: Seq<file_set::PhaseModel>,
    contents: spec_fn(Option<Seq<Seq<u8>>>) -> Seq<u8>,
    part: (u16, Range<PhaseOffset>),
) -> bool {
    let t = set[part.0 as int].tree;
    &&& tree::well_placed(t)
    &&& tree::start_of(t) == 0
    &&& sources_true(contents, file_set::phase_spans(set[part.0 as int]))
    &&& part.1.start.0 as int % PAYLOAD_SIZE as int == 0
    &&& part.1.start.0 < part.1.end.0
    &&& part.1.start.0 < tree::extent(t)
    &&& part.1.end.0 as int % PAYLOAD_SIZE as int == 0 || part.1.end.0 >= tree::extent(t)
}

/// What was read for some tasks is true of the first of them, and of the others after them.
proof fn lemma_reads_true_split(
    states: spec_fn(Option<Seq<Seq<u8>>>) -> ChecksumModel,
    contents: spec_fn(Option<Seq<Seq<u8>>>) -> Seq<u8>,
    a: Seq<(u16, TaskModel)>,
    b: Seq<(u16, TaskModel)>,
    reads: Seq<TaskRead>,
)
    requires
        reads_true(states, contents, a + b, reads),
    ensures
        reads_true(states, contents, a, reads.take(a.len() as int)),
        reads_true(
            disk_read_engine::run_states(states, a, reads.take(a.len() as int)),
            contents,
            b,
            reads.skip(a.len() as int),
        ),
{
    let n = a.len() as int;
    let head = reads.take(n);
    let rest = reads.skip(n);
    let after = disk_read_engine::run_states(states, a, head);
    assert forall|i: int| 0 <= i < head.len() implies {
        let t = a[i].1;
        let content = content_of(contents, t.source);
        &&& read_true(t, (#[trigger] head[i]).bytes@, content)
        &&& disk_read_engine::hash_needed(
            disk_read_engine::run_states(states, a.take(i), head.take(i)),
            t,
            head[i].bytes@,
        ) ==> head[i].whole@ == checksum::checksum_of(content)
    } by {
        assert(head[i] == reads[i]);
        assert((a + b).take(i) =~= a.take(i));
        assert(head.take(i) =~= reads.take(i));
    }
    assert forall|i: int| 0 <= i < rest.len() implies {
        let t = b[i].1;
        let content = content_of(contents, t.source);
        &&& read_true(t, (#[trigger] rest[i]).bytes@, content)
        &&& disk_read_engine::hash_needed(
            disk_read_engine::run_states(after, b.take(i), rest.take(i)),
            t,
            rest[i].bytes@,
        ) ==> rest[i].whole@ == checksum::checksum_of(content)
    } by {
        assert(rest[i] == reads[n + i]);
        assert((a + b)[n + i] == b[i]);
        disk_read_engine::lemma_run_states_append(states, a, b.take(i), reads.take(n + i));
        assert((a + b).take(n + i) =~= a + b.take(i));
        assert(reads.take(n + i).take(n) =~= head);
        assert(reads.take(n + i).skip(n) =~= rest.take(i));
    }
}

proof fn lemma_part_packets(
    states: spec_fn(Option<Seq<Seq<u8>>>) -> ChecksumModel,
    contents: spec_fn(Option<Seq<Seq<u8>>>) -> Seq<u8>,
    set: Seq<file_set::PhaseModel>,
    burst: stream::BurstModel,
    part: (u16, Range<PhaseOffset>),
    reads: Seq<TaskRead>,
)
    requires
        part_true(set, contents, part),
        sums_true(states, contents),
        forall|i: int|
            0 <= i < file_set::part_tasks(set, part).len() ==> stream::task_ok(
                (#[trigger] file_set::part_tasks(set, part)[i]).1,
            ),
        reads_true(states, contents, file_set::part_tasks(set, part), reads),
    ensures
        sums_true(
            disk_read_engine::run_states(states, file_set::part_tasks(set, part), reads),
            contents,
        ),
        stream::packets(
            burst,
            disk_read_engine::part_index(part),
            disk_read_engine::run_bytes(states, file_set::part_tasks(set, part), reads),
            true,
        ) == phase_packets(set, contents, burst, part),
{
    let model = set[part.0 as int];
    let list = file_set::phase_spans(model);
    let start = part.1.start.0 as int;
    let end = part.1.end.0 as int;
    let to = tree::extent(model.tree) as int;
    let tasks = tree::tasks_of(list, start, end);
    tree::lemma_well_placed_tiled(model.tree, seq![model.path]);
    assert forall|i: int| 0 <= i < tasks.len() implies stream::task_ok(#[trigger] tasks[i]) by {
        assert(file_set::part_tasks(set, part)[i].1 == tasks[i]);
    }
    law_run_bytes(states, contents, part.0, list, 0, to, start, end, reads);
    lemma_phase_bytes_len(list, contents, 0, to);
    let phase = phase_bytes(list, contents);
    let bytes = disk_read_engine::run_bytes(states, file_set::part_tasks(set, part), reads);
    let stop = if to < end {
        to
    } else {
        end
    };
    assert(bytes == phase.subrange(start, stop));
    assert(PAYLOAD_SIZE == 1369);
    let first = start / 1369;
    assert(start == first * 1369);
    let sent = stream::packets(burst, disk_read_engine::part_index(part), bytes, true);
    let wanted = phase_packets(set, contents, burst, part);
    assert(sent.len() == wanted.len());
    assert forall|k: int| 0 <= k < sent.len() implies sent[k] == wanted[k] by {
        assert(k * 1369 < bytes.len());
        assert((first + k) * 1369 == start + k * 1369);
        assert((first + k + 1) * 1369 == start + (k + 1) * 1369);
        assert(stream::packet_data(bytes, k) =~= stream::packet_data(phase, first + k));
    }
    assert(sent =~= wanted);
}

proof fn lemma_burst_packets(
    states: spec_fn(Option<Seq<Seq<u8>>>) -> ChecksumModel,
    contents: spec_fn(Option<Seq<Seq<u8>>>) -> Seq<u8>,
    set: Seq<file_set::PhaseModel>,
    burst: stream::BurstModel,
    parts: Seq<(u16, Range<PhaseOffset>)>,
    reads: Seq<TaskRead>,
)
    requires
        forall|i: int| 0 <= i < parts.len() ==> part_true(set, contents, #[trigger] parts[i]),
        sums_true(states, contents),
        forall|i: int|
            0 <= i < file_set::visit_tasks(set, parts).len() ==> stream::task_ok(
                (#[trigger] file_set::visit_tasks(set, parts)[i]).1,
            ),
        reads_true(states, contents, file_set::visit_tasks(set, parts), reads),
    ensures
        sums_true(
            disk_read_engine::run_states(states, file_set::visit_tasks(set, parts), reads),
            contents,
        ),
        disk_read_engine::burst_packets(states, set, burst, parts, reads) == true_packets(
            set,
            contents,
            burst,
            parts,
        ),
    decreases parts.len(),
{
    if parts.len() > 0 {
        let init = parts.drop_last();
        let all = file_set::visit_tasks(set, parts);
        let a = file_set::visit_tasks(set, init);
        let b = file_set::part_tasks(set, parts.last());
        let n = a.len() as int;
        assert(parts.last() == parts[parts.len() - 1]);
        assert forall|i: int| 0 <= i < init.len() implies part_true(
            set,
            contents,
            #[trigger] init[i],
        ) by {
            assert(init[i] == parts[i]);
        }
        assert forall|i: int| 0 <= i < a.len() implies stream::task_ok((#[trigger] a[i]).1) by {
            assert(all[i] == a[i]);
        }
        assert forall|i: int| 0 <= i < b.len() implies stream::task_ok((#[trigger] b[i]).1) by {
            assert(all[n + i] == b[i]);
        }
        lemma_reads_true_split(states, contents, a, b, reads);
        lemma_burst_packets(states, contents, set, burst, init, reads.take(n));
        lemma_part_packets(
            disk_read_engine::run_states(states, a, reads.take(n)),
            contents,
            set,
            burst,
            parts.last(),
            reads.skip(n),
        );
        disk_read_engine::lemma_run_states_append(states, a, b, reads);
    } else {
        assert(disk_read_engine::run_states(
            states,
            file_set::visit_tasks(set, parts),
            reads,
        ) == states);
    }
}

/// The phases that a burst touches can be walked from their starts on, and their sources hold what
/// the file set says of them.
pub open spec fn phases_true(
    engine: ReadEngine,
    contents: spec_fn(Option<Seq<Seq<u8>>>) -> Seq<u8>,
    idx: Range<PacketIdx>,
) -> bool {
    forall|phase: int|
        idx.start.phase_of() <= phase <= idx.end.phase_of() && phase < engine.files@.len() ==> {
            &&& tree::well_placed((#[trigger] engine.files@[phase]).tree)
            &&& tree::start_of(engine.files@[phase].tree) == 0
            &&& sources_true(contents, file_set::phase_spans(engine.files@[phase]))
        }
}

/// The parts of a burst are as they have to be, and their packets have indices.
#[verifier::spinoff_prover]
proof fn lemma_parts_true(
    engine: ReadEngine,
    contents: spec_fn(Option<Seq<Seq<u8>>>) -> Seq<u8>,
    idx: Range<PacketIdx>,
    i: int,
)
    requires
        idx.start.0 < idx.end.0,
        engine.can_read(idx),
        phases_true(engine, contents, idx),
        0 <= i < engine.parts_for(idx).len(),
    ensures
        ({
            let part = engine.parts_for(idx)[i];
            let to = tree::extent(engine.files@[part.0 as int].tree);
            &&& part_true(engine.files@, contents, part)
            &&& part.0 < engine.files@.len()
            &&& idx.start.phase_of() <= part.0 <= idx.end.phase_of()
            &&& to <= MAX_OFFSET || part.1.end.0 <= MAX_OFFSET
            &&& part.0 == idx.end.phase_of() ==> part.1.end.0 == idx.end.index_of() * PAYLOAD_SIZE
            &&& part.0 < idx.end.phase_of() ==> part.1.end.0 == to
            &&& part.1.start.0 == if part.0 == idx.start.phase_of() {
                idx.start.index_of() * PAYLOAD_SIZE
            } else {
                0
            }
        }),
{
    let parts = engine.parts_for(idx);
    let part = parts[i];
    let set = engine.files@;
    let model = set[part.0 as int];
    let t = model.tree;
    assert(PAYLOAD_SIZE == 1369);
    packet::law_packet_idx_parts(idx.start);
    packet::law_packet_idx_parts(idx.end);
    file_set::lemma_part_start(idx, &engine.files, idx.start.phase_of() as int, i);
    assert(tree::well_placed(set[parts[i].0 as int].tree) && file_set::part_present(
        set,
        parts[i],
    ));
    assert(tree::start_of(engine.files@[part.0 as int].tree) == 0);
    if !(t is FileSet) {
        tree::lemma_placed_bounds(t, 0);
    }
    if part.0 < idx.end.phase_of() {
        assert(part.1.end.0 == tree::extent(t));
        lemma_part_has_indices(engine, idx, i);
    }
}

/// A part that reaches to the end of its phase has packet indices for all of its bytes.
#[verifier::spinoff_prover]
proof fn lemma_part_has_indices(engine: ReadEngine, idx: Range<PacketIdx>, i: int)
    requires
        engine.can_read(idx),
        0 <= i < engine.parts_for(idx).len(),
        ({
            let part = engine.parts_for(idx)[i];
            let t = engine.files@[part.0 as int].tree;
            &&& tree::well_placed(t)
            &&& tree::start_of(t) == 0
            &&& part.1.start.0 < part.1.end.0 == tree::extent(t)
        }),
    ensures
        engine.parts_for(idx)[i].1.end.0 <= MAX_OFFSET,
{
    let parts = engine.parts_for(idx);
    let part = parts[i];
    let set = engine.files@;
    let model = set[part.0 as int];
    let list = file_set::phase_spans(model);
    let start = part.1.start.0 as int;
    let end = part.1.end.0 as int;
    let own = tree::tasks_of(list, start, end);
    file_set::lemma_parts_ascending(idx, &engine.files, idx.start.phase_of() as int);
    file_set::lemma_visit_prefix(set, parts, i);
    tree::lemma_well_placed_tiled(model.tree, seq![model.path]);
    tree::lemma_tasks_tiled(list, 0, end, start, end);
    assert(own.len() > 0 && own.last().end == end);
    let upto = file_set::visit_tasks(set, parts.take(i + 1));
    let k = upto.len() - 1;
    let all = engine.tasks_for(idx);
    assert(all.take(upto.len() as int)[k] == upto[k]);
    assert(upto[k] == file_set::part_tasks(set, part)[own.len() - 1]);
    assert(all[k].1.end <= MAX_OFFSET);
}

/// The packets that a server makes of what its sources hold are, phase by phase, those of the bytes
/// of the phase: each has the bytes that belong to its index, and none has bytes of two phases. And
/// the checksums stay true.
pub proof fn law_packets_hold_phase_bytes(
    engine: ReadEngine,
    contents: spec_fn(Option<Seq<Seq<u8>>>) -> Seq<u8>,
    burst: stream::BurstModel,
    idx: Range<PacketIdx>,
    reads: Seq<TaskRead>,
)
    requires
        idx.start.0 < idx.end.0,
        engine.can_read(idx),
        phases_true(engine, contents, idx),
        sums_true(engine.states(), contents),
        reads_true(engine.states(), contents, engine.tasks_for(idx), reads),
    ensures
        disk_read_engine::burst_packets(
            engine.states(),
            engine.files@,
            burst,
            engine.parts_for(idx),
            reads,
        ) == true_packets(engine.files@, contents, burst, engine.parts_for(idx)),
        sums_true(
            disk_read_engine::run_states(engine.states(), engine.tasks_for(idx), reads),
            contents,
        ),
{
    let parts = engine.parts_for(idx);
    let set = engine.files@;
    assert forall|i: int| 0 <= i < parts.len() implies part_true(
        set,
        contents,
        #[trigger] parts[i],
    ) by {
        lemma_parts_true(engine, contents, idx, i);
    }
    lemma_burst_packets(engine.states(), contents, set, burst, parts, reads);
}

proof fn lemma_true_packet(
    set: Seq<file_set::PhaseModel>,
    contents: spec_fn(Option<Seq<Seq<u8>>>) -> Seq<u8>,
    burst: stream::BurstModel,
    parts: Seq<(u16, Range<PhaseOffset>)>,
    k: int,
) -> (found: (int, int))
    requires
        0 <= k < true_packets(set, contents, burst, parts).len(),
    ensures
        0 <= found.0 < parts.len(),
        0 <= found.1 < phase_packets(set, contents, burst, parts[found.0]).len(),
        true_packets(set, contents, burst, parts)[k] == phase_packets(
            set,
            contents,
            burst,
            parts[found.0],
        )[found.1],
    decreases parts.len(),
{
    let init = parts.drop_last();
    let before = true_packets(set, contents, burst, init);
    if k < before.len() {
        let found = lemma_true_packet(set, contents, burst, init, k);
        assert(init[found.0] == parts[found.0]);
        found
    } else {
        (parts.len() - 1, k - before.len())
    }
}

proof fn lemma_packet_there(
    set: Seq<file_set::PhaseModel>,
    contents: spec_fn(Option<Seq<Seq<u8>>>) -> Seq<u8>,
    burst: stream::BurstModel,
    parts: Seq<(u16, Range<PhaseOffset>)>,
    i: int,
    q: int,
) -> (k: int)
    requires
        0 <= i < parts.len(),
        0 <= q < phase_packets(set, contents, burst, parts[i]).len(),
    ensures
        0 <= k < true_packets(set, contents, burst, parts).len(),
        true_packets(set, contents, burst, parts)[k] == phase_packets(
            set,
            contents,
            burst,
            parts[i],
        )[q],
    decreases parts.len(),
{
    let init = parts.drop_last();
    if i < init.len() {
        assert(init[i] == parts[i]);
        lemma_packet_there(set, contents, burst, init, i, q)
    } else {
        true_packets(set, contents, burst, init).len() + q
    }
}

/// Every packet of a burst is one of the packets that were ordered, and holds the bytes of its own
/// phase that belong to its index.
pub proof fn law_packet_of_its_phase(
    engine: ReadEngine,
    contents: spec_fn(Option<Seq<Seq<u8>>>) -> Seq<u8>,
    burst: stream::BurstModel,
    idx: Range<PacketIdx>,
    k: int,
)
    requires
        idx.start.0 < idx.end.0,
        engine.can_read(idx),
        phases_true(engine, contents, idx),
        0 <= k < true_packets(engine.files@, contents, burst, engine.parts_for(idx)).len(),
    ensures
        ({
            let p = true_packets(engine.files@, contents, burst, engine.parts_for(idx))[k];
            let phase = phase_bytes(
                file_set::phase_spans(engine.files@[p.index.phase_of() as int]),
                contents,
            );
            &&& idx.start.0 <= p.index.0 < idx.end.0
            &&& p.index.phase_of() < engine.files@.len()
            &&& p.index.index_of() * PAYLOAD_SIZE < phase.len()
            &&& p == stream::packet_of(
                burst,
                p.index.0 as int,
                stream::packet_data(phase, p.index.index_of() as int),
            )
        }),
{
    let set = engine.files@;
    let parts = engine.parts_for(idx);
    let (i, q) = lemma_true_packet(set, contents, burst, parts, k);
    lemma_parts_true(engine, contents, idx, i);
    let part = parts[i];
    let model = set[part.0 as int];
    let to = tree::extent(model.tree) as int;
    tree::lemma_well_placed_tiled(model.tree, seq![model.path]);
    lemma_phase_bytes_len(file_set::phase_spans(model), contents, 0, to);
    assert(PAYLOAD_SIZE == 1369);
    assert(MAX_OFFSET == MAX_INDEX * 1369);
    packet::law_packet_idx_parts(idx.start);
    packet::law_packet_idx_parts(idx.end);
    let index = part.1.start.0 as int / 1369 + q;
    assert(index < MAX_INDEX);
    let p = true_packets(set, contents, burst, parts)[k];
    assert(p.index.0 == part.0 * 0x1_0000_0000_0000 + index);
    assert(p.index.phase_of() == part.0);
    assert(p.index.index_of() == index);
}

/// Every packet that was ordered, and that begins within its phase, is sent.
pub proof fn law_every_packet_is_sent(
    engine: ReadEngine,
    contents: spec_fn(Option<Seq<Seq<u8>>>) -> Seq<u8>,
    burst: stream::BurstModel,
    idx: Range<PacketIdx>,
    x: PacketIdx,
) -> (k: int)
    requires
        engine.can_read(idx),
        phases_true(engine, contents, idx),
        idx.start.0 <= x.0 < idx.end.0,
        x.phase_of() < engine.files@.len(),
        x.index_of() * PAYLOAD_SIZE < phase_bytes(
            file_set::phase_spans(engine.files@[x.phase_of() as int]),
            contents,
        ).len(),
    ensures
        0 <= k < true_packets(engine.files@, contents, burst, engine.parts_for(idx)).len(),
        true_packets(engine.files@, contents, burst, engine.parts_for(idx))[k].index == x,
{
    let set = engine.files@;
    let parts = engine.parts_for(idx);
    let phase = x.phase_of();
    let model = set[phase as int];
    assert(PAYLOAD_SIZE == 1369);
    packet::law_packet_idx_parts(idx.start);
    packet::law_packet_idx_parts(idx.end);
    packet::law_packet_idx_parts(x);
    let i = lemma_part_of(engine, contents, idx, x);
    lemma_parts_true(engine, contents, idx, i);
    let part = parts[i];
    let to = tree::extent(model.tree) as int;
    tree::lemma_well_placed_tiled(model.tree, seq![model.path]);
    lemma_phase_bytes_len(file_set::phase_spans(model), contents, 0, to);
    let first = part.1.start.0 as int / 1369;
    let q = x.index_of() - first;
    assert(0 <= q < phase_packets(set, contents, burst, part).len());
    lemma_packet_there(set, contents, burst, parts, i, q)
}

/// The part of a burst that is of the phase of a packet.
/// What is sent is what was ordered: each packet is of the session and of the generation, is one of
/// those that were ordered, and holds the bytes of its phase from its place on, as many as a packet
/// holds, or all that are left. The end of the burst is told by the packet that comes fourteen
/// packets before it in its phase, or by the first packet of that phase where there are fewer.
pub proof fn law_burst_is_what_was_ordered(
    engine: ReadEngine,
    contents: spec_fn(Option<Seq<Seq<u8>>>) -> Seq<u8>,
    generation: RetransmitGeneration,
    session_id: SessionId,
    idx: Range<PacketIdx>,
    reads: Seq<TaskRead>,
    packets: Seq<messages::PayloadModel>,
    k: int,
)
    requires
        idx.start.0 < idx.end.0,
        idx.end.0 != INVALID_INDEX,
        engine.can_read(idx),
        phases_true(engine, contents, idx),
        sums_true(engine.states(), contents),
        reads_true(engine.states(), contents, engine.tasks_for(idx), reads),
        disk_read_engine::gives_packets(engine, generation, session_id, idx, reads, packets),
        0 <= k < packets.len(),
    ensures
        ({
            let p = packets[k];
            let phase = phase_bytes(
                file_set::phase_spans(engine.files@[p.index.phase_of() as int]),
                contents,
            );
            let start = p.index.index_of() * 1369;
            &&& p.session_id == session_id
            &&& p.retransmit_generation == generation
            &&& idx.start.0 <= p.index.0 < idx.end.0
            &&& p.index.phase_of() < engine.files@.len()
            &&& 0 < p.data.len() <= 1369
            &&& p.data.len() == 1369 || start + p.data.len() == phase.len()
            &&& start + p.data.len() <= phase.len()
            &&& p.data == phase.subrange(start, start + p.data.len())
            &&& p.eof_approaching == idx.end || p.eof_approaching.0 == INVALID_INDEX
            &&& p.eof_approaching == idx.end <==> p.index.phase_of() == idx.end.phase_of() && (
            p.index.index_of() + 14 == idx.end.index_of() || p.index.index_of() == 0
                && idx.end.index_of() < 14)
        }),
{
    let burst = stream::BurstModel {
        session_id,
        retransmit_generation: generation,
        end: idx.end,
    };
    law_packets_hold_phase_bytes(engine, contents, burst, idx, reads);
    law_packet_of_its_phase(engine, contents, burst, idx, k);
    let p = packets[k];
    let phase = phase_bytes(
        file_set::phase_spans(engine.files@[p.index.phase_of() as int]),
        contents,
    );
    stream::law_what_a_packet_says(
        burst,
        p.index.0,
        stream::packet_data(phase, p.index.index_of() as int),
    );
    assert(PAYLOAD_SIZE == 1369);
    let start = p.index.index_of() * 1369;
    assert(p.data =~= phase.subrange(start, start + p.data.len()));
}

/// Every packet that was ordered, and that begins within its phase, is among those that are sent.
pub proof fn law_ordered_packets_are_sent(
    engine: ReadEngine,
    contents: spec_fn(Option<Seq<Seq<u8>>>) -> Seq<u8>,
    generation: RetransmitGeneration,
    session_id: SessionId,
    idx: Range<PacketIdx>,
    reads: Seq<TaskRead>,
    packets: Seq<messages::PayloadModel>,
    x: PacketIdx,
) -> (k: int)
    requires
        engine.can_read(idx),
        phases_true(engine, contents, idx),
        sums_true(engine.states(), contents),
        reads_true(engine.states(), contents, engine.tasks_for(idx), reads),
        disk_read_engine::gives_packets(engine, generation, session_id, idx, reads, packets),
        idx.start.0 <= x.0 < idx.end.0,
        x.phase_of() < engine.files@.len(),
        x.index_of() * PAYLOAD_SIZE < phase_bytes(
            file_set::phase_spans(engine.files@[x.phase_of() as int]),
            contents,
        ).len(),
    ensures
        0 <= k < packets.len(),
        packets[k].index == x,
{
    let burst = stream::BurstModel {
        session_id,
        retransmit_generation: generation,
        end: idx.end,
    };
    law_packets_hold_phase_bytes(engine, contents, burst, idx, reads);
    law_every_packet_is_sent(engine, contents, burst, idx, x)
}

proof fn lemma_part_of(
    engine: ReadEngine,
    contents: spec_fn(Option<Seq<Seq<u8>>>) -> Seq<u8>,
    idx: Range<PacketIdx>,
    x: PacketIdx,
) -> (i: int)
    requires
        engine.can_read(idx),
        phases_true(engine, contents, idx),
        idx.start.0 <= x.0 < idx.end.0,
        x.phase_of() < engine.files@.len(),
        x.index_of() * PAYLOAD_SIZE < phase_bytes(
            file_set::phase_spans(engine.files@[x.phase_of() as int]),
            contents,
        ).len(),
    ensures
        0 <= i < engine.parts_for(idx).len(),
        engine.parts_for(idx)[i].0 == x.phase_of(),
{
    let phase = x.phase_of();
    let t = engine.files@[phase as int].tree;
    let list = file_set::phase_spans(engine.files@[phase as int]);
    assert(PAYLOAD_SIZE == 1369);
    packet::law_packet_idx_parts(idx.start);
    packet::law_packet_idx_parts(idx.end);
    packet::law_packet_idx_parts(x);
    tree::lemma_well_placed_tiled(t, seq![engine.files@[phase as int].path]);
    lemma_phase_bytes_len(list, contents, 0, tree::extent(t) as int);
    file_set::lemma_part_exists(idx, &engine.files, idx.start.phase_of() as int, phase)
}

/// Within the bytes of a phase, each file has its own bytes in its place.
pub proof fn law_phase_bytes_of_file(
    list: Seq<FileSpan>,
    contents: spec_fn(Option<Seq<Seq<u8>>>) -> Seq<u8>,
    from: int,
    to: int,
    i: int,
    a: int,
    b: int,
)
    requires
        tree::tiled(list, from, to),
        sources_true(contents, list),
        0 <= i < list.len(),
        0 <= a <= b <= list[i].size,
    ensures
        list[i].offset - from + b <= phase_bytes(list, contents).len(),
        from <= list[i].offset,
        phase_bytes(list, contents).subrange(
            list[i].offset - from + a,
            list[i].offset - from + b,
        ) == with_sum(content_of(contents, list[i].source)).subrange(a, b),
    decreases list.len(),
{
    let init = list.drop_last();
    let last = list.last();
    assert(last == list[list.len() - 1]);
    tree::lemma_tiled_bounds(list, from, to);
    lemma_phase_bytes_len(list, contents, from, to);
    assert forall|k: int| 0 <= k < init.len() implies source_true(
        contents,
        (#[trigger] init[k]).source,
        init[k].size,
    ) by {
        assert(init[k] == list[k]);
    }
    lemma_phase_bytes_len(init, contents, from, last.offset);
    let all = phase_bytes(list, contents);
    let at = list[i].offset - from;
    if i < init.len() {
        law_phase_bytes_of_file(init, contents, from, last.offset, i, a, b);
        assert(init[i] == list[i]);
        assert(all.subrange(at + a, at + b) =~= phase_bytes(init, contents).subrange(
            at + a,
            at + b,
        ));
    } else {
        assert(source_true(contents, last.source, last.size));
        assert(all.subrange(at + a, at + b) =~= with_sum(
            content_of(contents, last.source),
        ).subrange(a, b));
    }
}

/// A packet with the bytes of its place writes to each file the bytes that the file holds there,
/// and gives the file the bytes of its checksum.
pub proof fn law_write_is_file_content(
    list: Seq<FileSpan>,
    contents: spec_fn(Option<Seq<Seq<u8>>>) -> Seq<u8>,
    to: int,
    start: int,
    data: Seq<u8>,
    k: int,
)
    requires
        tree::tiled(list, 0, to),
        sources_true(contents, list),
        0 <= start,
        start + data.len() <= to,
        data == phase_bytes(list, contents).subrange(start, start + data.len()),
        0 <= k < tree::tasks_of(list, start, start + data.len()).len(),
    ensures
        ({
            let t = tree::tasks_of(list, start, start + data.len())[k];
            let bytes = data.subrange(t.start - start, t.end - start);
            let content = content_of(contents, t.source);
            &&& t.file_size == content.len() + CHECKSUM_SIZE
            &&& bytes.take(stream::chunk_size(t)) == with_sum(content).subrange(
                t.offset,
                t.offset + stream::chunk_size(t),
            )
            &&& stream::reaches_sum(t) ==> bytes.skip(stream::chunk_size(t))
                == checksum::checksum_of(content).subrange(stream::sum_start(t), stream::sum_end(t))
        }),
{
    let end = start + data.len();
    let t = tree::tasks_of(list, start, end)[k];
    let i = tree::lemma_task_span(list, start, end, k);
    let span = list[i];
    tree::lemma_tiled_bounds(list, 0, to);
    lemma_phase_bytes_len(list, contents, 0, to);
    assert(source_true(contents, span.source, span.size));
    let bytes = data.subrange(t.start - start, t.end - start);
    let content = content_of(contents, t.source);
    law_phase_bytes_of_file(
        list,
        contents,
        0,
        to,
        i,
        t.offset,
        t.offset + stream::full_size(t),
    );
    assert(bytes =~= phase_bytes(list, contents).subrange(t.start, t.end));
    let own = with_sum(content).subrange(t.offset, t.offset + stream::full_size(t));
    assert(bytes == own);
    assert(bytes.take(stream::chunk_size(t)) =~= with_sum(content).subrange(
        t.offset,
        t.offset + stream::chunk_size(t),
    ));
    if stream::reaches_sum(t) {
        assert(bytes.skip(stream::chunk_size(t)) =~= checksum::checksum_of(content).subrange(
            stream::sum_start(t),
            stream::sum_end(t),
        ));
    }
}

/// The bytes of checksums that have arrived are those of the checksums of the files. `arrived`
/// holds the offsets of the bytes of the phase that have arrived.
pub open spec fn sums_arrived(
    m: WriterModel,
    phase: u16,
    list: Seq<FileSpan>,
    contents: spec_fn(Option<Seq<Seq<u8>>>) -> Seq<u8>,
    arrived: Set<int>,
) -> bool {
    &&& forall|start: int| (#[trigger] (m.sums)(phase, start)).len() == CHECKSUM_SIZE
    &&& forall|i: int, j: int|
        0 <= i < list.len() && 0 <= j < CHECKSUM_SIZE && arrived.contains(
            #[trigger] sum_offset(list[i], j),
        ) ==> (m.sums)(phase, list[i].offset)[j] == checksum::checksum_of(
            content_of(contents, list[i].source),
        )[j]
}

/// Where a byte of the checksum of a file lies in the phase.
pub open spec fn sum_offset(span: FileSpan, j: int) -> int {
    span.offset + span.size - CHECKSUM_SIZE + j
}

/// The offsets from `start` to `end`.
pub open spec fn offsets(start: int, end: int) -> Set<int> {
    Set::new(|x: int| start <= x < end)
}

/// The task is a part of the file, with the bytes of the file.
pub open spec fn piece_true(
    span: FileSpan,
    contents: spec_fn(Option<Seq<Seq<u8>>>) -> Seq<u8>,
    t: TaskModel,
    bytes: Seq<u8>,
) -> bool {
    &&& t == disk_writer::part_of(span, t.start, t.end)
    &&& span.offset <= t.start < t.end <= span.offset + span.size
    &&& bytes == with_sum(content_of(contents, span.source)).subrange(
        t.offset,
        t.offset + stream::full_size(t),
    )
}

proof fn lemma_sums_arrived_step(
    m: WriterModel,
    phase: u16,
    list: Seq<FileSpan>,
    contents: spec_fn(Option<Seq<Seq<u8>>>) -> Seq<u8>,
    to: int,
    arrived: Set<int>,
    i: int,
    t: TaskModel,
    bytes: Seq<u8>,
    completed: Range<PhaseOffset>,
)
    requires
        tree::tiled(list, 0, to),
        sources_true(contents, list),
        sums_arrived(m, phase, list, contents, arrived),
        0 <= i < list.len(),
        piece_true(list[i], contents, t, bytes),
    ensures
        sums_arrived(
            disk_writer::writer_after(m, phase, t, bytes, completed),
            phase,
            list,
            contents,
            arrived.union(offsets(t.start, t.end)),
        ),
{
    let span = list[i];
    let content = content_of(contents, span.source);
    let sum = checksum::checksum_of(content);
    let after = disk_writer::writer_after(m, phase, t, bytes, completed);
    let all = arrived.union(offsets(t.start, t.end));
    tree::lemma_tiled_bounds(list, 0, to);
    assert(source_true(contents, span.source, span.size));
    assert(disk_writer::file_start(t) == span.offset);
    let own = disk_writer::sum_after(m, phase, t, bytes);
    if stream::reaches_sum(t) {
        assert(bytes.skip(stream::chunk_size(t)) =~= sum.subrange(
            stream::sum_start(t),
            stream::sum_end(t),
        ));
    }
    assert forall|start: int| (#[trigger] (after.sums)(phase, start)).len() == CHECKSUM_SIZE by {
        assert((m.sums)(phase, start).len() == CHECKSUM_SIZE);
    }
    assert forall|k: int, j: int|
        0 <= k < list.len() && 0 <= j < CHECKSUM_SIZE && all.contains(
            #[trigger] sum_offset(list[k], j),
        ) implies (after.sums)(phase, list[k].offset)[j] == checksum::checksum_of(
        content_of(contents, list[k].source),
    )[j] by {
        let x = sum_offset(list[k], j);
        if k == i {
            if t.start <= x < t.end {
                assert(stream::reaches_sum(t));
                assert(stream::sum_start(t) <= j < stream::sum_end(t));
                assert(own[j] == sum[j]);
            } else {
                assert(arrived.contains(sum_offset(list[k], j)));
                assert(own[j] == (m.sums)(phase, span.offset)[j]);
            }
        } else {
            if k < i {
                assert(list[k].offset + list[k].size <= list[i].offset);
            } else {
                assert(list[i].offset + list[i].size <= list[k].offset);
            }
            assert(arrived.contains(sum_offset(list[k], j)));
            assert((after.sums)(phase, list[k].offset) == (m.sums)(phase, list[k].offset));
        }
    }
}

proof fn lemma_sums_arrived_all(
    m: WriterModel,
    phase: u16,
    list: Seq<FileSpan>,
    contents: spec_fn(Option<Seq<Seq<u8>>>) -> Seq<u8>,
    to: int,
    arrived: Set<int>,
    tasks: Seq<TaskModel>,
    places: Seq<int>,
    data: Seq<u8>,
    start: int,
    stop: int,
    completed: Range<PhaseOffset>,
)
    requires
        tree::tiled(list, 0, to),
        sources_true(contents, list),
        sums_arrived(m, phase, list, contents, arrived),
        tree::tasks_tiled(tasks, start, stop),
        places.len() == tasks.len(),
        forall|k: int|
            0 <= k < tasks.len() ==> 0 <= #[trigger] places[k] < list.len() && piece_true(
                list[places[k]],
                contents,
                tasks[k],
                data.subrange(tasks[k].start - start, tasks[k].end - start),
            ),
    ensures
        sums_arrived(
            disk_writer::writer_after_all(m, phase, tasks, data, start, completed),
            phase,
            list,
            contents,
            arrived.union(offsets(start, stop)),
        ),
        start <= stop,
    decreases tasks.len(),
{
    if tasks.len() == 0 {
        assert(arrived.union(offsets(start, stop)) =~= arrived);
    } else {
        let n = tasks.len() - 1;
        let t = tasks.last();
        let init = tasks.drop_last();
        assert forall|k: int| 0 <= k < init.len() implies 0 <= #[trigger] places.drop_last()[k]
            < list.len() && piece_true(
            list[places.drop_last()[k]],
            contents,
            init[k],
            data.subrange(init[k].start - start, init[k].end - start),
        ) by {
            assert(places.drop_last()[k] == places[k]);
            assert(init[k] == tasks[k]);
        }
        lemma_sums_arrived_all(
            m,
            phase,
            list,
            contents,
            to,
            arrived,
            init,
            places.drop_last(),
            data,
            start,
            t.start,
            completed,
        );
        assert(places[n] == places[n] && tasks[n] == t);
        lemma_sums_arrived_step(
            disk_writer::writer_after_all(m, phase, init, data, start, completed),
            phase,
            list,
            contents,
            to,
            arrived.union(offsets(start, t.start)),
            places[n],
            t,
            data.subrange(t.start - start, t.end - start),
            completed,
        );
        assert(arrived.union(offsets(start, t.start)).union(offsets(t.start, t.end))
            =~= arrived.union(offsets(start, stop)));
    }
}

proof fn lemma_write_at(
    m: WriterModel,
    phase: u16,
    tasks: Seq<TaskModel>,
    data: Seq<u8>,
    start: int,
    completed: Range<PhaseOffset>,
    k: int,
)
    requires
        0 <= k < tasks.len(),
    ensures
        disk_writer::writes_of_all(m, phase, tasks, data, start, completed).len() == tasks.len(),
        disk_writer::writes_of_all(m, phase, tasks, data, start, completed)[k]
            == disk_writer::write_of(
            disk_writer::writer_after_all(m, phase, tasks.take(k), data, start, completed),
            phase,
            tasks[k],
            data.subrange(tasks[k].start - start, tasks[k].end - start),
            completed,
        ),
    decreases tasks.len(),
{
    let init = tasks.drop_last();
    lemma_writes_len(m, phase, tasks, data, start, completed);
    lemma_writes_len(m, phase, init, data, start, completed);
    if k < init.len() {
        lemma_write_at(m, phase, init, data, start, completed, k);
        assert(init.take(k) =~= tasks.take(k));
        assert(init[k] == tasks[k]);
    } else {
        assert(init =~= tasks.take(k));
    }
}

proof fn lemma_writes_len(
    m: WriterModel,
    phase: u16,
    tasks: Seq<TaskModel>,
    data: Seq<u8>,
    start: int,
    completed: Range<PhaseOffset>,
)
    ensures
        disk_writer::writes_of_all(m, phase, tasks, data, start, completed).len() == tasks.len(),
    decreases tasks.len(),
{
    if tasks.len() > 0 {
        lemma_writes_len(m, phase, tasks.drop_last(), data, start, completed);
    }
}

proof fn lemma_tiled_prefix(tasks: Seq<TaskModel>, start: int, stop: int, n: int)
    requires
        tree::tasks_tiled(tasks, start, stop),
        0 < n <= tasks.len(),
    ensures
        tree::tasks_tiled(tasks.take(n), start, tasks[n - 1].end),
    decreases tasks.len(),
{
    if n < tasks.len() {
        let init = tasks.drop_last();
        lemma_tiled_prefix(init, start, tasks.last().start, n);
        assert(init.take(n) =~= tasks.take(n));
    } else {
        assert(tasks.take(n) =~= tasks);
    }
}

/// The places of the files of tasks.
proof fn lemma_places(
    list: Seq<FileSpan>,
    contents: spec_fn(Option<Seq<Seq<u8>>>) -> Seq<u8>,
    to: int,
    start: int,
    data: Seq<u8>,
    n: int,
) -> (places: Seq<int>)
    requires
        tree::tiled(list, 0, to),
        sources_true(contents, list),
        0 <= start,
        start + data.len() <= to,
        data == phase_bytes(list, contents).subrange(start, start + data.len()),
        data.len() > 0,
        0 <= n <= tree::tasks_of(list, start, start + data.len()).len(),
    ensures
        places.len() == n,
        forall|k: int|
            0 <= k < n ==> {
                let t = tree::tasks_of(list, start, start + data.len())[k];
                &&& 0 <= #[trigger] places[k] < list.len()
                &&& tree::task_of(list[places[k]], start, start + data.len()) == Some(t)
                &&& piece_true(
                    list[places[k]],
                    contents,
                    t,
                    data.subrange(t.start - start, t.end - start),
                )
            },
    decreases n,
{
    if n == 0 {
        Seq::empty()
    } else {
        let end = start + data.len();
        let before = lemma_places(list, contents, to, start, data, n - 1);
        let i = tree::lemma_task_span(list, start, end, n - 1);
        let t = tree::tasks_of(list, start, end)[n - 1];
        tree::lemma_tiled_bounds(list, 0, to);
        lemma_phase_bytes_len(list, contents, 0, to);
        law_phase_bytes_of_file(
            list,
            contents,
            0,
            to,
            i,
            t.offset,
            t.offset + stream::full_size(t),
        );
        assert(data.subrange(t.start - start, t.end - start) =~= phase_bytes(
            list,
            contents,
        ).subrange(t.start, t.end));
        before.push(i)
    }
}

/// A file is called complete with its own size and its own checksum, if the bytes of the phase
/// that have arrived are those of the files: so what was received is checked against the checksum
/// of the file that was sent. And the bytes of checksums that have arrived stay true.
pub proof fn law_finished_file_has_its_sum(
    m: WriterModel,
    phase: u16,
    list: Seq<FileSpan>,
    contents: spec_fn(Option<Seq<Seq<u8>>>) -> Seq<u8>,
    to: int,
    arrived: Set<int>,
    start: int,
    data: Seq<u8>,
    completed: Range<PhaseOffset>,
    k: int,
)
    requires
        tree::tiled(list, 0, to),
        sources_true(contents, list),
        sums_arrived(m, phase, list, contents, arrived),
        0 <= start,
        start + data.len() <= to,
        data.len() > 0,
        data == phase_bytes(list, contents).subrange(start, start + data.len()),
        forall|x: int|
            completed.start.0 <= x < completed.end.0 && x < to ==> #[trigger] arrived.contains(x)
                || start <= x < start + data.len(),
    ensures
        sums_arrived(
            disk_writer::writer_after_all(
                m,
                phase,
                tree::tasks_of(list, start, start + data.len()),
                data,
                start,
                completed,
            ),
            phase,
            list,
            contents,
            arrived.union(offsets(start, start + data.len())),
        ),
        ({
            let tasks = tree::tasks_of(list, start, start + data.len());
            let writes = disk_writer::writes_of_all(m, phase, tasks, data, start, completed);
            &&& writes.len() == tasks.len()
            &&& 0 <= k < writes.len() ==> (writes[k].finished matches Some((size, sum)) ==> {
                let content = content_of(contents, tasks[k].source);
                size == content.len() && sum == checksum::checksum_of(content)
            })
        }),
{
    let end = start + data.len();
    let tasks = tree::tasks_of(list, start, end);
    let n = tasks.len() as int;
    let places = lemma_places(list, contents, to, start, data, n);
    tree::lemma_tasks_tiled(list, 0, to, start, end);
    lemma_sums_arrived_all(
        m,
        phase,
        list,
        contents,
        to,
        arrived,
        tasks,
        places,
        data,
        start,
        end,
        completed,
    );
    lemma_writes_len(m, phase, tasks, data, start, completed);
    if 0 <= k < n {
        let t = tasks[k];
        let i = places[k];
        let span = list[i];
        let content = content_of(contents, t.source);
        lemma_write_at(m, phase, tasks, data, start, completed, k);
        lemma_tiled_prefix(tasks, start, end, k + 1);
        let upto = tasks.take(k + 1);
        assert forall|q: int| 0 <= q < upto.len() implies 0 <= #[trigger] places.take(k + 1)[q]
            < list.len() && piece_true(
            list[places.take(k + 1)[q]],
            contents,
            upto[q],
            data.subrange(upto[q].start - start, upto[q].end - start),
        ) by {
            assert(places.take(k + 1)[q] == places[q]);
            assert(upto[q] == tasks[q]);
        }
        lemma_sums_arrived_all(
            m,
            phase,
            list,
            contents,
            to,
            arrived,
            upto,
            places.take(k + 1),
            data,
            start,
            t.end,
            completed,
        );
        assert(upto.drop_last() =~= tasks.take(k));
        assert(upto.last() == t);
        let after = disk_writer::writer_after_all(m, phase, upto, data, start, completed);
        let own = (after.sums)(phase, span.offset);
        assert(disk_writer::file_start(t) == span.offset);
        tree::lemma_tiled_bounds(list, 0, to);
        assert(source_true(contents, span.source, span.size));
        if disk_writer::completes(t, completed) {
            let have = arrived.union(offsets(start, t.end));
            assert forall|j: int| 0 <= j < CHECKSUM_SIZE implies own[j]
                == #[trigger] checksum::checksum_of(content)[j] by {
                let x = sum_offset(span, j);
                assert(completed.start.0 <= x < completed.end.0 && x < to);
                assert(arrived.contains(x) || start <= x < end);
                assert(have.contains(sum_offset(list[i], j)));
            }
            assert(own =~= checksum::checksum_of(content));
        }
    }
}

/// A task is a part of its file, and lies within the bytes from `start` to `end`.
pub open spec fn part_within(t: TaskModel, start: int, end: int) -> bool {
    &&& disk_writer::file_start(t) <= t.start < t.end <= disk_writer::file_start(t) + t.file_size
    &&& start <= t.start
    &&& t.end <= end
}

/// Whether no byte from `start` to `end` is missing.
pub open spec fn none_missing(left: Seq<(u64, u64)>, start: int, end: int) -> bool {
    forall|x: int| start <= x < end ==> !#[trigger] range_set::covered(left, x)
}

/// The write that brings the last missing bytes of a file calls the file complete. `left` is what is
/// missing when the bytes from `start` to `end` have come.
pub proof fn law_last_bytes_complete_file(
    left: Seq<(u64, u64)>,
    start: int,
    end: int,
    t: TaskModel,
    completed: Range<PhaseOffset>,
)
    requires
        range_set::apart(left),
        0 <= start,
        end <= MAX_OFFSET,
        part_within(t, start, end),
        0 <= disk_writer::file_start(t),
        disk_writer::file_start(t) + t.file_size <= MAX_OFFSET,
        none_missing(left, start, end),
        none_missing(
            left,
            disk_writer::file_start(t),
            disk_writer::file_start(t) + t.file_size,
        ),
        completed.start.0 == client::run_start(left, start),
        completed.end.0 == client::run_end(left, end),
    ensures
        disk_writer::completes(t, completed),
{
    client::law_completed_range(left, start, end);
}

/// No byte of a file that a write calls complete is missing. `left` is what is missing when the
/// bytes from `start` to `end` have come.
pub proof fn law_complete_file_is_there(
    left: Seq<(u64, u64)>,
    start: int,
    end: int,
    t: TaskModel,
    completed: Range<PhaseOffset>,
)
    requires
        range_set::apart(left),
        0 <= start < end,
        start <= MAX_OFFSET,
        none_missing(left, start, end),
        completed.start.0 == client::run_start(left, start),
        completed.end.0 == client::run_end(left, end),
        disk_writer::completes(t, completed),
    ensures
        none_missing(
            left,
            disk_writer::file_start(t),
            disk_writer::file_start(t) + t.file_size,
        ),
{
    client::law_completed_range(left, start, end);
}

/// A file with `data` written at `offset`. Bytes between its old end and the data are zeroes; no
/// data leaves it as it was.
pub open spec fn write_at(file: Seq<u8>, offset: int, data: Seq<u8>) -> Seq<u8> {
    if data.len() == 0 {
        file
    } else {
        Seq::new(
            if file.len() < offset + data.len() {
                (offset + data.len()) as nat
            } else {
                file.len()
            },
            |x: int|
                if offset <= x < offset + data.len() {
                    data[x - offset]
                } else if x < file.len() {
                    file[x]
                } else {
                    0
                },
        )
    }
}

/// A file cut to `size` bytes; it is filled up with zeroes if it has fewer.
pub open spec fn cut_to(file: Seq<u8>, size: int) -> Seq<u8> {
    Seq::new(
        size as nat,
        |x: int|
            if x < file.len() {
                file[x]
            } else {
                0
            },
    )
}

/// A file after a write, and cut to its size if it is complete then.
pub open spec fn file_after(file: Seq<u8>, w: disk_writer::FileWriteModel) -> Seq<u8> {
    let written = write_at(file, w.offset, w.data);
    match w.finished {
        Some((size, _)) => cut_to(written, size),
        None => written,
    }
}

/// What the files on disk hold after a write, each by the names that lead to it.
pub open spec fn disk_after(
    disk: spec_fn(Seq<Seq<u8>>) -> Seq<u8>,
    w: disk_writer::FileWriteModel,
) -> spec_fn(Seq<Seq<u8>>) -> Seq<u8> {
    |path: Seq<Seq<u8>>|
        if path == w.path {
            file_after(disk(path), w)
        } else {
            disk(path)
        }
}

/// What the files on disk hold after some writes.
pub open spec fn disk_after_all(
    disk: spec_fn(Seq<Seq<u8>>) -> Seq<u8>,
    writes: Seq<disk_writer::FileWriteModel>,
) -> spec_fn(Seq<Seq<u8>>) -> Seq<u8>
    decreases writes.len(),
{
    if writes.len() == 0 {
        disk
    } else {
        disk_after(disk_after_all(disk, writes.drop_last()), writes.last())
    }
}

/// Files, of which one can be open: that one is written to. A file is known by its phase and by the
/// names that lead to it.
pub struct StoreModel {
    pub open: Option<(u16, Seq<Seq<u8>>)>,
    pub files: spec_fn(u16, Seq<Seq<u8>>) -> Seq<u8>,
}

/// What a write leaves behind when it is carried out. If it is to open a file, it opens the one that
/// it names; then it goes to the file that is open, whatever that is. A file that is finished is
/// closed.
pub open spec fn carried_out(
    store: StoreModel,
    phase: u16,
    w: disk_writer::FileWriteModel,
) -> StoreModel {
    let open = if w.open {
        Some((phase, w.path))
    } else {
        store.open
    };
    StoreModel {
        open: if w.finished is Some {
            None
        } else {
            open
        },
        files: |p: u16, path: Seq<Seq<u8>>|
            if open == Some((p, path)) {
                file_after((store.files)(p, path), w)
            } else {
                (store.files)(p, path)
            },
    }
}

/// What some writes leave behind when they are carried out one after the other.
pub open spec fn all_carried_out(
    store: StoreModel,
    phase: u16,
    writes: Seq<disk_writer::FileWriteModel>,
) -> StoreModel
    decreases writes.len(),
{
    if writes.len() == 0 {
        store
    } else {
        carried_out(
            all_carried_out(store, phase, writes.drop_last()),
            phase,
            writes.last(),
        )
    }
}

/// The files of one phase.
pub open spec fn files_of(store: StoreModel, phase: u16) -> spec_fn(Seq<Seq<u8>>) -> Seq<u8> {
    |path: Seq<Seq<u8>>| (store.files)(phase, path)
}

/// Every write reaches the file that it is for, and no other: carried out one after the other, the
/// writes leave in each file of the phase what would be in it if each went to the path that it
/// names, and nothing changes in the files of other phases. What the writer takes to be open is open.
pub proof fn law_writes_reach_their_files(
    m: WriterModel,
    store: StoreModel,
    phase: u16,
    tasks: Seq<TaskModel>,
    data: Seq<u8>,
    start: int,
    completed: Range<PhaseOffset>,
    other: u16,
    path: Seq<Seq<u8>>,
)
    requires
        store.open == m.open_file,
    ensures
        ({
            let writes = disk_writer::writes_of_all(m, phase, tasks, data, start, completed);
            let done = all_carried_out(store, phase, writes);
            &&& done.open == disk_writer::writer_after_all(
                m,
                phase,
                tasks,
                data,
                start,
                completed,
            ).open_file
            &&& (done.files)(phase, path) == disk_after_all(files_of(store, phase), writes)(path)
            &&& other != phase ==> (done.files)(other, path) == (store.files)(other, path)
        }),
    decreases tasks.len(),
{
    if tasks.len() > 0 {
        let init = tasks.drop_last();
        law_writes_reach_their_files(
            m,
            store,
            phase,
            init,
            data,
            start,
            completed,
            other,
            path,
        );
        let before = disk_writer::writes_of_all(m, phase, init, data, start, completed);
        let writes = disk_writer::writes_of_all(m, phase, tasks, data, start, completed);
        assert(writes.drop_last() =~= before);
    }
}

/// A write opens its file if, and only if, that file is not open: the write before was for another
/// file, or has finished its file, or there was none.
pub proof fn law_files_are_opened(
    m: WriterModel,
    store: StoreModel,
    phase: u16,
    tasks: Seq<TaskModel>,
    data: Seq<u8>,
    start: int,
    completed: Range<PhaseOffset>,
    k: int,
)
    requires
        store.open == m.open_file,
        0 <= k < tasks.len(),
    ensures
        ({
            let writes = disk_writer::writes_of_all(m, phase, tasks, data, start, completed);
            &&& writes.len() == tasks.len()
            &&& writes[k].open <==> all_carried_out(store, phase, writes.take(k)).open != Some(
                (phase, writes[k].path),
            )
            &&& k == 0 ==> (writes[k].open <==> store.open != Some((phase, writes[k].path)))
            &&& k > 0 ==> (writes[k].open <==> writes[k - 1].path != writes[k].path
                || writes[k - 1].finished is Some)
        }),
{
    let writes = disk_writer::writes_of_all(m, phase, tasks, data, start, completed);
    lemma_write_at(m, phase, tasks, data, start, completed, k);
    lemma_writes_prefix(m, phase, tasks, data, start, completed, k);
    law_writes_reach_their_files(
        m,
        store,
        phase,
        tasks.take(k),
        data,
        start,
        completed,
        phase,
        writes[k].path,
    );
    if k > 0 {
        lemma_write_at(m, phase, tasks, data, start, completed, k - 1);
        assert(tasks.take(k).drop_last() =~= tasks.take(k - 1));
        assert(tasks.take(k).last() == tasks[k - 1]);
    } else {
        assert(writes.take(0) =~= Seq::empty());
    }
}

proof fn lemma_writes_prefix(
    m: WriterModel,
    phase: u16,
    tasks: Seq<TaskModel>,
    data: Seq<u8>,
    start: int,
    completed: Range<PhaseOffset>,
    k: int,
)
    requires
        0 <= k <= tasks.len(),
    ensures
        disk_writer::writes_of_all(m, phase, tasks, data, start, completed).take(k)
            == disk_writer::writes_of_all(m, phase, tasks.take(k), data, start, completed),
    decreases tasks.len(),
{
    let writes = disk_writer::writes_of_all(m, phase, tasks, data, start, completed);
    lemma_writes_len(m, phase, tasks, data, start, completed);
    if k < tasks.len() {
        let init = tasks.drop_last();
        lemma_writes_prefix(m, phase, init, data, start, completed, k);
        assert(init.take(k) =~= tasks.take(k));
        lemma_writes_len(m, phase, init, data, start, completed);
        assert(writes.take(k) =~= disk_writer::writes_of_all(
            m,
            phase,
            init,
            data,
            start,
            completed,
        ).take(k));
    } else {
        assert(tasks.take(k) =~= tasks);
        assert(writes.take(k) =~= writes);
    }
}

/// Where a byte of a file lies in the phase.
pub open spec fn byte_offset(span: FileSpan, x: int) -> int {
    span.offset + x
}

/// The files on disk hold the bytes that have arrived of them, in their places. `arrived` holds the
/// offsets of the bytes of the phase that have arrived.
pub open spec fn files_arrived(
    disk: spec_fn(Seq<Seq<u8>>) -> Seq<u8>,
    list: Seq<FileSpan>,
    contents: spec_fn(Option<Seq<Seq<u8>>>) -> Seq<u8>,
    arrived: Set<int>,
) -> bool {
    forall|i: int, x: int|
        0 <= i < list.len() && 0 <= x < list[i].size - CHECKSUM_SIZE && arrived.contains(
            #[trigger] byte_offset(list[i], x),
        ) ==> {
            let file = disk(list[i].source->Path_0);
            x < file.len() && file[x] == content_of(contents, list[i].source)[x]
        }
}

/// All spans are files on disk.
pub open spec fn on_disk(list: Seq<FileSpan>) -> bool {
    forall|i: int| 0 <= i < list.len() ==> (#[trigger] list[i]).source is Path
}

/// All of the file of a task has arrived when the task has: before, or with the bytes from `start`
/// to the end of the task.
pub open spec fn whole_file_there(t: TaskModel, arrived: Set<int>, start: int) -> bool {
    forall|x: int|
        disk_writer::file_start(t) <= x < disk_writer::file_start(t) + t.file_size
            ==> #[trigger] arrived.contains(x) || start <= x < t.end
}

proof fn lemma_files_arrived_step(
    disk: spec_fn(Seq<Seq<u8>>) -> Seq<u8>,
    m: WriterModel,
    phase: u16,
    list: Seq<FileSpan>,
    contents: spec_fn(Option<Seq<Seq<u8>>>) -> Seq<u8>,
    to: int,
    arrived: Set<int>,
    i: int,
    t: TaskModel,
    bytes: Seq<u8>,
    completed: Range<PhaseOffset>,
)
    requires
        tree::tiled(list, 0, to),
        sources_true(contents, list),
        on_disk(list),
        files_arrived(disk, list, contents, arrived),
        0 <= i < list.len(),
        piece_true(list[i], contents, t, bytes),
    ensures
        ({
            let w = disk_writer::write_of(m, phase, t, bytes, completed);
            let after = disk_after(disk, w);
            let all = arrived.union(offsets(t.start, t.end));
            let content = content_of(contents, t.source);
            &&& files_arrived(after, list, contents, all)
            &&& w.path == list[i].source->Path_0
            &&& (w.finished is Some && forall|x: int|
                list[i].offset <= x < list[i].offset + list[i].size ==> #[trigger] all.contains(x))
                ==> after(w.path) == content
            &&& forall|k: int|
                0 <= k < list.len() && disk((#[trigger] list[k]).source->Path_0) == content_of(
                    contents,
                    list[k].source,
                ) ==> after(list[k].source->Path_0) == disk(list[k].source->Path_0)
        }),
{
    let span = list[i];
    let content = content_of(contents, span.source);
    let w = disk_writer::write_of(m, phase, t, bytes, completed);
    let after = disk_after(disk, w);
    let all = arrived.union(offsets(t.start, t.end));
    tree::lemma_tiled_bounds(list, 0, to);
    assert(source_true(contents, span.source, span.size));
    assert(span.source is Path);
    let chunk = stream::chunk_size(t);
    assert(w.data =~= with_sum(content).subrange(t.offset, t.offset + chunk));
    assert forall|q: int| 0 <= q < w.data.len() implies t.offset + q < content.len()
        && #[trigger] w.data[q] == content[t.offset + q] by {}
    assert forall|k: int, x: int|
        0 <= k < list.len() && 0 <= x < list[k].size - CHECKSUM_SIZE && all.contains(
            #[trigger] byte_offset(list[k], x),
        ) implies {
        let file = after(list[k].source->Path_0);
        x < file.len() && file[x] == content_of(contents, list[k].source)[x]
    } by {
        let y = byte_offset(list[k], x);
        assert(list[k].source is Path);
        assert(source_true(contents, list[k].source, list[k].size));
        if t.start <= y < t.end {
            if k < i {
                assert(list[k].offset + list[k].size <= list[i].offset);
            }
            if i < k {
                assert(list[i].offset + list[i].size <= list[k].offset);
            }
            assert(k == i);
            assert(t.offset <= x < t.offset + chunk);
            assert(w.data[x - t.offset] == content[x]);
        } else {
            assert(arrived.contains(byte_offset(list[k], x)));
            if list[k].source->Path_0 == w.path {
                assert(list[k].source == span.source);
                if t.offset <= x < t.offset + chunk {
                    assert(w.data[x - t.offset] == content[x]);
                }
            }
        }
    }
    if w.finished is Some && forall|x: int|
        span.offset <= x < span.offset + span.size ==> #[trigger] all.contains(x) {
        assert forall|x: int| 0 <= x < content.len() implies after(w.path)[x] == content[x] by {
            assert(all.contains(span.offset + x));
            assert(all.contains(byte_offset(list[i], x)));
        }
        assert(after(w.path) =~= content);
    }
    assert forall|k: int|
        0 <= k < list.len() && disk((#[trigger] list[k]).source->Path_0) == content_of(
            contents,
            list[k].source,
        ) implies after(list[k].source->Path_0) == disk(list[k].source->Path_0) by {
        assert(list[k].source is Path);
        if list[k].source->Path_0 == w.path {
            assert(list[k].source == span.source);
            assert(write_at(content, w.offset, w.data) =~= content);
            assert(cut_to(content, content.len() as int) =~= content);
        }
    }
}

proof fn lemma_files_arrived_all(
    disk: spec_fn(Seq<Seq<u8>>) -> Seq<u8>,
    m: WriterModel,
    phase: u16,
    list: Seq<FileSpan>,
    contents: spec_fn(Option<Seq<Seq<u8>>>) -> Seq<u8>,
    to: int,
    arrived: Set<int>,
    tasks: Seq<TaskModel>,
    places: Seq<int>,
    data: Seq<u8>,
    start: int,
    stop: int,
    completed: Range<PhaseOffset>,
)
    requires
        tree::tiled(list, 0, to),
        sources_true(contents, list),
        on_disk(list),
        files_arrived(disk, list, contents, arrived),
        tree::tasks_tiled(tasks, start, stop),
        places.len() == tasks.len(),
        forall|k: int|
            0 <= k < tasks.len() ==> 0 <= #[trigger] places[k] < list.len() && piece_true(
                list[places[k]],
                contents,
                tasks[k],
                data.subrange(tasks[k].start - start, tasks[k].end - start),
            ) && (disk_writer::completes(tasks[k], completed) ==> whole_file_there(
                tasks[k],
                arrived,
                start,
            )),
    ensures
        ({
            let writes = disk_writer::writes_of_all(m, phase, tasks, data, start, completed);
            let after = disk_after_all(disk, writes);
            &&& writes.len() == tasks.len()
            &&& files_arrived(after, list, contents, arrived.union(offsets(start, stop)))
            &&& forall|k: int|
                0 <= k < tasks.len() && (#[trigger] writes[k]).finished is Some ==> after(
                    writes[k].path,
                ) == content_of(contents, tasks[k].source)
        }),
        start <= stop,
    decreases tasks.len(),
{
    let writes = disk_writer::writes_of_all(m, phase, tasks, data, start, completed);
    let after = disk_after_all(disk, writes);
    if tasks.len() == 0 {
        assert(arrived.union(offsets(start, stop)) =~= arrived);
    } else {
        let n = tasks.len() - 1;
        let t = tasks.last();
        let init = tasks.drop_last();
        let fewer = places.drop_last();
        assert forall|k: int| 0 <= k < init.len() implies 0 <= #[trigger] fewer[k] < list.len()
            && piece_true(
            list[fewer[k]],
            contents,
            init[k],
            data.subrange(init[k].start - start, init[k].end - start),
        ) && (disk_writer::completes(init[k], completed) ==> whole_file_there(
            init[k],
            arrived,
            start,
        )) by {
            assert(fewer[k] == places[k]);
            assert(init[k] == tasks[k]);
        }
        lemma_files_arrived_all(
            disk,
            m,
            phase,
            list,
            contents,
            to,
            arrived,
            init,
            fewer,
            data,
            start,
            t.start,
            completed,
        );
        let i = places[n];
        assert(tasks[n] == t);
        let bytes = data.subrange(t.start - start, t.end - start);
        let known = disk_writer::writer_after_all(m, phase, init, data, start, completed);
        let earlier = disk_writer::writes_of_all(m, phase, init, data, start, completed);
        let before = disk_after_all(disk, earlier);
        let have = arrived.union(offsets(start, t.start));
        assert(writes.drop_last() =~= earlier);
        lemma_files_arrived_step(
            before,
            known,
            phase,
            list,
            contents,
            to,
            have,
            i,
            t,
            bytes,
            completed,
        );
        let all = have.union(offsets(t.start, t.end));
        assert(all =~= arrived.union(offsets(start, stop)));
        assert forall|k: int|
            0 <= k < tasks.len() && (#[trigger] writes[k]).finished is Some implies after(
            writes[k].path,
        ) == content_of(contents, tasks[k].source) by {
            if k < n {
                assert(writes[k] == earlier[k]);
                assert(earlier[k].finished is Some);
                lemma_write_at(m, phase, init, data, start, completed, k);
                assert(fewer[k] == places[k]);
                assert(list[places[k]].source == tasks[k].source);
                assert(before(list[places[k]].source->Path_0) == content_of(
                    contents,
                    list[places[k]].source,
                ));
            } else {
                assert(disk_writer::completes(t, completed));
                assert(disk_writer::file_start(t) == list[i].offset);
                assert forall|x: int|
                    list[i].offset <= x < list[i].offset + list[i].size implies #[trigger] all.contains(
                    x,
                ) by {
                    assert(arrived.contains(x) || start <= x < t.end);
                }
            }
        }
    }
}

/// The files on disk fill up with the packets, however they come: when a packet with the bytes of
/// its place has been written, the files hold those bytes and all that arrived before, and a file
/// that is called complete, cut to its size, is the file that was sent.
pub proof fn law_files_fill(
    disk: spec_fn(Seq<Seq<u8>>) -> Seq<u8>,
    m: WriterModel,
    phase: u16,
    list: Seq<FileSpan>,
    contents: spec_fn(Option<Seq<Seq<u8>>>) -> Seq<u8>,
    to: int,
    arrived: Set<int>,
    start: int,
    data: Seq<u8>,
    completed: Range<PhaseOffset>,
)
    requires
        tree::tiled(list, 0, to),
        sources_true(contents, list),
        on_disk(list),
        files_arrived(disk, list, contents, arrived),
        0 <= start,
        start + data.len() <= to,
        data.len() > 0,
        data == phase_bytes(list, contents).subrange(start, start + data.len()),
        forall|x: int|
            completed.start.0 <= x < completed.end.0 && x < to ==> #[trigger] arrived.contains(x)
                || start <= x < start + data.len(),
    ensures
        ({
            let tasks = tree::tasks_of(list, start, start + data.len());
            let writes = disk_writer::writes_of_all(m, phase, tasks, data, start, completed);
            let after = disk_after_all(disk, writes);
            &&& writes.len() == tasks.len()
            &&& files_arrived(
                after,
                list,
                contents,
                arrived.union(offsets(start, start + data.len())),
            )
            &&& forall|k: int|
                0 <= k < tasks.len() && (#[trigger] writes[k]).finished is Some ==> after(
                    writes[k].path,
                ) == content_of(contents, tasks[k].source)
        }),
{
    let end = start + data.len();
    let tasks = tree::tasks_of(list, start, end);
    let places = lemma_places(list, contents, to, start, data, tasks.len() as int);
    tree::lemma_tasks_tiled(list, 0, to, start, end);
    tree::lemma_tiled_bounds(list, 0, to);
    assert forall|k: int| 0 <= k < tasks.len() implies 0 <= #[trigger] places[k] < list.len()
        && piece_true(
        list[places[k]],
        contents,
        tasks[k],
        data.subrange(tasks[k].start - start, tasks[k].end - start),
    ) && (disk_writer::completes(tasks[k], completed) ==> whole_file_there(
        tasks[k],
        arrived,
        start,
    )) by {
        let t = tasks[k];
        let span = list[places[k]];
        assert(tree::task_of(span, start, end) == Some(t));
        if disk_writer::completes(t, completed) {
            assert forall|x: int|
                disk_writer::file_start(t) <= x < disk_writer::file_start(t)
                    + t.file_size implies #[trigger] arrived.contains(x) || start <= x < t.end by {
                assert(completed.start.0 <= x < completed.end.0 && x < to);
            }
        }
    }
    lemma_files_arrived_all(
        disk,
        m,
        phase,
        list,
        contents,
        to,
        arrived,
        tasks,
        places,
        data,
        start,
        end,
        completed,
    );
}

/// A packet that has come fills the files that it has bytes of, and no others: when what is to be
/// written for it has been carried out, the files of its phase hold its bytes and all that arrived
/// before, those of other phases are as they were, and a file that is called complete is the file
/// that was sent, and is checked against the checksum of that file. What the writer takes to be open
/// is open.
pub proof fn law_packet_fills_its_files(
    set: Seq<file_set::PhaseModel>,
    store: StoreModel,
    before: WriterModel,
    dest: PacketIdx,
    bytes: Seq<u8>,
    completed: Range<PhaseOffset>,
    after: WriterModel,
    r: Result<Seq<disk_writer::FileWriteModel>, FileSetError>,
    contents: spec_fn(Option<Seq<Seq<u8>>>) -> Seq<u8>,
    arrived: Set<int>,
    other: u16,
    path: Seq<Seq<u8>>,
)
    requires
        disk_writer::writes_packet(set, before, dest, bytes, completed, after, r),
        0 < dest.phase_of() < set.len(),
        store.open == before.open_file,
        bytes.len() > 0,
        ({
            let list = file_set::phase_spans(set[dest.phase_of() as int]);
            let t = set[dest.phase_of() as int].tree;
            let start = dest.index_of() * 1369;
            &&& tree::placed(t, 0)
            &&& sources_true(contents, list)
            &&& on_disk(list)
            &&& start + bytes.len() <= tree::file_bytes(t)
            &&& bytes == phase_bytes(list, contents).subrange(start, start + bytes.len())
            &&& files_arrived(files_of(store, dest.phase_of()), list, contents, arrived)
            &&& sums_arrived(before, dest.phase_of(), list, contents, arrived)
            &&& forall|x: int|
                completed.start.0 <= x < completed.end.0 && x < tree::file_bytes(t)
                    ==> #[trigger] arrived.contains(x) || start <= x < start + bytes.len()
        }),
    ensures
        r is Ok,
        ({
            let list = file_set::phase_spans(set[dest.phase_of() as int]);
            let start = dest.index_of() * 1369;
            let now = arrived.union(offsets(start, start + bytes.len()));
            let writes = r->Ok_0;
            let done = all_carried_out(store, dest.phase_of(), writes);
            &&& done.open == after.open_file
            &&& files_arrived(files_of(done, dest.phase_of()), list, contents, now)
            &&& sums_arrived(after, dest.phase_of(), list, contents, now)
            &&& other != dest.phase_of() ==> (done.files)(other, path) == (store.files)(other, path)
            &&& forall|k: int|
                0 <= k < writes.len() ==> ((#[trigger] writes[k]).finished matches Some(
                    (size, sum),
                ) ==> {
                    let file = (done.files)(dest.phase_of(), writes[k].path);
                    &&& file == contents(Some(writes[k].path))
                    &&& size == file.len()
                    &&& sum == checksum::checksum_of(file)
                })
        }),
{
    let phase = dest.phase_of();
    let t = set[phase as int].tree;
    let list = file_set::phase_spans(set[phase as int]);
    let start = dest.index_of() * 1369;
    let to = tree::file_bytes(t) as int;
    assert(PAYLOAD_SIZE == 1369);
    let tasks = tree::tasks_of(list, start, start + bytes.len());
    let writes = disk_writer::writes_of_all(before, phase, tasks, bytes, start, completed);
    tree::lemma_spans_tiled(t, 0, seq![set[phase as int].path]);
    law_files_fill(
        files_of(store, phase),
        before,
        phase,
        list,
        contents,
        to,
        arrived,
        start,
        bytes,
        completed,
    );
    let done = all_carried_out(store, phase, writes);
    assert forall|p: Seq<Seq<u8>>| #[trigger] files_of(done, phase)(p) == disk_after_all(
        files_of(store, phase),
        writes,
    )(p) by {
        law_writes_reach_their_files(
            before,
            store,
            phase,
            tasks,
            bytes,
            start,
            completed,
            other,
            p,
        );
    }
    assert(files_of(done, phase) =~= disk_after_all(files_of(store, phase), writes));
    law_writes_reach_their_files(
        before,
        store,
        phase,
        tasks,
        bytes,
        start,
        completed,
        other,
        path,
    );
    law_finished_file_has_its_sum(
        before,
        phase,
        list,
        contents,
        to,
        arrived,
        start,
        bytes,
        completed,
        0,
    );
    assert(after == disk_writer::writer_after_all(
        before,
        phase,
        tasks,
        bytes,
        start,
        completed,
    ));
    assert forall|k: int| 0 <= k < writes.len() implies ((
    #[trigger] writes[k]).finished matches Some((size, sum)) ==> {
        let file = (done.files)(phase, writes[k].path);
        &&& file == contents(Some(writes[k].path))
        &&& size == file.len()
        &&& sum == checksum::checksum_of(file)
    }) by {
        law_finished_file_has_its_sum(
            before,
            phase,
            list,
            contents,
            to,
            arrived,
            start,
            bytes,
            completed,
            k,
        );
        lemma_write_at(before, phase, tasks, bytes, start, completed, k);
        let i = tree::lemma_task_span(list, start, start + bytes.len(), k);
        assert(list[i].source is Path);
        assert(files_of(done, phase)(writes[k].path) == (done.files)(phase, writes[k].path));
    }
}

/// The files of a phase on the disk of a client make the same bytes as those of the server: it does
/// not matter where they are kept.
pub proof fn law_phase_bytes_travel(
    sent: Seq<FileSpan>,
    sources: spec_fn(Option<Seq<Seq<u8>>>) -> Seq<u8>,
    received: Seq<FileSpan>,
    contents: spec_fn(Option<Seq<Seq<u8>>>) -> Seq<u8>,
)
    requires
        sent.len() == received.len(),
        forall|i: int|
            0 <= i < sent.len() ==> content_of(sources, (#[trigger] sent[i]).source) == content_of(
                contents,
                received[i].source,
            ),
    ensures
        phase_bytes(sent, sources) == phase_bytes(received, contents),
    decreases sent.len(),
{
    if sent.len() > 0 {
        let n = sent.len() - 1;
        assert(sent.last() == sent[n] && received.last() == received[n]);
        assert forall|i: int| 0 <= i < sent.drop_last().len() implies content_of(
            sources,
            (#[trigger] sent.drop_last()[i]).source,
        ) == content_of(contents, received.drop_last()[i].source) by {
            assert(sent.drop_last()[i] == sent[i]);
        }
        law_phase_bytes_travel(sent.drop_last(), sources, received.drop_last(), contents);
    }
}

/// The bytes of the first phase that have arrived are in their places.
pub open spec fn bytes_arrived(buf: Seq<u8>, phase: Seq<u8>, arrived: Set<int>) -> bool {
    &&& buf.len() == phase.len()
    &&& forall|x: int|
        0 <= x < buf.len() && #[trigger] arrived.contains(x) ==> buf[x] == phase[x]
}

/// A packet of the first phase puts its bytes in their places and leaves the others; so when all
/// have arrived, the bytes of the phase are there.
pub proof fn law_first_phase_fills(buf: Seq<u8>, phase: Seq<u8>, arrived: Set<int>, index: int)
    requires
        bytes_arrived(buf, phase, arrived),
        0 <= index,
        index * PAYLOAD_SIZE < phase.len(),
    ensures
        ({
            let data = stream::packet_data(phase, index);
            let start = index * PAYLOAD_SIZE;
            let after = client_state::written(buf, start, data);
            let all = arrived.union(offsets(start, start + data.len()));
            &&& bytes_arrived(after, phase, all)
            &&& (forall|x: int| 0 <= x < phase.len() ==> #[trigger] all.contains(x)) ==> after
                == phase
        }),
{
    let data = stream::packet_data(phase, index);
    let start = index * PAYLOAD_SIZE;
    assert(start == index * 1369);
    let after = client_state::written(buf, start, data);
    let all = arrived.union(offsets(start, start + data.len()));
    assert forall|x: int| 0 <= x < after.len() && #[trigger] all.contains(x) implies after[x]
        == phase[x] by {
        if !(start <= x < start + data.len()) {
            assert(arrived.contains(x));
        }
    }
    if forall|x: int| 0 <= x < phase.len() ==> #[trigger] all.contains(x) {
        assert forall|x: int| 0 <= x < phase.len() implies after[x] == phase[x] by {
            assert(all.contains(x));
        }
        assert(after =~= phase);
    }
}

/// When the bytes of the first phase are there, their checksum is right, and they give the file
/// set of the server, but for the paths of its phases.
pub proof fn law_file_set_arrives(set: Seq<file_set::PhaseModel>)
    requires
        set.len() <= u64::MAX,
        forall|i: int|
            0 <= i < set.len() ==> file_set_wire::describable((#[trigger] set[i]).tree),
    ensures
        ({
            let description = file_set_wire::encode_file_set(set);
            let buf = with_sum(description);
            &&& buf.take(buf.len() - CHECKSUM_SIZE) == description
            &&& buf.skip(buf.len() - CHECKSUM_SIZE) == checksum::checksum_of(description)
            &&& file_set_wire::decode_file_set(buf) == Ok::<
                Seq<file_set::PhaseModel>,
                file_set_wire::DescriptionError,
            >(
                set.map_values(
                    |phase: file_set::PhaseModel|
                        file_set::PhaseModel { path: Seq::empty(), tree: phase.tree },
                ),
            )
        }),
{
    let description = file_set_wire::encode_file_set(set);
    let buf = with_sum(description);
    assert(buf.take(buf.len() - CHECKSUM_SIZE) =~= description);
    assert(buf.skip(buf.len() - CHECKSUM_SIZE) =~= checksum::checksum_of(description));
    file_set_wire::law_file_set_roundtrip(set, checksum::checksum_of(description));
}

/// The file can be read from `start` of the phase on: if it is no normal file, then `start` is not
/// within its checksum.
pub open spec fn readable_from(span: FileSpan, start: int) -> bool {
    span.kind != Kind::Normal ==> !(span.offset + span.size - CHECKSUM_SIZE < start < span.offset
        + span.size)
}

/// The tasks of a phase that can be read make sense.
pub proof fn law_tasks_ok(list: Seq<FileSpan>, to: int, start: int, end: int, k: int)
    requires
        tree::tiled(list, 0, to),
        to <= u64::MAX,
        0 <= start < end,
        forall|i: int| 0 <= i < list.len() ==> tree::honest(#[trigger] list[i]),
        0 <= k < tree::tasks_of(list, start, end).len(),
        forall|i: int| 0 <= i < list.len() ==> readable_from(#[trigger] list[i], start),
    ensures
        stream::task_ok(tree::tasks_of(list, start, end)[k]),
{
    let i = tree::lemma_task_span(list, start, end, k);
    tree::lemma_tiled_bounds(list, 0, to);
    assert(readable_from(list[i], start) && tree::honest(list[i]));
}

/// A client that hears an announcement makes room for just the bytes of the first phase, if it has a
/// path for each phase but the first.
pub proof fn law_announcement_makes_room(
    set: Seq<file_set::PhaseModel>,
    meta: Meta,
    session_id: SessionId,
    paths: usize,
    server: PeerAddrV4,
    r: Result<ClientStateEnum, ClientError>,
)
    requires
        0 < set.len() <= 0xffff,
        set[0].tree is FileSet,
        meta::is_meta_of(meta, set),
        meta.fileset_buf@.len() <= u64::MAX,
        client_state::answers_announcement(
            paths,
            server::announce_of(session_id, meta),
            server,
            r,
        ),
    ensures
        r is Ok <==> paths == set.len() - 1,
        r is Ok ==> {
            &&& r->Ok_0 matches ClientStateEnum::AwaitingFileSet {
                session_id: id,
                phases,
                server: s,
                buf,
            }
            &&& id == session_id
            &&& phases == set.len()
            &&& s == server
            &&& buf@.len() == with_sum(file_set_wire::encode_file_set(set)).len()
            &&& buf@.len() == tree::extent(
                meta::with_description(set, file_set_wire::encode_file_set(set))[0].tree,
            )
        },
{
}

/// The bytes of the first phase of a server give a client the file set of the server, with its own
/// paths.
pub proof fn law_sent_file_set_is_loaded(
    set: Seq<file_set::PhaseModel>,
    paths: Seq<Seq<u8>>,
    r: Result<FileSet, ClientError>,
    i: int,
)
    requires
        set.len() <= u64::MAX,
        forall|j: int|
            0 <= j < set.len() ==> file_set_wire::describable((#[trigger] set[j]).tree),
        paths.len() + 1 == set.len(),
        client_state::gives_file_set(with_sum(file_set_wire::encode_file_set(set)), paths, r),
        0 <= i < set.len(),
    ensures
        r is Ok,
        r->Ok_0@.len() == set.len(),
        r->Ok_0@[i].tree == set[i].tree,
        i > 0 ==> r->Ok_0@[i].path == paths[i - 1],
{
    law_file_set_arrives(set);
}

/// A client that has the file set and nothing else misses every byte of every file of it, and no
/// other bytes.
pub proof fn law_client_misses_every_file(
    handler: ClientProtocolHandler,
    session_id: SessionId,
    set: Seq<file_set::PhaseModel>,
    i: int,
    x: int,
)
    requires
        1 <= i < set.len() <= 0x1_0000,
        tree::placed(set[i].tree, 0),
        handler.is_fresh(session_id, client_state::to_receive(set)),
    ensures
        i < handler.missing@.len(),
        range_set::covered(handler.missing_of(i as u16), x) <==> exists|k: int|
            0 <= k < file_set::phase_spans(set[i]).len() && tree::covers(
                #[trigger] file_set::phase_spans(set[i])[k],
                x,
            ),
{
    client_state::law_all_phases_are_received(set, i);
    client::law_fresh_client_misses_all(
        handler,
        session_id,
        client_state::to_receive(set),
        i - 1,
        x,
    );
    assert(tree::well_placed(set[i].tree) && tree::start_of(set[i].tree) == 0);
    tree::law_every_byte_has_a_file(set[i].tree, seq![set[i].path], x);
    let list = tree::spans(set[i].tree, seq![set[i].path]);
    assert(list == file_set::phase_spans(set[i]));
    if range_set::covered(handler.missing_of(i as u16), x) {
        let k = choose|k: int| 0 <= k < list.len() && tree::covers(#[trigger] list[k], x);
        assert(tree::covers(file_set::phase_spans(set[i])[k], x));
    }
}

} // verus!
