//! Whether packets can be read.
use std::ops::Range;

use vstd::prelude::*;

use crate::disk_read_engine::ReadEngine;
use crate::file_set::VisitTask;
use crate::packet::{
    calculate_phase_offset, copy_range, PacketIdx, PhaseOffset, PhaseSize, CHECKSUM_SIZE_U64,
    MAX_OFFSET, PAYLOAD_SIZE,
};
use crate::tree::Kind;
use crate::{delivery, file_set, meta, packet, stream, tree};

verus! {

/// Every phase of the file set can be walked from its start on, and its files say rightly what they
/// are.
pub open spec fn in_order(set: Seq<file_set::PhaseModel>) -> bool {
    forall|i: int|
        0 <= i < set.len() ==> tree::well_placed((#[trigger] set[i]).tree) && tree::start_of(
            set[i].tree,
        ) == 0 && tree::kinds_agree(set[i].tree)
}

/// A new file set that has its description is in order: all of its phases can be read.
pub proof fn law_described_file_set_in_order(
    items: Seq<file_set::PhaseModel>,
    description: Seq<u8>,
)
    requires
        forall|i: int|
            0 <= i < items.len() ==> tree::files_only((#[trigger] items[i]).tree)
                && tree::kinds_agree(items[i].tree) && tree::file_bytes(items[i].tree) <= u64::MAX,
        description.len() + CHECKSUM_SIZE_U64 <= u64::MAX,
    ensures
        in_order(meta::with_description(file_set::new_phases(items), description)),
{
    let set = meta::with_description(file_set::new_phases(items), description);
    assert forall|i: int| 0 <= i < set.len() implies tree::well_placed((#[trigger] set[i]).tree)
        && tree::start_of(set[i].tree) == 0 && tree::kinds_agree(set[i].tree) by {
        if i > 0 {
            assert(set[i] == file_set::new_phases(items)[i]);
            assert(tree::files_only(items[i - 1].tree));
            file_set::law_new_file_set_placed(items, i - 1);
            tree::lemma_placed_bounds(set[i].tree, 0);
            tree::lemma_assigned_kinds(items[i - 1].tree, 0);
        }
    }
}

/// Whether no task begins within the checksum of anything but a normal file.
fn begins_well(tasks: &Vec<VisitTask>) -> (r: bool)
    requires
        forall|i: int| 0 <= i < tasks@.len() ==> (#[trigger] tasks@[i]).file_size
            >= CHECKSUM_SIZE_U64,
    ensures
        r == forall|i: int|
            0 <= i < tasks@.len() ==> ((#[trigger] tasks@[i]).kind != Kind::Normal
                ==> tasks@[i].offset <= tasks@[i].file_size - CHECKSUM_SIZE_U64),
{
    let mut i: usize = 0;
    while i < tasks.len()
        invariant
            i <= tasks@.len(),
            forall|j: int| 0 <= j < tasks@.len() ==> (#[trigger] tasks@[j]).file_size
                >= CHECKSUM_SIZE_U64,
            forall|j: int|
                0 <= j < i ==> ((#[trigger] tasks@[j]).kind != Kind::Normal ==> tasks@[j].offset
                    <= tasks@[j].file_size - CHECKSUM_SIZE_U64),
        decreases tasks.len() - i,
    {
        let task = &tasks[i];
        if task.kind != Kind::Normal && task.offset > task.file_size - CHECKSUM_SIZE_U64 {
            return false;
        }
        i = i + 1;
    }
    true
}

impl ReadEngine {
    /// Whether packets of one phase can be read: the phase is there, the first packet begins within
    /// it, and does not begin within the checksum of anything but a normal file.
    pub fn is_readable(&self, idx: &Range<PacketIdx>) -> (r: bool)
        requires
            in_order(self.files@),
        ensures
            r ==> self.can_read(*idx),
            r ==> idx.start.phase_of() == idx.end.phase_of() && idx.start.0 <= idx.end.0,
            idx.start.0 == idx.end.0 ==> r,
            !r && idx.start.0 < idx.end.0 && idx.start.phase_of() == idx.end.phase_of()
                ==> !self.can_read(*idx),
    {
        let phase: u16 = idx.start.phase();
        if phase != idx.end.phase() || idx.start.0 > idx.end.0 {
            return false;
        }
        proof {
            packet::law_packet_idx_parts(idx.start);
            packet::law_packet_idx_parts(idx.end);
        }
        let ghost parts = packet::phases_from(*idx, &self.files, phase as int);
        if idx.start.0 == idx.end.0 {
            proof {
                reveal_with_fuel(packet::phases_from, 2);
                assert(parts.len() == 0);
                assert(self.tasks_for(*idx).len() == 0);
            }
            return true;
        }
        proof {
            delivery::lemma_tasks_of_phase(*self, *idx);
        }
        if phase as usize >= self.files.num_phases() {
            assert(!(parts[0].0 < self.files@.len()));
            return false;
        }
        let ghost model = self.files@[phase as int];
        let ghost list = file_set::phase_spans(model);
        let ghost start = idx.start.index_of() * PAYLOAD_SIZE;
        let ghost end = idx.end.index_of() * PAYLOAD_SIZE;
        let ghost to = tree::extent(model.tree) as int;
        proof {
            tree::lemma_well_placed_tiled(model.tree, seq![model.path]);
            tree::lemma_spans_honest(model.tree, seq![model.path]);
            tree::lemma_tiled_bounds(list, 0, to);
        }
        let first: PhaseOffset = calculate_phase_offset(idx.start.index());
        let size: u64 = match self.files.max_offset_exclusive(phase) {
            Some(size) => size.0,
            None => 0,
        };
        if first.0 >= size {
            assert(!file_set::part_present(self.files@, parts[0]));
            return false;
        }
        let tasks: Vec<VisitTask> = match self.files.visit(copy_range(idx)) {
            Ok(tasks) => tasks,
            Err(_) => return false,
        };
        let ghost models = tree::tasks_of(list, start, end);
        proof {
            assert(file_set::tasks_view(tasks@) == self.tasks_for(*idx));
            assert forall|k: int| 0 <= k < tasks@.len() implies self.tasks_for(*idx)[k].1
                == #[trigger] models[k] && self.tasks_for(*idx)[k] == tasks@[k]@ && (
            stream::task_ok(models[k]) <==> (tasks@[k].kind != Kind::Normal ==> tasks@[k].offset
                <= tasks@[k].file_size - CHECKSUM_SIZE_U64)) && tasks@[k].file_size
                >= CHECKSUM_SIZE_U64 by {
                assert(file_set::tasks_view(tasks@)[k] == tasks@[k]@);
                let i = tree::lemma_task_span(list, start, end, k);
                assert(tree::honest(list[i]));
            }
            assert forall|k: int| 0 <= k < tasks@.len() implies (#[trigger] tasks@[k]).file_size
                >= CHECKSUM_SIZE_U64 by {
                assert(self.tasks_for(*idx)[k].1 == models[k]);
            }
            tree::lemma_tasks_tiled(list, 0, to, start, end);
            assert(models.len() > 0);
            assert forall|k: int| 0 <= k < models.len() implies (#[trigger] models[k]).end
                <= MAX_OFFSET by {
                let i = tree::lemma_task_span(list, start, end, k);
                assert(PAYLOAD_SIZE == 1369);
            }
        }
        let r = begins_well(&tasks);
        proof {
            if r {
                assert forall|k: int| 0 <= k < self.tasks_for(*idx).len() implies stream::task_ok(
                    (#[trigger] self.tasks_for(*idx)[k]).1,
                ) && self.tasks_for(*idx)[k].1.end <= MAX_OFFSET by {
                    assert(self.tasks_for(*idx)[k].1 == models[k]);
                    assert(tasks@[k].kind != Kind::Normal ==> tasks@[k].offset
                        <= tasks@[k].file_size - CHECKSUM_SIZE_U64);
                }
            } else {
                let k = choose|k: int|
                    0 <= k < tasks@.len() && !((#[trigger] tasks@[k]).kind != Kind::Normal
                        ==> tasks@[k].offset <= tasks@[k].file_size - CHECKSUM_SIZE_U64);
                assert(self.tasks_for(*idx)[k].1 == models[k]);
                assert(!stream::task_ok(self.tasks_for(*idx)[k].1));
            }
        }
        r
    }
}

} // verus!
