//! A cursor over the files of a file set, which finds the file that a byte of a phase belongs to.
use std::ops::Range;

use vstd::prelude::*;

use crate::file_set::{copy_bytes, copy_path, Entry, FileSet, FileSetError};
use crate::packet::PhaseOffset;
use crate::{file_set, tree};

verus! {

/// Where a cursor stands: on the way to the file that was looked up last. The next lookup begins
/// there, which is fast when lookups go forward.
pub struct FileSetCursor<'a> {
    set: &'a FileSet,
    cur_phase: u16,
    stack: Vec<&'a Entry>,
    path: Vec<Vec<u8>>,
}

/// Where the byte at some phase offset is to be written.
#[derive(Debug)]
pub struct WriteNeed {
    /// The names that lead to the file.
    pub path: Vec<Vec<u8>>,
    pub file_offset: u64,
    // Size *including* checksum
    pub file_size: u64,
    /// PhaseOffset range occupied by complete file (including checksum)
    pub file_range: Range<PhaseOffset>,
}

/// Whether `need` says how to write the byte at `offset`, which lies in the file `span`.
pub open spec fn need_matches(need: WriteNeed, span: tree::FileSpan, offset: int) -> bool {
    &&& span.source == tree::SourceModel::Path(file_set::names_of(need.path@))
    &&& need.file_offset == offset - span.offset
    &&& need.file_size == span.size
    &&& need.file_range.start.0 == span.offset
    &&& need.file_range.end.0 == span.offset + span.size
}

/// Whether `need` says how to write the byte at `offset`, which lies in a file of `list`.
pub open spec fn found(need: WriteNeed, list: Seq<tree::FileSpan>, offset: int) -> bool {
    exists|i: int|
        0 <= i < list.len() && tree::covers(#[trigger] list[i], offset) && need_matches(
            need,
            list[i],
            offset,
        )
}

/// There is one way only to write a byte of a phase.
pub proof fn law_need_is_determined(
    phase: file_set::PhaseModel,
    offset: int,
    a: WriteNeed,
    b: WriteNeed,
)
    requires
        tree::well_placed(phase.tree),
        found(a, file_set::phase_spans(phase), offset),
        found(b, file_set::phase_spans(phase), offset),
    ensures
        file_set::names_of(a.path@) == file_set::names_of(b.path@),
        a.file_offset == b.file_offset,
        a.file_size == b.file_size,
        a.file_range == b.file_range,
{
    let list = file_set::phase_spans(phase);
    let i = choose|i: int|
        0 <= i < list.len() && tree::covers(#[trigger] list[i], offset) && need_matches(
            a,
            list[i],
            offset,
        );
    let j = choose|j: int|
        0 <= j < list.len() && tree::covers(#[trigger] list[j], offset) && need_matches(
            b,
            list[j],
            offset,
        );
    tree::law_one_file_per_byte(phase.tree, seq![phase.path], i, j, offset);
}

/// What is found for a byte of a phase is the file that holds it: the names lead to that file from
/// the place of the phase on disk, the byte lies within the bytes of the file, and as far from their
/// start as it is to be written from the start of the file.
pub proof fn law_byte_goes_to_its_file(
    phase: file_set::PhaseModel,
    offset: int,
    need: WriteNeed,
) -> (r: (Seq<Seq<u8>>, tree::FileModel))
    requires
        found(need, file_set::phase_spans(phase), offset),
    ensures
        tree::leads_to(phase.tree, r.0, r.1),
        file_set::names_of(need.path@) == seq![phase.path] + r.0,
        need.file_range.start.0 == r.1.offset,
        need.file_range.end.0 == r.1.offset + r.1.size,
        need.file_size == r.1.size,
        need.file_range.start.0 <= offset < need.file_range.end.0,
        need.file_range.start.0 + need.file_offset == offset,
{
    let list = file_set::phase_spans(phase);
    let i = choose|i: int|
        0 <= i < list.len() && tree::covers(#[trigger] list[i], offset) && need_matches(
            need,
            list[i],
            offset,
        );
    tree::law_only_files_are_listed(phase.tree, seq![phase.path], i)
}

/// Whether every span of `part` is one of `whole`.
pub open spec fn spans_within(part: Seq<tree::FileSpan>, whole: Seq<tree::FileSpan>) -> bool {
    forall|i: int| 0 <= i < part.len() ==> whole.contains(#[trigger] part[i])
}

/// Whether `t`, which `path` leads to, is a part of the phase.
spec fn node_ok(phase: file_set::PhaseModel, t: tree::Tree, path: Seq<Seq<u8>>) -> bool {
    &&& tree::placed(t, tree::start_of(t) as nat)
    &&& spans_within(tree::spans(t, path), file_set::phase_spans(phase))
}

proof fn lemma_child_within(d: tree::DirectoryModel, path: Seq<Seq<u8>>, i: int)
    requires
        0 <= i < d.files.len(),
    ensures
        spans_within(
            tree::spans(d.files[i], path.push(d.name)),
            tree::spans(tree::Tree::Directory(d), path),
        ),
{
    lemma_in_all(d.files, path.push(d.name), i);
}

proof fn lemma_in_all(files: Seq<tree::Tree>, path: Seq<Seq<u8>>, i: int)
    requires
        0 <= i < files.len(),
    ensures
        spans_within(tree::spans(files[i], path), tree::spans_all(files, path)),
    decreases files.len(),
{
    let before = tree::spans_all(files.drop_last(), path);
    let last = tree::spans(files.last(), path);
    let all = tree::spans_all(files, path);
    let part = tree::spans(files[i], path);
    if i < files.len() - 1 {
        lemma_in_all(files.drop_last(), path, i);
        assert forall|k: int| 0 <= k < part.len() implies all.contains(#[trigger] part[k]) by {
            let j = choose|j: int| 0 <= j < before.len() && before[j] == part[k];
            assert(all[j] == part[k]);
        }
    } else {
        assert forall|k: int| 0 <= k < part.len() implies all.contains(#[trigger] part[k]) by {
            assert(all[before.len() + k] == part[k]);
        }
    }
}

impl<'a> FileSetCursor<'a> {
    /// The file set that the cursor moves over.
    pub closed spec fn set_of(self) -> Seq<file_set::PhaseModel> {
        self.set@
    }

    /// The cursor stands on the way to a file of its phase.
    pub closed spec fn inv(self) -> bool {
        let names = file_set::names_of(self.path@);
        self.stack@.len() > 0 ==> {
            &&& self.cur_phase < self.set@.len()
            &&& names.len() == self.stack@.len() + 1
            &&& names[0] == self.set@[self.cur_phase as int].path
            &&& forall|i: int|
                0 <= i < self.stack@.len() ==> {
                    &&& node_ok(
                        self.set@[self.cur_phase as int],
                        (#[trigger] self.stack@[i])@,
                        names.take(i + 1),
                    )
                    &&& names[i + 1] == file_set::name_of(self.stack@[i]@)
                }
        }
    }

    /// A cursor that has not been moved yet.
    pub fn new(set: &'a FileSet) -> (r: Self)
        ensures
            r.inv(),
            r.set_of() == set@,
    {
        FileSetCursor { set, cur_phase: 0, stack: Vec::new(), path: Vec::new() }
    }

    /// The bytes of the entry that the cursor stands on; of the whole file set, from the start of
    /// its first phase to the end of its last, where the cursor has not been moved.
    pub closed spec fn range_of(self) -> (int, Option<int>) {
        if self.set@.len() == 0 {
            (0, Some(0))
        } else if self.stack@.len() > 0 {
            let top = self.stack@.last()@;
            (tree::start_of(top) as int, tree::end_of(top))
        } else {
            (tree::start_of(self.set@[0].tree) as int, tree::end_of(self.set@.last().tree))
        }
    }

    fn cur_range(&self) -> (r: Range<PhaseOffset>)
        requires
            self.range_of().1 is Some,
            self.range_of().1->Some_0 <= u64::MAX,
        ensures
            r.start.0 == self.range_of().0,
            r.end.0 == self.range_of().1->Some_0,
    {
        let n: usize = self.set.num_phases();
        if n == 0 {
            return Range { start: PhaseOffset(0), end: PhaseOffset(0) };
        }
        let depth: usize = self.stack.len();
        if depth > 0 {
            let top: &Entry = self.stack[depth - 1];
            Range { start: top.first_offset(), end: top.last_offset_exclusive() }
        } else {
            assert(self.set@[0] == self.set.phases@[0]@);
            assert(self.set@.last() == self.set.phases@[n - 1]@);
            Range {
                start: self.set.phases[0].entry.first_offset(),
                end: self.set.phases[n - 1].entry.last_offset_exclusive(),
            }
        }
    }

    /// Finds the file that the byte at `packet_offset` of `packet_phase` belongs to. What it finds
    /// does not depend on where the cursor stood.
    pub fn seek(&mut self, packet_phase: u16, packet_offset: PhaseOffset) -> (r: Result<
        WriteNeed,
        FileSetError,
    >)
        requires
            old(self).inv(),
            0 < packet_phase < old(self).set_of().len() ==> {
                let t = old(self).set_of()[packet_phase as int].tree;
                &&& tree::placed(t, tree::start_of(t) as nat)
                &&& tree::start_of(t) <= packet_offset.0
                &&& packet_offset.0 < tree::start_of(t) + tree::file_bytes(t)
            },
        ensures
            final(self).inv(),
            final(self).set_of() == old(self).set_of(),
            packet_phase >= old(self).set_of().len() ==> r == Err::<WriteNeed, FileSetError>(
                FileSetError::BadPhase,
            ),
            packet_phase == 0 && old(self).set_of().len() > 0 ==> r == Err::<
                WriteNeed,
                FileSetError,
            >(FileSetError::FileSetPhase),
            0 < packet_phase < old(self).set_of().len() ==> r is Ok && found(
                r->Ok_0,
                file_set::phase_spans(old(self).set_of()[packet_phase as int]),
                packet_offset.0 as int,
            ),
    {
        if packet_phase as usize >= self.set.num_phases() {
            return Err(FileSetError::BadPhase);
        }
        if packet_phase == 0 {
            return Err(FileSetError::FileSetPhase);
        }
        let set: &'a FileSet = self.set;
        let ghost phase = set@[packet_phase as int];
        let ghost root = phase.tree;
        if self.cur_phase != packet_phase {
            self.path = Vec::new();
            self.stack = Vec::new();
            self.cur_phase = packet_phase;
        }
        // Back up to an entry that holds the byte.
        let mut depth: usize = self.stack.len();
        while depth > 0 && !self.top_contains(packet_offset)
            invariant
                self.inv(),
                self.set == set,
                self.cur_phase == packet_phase < set@.len(),
                depth == self.stack@.len(),
            decreases depth,
        {
            let ghost stack = self.stack@;
            let ghost path = self.path@;
            let _ = self.stack.pop();
            let _ = self.path.pop();
            depth = depth - 1;
            proof {
                assert(path.len() == file_set::names_of(path).len());
                assert(self.stack@ =~= stack.drop_last());
                lemma_names_drop_last(path);
                let names = file_set::names_of(path);
                let kept = file_set::names_of(self.path@);
                assert forall|i: int| 0 <= i < self.stack@.len() implies {
                    &&& node_ok(
                        self.set@[self.cur_phase as int],
                        (#[trigger] self.stack@[i])@,
                        kept.take(i + 1),
                    )
                    &&& kept[i + 1] == file_set::name_of(self.stack@[i]@)
                } by {
                    assert(stack[i] == self.stack@[i]);
                    assert(kept.take(i + 1) =~= names.take(i + 1));
                }
            }
        }
        if depth == 0 {
            let entry: &'a Entry = &set.phases[packet_phase as usize].entry;
            assert(set.phases@[packet_phase as int]@ == phase);
            self.path = Vec::new();
            self.path.push(copy_bytes(&set.phases[packet_phase as usize].path));
            self.path.push(entry.name());
            self.stack = Vec::new();
            self.stack.push(entry);
            proof {
                let names = file_set::names_of(self.path@);
                assert(names =~= seq![phase.path, file_set::name_of(root)]);
                assert(names.take(1) =~= seq![phase.path]);
                lemma_within_itself(file_set::phase_spans(phase));
            }
        }
        self.descend(packet_offset)
    }

    /// Whether the entry that the cursor stands on holds the byte at `offset`.
    fn top_contains(&self, offset: PhaseOffset) -> (r: bool)
        requires
            self.inv(),
            self.stack@.len() > 0,
        ensures
            r == self.holds(offset.0 as int),
    {
        proof {
            let i = self.stack@.len() - 1;
            let top = self.stack@[i]@;
            assert(node_ok(
                self.set@[self.cur_phase as int],
                top,
                file_set::names_of(self.path@).take(i + 1),
            ));
            tree::lemma_placed_bounds(top, tree::start_of(top) as nat);
        }
        range_contains(&self.cur_range(), offset)
    }

    spec fn holds(self, offset: int) -> bool {
        let top = self.stack@.last()@;
        tree::start_of(top) <= offset < tree::start_of(top) + tree::file_bytes(top)
    }

    /// Goes down to the file that holds the byte.
    fn descend(&mut self, packet_offset: PhaseOffset) -> (r: Result<WriteNeed, FileSetError>)
        requires
            old(self).inv(),
            old(self).stack@.len() > 0,
            old(self).holds(packet_offset.0 as int),
        ensures
            final(self).inv(),
            final(self).set_of() == old(self).set_of(),
            r is Ok && found(
                r->Ok_0,
                file_set::phase_spans(old(self).set_of()[old(self).cur_phase as int]),
                packet_offset.0 as int,
            ),
    {
        let set: &'a FileSet = self.set;
        let ghost phase = set@[self.cur_phase as int];
        let n: usize = self.stack.len();
        let mut top: &'a Entry = self.stack[n - 1];
        loop
            invariant
                self.inv(),
                self.set == set,
                self.cur_phase == old(self).cur_phase,
                set@ == old(self).set_of(),
                phase == set@[self.cur_phase as int],
                self.stack@.len() > 0,
                self.holds(packet_offset.0 as int),
                *top == *self.stack@.last(),
            decreases *top,
        {
            let ghost depth = self.stack@.len() as int;
            let ghost names = file_set::names_of(self.path@);
            assert(node_ok(phase, self.stack@[depth - 1]@, names.take(depth)));
            match top {
                Entry::File(f) => {
                    let file_offset: u64 = packet_offset - f.offset;
                    let need = WriteNeed {
                        path: copy_path(&self.path),
                        file_offset,
                        file_size: f.size,
                        file_range: f.range(),
                    };
                    proof {
                        let list = tree::spans(top@, names.take(depth));
                        let whole = file_set::phase_spans(phase);
                        assert(names.take(depth).push(f.name@) =~= names);
                        assert(whole.contains(list[0]));
                        let i = choose|i: int| 0 <= i < whole.len() && whole[i] == list[0];
                        assert(tree::covers(whole[i], packet_offset.0 as int));
                        assert(need_matches(need, whole[i], packet_offset.0 as int));
                    }
                    return Ok(need);
                },
                Entry::Directory(d) => {
                    proof {
                        if d.files@.len() == 0 {
                            assert(file_set::trees_of(d.files@) =~= Seq::empty());
                        }
                    }
                    let found = d.entry_for(packet_offset);
                    let entry: &'a Entry = match found {
                        Some(entry) => entry,
                        None => return Err(FileSetError::BadPhase),
                    };
                    let ghost stack = self.stack@;
                    self.path.push(entry.name());
                    self.stack.push(entry);
                    proof {
                        let i = choose|i: int|
                            0 <= i < d.files@.len() && *entry == #[trigger] d.files@[i];
                        assert(decreases_to!(*top => d.files@[i]));
                        let after = file_set::names_of(self.path@);
                        assert(after =~= names.push(file_set::name_of(entry@)));
                        assert(d.model().files[i] == entry@);
                        assert(names.take(depth).push(d.name@) =~= names);
                        lemma_child_within(d.model(), names.take(depth), i);
                        lemma_within_trans(
                            tree::spans(entry@, names),
                            tree::spans(top@, names.take(depth)),
                            file_set::phase_spans(phase),
                        );
                        assert forall|k: int| 0 <= k < self.stack@.len() implies {
                            &&& node_ok(phase, (#[trigger] self.stack@[k])@, after.take(k + 1))
                            &&& after[k + 1] == file_set::name_of(self.stack@[k]@)
                        } by {
                            if k < depth {
                                assert(stack[k] == self.stack@[k]);
                                assert(after.take(k + 1) =~= names.take(k + 1));
                            } else {
                                assert(after.take(k + 1) =~= names);
                            }
                        }
                    }
                    top = entry;
                },
                Entry::FileSet(_) => {
                    return Err(FileSetError::FileSetPhase);
                },
            }
        }
    }
}

proof fn lemma_names_drop_last(path: Seq<Vec<u8>>)
    requires
        path.len() > 0,
    ensures
        file_set::names_of(path.drop_last()) == file_set::names_of(path).drop_last(),
{
    assert(file_set::names_of(path.drop_last()) =~= file_set::names_of(path).drop_last());
}

proof fn lemma_within_itself(list: Seq<tree::FileSpan>)
    ensures
        spans_within(list, list),
{
}

proof fn lemma_within_trans(
    a: Seq<tree::FileSpan>,
    b: Seq<tree::FileSpan>,
    c: Seq<tree::FileSpan>,
)
    requires
        spans_within(a, b),
        spans_within(b, c),
    ensures
        spans_within(a, c),
{
    assert forall|i: int| 0 <= i < a.len() implies c.contains(#[trigger] a[i]) by {
        assert(b.contains(a[i]));
        let j = choose|j: int| 0 <= j < b.len() && b[j] == a[i];
        assert(c.contains(b[j]));
    }
}

fn range_contains(range: &Range<PhaseOffset>, offset: PhaseOffset) -> (r: bool)
    ensures
        r == (range.start.0 <= offset.0 < range.end.0),
{
    range.start <= offset && offset < range.end
}

} // verus!
