//! What a server tells about its file set, and checks on file sets that were received.
use std::sync::Arc;

use vstd::prelude::*;

use crate::file_set::{Entry, FileSet, FileSetPhaseEntry};
use crate::packet::CHECKSUM_SIZE_U64;
use crate::{file_set, file_set_wire, tree};

verus! {

/// What a server tells about its file set.
pub struct Meta {
    pub fileset_buf: Arc<[u8]>,
    /// This is the number of phases excluding the FileSet phase
    pub phases: u16,
    pub file_count: u64,
    pub total_size_bytes: u64,
}

/// How many files the phases have.
pub open spec fn total_count(set: Seq<file_set::PhaseModel>) -> nat
    decreases set.len(),
{
    if set.len() == 0 {
        0
    } else {
        total_count(set.drop_last()) + tree::file_count(set.last().tree)
    }
}

/// How many bytes the files of the phases have, checksums included.
pub open spec fn total_bytes(set: Seq<file_set::PhaseModel>) -> nat
    decreases set.len(),
{
    if set.len() == 0 {
        0
    } else {
        total_bytes(set.drop_last()) + tree::file_bytes(set.last().tree)
    }
}

/// The file set with its own description in its first phase, if that is the place for it.
pub open spec fn with_description(
    set: Seq<file_set::PhaseModel>,
    description: Seq<u8>,
) -> Seq<file_set::PhaseModel> {
    if set[0].tree is FileSet {
        set.update(
            0,
            file_set::PhaseModel {
                path: set[0].path,
                tree: tree::Tree::FileSet(Some(description)),
            },
        )
    } else {
        set
    }
}

/// What a server tells about a file set: its description, how many phases it has behind the first,
/// and how many files and bytes there are.
pub open spec fn is_meta_of(meta: Meta, set: Seq<file_set::PhaseModel>) -> bool {
    &&& meta.fileset_buf@ == file_set_wire::encode_file_set(set)
    &&& meta.phases == (set.len() - 1) % 0x1_0000
    &&& meta.file_count == total_count(set)
    &&& meta.total_size_bytes == total_bytes(set)
}

proof fn lemma_totals_take(set: Seq<file_set::PhaseModel>, i: int)
    requires
        0 <= i < set.len(),
    ensures
        total_count(set.take(i + 1)) == total_count(set.take(i)) + tree::file_count(set[i].tree),
        total_bytes(set.take(i + 1)) == total_bytes(set.take(i)) + tree::file_bytes(set[i].tree),
        total_count(set.take(i + 1)) <= total_count(set),
        total_bytes(set.take(i + 1)) <= total_bytes(set),
    decreases set.len(),
{
    assert(set.take(i + 1).drop_last() =~= set.take(i));
    if i + 1 < set.len() {
        lemma_totals_take(set.drop_last(), i);
        assert(set.drop_last().take(i + 1) =~= set.take(i + 1));
    } else {
        assert(set.take(i + 1) =~= set);
    }
}

impl FileSet {
    /// Writes the description of the file set, puts it into the first phase, and sums up the file
    /// set.
    pub fn calculate_meta_and_assign_fileset_buf(&mut self) -> (r: Meta)
        requires
            old(self)@.len() > 0,
            old(self)@[0].tree matches tree::Tree::FileSet(description) ==> description is None,
            total_count(old(self)@) <= u64::MAX,
            total_bytes(old(self)@) <= u64::MAX,
        ensures
            is_meta_of(r, old(self)@),
            final(self)@ == with_description(old(self)@, r.fileset_buf@),
    {
        let ghost before = self@;
        let fileset_buf = file_set_wire::describe(self);
        let mut file_count: u64 = 0;
        let mut total_size_bytes: u64 = 0;
        let mut i: usize = 0;
        while i < self.phases.len()
            invariant
                i <= self.phases@.len(),
                self@ == before,
                total_count(before) <= u64::MAX,
                total_bytes(before) <= u64::MAX,
                file_count == total_count(before.take(i as int)),
                total_size_bytes == total_bytes(before.take(i as int)),
            decreases self.phases.len() - i,
        {
            proof {
                lemma_totals_take(before, i as int);
                assert(before[i as int] == self.phases@[i as int]@);
            }
            file_count = file_count + self.phases[i].entry.file_count();
            total_size_bytes = total_size_bytes + self.phases[i].entry.file_size();
            i = i + 1;
        }
        assert(before.take(i as int) =~= before);
        assert(before[0] == self.phases@[0]@);
        let phases: u16 = ((self.phases.len() - 1) % 0x1_0000) as u16;
        let holds_description = match &self.phases[0].entry {
            Entry::FileSet(_) => true,
            _ => false,
        };
        if holds_description {
            self.phases[0].entry = Entry::FileSet(Some(Arc::clone(&fileset_buf)));
        }
        assert(self@ =~= with_description(before, fileset_buf@));
        Meta { fileset_buf, phases, file_count, total_size_bytes }
    }
}

/// Whether the tree in place `i` lies behind those before it.
#[verifier::opaque]
spec fn child_placed(files: Seq<tree::Tree>, at: nat, i: int) -> bool {
    tree::placed(files[i], at + tree::file_bytes_all(files.take(i)))
}

proof fn lemma_child(files: Seq<tree::Tree>, at: nat, i: int)
    requires
        0 <= i < files.len(),
    ensures
        child_placed(files, at, i) == tree::placed(
            files[i],
            at + tree::file_bytes_all(files.take(i)),
        ),
        tree::file_bytes_all(files.take(i + 1)) == tree::file_bytes_all(files.take(i))
            + tree::file_bytes(files[i]),
        child_placed(files, at, i) ==> at + tree::file_bytes_all(files.take(i + 1)) <= u64::MAX,
{
    reveal(child_placed);
    assert(files.take(i + 1).drop_last() =~= files.take(i));
    if child_placed(files, at, i) {
        tree::lemma_placed_bounds(files[i], at + tree::file_bytes_all(files.take(i)));
    }
}

fn children_placed(files: &Vec<Entry>, at: u64) -> (r: bool)
    ensures
        r == (at + tree::file_bytes_all(file_set::trees_of(files@)) <= u64::MAX && forall|i: int|
            0 <= i < files@.len() ==> #[trigger] child_placed(
                file_set::trees_of(files@),
                at as nat,
                i,
            )),
    decreases files@,
{
    let ghost all = file_set::trees_of(files@);
    let mut cur: u64 = at;
    let mut i: usize = 0;
    assert(all.take(0) =~= Seq::empty());
    while i < files.len()
        invariant
            i <= files@.len(),
            all == file_set::trees_of(files@),
            cur == at + tree::file_bytes_all(all.take(i as int)),
            forall|j: int| 0 <= j < i ==> #[trigger] child_placed(all, at as nat, j),
        decreases files.len() - i,
    {
        proof {
            assert(all[i as int] == file_set::tree_of(files@[i as int]));
            lemma_child(all, at as nat, i as int);
        }
        if !files[i].is_placed(cur) {
            assert(!child_placed(all, at as nat, i as int));
            return false;
        }
        cur = cur + files[i].file_size();
        i = i + 1;
    }
    assert(all.take(i as int) =~= all);
    true
}

proof fn lemma_children(d: tree::DirectoryModel, at: nat)
    ensures
        tree::placed(tree::Tree::Directory(d), at) <==> d.offset == at && at
            + tree::file_bytes_all(d.files) <= u64::MAX && forall|i: int|
            0 <= i < d.files.len() ==> #[trigger] child_placed(d.files, at, i),
{
    if forall|i: int| 0 <= i < d.files.len() ==> #[trigger] child_placed(d.files, at, i) {
        assert forall|i: int| 0 <= i < d.files.len() implies tree::placed(
            #[trigger] d.files[i],
            at + tree::file_bytes_all(d.files.take(i)),
        ) by {
            assert(child_placed(d.files, at, i));
            lemma_child(d.files, at, i);
        }
    }
    if tree::placed(tree::Tree::Directory(d), at) {
        assert forall|i: int| 0 <= i < d.files.len() implies #[trigger] child_placed(
            d.files,
            at,
            i,
        ) by {
            assert(tree::placed(d.files[i], at + tree::file_bytes_all(d.files.take(i))));
            lemma_child(d.files, at, i);
        }
    }
}

impl Entry {
    /// Whether the files lie one after the other from `at` on, and end where a `u64` can say it.
    pub fn is_placed(&self, at: u64) -> (r: bool)
        ensures
            r == tree::placed(self@, at as nat),
        decreases self,
    {
        match self {
            Entry::File(f) => {
                f.offset.0 == at && f.size >= CHECKSUM_SIZE_U64 && f.size <= u64::MAX - at
            },
            Entry::Directory(d) => {
                let r = d.offset.0 == at && children_placed(&d.files, at);
                proof {
                    lemma_children(d.model(), at as nat);
                }
                r
            },
            Entry::FileSet(_) => false,
        }
    }
}

fn checked_sum(files: &Vec<Entry>) -> (r: Option<u64>)
    ensures
        ({
            let size = tree::file_bytes_all(file_set::trees_of(files@));
            r == if size <= u64::MAX {
                Some(size as u64)
            } else {
                None
            }
        }),
    decreases files@,
{
    let ghost all = file_set::trees_of(files@);
    let mut sum: u64 = 0;
    let mut i: usize = 0;
    assert(all.take(0) =~= Seq::empty());
    while i < files.len()
        invariant
            i <= files@.len(),
            all == file_set::trees_of(files@),
            sum == tree::file_bytes_all(all.take(i as int)),
        decreases files.len() - i,
    {
        proof {
            tree::lemma_bytes_take(all, i as int, all.len() as int);
            assert(all[i as int] == files@[i as int]@);
        }
        let size: u64 = match files[i].checked_size() {
            Some(size) => size,
            None => return None,
        };
        sum = match sum.checked_add(size) {
            Some(sum) => sum,
            None => return None,
        };
        i = i + 1;
    }
    assert(all.take(i as int) =~= all);
    Some(sum)
}

impl Entry {
    /// The bytes of the files, checksums included, `None` where a `u64` cannot count them.
    pub fn checked_size(&self) -> (r: Option<u64>)
        ensures
            r == if tree::file_bytes(self@) <= u64::MAX {
                Some(tree::file_bytes(self@) as u64)
            } else {
                None
            },
        decreases self,
    {
        match self {
            Entry::File(f) => Some(f.size),
            Entry::Directory(d) => checked_sum(&d.files),
            Entry::FileSet(_) => Some(0),
        }
    }
}

impl FileSet {
    /// The bytes of the files of all phases, `None` where a `u64` cannot count them.
    pub fn checked_total(phases: &Vec<FileSetPhaseEntry>) -> (r: Option<u64>)
        ensures
            ({
                let total = total_bytes(file_set::phases_view(phases@));
                r == if total <= u64::MAX {
                    Some(total as u64)
                } else {
                    None
                }
            }),
    {
        let ghost all = file_set::phases_view(phases@);
        let mut total: u64 = 0;
        let mut i: usize = 0;
        assert(all.take(0) =~= Seq::empty());
        while i < phases.len()
            invariant
                i <= phases@.len(),
                all == file_set::phases_view(phases@),
                total == total_bytes(all.take(i as int)),
            decreases phases.len() - i,
        {
            proof {
                lemma_totals_take(all, i as int);
                assert(all[i as int] == phases@[i as int]@);
            }
            let size: u64 = match phases[i].entry.checked_size() {
                Some(size) => size,
                None => return None,
            };
            total = match total.checked_add(size) {
                Some(total) => total,
                None => return None,
            };
            i = i + 1;
        }
        assert(all.take(i as int) =~= all);
        Some(total)
    }

    /// Whether the files of every phase but the first lie one after the other, from the start of
    /// the phase on.
    pub fn is_walkable(&self) -> (r: bool)
        ensures
            r == forall|i: int|
                1 <= i < self@.len() ==> tree::placed((#[trigger] self@[i]).tree, 0),
    {
        let mut i: usize = 1;
        while i < self.phases.len()
            invariant
                1 <= i,
                forall|j: int|
                    1 <= j < i && j < self@.len() ==> tree::placed((#[trigger] self@[j]).tree, 0),
            decreases self.phases.len() - i,
        {
            assert(self@[i as int] == self.phases@[i as int]@);
            if !self.phases[i].entry.is_placed(0) {
                return false;
            }
            i = i + 1;
        }
        true
    }
}

/// What a server tells of the number of files and of their bytes is right: it is the files that the
/// phases list, and what they take up together.
pub proof fn law_meta_counts_the_files(meta: Meta, set: Seq<file_set::PhaseModel>)
    requires
        is_meta_of(meta, set),
        forall|i: int|
            0 <= i < set.len() ==> tree::files_only((#[trigger] set[i]).tree) || set[i].tree
                == tree::Tree::FileSet(None),
    ensures
        meta.file_count == all_spans(set).len(),
        meta.total_size_bytes == tree::sizes_of(all_spans(set)),
{
    law_totals_of_the_files(set);
}

/// The totals of a file set are those of the files that its phases list.
pub proof fn law_totals_of_the_files(set: Seq<file_set::PhaseModel>)
    requires
        forall|i: int|
            0 <= i < set.len() ==> tree::files_only((#[trigger] set[i]).tree) || set[i].tree
                == tree::Tree::FileSet(None),
    ensures
        total_count(set) == all_spans(set).len(),
        total_bytes(set) == tree::sizes_of(all_spans(set)),
    decreases set.len(),
{
    if set.len() > 0 {
        let init = set.drop_last();
        assert forall|i: int| 0 <= i < init.len() implies tree::files_only(
            (#[trigger] init[i]).tree,
        ) || init[i].tree == tree::Tree::FileSet(None) by {
            assert(init[i] == set[i]);
        }
        law_totals_of_the_files(init);
        assert(set.last() == set[set.len() - 1]);
        if tree::files_only(set.last().tree) {
            tree::law_files_are_counted(set.last().tree, seq![set.last().path]);
        } else {
            assert(tree::sizes_of(file_set::phase_spans(set.last())) == 0);
        }
        tree::lemma_sizes_concat(all_spans(init), file_set::phase_spans(set.last()));
    }
}

/// The files of all phases, phase by phase.
pub open spec fn all_spans(set: Seq<file_set::PhaseModel>) -> Seq<tree::FileSpan>
    decreases set.len(),
{
    if set.len() == 0 {
        Seq::empty()
    } else {
        all_spans(set.drop_last()) + file_set::phase_spans(set.last())
    }
}

/// The description goes into the first phase, if that is the place for it, and changes nothing else.
pub proof fn law_description_goes_first(
    set: Seq<file_set::PhaseModel>,
    description: Seq<u8>,
    i: int,
)
    requires
        0 <= i < set.len(),
    ensures
        with_description(set, description).len() == set.len(),
        i > 0 ==> with_description(set, description)[i] == set[i],
        set[0].tree is FileSet ==> with_description(set, description)[0].tree == tree::Tree::FileSet(
            Some(description),
        ),
        !(set[0].tree is FileSet) ==> with_description(set, description)[0] == set[0],
{
}

} // verus!
