//! The shape of a file tree: how its files follow one another in the bytes of a phase.
use vstd::prelude::*;

use crate::packet::CHECKSUM_SIZE;

verus! {

/// What a file of a file set is on disk.
#[derive(Clone, Copy, PartialEq, Eq, Debug, Structural)]
pub enum Kind {
    Normal,
    Symlink,
    /// Only used for the fileset itself
    FileSet,
}

/// A file: its name, its size including the checksum, and where its bytes begin.
pub struct FileModel {
    pub name: Seq<u8>,
    pub size: u64,
    pub mode_bits: u32,
    pub offset: u64,
    pub kind: Kind,
}

/// A directory: where its bytes begin, its name, and what it holds.
pub struct DirectoryModel {
    pub offset: u64,
    pub name: Seq<u8>,
    pub files: Seq<Tree>,
}

/// A file tree, or the description of the file set itself.
pub enum Tree {
    File(FileModel),
    Directory(DirectoryModel),
    FileSet(Option<Seq<u8>>),
}

/// Where bytes come from: a file, by the names that lead to it, or the description of the file
/// set.
pub enum SourceModel {
    Path(Seq<Seq<u8>>),
    FileSet(Seq<u8>),
}

/// A run of bytes of a phase that one source fills, checksum included.
pub struct FileSpan {
    pub source: SourceModel,
    pub offset: int,
    pub size: int,
    pub kind: Kind,
}

/// A part of a [`FileSpan`]: phase bytes `start` to `end`, which begin at `offset` of the source.
pub struct TaskModel {
    pub start: int,
    pub end: int,
    pub source: SourceModel,
    pub offset: int,
    pub file_size: int,
    pub kind: Kind,
}

/// How many files there are.
pub open spec fn file_count(t: Tree) -> nat
    decreases t,
{
    match t {
        Tree::File(f) => 1,
        Tree::Directory(d) => file_count_all(d.files),
        Tree::FileSet(_) => 0,
    }
}

/// How many files there are in all of `files`.
pub open spec fn file_count_all(files: Seq<Tree>) -> nat
    decreases files,
{
    if files.len() == 0 {
        0
    } else {
        file_count_all(files.drop_last()) + file_count(files.last())
    }
}

/// The bytes of the files, checksums included.
pub open spec fn file_bytes(t: Tree) -> nat
    decreases t,
{
    match t {
        Tree::File(f) => f.size as nat,
        Tree::Directory(d) => file_bytes_all(d.files),
        Tree::FileSet(_) => 0,
    }
}

/// The bytes of all the files in `files`.
pub open spec fn file_bytes_all(files: Seq<Tree>) -> nat
    decreases files,
{
    if files.len() == 0 {
        0
    } else {
        file_bytes_all(files.drop_last()) + file_bytes(files.last())
    }
}

/// Where the bytes begin.
pub open spec fn start_of(t: Tree) -> u64 {
    match t {
        Tree::File(f) => f.offset,
        Tree::Directory(d) => d.offset,
        Tree::FileSet(_) => 0,
    }
}

/// Where the bytes end; `None` where the description of the file set is not there yet.
pub open spec fn end_of(t: Tree) -> Option<int>
    decreases t,
{
    match t {
        Tree::File(f) => Some(f.offset + f.size),
        Tree::Directory(d) => if d.files.len() == 0 {
            Some(d.offset as int)
        } else {
            end_of(d.files.last())
        },
        Tree::FileSet(Some(description)) => Some(description.len() + CHECKSUM_SIZE),
        Tree::FileSet(None) => None,
    }
}

/// The same tree with its files laid one after the other from `at` on.
pub open spec fn assigned(t: Tree, at: nat) -> Tree
    decreases t,
{
    match t {
        Tree::File(f) => Tree::File(FileModel { offset: at as u64, ..f }),
        Tree::Directory(d) => Tree::Directory(
            DirectoryModel {
                offset: at as u64,
                name: d.name,
                files: assigned_all(d.files, at),
            },
        ),
        Tree::FileSet(description) => Tree::FileSet(description),
    }
}

/// The same trees, laid one after the other from `at` on.
pub open spec fn assigned_all(files: Seq<Tree>, at: nat) -> Seq<Tree>
    decreases files,
{
    if files.len() == 0 {
        files
    } else {
        assigned_all(files.drop_last(), at).push(
            assigned(files.last(), at + file_bytes_all(files.drop_last())),
        )
    }
}

/// Every file has room for its checksum, and no description of a file set is among them.
pub open spec fn files_only(t: Tree) -> bool
    decreases t,
{
    match t {
        Tree::File(f) => f.size >= CHECKSUM_SIZE,
        Tree::Directory(d) => forall|i: int| 0 <= i < d.files.len() ==> files_only(#[trigger] d.files[i]),
        Tree::FileSet(_) => false,
    }
}

/// The files lie one after the other from `at` on, and end where a `u64` can say it.
pub open spec fn placed(t: Tree, at: nat) -> bool
    decreases t,
{
    match t {
        Tree::File(f) => f.offset == at && f.size >= CHECKSUM_SIZE && at + f.size <= u64::MAX,
        Tree::Directory(d) => {
            &&& d.offset == at
            &&& at + file_bytes_all(d.files) <= u64::MAX
            &&& forall|i: int|
                0 <= i < d.files.len() ==> placed(
                    #[trigger] d.files[i],
                    at + file_bytes_all(d.files.take(i)),
                )
        },
        Tree::FileSet(_) => false,
    }
}

/// The tree can be walked: its files lie one after the other, or it is the description of a file
/// set, which is there.
pub open spec fn well_placed(t: Tree) -> bool {
    match t {
        Tree::FileSet(Some(description)) => description.len() + CHECKSUM_SIZE <= u64::MAX,
        Tree::FileSet(None) => false,
        _ => placed(t, start_of(t) as nat),
    }
}

/// The bytes that a tree takes up in its phase.
pub open spec fn extent(t: Tree) -> nat {
    match t {
        Tree::FileSet(Some(description)) => description.len() + CHECKSUM_SIZE as nat,
        _ => file_bytes(t),
    }
}

/// The files of a tree, in order, each under the names that lead to it from `path`.
pub open spec fn spans(t: Tree, path: Seq<Seq<u8>>) -> Seq<FileSpan>
    decreases t,
{
    match t {
        Tree::File(f) => seq![
            FileSpan {
                source: SourceModel::Path(path.push(f.name)),
                offset: f.offset as int,
                size: f.size as int,
                kind: f.kind,
            },
        ],
        Tree::Directory(d) => spans_all(d.files, path.push(d.name)),
        Tree::FileSet(Some(description)) => seq![
            FileSpan {
                source: SourceModel::FileSet(description),
                offset: 0,
                size: (description.len() + CHECKSUM_SIZE) as int,
                kind: Kind::FileSet,
            },
        ],
        Tree::FileSet(None) => Seq::empty(),
    }
}

/// The files of all of `files`, in order.
pub open spec fn spans_all(files: Seq<Tree>, path: Seq<Seq<u8>>) -> Seq<FileSpan>
    decreases files,
{
    if files.len() == 0 {
        Seq::empty()
    } else {
        spans_all(files.drop_last(), path) + spans(files.last(), path)
    }
}

/// The part of a span that lies between `start` and `end`, if there is one.
pub open spec fn task_of(span: FileSpan, start: int, end: int) -> Option<TaskModel> {
    if span.offset + span.size <= start || end <= span.offset {
        None
    } else {
        let from = if start < span.offset {
            span.offset
        } else {
            start
        };
        let to = if span.offset + span.size < end {
            span.offset + span.size
        } else {
            end
        };
        Some(
            TaskModel {
                start: from,
                end: to,
                source: span.source,
                offset: from - span.offset,
                file_size: span.size,
                kind: span.kind,
            },
        )
    }
}

/// The parts of the spans that lie between `start` and `end`, in order.
pub open spec fn tasks_of(list: Seq<FileSpan>, start: int, end: int) -> Seq<TaskModel>
    decreases list.len(),
{
    if list.len() == 0 {
        Seq::empty()
    } else {
        let before = tasks_of(list.drop_last(), start, end);
        match task_of(list.last(), start, end) {
            Some(task) => before.push(task),
            None => before,
        }
    }
}

/// No file says that it is the description of the file set.
pub open spec fn kinds_agree(t: Tree) -> bool
    decreases t,
{
    match t {
        Tree::File(f) => f.kind != Kind::FileSet,
        Tree::Directory(d) => forall|i: int|
            0 <= i < d.files.len() ==> kinds_agree(#[trigger] d.files[i]),
        Tree::FileSet(_) => true,
    }
}

/// The span says rightly what its source is.
pub open spec fn honest(span: FileSpan) -> bool {
    match span.source {
        SourceModel::Path(_) => span.kind != Kind::FileSet,
        SourceModel::FileSet(description) => span.kind == Kind::FileSet && description.len()
            + CHECKSUM_SIZE == span.size,
    }
}

/// The spans of a tree say rightly what their sources are, if its files do.
pub proof fn lemma_spans_honest(t: Tree, path: Seq<Seq<u8>>)
    requires
        kinds_agree(t),
    ensures
        forall|i: int| 0 <= i < spans(t, path).len() ==> honest(#[trigger] spans(t, path)[i]),
    decreases t, 0int,
{
    match t {
        Tree::File(f) => {
            assert(f.kind != Kind::FileSet);
        },
        Tree::Directory(d) => {
            assert forall|i: int| 0 <= i < d.files.len() implies kinds_agree(
                #[trigger] d.files[i],
            ) by {}
            lemma_all_spans_honest(d.files, path.push(d.name));
            assert(spans(t, path) == spans_all(d.files, path.push(d.name)));
        },
        Tree::FileSet(_) => {},
    }
}

proof fn lemma_all_spans_honest(files: Seq<Tree>, path: Seq<Seq<u8>>)
    requires
        forall|i: int| 0 <= i < files.len() ==> kinds_agree(#[trigger] files[i]),
    ensures
        forall|i: int|
            0 <= i < spans_all(files, path).len() ==> honest(#[trigger] spans_all(files, path)[i]),
    decreases files, 1int,
{
    if files.len() > 0 {
        let init = files.drop_last();
        assert forall|i: int| 0 <= i < init.len() implies kinds_agree(#[trigger] init[i]) by {
            assert(init[i] == files[i]);
        }
        assert(decreases_to!(files => init));
        lemma_all_spans_honest(init, path);
        assert(files.last() == files[files.len() - 1]);
        lemma_spans_honest(files.last(), path);
        let before = spans_all(init, path);
        assert forall|i: int| 0 <= i < spans_all(files, path).len() implies honest(
            #[trigger] spans_all(files, path)[i],
        ) by {
            if i < before.len() {
                assert(spans_all(files, path)[i] == before[i]);
            } else {
                assert(spans_all(files, path)[i] == spans(files.last(), path)[i - before.len()]);
            }
        }
    }
}

/// Each task is a part of one of the spans.
pub proof fn lemma_task_span(list: Seq<FileSpan>, start: int, end: int, k: int) -> (i: int)
    requires
        0 <= k < tasks_of(list, start, end).len(),
    ensures
        0 <= i < list.len(),
        task_of(list[i], start, end) == Some(tasks_of(list, start, end)[k]),
    decreases list.len(),
{
    let before = tasks_of(list.drop_last(), start, end);
    if k < before.len() {
        let i = lemma_task_span(list.drop_last(), start, end, k);
        assert(list.drop_last()[i] == list[i]);
        i
    } else {
        list.len() - 1
    }
}

/// Whether the byte at `offset` of the phase belongs to `span`.
pub open spec fn covers(span: FileSpan, offset: int) -> bool {
    span.offset <= offset < span.offset + span.size
}

/// Laying out the files changes neither how many bytes there are, nor how many files.
pub proof fn lemma_assigned_keeps(t: Tree, at: nat)
    ensures
        file_bytes(assigned(t, at)) == file_bytes(t),
        file_count(assigned(t, at)) == file_count(t),
        files_only(assigned(t, at)) == files_only(t),
    decreases t,
{
    if let Tree::Directory(d) = t {
        lemma_assigned_all_keeps(d.files, at);
        let after = assigned_all(d.files, at);
        if files_only(t) {
            assert forall|i: int| 0 <= i < after.len() implies files_only(#[trigger] after[i]) by {
                assert(files_only(d.files[i]));
            }
        }
        if files_only(assigned(t, at)) {
            assert(assigned(t, at)->Directory_0.files == after);
            assert forall|i: int| 0 <= i < d.files.len() implies files_only(
                #[trigger] d.files[i],
            ) by {
                assert(files_only(after[i]));
            }
        }
    }
}

proof fn lemma_assigned_all_keeps(files: Seq<Tree>, at: nat)
    ensures
        assigned_all(files, at).len() == files.len(),
        file_bytes_all(assigned_all(files, at)) == file_bytes_all(files),
        file_count_all(assigned_all(files, at)) == file_count_all(files),
        forall|i: int|
            0 <= i < files.len() ==> {
                &&& #[trigger] assigned_all(files, at)[i] == assigned(
                    files[i],
                    at + file_bytes_all(files.take(i)),
                )
                &&& file_bytes(assigned_all(files, at)[i]) == file_bytes(files[i])
                &&& files_only(assigned_all(files, at)[i]) == files_only(files[i])
            },
    decreases files,
{
    if files.len() > 0 {
        let init = files.drop_last();
        let last_at = at + file_bytes_all(init);
        lemma_assigned_all_keeps(init, at);
        lemma_assigned_keeps(files.last(), last_at);
        let after = assigned_all(files, at);
        assert(after.drop_last() =~= assigned_all(init, at));
        assert forall|i: int| 0 <= i < files.len() implies {
            &&& #[trigger] after[i] == assigned(files[i], at + file_bytes_all(files.take(i)))
            &&& file_bytes(after[i]) == file_bytes(files[i])
            &&& files_only(after[i]) == files_only(files[i])
        } by {
            if i < init.len() {
                assert(files.take(i) =~= init.take(i));
                assert(init[i] == files[i]);
            } else {
                assert(files.take(i) =~= init);
            }
        }
    }
}

/// The bytes of the first files are no more than those of all.
pub proof fn lemma_bytes_take(files: Seq<Tree>, i: int, j: int)
    requires
        0 <= i <= j <= files.len(),
    ensures
        file_bytes_all(files.take(i)) <= file_bytes_all(files.take(j)),
        i < j ==> file_bytes_all(files.take(i)) + file_bytes(files[i]) == file_bytes_all(
            files.take(i + 1),
        ),
        i < j ==> file_bytes_all(files.take(i + 1)) <= file_bytes_all(files.take(j)),
        file_bytes_all(files.take(files.len() as int)) == file_bytes_all(files),
    decreases j - i,
{
    assert(files.take(files.len() as int) =~= files);
    if i < j {
        assert(files.take(i + 1).drop_last() =~= files.take(i));
        lemma_bytes_take(files, i + 1, j);
    }
}

/// Laying out the files of a tree places them.
pub proof fn lemma_assigned_placed(t: Tree, at: nat)
    requires
        files_only(t),
        at + file_bytes(t) <= u64::MAX,
    ensures
        placed(assigned(t, at), at),
    decreases t,
{
    if let Tree::Directory(d) = t {
        let after = assigned_all(d.files, at);
        lemma_assigned_all_keeps(d.files, at);
        assert forall|i: int| 0 <= i < after.len() implies placed(
            #[trigger] after[i],
            at + file_bytes_all(after.take(i)),
        ) by {
            lemma_bytes_take(d.files, i, d.files.len() as int);
            lemma_assigned_all_take(d.files, at, i);
            lemma_assigned_all_keeps(d.files.take(i), at);
            assert(files_only(d.files[i]));
            lemma_assigned_placed(d.files[i], at + file_bytes_all(d.files.take(i)));
        }
    }
}

/// Laying out the files of a tree does not change what they are.
pub proof fn lemma_assigned_kinds(t: Tree, at: nat)
    requires
        kinds_agree(t),
    ensures
        kinds_agree(assigned(t, at)),
    decreases t,
{
    if let Tree::Directory(d) = t {
        let after = assigned_all(d.files, at);
        lemma_assigned_all_keeps(d.files, at);
        assert forall|i: int| 0 <= i < after.len() implies kinds_agree(#[trigger] after[i]) by {
            assert(kinds_agree(d.files[i]));
            lemma_assigned_kinds(d.files[i], at + file_bytes_all(d.files.take(i)));
        }
    }
}

proof fn lemma_assigned_all_take(files: Seq<Tree>, at: nat, n: int)
    requires
        0 <= n <= files.len(),
    ensures
        assigned_all(files, at).take(n) == assigned_all(files.take(n), at),
    decreases files,
{
    lemma_assigned_all_keeps(files, at);
    if n == files.len() {
        assert(files.take(n) =~= files);
        assert(assigned_all(files, at).take(n) =~= assigned_all(files, at));
    } else {
        lemma_assigned_all_take(files.drop_last(), at, n);
        assert(files.drop_last().take(n) =~= files.take(n));
        lemma_assigned_all_keeps(files.drop_last(), at);
        assert(assigned_all(files, at).take(n) =~= assigned_all(files.drop_last(), at).take(n));
    }
}

/// A placed tree begins at its start and ends as many bytes later as its files have.
pub proof fn lemma_placed_bounds(t: Tree, at: nat)
    requires
        placed(t, at),
    ensures
        start_of(t) == at,
        end_of(t) == Some((at + file_bytes(t)) as int),
        at + file_bytes(t) <= u64::MAX,
    decreases t,
{
    if let Tree::Directory(d) = t {
        if d.files.len() > 0 {
            let last = d.files.len() - 1;
            assert(placed(d.files[last], at + file_bytes_all(d.files.take(last))));
            lemma_placed_bounds(d.files[last], at + file_bytes_all(d.files.take(last)));
            assert(d.files.take(last) =~= d.files.drop_last());
        }
    }
}

/// The child at `i` of a placed directory: where it begins and ends.
pub proof fn lemma_child_bounds(d: DirectoryModel, at: nat, i: int)
    requires
        placed(Tree::Directory(d), at),
        0 <= i < d.files.len(),
    ensures
        start_of(d.files[i]) == at + file_bytes_all(d.files.take(i)),
        end_of(d.files[i]) == Some((at + file_bytes_all(d.files.take(i + 1))) as int),
        placed(d.files[i], start_of(d.files[i]) as nat),
        at + file_bytes_all(d.files.take(i + 1)) <= at + file_bytes_all(d.files) <= u64::MAX,
        well_placed(d.files[i]),
{
    let child = d.files[i];
    let child_at = at + file_bytes_all(d.files.take(i));
    assert(placed(child, child_at));
    lemma_placed_bounds(child, child_at);
    lemma_bytes_take(d.files, i, d.files.len() as int);
    assert(child_at + file_bytes(child) == at + file_bytes_all(d.files.take(i + 1)));
}

/// The children of a placed directory follow one another.
pub proof fn lemma_children_ordered(d: DirectoryModel, at: nat, i: int, j: int)
    requires
        placed(Tree::Directory(d), at),
        0 <= i < j < d.files.len(),
    ensures
        end_of(d.files[i]) is Some,
        end_of(d.files[i])->Some_0 <= start_of(d.files[j]),
        start_of(d.files[i]) <= start_of(d.files[j]),
{
    lemma_child_bounds(d, at, i);
    lemma_child_bounds(d, at, j);
    lemma_bytes_take(d.files, i, j);
    lemma_bytes_take(d.files, i + 1, j);
}

/// The tasks of two lists of spans, one after the other.
pub proof fn lemma_tasks_concat(a: Seq<FileSpan>, b: Seq<FileSpan>, start: int, end: int)
    ensures
        tasks_of(a + b, start, end) == tasks_of(a, start, end) + tasks_of(b, start, end),
    decreases b.len(),
{
    if b.len() == 0 {
        assert(a + b =~= a);
        assert(tasks_of(a, start, end) + tasks_of(b, start, end) =~= tasks_of(a, start, end));
    } else {
        assert((a + b).drop_last() =~= a + b.drop_last());
        lemma_tasks_concat(a, b.drop_last(), start, end);
        assert((a + b).last() == b.last());
        assert(tasks_of(a + b, start, end) =~= tasks_of(a, start, end) + tasks_of(b, start, end));
    }
}

/// Spans that all lie outside the range give no tasks.
pub proof fn lemma_tasks_outside(list: Seq<FileSpan>, start: int, end: int)
    requires
        forall|i: int|
            0 <= i < list.len() ==> (#[trigger] list[i]).offset + list[i].size <= start || end
                <= list[i].offset,
    ensures
        tasks_of(list, start, end) == Seq::<TaskModel>::empty(),
    decreases list.len(),
{
    if list.len() > 0 {
        assert forall|i: int| 0 <= i < list.drop_last().len() implies (
        #[trigger] list.drop_last()[i]).offset + list.drop_last()[i].size <= start || end
            <= list.drop_last()[i].offset by {
            assert(list.drop_last()[i] == list[i]);
        }
        lemma_tasks_outside(list.drop_last(), start, end);
    }
}

/// Whether the spans follow one another without a gap from `from` to `to`.
pub open spec fn tiled(list: Seq<FileSpan>, from: int, to: int) -> bool
    decreases list.len(),
{
    if list.len() == 0 {
        from == to
    } else {
        &&& list.last().offset + list.last().size == to
        &&& list.last().size >= CHECKSUM_SIZE
        &&& tiled(list.drop_last(), from, list.last().offset)
    }
}

/// Two tilings, one after the other.
pub proof fn lemma_tiled_concat(
    a: Seq<FileSpan>,
    b: Seq<FileSpan>,
    from: int,
    mid: int,
    to: int,
)
    requires
        tiled(a, from, mid),
        tiled(b, mid, to),
    ensures
        tiled(a + b, from, to),
    decreases b.len(),
{
    if b.len() == 0 {
        assert(a + b =~= a);
    } else {
        assert((a + b).drop_last() =~= a + b.drop_last());
        lemma_tiled_concat(a, b.drop_last(), from, mid, b.last().offset);
    }
}

/// The files of a placed tree follow one another without a gap.
pub proof fn lemma_spans_tiled(t: Tree, at: nat, path: Seq<Seq<u8>>)
    requires
        placed(t, at),
    ensures
        tiled(spans(t, path), at as int, (at + file_bytes(t)) as int),
    decreases t,
{
    match t {
        Tree::File(f) => {
            reveal_with_fuel(tiled, 2);
            assert(spans(t, path).drop_last() =~= Seq::empty());
        },
        Tree::Directory(d) => {
            lemma_children_tiled(d, at, path.push(d.name), d.files.len() as int);
            assert(d.files.take(d.files.len() as int) =~= d.files);
        },
        Tree::FileSet(_) => {},
    }
}

proof fn lemma_children_tiled(d: DirectoryModel, at: nat, path: Seq<Seq<u8>>, n: int)
    requires
        placed(Tree::Directory(d), at),
        0 <= n <= d.files.len(),
    ensures
        tiled(
            spans_all(d.files.take(n), path),
            at as int,
            (at + file_bytes_all(d.files.take(n))) as int,
        ),
    decreases d.files, n,
{
    if n > 0 {
        lemma_children_tiled(d, at, path, n - 1);
        assert(placed(d.files[n - 1], at + file_bytes_all(d.files.take(n - 1))));
        lemma_spans_tiled(d.files[n - 1], at + file_bytes_all(d.files.take(n - 1)), path);
        assert(d.files.take(n).drop_last() =~= d.files.take(n - 1));
        lemma_tiled_concat(
            spans_all(d.files.take(n - 1), path),
            spans(d.files[n - 1], path),
            at as int,
            (at + file_bytes_all(d.files.take(n - 1))) as int,
            (at + file_bytes_all(d.files.take(n))) as int,
        );
    }
}

/// Each span of a tiling lies within it, and spans further on begin where earlier ones have ended.
pub proof fn lemma_tiled_bounds(list: Seq<FileSpan>, from: int, to: int)
    requires
        tiled(list, from, to),
    ensures
        from <= to,
        forall|i: int|
            0 <= i < list.len() ==> from <= (#[trigger] list[i]).offset && list[i].offset
                + list[i].size <= to && list[i].size >= CHECKSUM_SIZE,
        forall|i: int, j: int|
            0 <= i < j < list.len() ==> (#[trigger] list[i]).offset + list[i].size <= (
            #[trigger] list[j]).offset,
    decreases list.len(),
{
    if list.len() > 0 {
        let init = list.drop_last();
        lemma_tiled_bounds(init, from, list.last().offset);
        assert forall|i: int| 0 <= i < list.len() implies from <= (#[trigger] list[i]).offset
            && list[i].offset + list[i].size <= to && list[i].size >= CHECKSUM_SIZE by {
            if i < init.len() {
                assert(init[i] == list[i]);
            }
        }
        assert forall|i: int, j: int| 0 <= i < j < list.len() implies (#[trigger] list[i]).offset
            + list[i].size <= (#[trigger] list[j]).offset by {
            assert(init[i] == list[i]);
            if j < init.len() {
                assert(init[j] == list[j]);
            }
        }
    }
}

/// The spans of any tree that can be walked follow one another from its start to its end.
pub proof fn lemma_well_placed_tiled(t: Tree, path: Seq<Seq<u8>>)
    requires
        well_placed(t),
    ensures
        tiled(spans(t, path), start_of(t) as int, start_of(t) + extent(t)),
        end_of(t) == Some(start_of(t) + extent(t)),
        start_of(t) + extent(t) <= u64::MAX,
{
    match t {
        Tree::FileSet(_) => {
            reveal_with_fuel(tiled, 2);
            assert(spans(t, path).drop_last() =~= Seq::empty());
        },
        _ => {
            lemma_placed_bounds(t, start_of(t) as nat);
            lemma_spans_tiled(t, start_of(t) as nat, path);
        },
    }
}

/// At most one file holds a given byte.
pub proof fn law_one_file_per_byte(t: Tree, path: Seq<Seq<u8>>, i: int, j: int, offset: int)
    requires
        well_placed(t),
        0 <= i < spans(t, path).len(),
        0 <= j < spans(t, path).len(),
        covers(spans(t, path)[i], offset),
        covers(spans(t, path)[j], offset),
    ensures
        i == j,
{
    lemma_well_placed_tiled(t, path);
    lemma_tiled_bounds(spans(t, path), start_of(t) as int, start_of(t) + extent(t));
}

/// Every byte of a tree belongs to one of its files, and no byte outside it does.
pub proof fn law_every_byte_has_a_file(t: Tree, path: Seq<Seq<u8>>, offset: int)
    requires
        well_placed(t),
    ensures
        start_of(t) <= offset < start_of(t) + extent(t) <==> exists|i: int|
            0 <= i < spans(t, path).len() && covers(#[trigger] spans(t, path)[i], offset),
{
    lemma_well_placed_tiled(t, path);
    lemma_tiled_bounds(spans(t, path), start_of(t) as int, start_of(t) + extent(t));
    if start_of(t) <= offset < start_of(t) + extent(t) {
        lemma_tiled_covers(spans(t, path), start_of(t) as int, start_of(t) + extent(t), offset);
    }
}

proof fn lemma_tiled_covers(list: Seq<FileSpan>, from: int, to: int, offset: int)
    requires
        tiled(list, from, to),
        from <= offset < to,
    ensures
        exists|i: int| 0 <= i < list.len() && covers(#[trigger] list[i], offset),
    decreases list.len(),
{
    if list.len() > 0 {
        if offset >= list.last().offset {
            assert(covers(list[list.len() - 1], offset));
        } else {
            lemma_tiled_covers(list.drop_last(), from, list.last().offset, offset);
            let i = choose|i: int|
                0 <= i < list.drop_last().len() && covers(#[trigger] list.drop_last()[i], offset);
            assert(covers(list[i], offset));
        }
    }
}

/// Whether the tasks follow one another without a gap from `from` to `to`.
pub open spec fn tasks_tiled(tasks: Seq<TaskModel>, from: int, to: int) -> bool
    decreases tasks.len(),
{
    if tasks.len() == 0 {
        from == to
    } else {
        &&& tasks.last().end == to
        &&& tasks.last().start < to
        &&& tasks_tiled(tasks.drop_last(), from, tasks.last().start)
    }
}

/// The tasks of a range follow one another without a gap, from the start of the range to its end
/// or to the end of the tree, whichever comes first.
pub proof fn lemma_tasks_tiled(list: Seq<FileSpan>, from: int, to: int, start: int, end: int)
    requires
        tiled(list, from, to),
        from <= start < end,
        start < to,
    ensures
        tasks_tiled(
            tasks_of(list, start, end),
            start,
            if to < end {
                to
            } else {
                end
            },
        ),
    decreases list.len(),
{
    if list.len() > 0 {
        let init = list.drop_last();
        let mid = list.last().offset;
        lemma_tiled_bounds(list, from, to);
        let tasks = tasks_of(list, start, end);
        reveal_with_fuel(tasks_tiled, 2);
        if start < mid {
            lemma_tasks_tiled(init, from, mid, start, end);
            if mid < end {
                assert(tasks.drop_last() =~= tasks_of(init, start, end));
            }
        } else {
            assert forall|i: int| 0 <= i < init.len() implies (#[trigger] init[i]).offset
                + init[i].size <= start || end <= init[i].offset by {
                assert(init[i] == list[i]);
            }
            lemma_tasks_outside(init, start, end);
            assert(tasks.drop_last() =~= Seq::empty());
        }
    }
}

/// Files are visited in the order of their bytes: each part ends before the next begins.
pub proof fn law_visit_order(t: Tree, path: Seq<Seq<u8>>, start: int, end: int, i: int, j: int)
    requires
        well_placed(t),
        0 <= i < j < tasks_of(spans(t, path), start, end).len(),
    ensures
        tasks_of(spans(t, path), start, end)[i].end <= tasks_of(spans(t, path), start, end)[j].start,
{
    lemma_well_placed_tiled(t, path);
    lemma_tasks_ordered(
        spans(t, path),
        start_of(t) as int,
        start_of(t) + extent(t),
        start,
        end,
        i,
        j,
    );
}

proof fn lemma_tasks_ordered(
    list: Seq<FileSpan>,
    from: int,
    to: int,
    start: int,
    end: int,
    i: int,
    j: int,
)
    requires
        tiled(list, from, to),
        0 <= i < j < tasks_of(list, start, end).len(),
    ensures
        tasks_of(list, start, end)[i].end <= tasks_of(list, start, end)[j].start,
    decreases list.len(),
{
    if list.len() > 0 {
        let before = tasks_of(list.drop_last(), start, end);
        if j < before.len() {
            lemma_tasks_ordered(list.drop_last(), from, list.last().offset, start, end, i, j);
        } else {
            lemma_tasks_before(list.drop_last(), from, list.last().offset, start, end, i);
        }
    }
}

proof fn lemma_tasks_before(list: Seq<FileSpan>, from: int, to: int, start: int, end: int, i: int)
    requires
        tiled(list, from, to),
        0 <= i < tasks_of(list, start, end).len(),
    ensures
        tasks_of(list, start, end)[i].end <= to,
    decreases list.len(),
{
    if list.len() > 0 {
        let before = tasks_of(list.drop_last(), start, end);
        if i < before.len() {
            lemma_tasks_before(list.drop_last(), from, list.last().offset, start, end, i);
        }
    }
}

/// Whether two trees have the same files and directories, under the same names and in the same order,
/// wherever their bytes lie.
pub open spec fn alike(a: Tree, b: Tree) -> bool
    decreases a,
{
    match (a, b) {
        (Tree::File(f), Tree::File(g)) => f.name == g.name && f.size == g.size && f.mode_bits
            == g.mode_bits && f.kind == g.kind,
        (Tree::Directory(d), Tree::Directory(e)) => {
            &&& d.name == e.name
            &&& d.files.len() == e.files.len()
            &&& forall|i: int| 0 <= i < d.files.len() ==> alike(#[trigger] d.files[i], e.files[i])
        },
        (Tree::FileSet(d), Tree::FileSet(e)) => d == e,
        _ => false,
    }
}

/// Laying out the files changes nothing about them but where their bytes lie.
pub proof fn law_layout_keeps_files(t: Tree, at: nat)
    ensures
        alike(t, assigned(t, at)),
    decreases t,
{
    if let Tree::Directory(d) = t {
        lemma_layout_keeps_all(d.files, at);
    }
}

proof fn lemma_layout_keeps_all(files: Seq<Tree>, at: nat)
    ensures
        assigned_all(files, at).len() == files.len(),
        forall|i: int|
            0 <= i < files.len() ==> alike(#[trigger] files[i], assigned_all(files, at)[i]),
    decreases files,
{
    if files.len() > 0 {
        let init = files.drop_last();
        lemma_layout_keeps_all(init, at);
        law_layout_keeps_files(files.last(), at + file_bytes_all(init));
        assert forall|i: int| 0 <= i < files.len() implies alike(
            #[trigger] files[i],
            assigned_all(files, at)[i],
        ) by {
            if i < init.len() {
                assert(init[i] == files[i]);
            }
        }
    }
}

/// Whether `names` lead from the root of a tree to the file `f`.
pub open spec fn leads_to(t: Tree, names: Seq<Seq<u8>>, f: FileModel) -> bool
    decreases t,
{
    match t {
        Tree::File(g) => names == seq![g.name] && f == g,
        Tree::Directory(d) => {
            &&& names.len() > 0
            &&& names[0] == d.name
            &&& exists|i: int|
                0 <= i < d.files.len() && leads_to(#[trigger] d.files[i], names.skip(1), f)
        },
        Tree::FileSet(_) => false,
    }
}

/// What a file takes up in its phase, under the names that lead to it.
pub open spec fn span_of(path: Seq<Seq<u8>>, names: Seq<Seq<u8>>, f: FileModel) -> FileSpan {
    FileSpan {
        source: SourceModel::Path(path + names),
        offset: f.offset as int,
        size: f.size as int,
        kind: f.kind,
    }
}

/// Every file of a tree is listed, under the names that lead to it.
pub proof fn law_every_file_is_listed(
    t: Tree,
    path: Seq<Seq<u8>>,
    names: Seq<Seq<u8>>,
    f: FileModel,
) -> (k: int)
    requires
        leads_to(t, names, f),
    ensures
        0 <= k < spans(t, path).len(),
        spans(t, path)[k] == span_of(path, names, f),
    decreases t,
{
    match t {
        Tree::File(g) => {
            assert(path + names =~= path.push(g.name));
            0
        },
        Tree::Directory(d) => {
            let i = choose|i: int|
                0 <= i < d.files.len() && leads_to(#[trigger] d.files[i], names.skip(1), f);
            let inner = path.push(d.name);
            let k = law_every_file_is_listed(d.files[i], inner, names.skip(1), f);
            assert(inner + names.skip(1) =~= path + names);
            lemma_spans_of_child(d.files, inner, i, k)
        },
        Tree::FileSet(_) => 0,
    }
}

/// The files of a child are among those of all.
proof fn lemma_spans_of_child(files: Seq<Tree>, path: Seq<Seq<u8>>, i: int, k: int) -> (at: int)
    requires
        0 <= i < files.len(),
        0 <= k < spans(files[i], path).len(),
    ensures
        0 <= at < spans_all(files, path).len(),
        spans_all(files, path)[at] == spans(files[i], path)[k],
    decreases files.len(),
{
    let init = files.drop_last();
    if i < init.len() {
        let at = lemma_spans_of_child(init, path, i, k);
        at
    } else {
        spans_all(init, path).len() + k
    }
}

/// What is listed of all children is listed of one of them.
proof fn lemma_spans_have_child(files: Seq<Tree>, path: Seq<Seq<u8>>, at: int) -> (r: (int, int))
    requires
        0 <= at < spans_all(files, path).len(),
    ensures
        0 <= r.0 < files.len(),
        0 <= r.1 < spans(files[r.0], path).len(),
        spans_all(files, path)[at] == spans(files[r.0], path)[r.1],
    decreases files.len(),
{
    let init = files.drop_last();
    let before = spans_all(init, path);
    if at < before.len() {
        lemma_spans_have_child(init, path, at)
    } else {
        (files.len() - 1, at - before.len())
    }
}

/// Nothing is listed but the files of the tree, each under the names that lead to it, and the
/// description of a file set.
pub proof fn law_only_files_are_listed(t: Tree, path: Seq<Seq<u8>>, k: int) -> (r: (
    Seq<Seq<u8>>,
    FileModel,
))
    requires
        0 <= k < spans(t, path).len(),
        spans(t, path)[k].source is Path,
    ensures
        leads_to(t, r.0, r.1),
        spans(t, path)[k] == span_of(path, r.0, r.1),
    decreases t,
{
    match t {
        Tree::File(g) => {
            assert(path + seq![g.name] =~= path.push(g.name));
            (seq![g.name], g)
        },
        Tree::Directory(d) => {
            let inner = path.push(d.name);
            let (i, j) = lemma_spans_have_child(d.files, inner, k);
            let (names, f) = law_only_files_are_listed(d.files[i], inner, j);
            let all = seq![d.name] + names;
            assert(all.skip(1) =~= names);
            assert(path + all =~= inner + names);
            (all, f)
        },
        Tree::FileSet(_) => arbitrary(),
    }
}

/// As many files are counted as are listed.
pub proof fn law_files_are_counted(t: Tree, path: Seq<Seq<u8>>)
    requires
        files_only(t),
    ensures
        file_count(t) == spans(t, path).len(),
        file_bytes(t) == sizes_of(spans(t, path)),
    decreases t,
{
    match t {
        Tree::Directory(d) => {
            lemma_all_counted(d.files, path.push(d.name));
        },
        _ => {
            reveal_with_fuel(sizes_of, 2);
            assert(spans(t, path).drop_last() =~= Seq::empty());
        },
    }
}

/// How many bytes some files take up together.
pub open spec fn sizes_of(list: Seq<FileSpan>) -> int
    decreases list.len(),
{
    if list.len() == 0 {
        0
    } else {
        sizes_of(list.drop_last()) + list.last().size
    }
}

/// What two lists of files take up together.
pub proof fn lemma_sizes_concat(a: Seq<FileSpan>, b: Seq<FileSpan>)
    ensures
        sizes_of(a + b) == sizes_of(a) + sizes_of(b),
    decreases b.len(),
{
    if b.len() == 0 {
        assert(a + b =~= a);
    } else {
        assert((a + b).drop_last() =~= a + b.drop_last());
        lemma_sizes_concat(a, b.drop_last());
    }
}

proof fn lemma_all_counted(files: Seq<Tree>, path: Seq<Seq<u8>>)
    requires
        forall|i: int| 0 <= i < files.len() ==> files_only(#[trigger] files[i]),
    ensures
        file_count_all(files) == spans_all(files, path).len(),
        file_bytes_all(files) == sizes_of(spans_all(files, path)),
    decreases files,
{
    if files.len() > 0 {
        let init = files.drop_last();
        assert forall|i: int| 0 <= i < init.len() implies files_only(#[trigger] init[i]) by {
            assert(init[i] == files[i]);
        }
        lemma_all_counted(init, path);
        assert(files_only(files[files.len() - 1]));
        law_files_are_counted(files.last(), path);
        lemma_sizes_concat(spans_all(init, path), spans(files.last(), path));
    }
}

/// Whether a task holds a byte of a phase, and says rightly that it is the byte at `at` of `span`.
pub open spec fn holds_byte(task: TaskModel, span: FileSpan, x: int, at: int) -> bool {
    &&& task.start <= x < task.end
    &&& task.source == span.source
    &&& task.kind == span.kind
    &&& task.file_size == span.size
    &&& task.offset + (x - task.start) == at
}

/// The parts of the files between two offsets hold every byte that lies between them: as the byte of
/// the file that it belongs to, in its place.
pub proof fn law_parts_hold_every_byte(
    list: Seq<FileSpan>,
    start: int,
    end: int,
    i: int,
    x: int,
) -> (k: int)
    requires
        0 <= i < list.len(),
        covers(list[i], x),
        start <= x < end,
    ensures
        0 <= k < tasks_of(list, start, end).len(),
        holds_byte(tasks_of(list, start, end)[k], list[i], x, x - list[i].offset),
    decreases list.len(),
{
    let init = list.drop_last();
    let before = tasks_of(init, start, end);
    if i < init.len() {
        assert(init[i] == list[i]);
        let k = law_parts_hold_every_byte(init, start, end, i, x);
        assert(tasks_of(list, start, end)[k] == before[k]);
        k
    } else {
        before.len() as int
    }
}

/// The parts of the files between two offsets hold nothing else: each byte of a part lies between
/// the offsets, and is a byte of the file that the part names, in its place.
pub proof fn law_parts_hold_nothing_else(
    list: Seq<FileSpan>,
    start: int,
    end: int,
    k: int,
    x: int,
) -> (i: int)
    requires
        0 <= k < tasks_of(list, start, end).len(),
        tasks_of(list, start, end)[k].start <= x < tasks_of(list, start, end)[k].end,
    ensures
        0 <= i < list.len(),
        covers(list[i], x),
        start <= x < end,
        holds_byte(tasks_of(list, start, end)[k], list[i], x, x - list[i].offset),
    decreases list.len(),
{
    let init = list.drop_last();
    let before = tasks_of(init, start, end);
    if k < before.len() {
        assert(tasks_of(list, start, end)[k] == before[k]);
        let i = law_parts_hold_nothing_else(init, start, end, k, x);
        assert(init[i] == list[i]);
        i
    } else {
        list.len() - 1
    }
}

} // verus!
