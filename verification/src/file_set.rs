//! File sets: the file trees that a server offers, one per phase.
use std::ops::Range;
use std::sync::Arc;

use vstd::prelude::*;

use crate::cursor::FileSetCursor;
use crate::packet::{
    copy_range, overlaps, PacketIdx, PhaseOffset, PhaseSize, CHECKSUM_SIZE, CHECKSUM_SIZE_U64,
    PAYLOAD_SIZE,
};
use crate::tree::Kind;
use crate::{packet, tree};

verus! {

/// A file.
#[derive(Debug)]
pub struct RFile {
    pub name: Vec<u8>,
    /// This is the size including the checksum.
    pub size: u64,
    pub mode_bits: u32,
    pub offset: PhaseOffset,
    pub kind: Kind,
}

/// A directory.
#[derive(Debug)]
pub struct RDirectory {
    pub offset: PhaseOffset,
    pub name: Vec<u8>,
    pub files: Vec<Entry>,
}

/// A file, a directory, or the description of the file set itself.
#[derive(Debug)]
pub enum Entry {
    File(RFile),
    Directory(RDirectory),
    FileSet(Option<Arc<[u8]>>),
}

/// The tree that an entry is.
pub open spec fn tree_of(e: Entry) -> tree::Tree
    decreases e,
{
    match e {
        Entry::File(f) => tree::Tree::File(
            tree::FileModel {
                name: f.name@,
                size: f.size,
                mode_bits: f.mode_bits,
                offset: f.offset.0,
                kind: f.kind,
            },
        ),
        Entry::Directory(d) => tree::Tree::Directory(
            tree::DirectoryModel {
                offset: d.offset.0,
                name: d.name@,
                files: trees_of(d.files@),
            },
        ),
        Entry::FileSet(Some(description)) => tree::Tree::FileSet(Some(description@)),
        Entry::FileSet(None) => tree::Tree::FileSet(None),
    }
}

/// The trees that some entries are.
pub open spec fn trees_of(files: Seq<Entry>) -> Seq<tree::Tree>
    decreases files,
{
    Seq::new(
        files.len(),
        |i: int|
            if 0 <= i < files.len() {
                tree_of(files[i])
            } else {
                arbitrary()
            },
    )
}

impl View for Entry {
    type V = tree::Tree;

    open spec fn view(&self) -> tree::Tree {
        tree_of(*self)
    }
}

/// The names that lead to a file, as plain bytes.
pub open spec fn names_of(path: Seq<Vec<u8>>) -> Seq<Seq<u8>> {
    path.map_values(|name: Vec<u8>| name@)
}

/// A copy of some bytes.
pub(crate) fn copy_bytes(bytes: &Vec<u8>) -> (r: Vec<u8>)
    ensures
        r@ == bytes@,
{
    let r = bytes.clone();
    assert(r@ =~= bytes@);
    r
}

/// A copy of a path.
pub(crate) fn copy_path(path: &Vec<Vec<u8>>) -> (r: Vec<Vec<u8>>)
    ensures
        names_of(r@) == names_of(path@),
        r@.len() == path@.len(),
{
    let mut r: Vec<Vec<u8>> = Vec::new();
    let mut i: usize = 0;
    while i < path.len()
        invariant
            i <= path@.len(),
            r@.len() == i,
            forall|j: int| 0 <= j < i ==> (#[trigger] r@[j])@ == path@[j]@,
        decreases path.len() - i,
    {
        r.push(copy_bytes(&path[i]));
        i = i + 1;
    }
    assert(names_of(r@) =~= names_of(path@));
    r
}

/// Whether two runs of bytes are the same.
pub(crate) fn same_bytes(a: &[u8], b: &[u8]) -> (r: bool)
    ensures
        r == (a@ == b@),
{
    if a.len() != b.len() {
        return false;
    }
    let mut i: usize = 0;
    while i < a.len()
        invariant
            i <= a@.len() == b@.len(),
            forall|j: int| 0 <= j < i ==> a@[j] == b@[j],
        decreases a.len() - i,
    {
        if a[i] != b[i] {
            return false;
        }
        i = i + 1;
    }
    assert(a@ =~= b@);
    true
}

/// Whether two paths have the same names.
pub(crate) fn same_path(a: &Vec<Vec<u8>>, b: &Vec<Vec<u8>>) -> (r: bool)
    ensures
        r == (names_of(a@) == names_of(b@)),
{
    if a.len() != b.len() {
        assert(names_of(a@).len() != names_of(b@).len());
        return false;
    }
    let mut i: usize = 0;
    while i < a.len()
        invariant
            i <= a@.len() == b@.len(),
            forall|j: int| 0 <= j < i ==> (#[trigger] a@[j])@ == b@[j]@,
        decreases a.len() - i,
    {
        if !same_bytes(a[i].as_slice(), b[i].as_slice()) {
            assert(names_of(a@)[i as int] != names_of(b@)[i as int]);
            return false;
        }
        i = i + 1;
    }
    assert(names_of(a@) =~= names_of(b@));
    true
}

impl OwnedSourceId {
    /// Whether this identifies the same source as `other`.
    pub fn same(&self, other: &OwnedSourceId) -> (r: bool)
        ensures
            r == (self@ == other@),
    {
        match (self, other) {
            (OwnedSourceId::Path(a), OwnedSourceId::Path(b)) => same_path(a, b),
            (OwnedSourceId::FileSet, OwnedSourceId::FileSet) => true,
            _ => false,
        }
    }
}

proof fn lemma_names_push(path: Seq<Vec<u8>>, name: Vec<u8>)
    ensures
        names_of(path.push(name)) == names_of(path).push(name@),
{
    assert(names_of(path.push(name)) =~= names_of(path).push(name@));
}

/// Identifies a source of bytes, without the bytes.
#[derive(Debug, PartialEq, Eq, Hash)]
pub enum OwnedSourceId {
    Path(Vec<Vec<u8>>),
    FileSet,
}

/// A source of bytes: a file, by the names that lead to it, or the description of the file set.
#[derive(Debug, PartialEq, Eq, Hash)]
pub enum OwnedSource {
    Path(Vec<Vec<u8>>),
    FileSet(Arc<[u8]>),
}

/// A borrowed [`OwnedSource`].
#[derive(Debug)]
pub enum Source<'a> {
    Path(&'a Vec<Vec<u8>>),
    FileSet(&'a Arc<[u8]>),
}

/// What an [`OwnedSourceId`] says: the names that lead to a file, or `None` for the description.
pub open spec fn source_id(source: tree::SourceModel) -> Option<Seq<Seq<u8>>> {
    match source {
        tree::SourceModel::Path(path) => Some(path),
        tree::SourceModel::FileSet(_) => None,
    }
}

impl View for OwnedSourceId {
    type V = Option<Seq<Seq<u8>>>;

    open spec fn view(&self) -> Option<Seq<Seq<u8>>> {
        match *self {
            OwnedSourceId::Path(path) => Some(names_of(path@)),
            OwnedSourceId::FileSet => None,
        }
    }
}

impl View for OwnedSource {
    type V = tree::SourceModel;

    open spec fn view(&self) -> tree::SourceModel {
        match *self {
            OwnedSource::Path(path) => tree::SourceModel::Path(names_of(path@)),
            OwnedSource::FileSet(description) => tree::SourceModel::FileSet(description@),
        }
    }
}

impl<'a> View for Source<'a> {
    type V = tree::SourceModel;

    open spec fn view(&self) -> tree::SourceModel {
        match *self {
            Source::Path(path) => tree::SourceModel::Path(names_of(path@)),
            Source::FileSet(description) => tree::SourceModel::FileSet(description@),
        }
    }
}

impl OwnedSource {
    /// What identifies this source.
    pub fn to_owned_id(&self) -> (r: OwnedSourceId)
        ensures
            r@ == source_id(self@),
    {
        match self {
            OwnedSource::Path(path) => OwnedSourceId::Path(copy_path(path)),
            OwnedSource::FileSet(_) => OwnedSourceId::FileSet,
        }
    }
}

impl<'a> Source<'a> {
    /// The same source, owned.
    pub fn to_owned(&self) -> (r: OwnedSource)
        ensures
            r@ == self@,
    {
        match self {
            Source::Path(path) => OwnedSource::Path(copy_path(path)),
            Source::FileSet(description) => OwnedSource::FileSet(Arc::clone(description)),
        }
    }
}

/// A part of one source that a range of packets takes bytes from.
#[derive(Debug)]
pub struct VisitTask {
    pub phase: u16,
    /// Where the bytes lie in the phase.
    pub range: Range<PhaseOffset>,
    pub source: OwnedSource,
    /// Where the bytes begin in the source.
    pub offset: u64,
    /// The size of the source, including the checksum.
    pub file_size: u64,
    pub kind: Kind,
}

impl View for VisitTask {
    type V = (u16, tree::TaskModel);

    open spec fn view(&self) -> (u16, tree::TaskModel) {
        (
            self.phase,
            tree::TaskModel {
                start: self.range.start.0 as int,
                end: self.range.end.0 as int,
                source: self.source@,
                offset: self.offset as int,
                file_size: self.file_size as int,
                kind: self.kind,
            },
        )
    }
}

/// What a list of tasks says.
pub open spec fn tasks_view(tasks: Seq<VisitTask>) -> Seq<(u16, tree::TaskModel)> {
    tasks.map_values(|task: VisitTask| task@)
}

/// The same tasks, each with its phase.
pub open spec fn in_phase(phase: u16, tasks: Seq<tree::TaskModel>) -> Seq<(u16, tree::TaskModel)> {
    tasks.map_values(|task: tree::TaskModel| (phase, task))
}

/// Why a file set could not do what it was asked for.
#[derive(Clone, Copy, PartialEq, Eq, Debug, Structural)]
pub enum FileSetError {
    /// The range begins past the end of the entry.
    RangeNotPresent,
    /// The number of paths is not the number of phases without the first.
    WrongNumberOfPaths,
    /// There is no such phase.
    BadPhase,
    /// The first phase, which holds the description of the file set, has no files to write.
    FileSetPhase,
}

impl RFile {
    /// The bytes of the phase that this file takes up.
    pub fn range(&self) -> (r: Range<PhaseOffset>)
        requires
            self.offset.0 + self.size <= u64::MAX,
        ensures
            r.start == self.offset,
            r.end.0 == self.offset.0 + self.size,
    {
        Range { start: self.offset, end: self.offset + self.size }
    }
}

/// The place of the last entry that begins at or before `offset`, or zero where none does.
fn last_starting_by(files: &Vec<Entry>, offset: PhaseOffset) -> (r: usize)
    requires
        files@.len() > 0,
        forall|i: int, j: int|
            0 <= i < j < files@.len() ==> tree::start_of(#[trigger] files@[i]@) <= tree::start_of(
                #[trigger] files@[j]@,
            ),
    ensures
        r < files@.len(),
        r > 0 ==> tree::start_of(files@[r as int]@) <= offset.0,
        forall|i: int| r < i < files@.len() ==> offset.0 < tree::start_of(#[trigger] files@[i]@),
{
    let mut low: usize = 0;
    let mut high: usize = files.len();
    // Entries before `low` begin by `offset`, entries from `high` on begin after it.
    while low < high
        invariant
            low <= high <= files@.len(),
            forall|i: int, j: int|
                0 <= i < j < files@.len() ==> tree::start_of(#[trigger] files@[i]@)
                    <= tree::start_of(#[trigger] files@[j]@),
            forall|i: int| 0 <= i < low ==> tree::start_of(#[trigger] files@[i]@) <= offset.0,
            forall|i: int|
                high <= i < files@.len() ==> offset.0 < tree::start_of(#[trigger] files@[i]@),
        decreases high - low,
    {
        let mid: usize = low + (high - low) / 2;
        if files[mid].first_offset() <= offset {
            low = mid + 1;
        } else {
            high = mid;
        }
    }
    if low == 0 {
        0
    } else {
        low - 1
    }
}

impl RDirectory {
    /// The directory as a tree.
    pub open spec fn model(self) -> tree::DirectoryModel {
        tree::DirectoryModel {
            offset: self.offset.0,
            name: self.name@,
            files: trees_of(self.files@),
        }
    }

    proof fn lemma_sorted(self, at: nat)
        requires
            tree::placed(tree::Tree::Directory(self.model()), at),
        ensures
            forall|i: int, j: int|
                0 <= i < j < self.files@.len() ==> tree::start_of(#[trigger] self.files@[i]@)
                    <= tree::start_of(#[trigger] self.files@[j]@),
    {
        assert forall|i: int, j: int| 0 <= i < j < self.files@.len() implies tree::start_of(
            #[trigger] self.files@[i]@,
        ) <= tree::start_of(#[trigger] self.files@[j]@) by {
            tree::lemma_children_ordered(self.model(), at, i, j);
        }
    }

    /// The entry that holds the byte at `packet_offset`, or `None` past the end of the directory.
    pub fn entry_for(&self, packet_offset: PhaseOffset) -> (r: Option<&Entry>)
        requires
            tree::placed(tree::Tree::Directory(self.model()), self.offset.0 as nat),
            self.files@.len() > 0,
            self.offset.0 <= packet_offset.0,
        ensures
            r is Some <==> packet_offset.0 < self.offset.0 + tree::file_bytes_all(
                trees_of(self.files@),
            ),
            r matches Some(entry) ==> {
                &&& exists|i: int| 0 <= i < self.files@.len() && *entry == #[trigger] self.files@[i]
                &&& tree::placed(entry@, tree::start_of(entry@) as nat)
                &&& tree::start_of(entry@) <= packet_offset.0
                &&& packet_offset.0 < tree::start_of(entry@) + tree::file_bytes(entry@)
            },
    {
        let ghost at = self.offset.0 as nat;
        let ghost all = trees_of(self.files@);
        let ghost total = all.len() as int;
        proof {
            self.lemma_sorted(at);
            tree::lemma_bytes_take(all, 0, total);
        }
        let idx: usize = last_starting_by(&self.files, packet_offset);
        proof {
            tree::lemma_child_bounds(self.model(), at, idx as int);
            assert(all.take(0) =~= Seq::empty());
            assert(all[idx as int] == self.files@[idx as int]@);
            tree::lemma_placed_bounds(
                all[idx as int],
                tree::start_of(all[idx as int]) as nat,
            );
            if idx + 1 < total {
                tree::lemma_child_bounds(self.model(), at, idx + 1);
                assert(all[idx + 1] == self.files@[idx + 1]@);
            } else {
                assert(all.take(idx + 1) =~= all);
            }
        }
        if self.files[idx].last_offset_exclusive() <= packet_offset {
            None
        } else {
            Some(&self.files[idx])
        }
    }
}

fn count_all(files: &Vec<Entry>) -> (r: u64)
    requires
        tree::file_count_all(trees_of(files@)) <= u64::MAX,
    ensures
        r == tree::file_count_all(trees_of(files@)),
    decreases files@,
{
    let ghost all = trees_of(files@);
    let mut sum: u64 = 0;
    let mut i: usize = 0;
    assert(all.take(0) =~= Seq::empty());
    while i < files.len()
        invariant
            i <= files@.len(),
            all == trees_of(files@),
            tree::file_count_all(all) <= u64::MAX,
            sum == tree::file_count_all(all.take(i as int)),
        decreases files.len() - i,
    {
        proof {
            lemma_count_take(all, i + 1);
            assert(all.take(i + 1).drop_last() =~= all.take(i as int));
            assert(all[i as int] == files@[i as int]@);
        }
        sum = sum + files[i].file_count();
        i = i + 1;
    }
    assert(all.take(i as int) =~= all);
    sum
}

proof fn lemma_count_take(all: Seq<tree::Tree>, n: int)
    requires
        0 <= n <= all.len(),
    ensures
        tree::file_count_all(all.take(n)) <= tree::file_count_all(all),
    decreases all.len() - n,
{
    if n == all.len() {
        assert(all.take(n) =~= all);
    } else {
        lemma_count_take(all, n + 1);
        assert(all.take(n + 1).drop_last() =~= all.take(n));
    }
}

fn size_all(files: &Vec<Entry>) -> (r: u64)
    requires
        tree::file_bytes_all(trees_of(files@)) <= u64::MAX,
    ensures
        r == tree::file_bytes_all(trees_of(files@)),
    decreases files@,
{
    let ghost all = trees_of(files@);
    let mut sum: u64 = 0;
    let mut i: usize = 0;
    assert(all.take(0) =~= Seq::empty());
    while i < files.len()
        invariant
            i <= files@.len(),
            all == trees_of(files@),
            tree::file_bytes_all(all) <= u64::MAX,
            sum == tree::file_bytes_all(all.take(i as int)),
        decreases files.len() - i,
    {
        proof {
            tree::lemma_bytes_take(all, i as int, all.len() as int);
            assert(all[i as int] == files@[i as int]@);
        }
        sum = sum + files[i].file_size();
        i = i + 1;
    }
    assert(all.take(i as int) =~= all);
    sum
}

fn assign_all(files: &mut Vec<Entry>, accum_offset: &mut PhaseOffset)
    requires
        old(accum_offset).0 + tree::file_bytes_all(trees_of(old(files)@)) <= u64::MAX,
    ensures
        final(accum_offset).0 == old(accum_offset).0 + tree::file_bytes_all(trees_of(old(files)@)),
        trees_of(final(files)@) == tree::assigned_all(
            trees_of(old(files)@),
            old(accum_offset).0 as nat,
        ),
    decreases old(files)@,
{
    let ghost before = files@;
    let ghost all = trees_of(before);
    let ghost at = accum_offset.0 as nat;
    let mut i: usize = 0;
    assert(all.take(0) =~= Seq::empty());
    while i < files.len()
        invariant
            i <= files@.len() == before.len(),
            before == old(files)@,
            all == trees_of(before),
            at + tree::file_bytes_all(all) <= u64::MAX,
            accum_offset.0 == at + tree::file_bytes_all(all.take(i as int)),
            forall|j: int| i <= j < before.len() ==> files@[j] == before[j],
            trees_of(files@.take(i as int)) =~= tree::assigned_all(all.take(i as int), at),
        decreases files.len() - i,
    {
        let ghost done = files@.take(i as int);
        proof {
            tree::lemma_bytes_take(all, i as int, all.len() as int);
            assert(all[i as int] == tree_of(before[i as int]));
        }
        files[i].assign_offsets(accum_offset);
        proof {
            assert(all.take(i + 1).drop_last() =~= all.take(i as int));
            assert(files@.take(i as int) =~= done);
            assert(files@.take(i + 1) =~= done.push(files@[i as int]));
            assert(trees_of(files@.take(i + 1)) =~= trees_of(done).push(tree_of(files@[i as int])));
        }
        i = i + 1;
    }
    assert(all.take(i as int) =~= all);
    assert(files@.take(i as int) =~= files@);
}

/// A file that has `len` bytes on disk.
pub open spec fn new_file(
    name: Seq<u8>,
    len: u64,
    mode_bits: u32,
    is_symlink: bool,
) -> tree::FileModel {
    tree::FileModel {
        name,
        size: (len + CHECKSUM_SIZE) as u64,
        mode_bits,
        offset: 0,
        kind: if is_symlink {
            Kind::Symlink
        } else {
            Kind::Normal
        },
    }
}

/// A new file has room for its bytes and for their checksum, keeps its name and its mode, and can be
/// part of a file set.
pub proof fn law_new_file_has_room(name: Seq<u8>, len: u64, mode_bits: u32, is_symlink: bool)
    requires
        len + CHECKSUM_SIZE <= u64::MAX,
    ensures
        ({
            let f = new_file(name, len, mode_bits, is_symlink);
            &&& f.size == len + 16
            &&& f.name == name
            &&& f.mode_bits == mode_bits
            &&& f.kind == Kind::Symlink <==> is_symlink
            &&& f.kind == Kind::Normal <==> !is_symlink
            &&& tree::files_only(tree::Tree::File(f))
            &&& tree::kinds_agree(tree::Tree::File(f))
        }),
{
}

impl Entry {
    /// A file that has `len` bytes on disk; where it lies is assigned later.
    pub fn create_file(name: Vec<u8>, len: u64, mode_bits: u32, is_symlink: bool) -> (r: Entry)
        requires
            len + CHECKSUM_SIZE <= u64::MAX,
        ensures
            r@ == tree::Tree::File(new_file(name@, len, mode_bits, is_symlink)),
    {
        Entry::File(
            RFile {
                name,
                size: len + CHECKSUM_SIZE_U64,
                mode_bits,
                offset: PhaseOffset(0),
                kind: if is_symlink {
                    Kind::Symlink
                } else {
                    Kind::Normal
                },
            },
        )
    }

    /// A directory that holds `files`; where it lies is assigned later.
    pub fn create_directory(name: Vec<u8>, files: Vec<Entry>) -> (r: Entry)
        ensures
            r@ == tree::Tree::Directory(
                (tree::DirectoryModel { offset: 0, name: name@, files: trees_of(files@) }),
            ),
    {
        Entry::Directory(RDirectory { offset: PhaseOffset(0), name, files })
    }

    /// How many files there are.
    pub fn file_count(&self) -> (r: u64)
        requires
            tree::file_count(self@) <= u64::MAX,
        ensures
            r == tree::file_count(self@),
        decreases self,
    {
        match self {
            Entry::File(_) => 1,
            Entry::Directory(d) => count_all(&d.files),
            Entry::FileSet(_) => 0,
        }
    }

    /// The bytes of the files, checksums included.
    pub fn file_size(&self) -> (r: u64)
        requires
            tree::file_bytes(self@) <= u64::MAX,
        ensures
            r == tree::file_bytes(self@),
        decreases self,
    {
        match self {
            Entry::File(f) => f.size,
            Entry::Directory(d) => size_all(&d.files),
            Entry::FileSet(_) => 0,
        }
    }

    /// The name of the file or directory; the description of the file set has a name of its own.
    pub fn name(&self) -> (r: Vec<u8>)
        ensures
            r@ == name_of(self@),
    {
        match self {
            Entry::File(f) => copy_bytes(&f.name),
            Entry::Directory(d) => copy_bytes(&d.name),
            Entry::FileSet(_) => fileset_name(),
        }
    }

    /// Where the bytes begin.
    pub fn first_offset(&self) -> (r: PhaseOffset)
        ensures
            r.0 == tree::start_of(self@),
    {
        match self {
            Entry::File(f) => f.offset,
            Entry::Directory(d) => d.offset,
            Entry::FileSet(_) => PhaseOffset(0),
        }
    }

    /// Where the bytes end.
    pub fn last_offset_exclusive(&self) -> (r: PhaseOffset)
        requires
            tree::end_of(self@) is Some,
            tree::end_of(self@)->Some_0 <= u64::MAX,
        ensures
            r.0 == tree::end_of(self@)->Some_0,
        decreases self,
    {
        match self {
            Entry::File(f) => f.offset + f.size,
            Entry::Directory(d) => {
                let n: usize = d.files.len();
                if n == 0 {
                    d.offset
                } else {
                    assert(trees_of(d.files@).last() == d.files@[n - 1]@);
                    d.files[n - 1].last_offset_exclusive()
                }
            },
            Entry::FileSet(Some(description)) => PhaseOffset(
                description.len() as u64 + CHECKSUM_SIZE_U64,
            ),
            Entry::FileSet(None) => PhaseOffset(0),
        }
    }

    /// Lays the files one after the other, from `accum_offset` on, which ends up behind the last.
    pub fn assign_offsets(&mut self, accum_offset: &mut PhaseOffset)
        requires
            old(accum_offset).0 + tree::file_bytes(old(self)@) <= u64::MAX,
        ensures
            final(accum_offset).0 == old(accum_offset).0 + tree::file_bytes(old(self)@),
            final(self)@ == tree::assigned(old(self)@, old(accum_offset).0 as nat),
        decreases *old(self),
    {
        match self {
            Entry::File(f) => {
                f.offset = *accum_offset;
                accum_offset.0 = accum_offset.0 + f.size;
            },
            Entry::Directory(d) => {
                d.offset = *accum_offset;
                assign_all(&mut d.files, accum_offset);
            },
            Entry::FileSet(_) => {},
        }
    }
}

/// Children that lie outside the range add nothing to the tasks.
proof fn lemma_children_outside(
    d: tree::DirectoryModel,
    at: nat,
    path: Seq<Seq<u8>>,
    from: int,
    to: int,
    start: int,
    end: int,
)
    requires
        tree::placed(tree::Tree::Directory(d), at),
        0 <= from <= to <= d.files.len(),
        forall|i: int|
            from <= i < to ==> tree::start_of(#[trigger] d.files[i]) + tree::file_bytes(d.files[i])
                <= start || end <= tree::start_of(d.files[i]),
    ensures
        tree::tasks_of(tree::spans_all(d.files.take(to), path), start, end) == tree::tasks_of(
            tree::spans_all(d.files.take(from), path),
            start,
            end,
        ),
    decreases to - from,
{
    if from < to {
        lemma_children_outside(d, at, path, from, to - 1, start, end);
        lemma_child_tasks(d, at, path, to - 1, start, end);
        let child = d.files[to - 1];
        let list = tree::spans(child, path);
        tree::lemma_child_bounds(d, at, to - 1);
        tree::lemma_spans_tiled(child, tree::start_of(child) as nat, path);
        tree::lemma_tiled_bounds(
            list,
            tree::start_of(child) as int,
            tree::start_of(child) + tree::file_bytes(child),
        );
        tree::lemma_tasks_outside(list, start, end);
        let before = tree::tasks_of(tree::spans_all(d.files.take(to - 1), path), start, end);
        assert(before + Seq::<tree::TaskModel>::empty() =~= before);
    }
}

/// One more child adds its own tasks.
proof fn lemma_child_tasks(
    d: tree::DirectoryModel,
    at: nat,
    path: Seq<Seq<u8>>,
    i: int,
    start: int,
    end: int,
)
    requires
        0 <= i < d.files.len(),
    ensures
        tree::tasks_of(tree::spans_all(d.files.take(i + 1), path), start, end) == tree::tasks_of(
            tree::spans_all(d.files.take(i), path),
            start,
            end,
        ) + tree::tasks_of(tree::spans(d.files[i], path), start, end),
{
    assert(d.files.take(i + 1).drop_last() =~= d.files.take(i));
    tree::lemma_tasks_concat(
        tree::spans_all(d.files.take(i), path),
        tree::spans(d.files[i], path),
        start,
        end,
    );
}

#[verifier::spinoff_prover]
#[verifier::rlimit(60)]
fn visit_children(
    d: &RDirectory,
    cwd: &mut Vec<Vec<u8>>,
    phase: u16,
    range: &Range<PhaseOffset>,
    out: &mut Vec<VisitTask>,
)
    requires
        tree::placed(tree::Tree::Directory(d.model()), d.offset.0 as nat),
        d.files@.len() > 0,
    ensures
        names_of(final(cwd)@) == names_of(old(cwd)@),
        tasks_view(final(out)@) == tasks_view(old(out)@) + in_phase(
            phase,
            tree::tasks_of(
                tree::spans_all(trees_of(d.files@), names_of(old(cwd)@)),
                range.start.0 as int,
                range.end.0 as int,
            ),
        ),
    decreases d,
{
    let ghost at = d.offset.0 as nat;
    let ghost all = trees_of(d.files@);
    let ghost path = names_of(cwd@);
    let ghost start = range.start.0 as int;
    let ghost end = range.end.0 as int;
    proof {
        d.lemma_sorted(at);
    }
    let mut cur: usize = last_starting_by(&d.files, range.start);
    proof {
        if cur > 0 {
            assert forall|i: int| 0 <= i < cur implies tree::start_of(#[trigger] all[i])
                + tree::file_bytes(all[i]) <= start || end <= tree::start_of(all[i]) by {
                tree::lemma_children_ordered(d.model(), at, i, cur as int);
                tree::lemma_child_bounds(d.model(), at, i);
                tree::lemma_placed_bounds(all[i], tree::start_of(all[i]) as nat);
                assert(all[cur as int] == d.files@[cur as int]@);
            }
        }
        lemma_children_outside(d.model(), at, path, 0, cur as int, start, end);
        assert(all.take(0) =~= Seq::empty());
        assert(tasks_view(out@) =~= tasks_view(out@) + in_phase(phase, Seq::empty()));
    }
    while cur < d.files.len() && d.files[cur].first_offset() < range.end
        invariant
            cur <= d.files@.len(),
            all == trees_of(d.files@),
            at == d.offset.0,
            path == names_of(old(cwd)@),
            names_of(cwd@) == path,
            start == range.start.0,
            end == range.end.0,
            tree::placed(tree::Tree::Directory(d.model()), at),
            tasks_view(out@) == tasks_view(old(out)@) + in_phase(
                phase,
                tree::tasks_of(tree::spans_all(all.take(cur as int), path), start, end),
            ),
        decreases d.files.len() - cur,
    {
        let ghost before = tree::tasks_of(
            tree::spans_all(all.take(cur as int), path),
            start,
            end,
        );
        let ghost child = all[cur as int];
        proof {
            assert(child == d.files@[cur as int]@);
            tree::lemma_child_bounds(d.model(), at, cur as int);
            tree::lemma_placed_bounds(child, tree::start_of(child) as nat);
            lemma_child_tasks(d.model(), at, path, cur as int, start, end);
        }
        if d.files[cur].last_offset_exclusive() > range.start {
            let ghost tasks = tree::tasks_of(tree::spans(child, path), start, end);
            let _ = d.files[cur].visit(cwd, phase, range, out);
            assert(in_phase(phase, before + tasks) =~= in_phase(phase, before) + in_phase(
                phase,
                tasks,
            ));
        } else {
            proof {
                lemma_children_outside(
                    d.model(),
                    at,
                    path,
                    cur as int,
                    cur + 1,
                    start,
                    end,
                );
            }
        }
        cur = cur + 1;
    }
    proof {
        let total = all.len() as int;
        assert forall|i: int| cur <= i < total implies tree::start_of(#[trigger] all[i])
            + tree::file_bytes(all[i]) <= start || end <= tree::start_of(all[i]) by {
            assert(all[cur as int] == d.files@[cur as int]@);
            if i > cur {
                tree::lemma_children_ordered(d.model(), at, cur as int, i);
            }
        }
        lemma_children_outside(d.model(), at, path, cur as int, total, start, end);
        assert(all.take(total) =~= all);
    }
}

impl Entry {
    /// Adds to `out` the parts of this entry that lie in `range`, in the order of their bytes.
    /// `cwd` leads to this entry, and is as it was in the end.
    pub fn visit(
        &self,
        cwd: &mut Vec<Vec<u8>>,
        phase: u16,
        range: &Range<PhaseOffset>,
        out: &mut Vec<VisitTask>,
    ) -> (r: Result<(), FileSetError>)
        requires
            tree::well_placed(self@),
        ensures
            names_of(final(cwd)@) == names_of(old(cwd)@),
            range.start.0 >= tree::start_of(self@) + tree::extent(self@) ==> r == Err::<
                (),
                FileSetError,
            >(FileSetError::RangeNotPresent) && tasks_view(final(out)@) == tasks_view(old(out)@),
            range.start.0 < tree::start_of(self@) + tree::extent(self@) ==> r is Ok && tasks_view(
                final(out)@,
            ) == tasks_view(old(out)@) + in_phase(
                phase,
                tree::tasks_of(
                    tree::spans(self@, names_of(old(cwd)@)),
                    range.start.0 as int,
                    range.end.0 as int,
                ),
            ),
        decreases self,
    {
        proof {
            tree::lemma_well_placed_tiled(self@, names_of(cwd@));
        }
        if range.start >= self.last_offset_exclusive() {
            return Err(FileSetError::RangeNotPresent);
        }
        let ghost path = names_of(cwd@);
        let ghost list = tree::spans(self@, path);
        let ghost start = range.start.0 as int;
        let ghost end = range.end.0 as int;
        proof {
            if list.len() == 1 {
                assert(list.drop_last() =~= Seq::empty());
                reveal_with_fuel(tree::tasks_of, 2);
            }
        }
        match self {
            Entry::File(f) => {
                if let Some(overlap) = overlaps(f.range(), copy_range(range)) {
                    let ghost before = cwd@;
                    let name = copy_bytes(&f.name);
                    proof {
                        lemma_names_push(before, name);
                    }
                    cwd.push(name);
                    out.push(
                        VisitTask {
                            phase,
                            range: copy_range(&overlap),
                            source: Source::Path(cwd).to_owned(),
                            offset: overlap.start - f.offset,
                            file_size: f.size,
                            kind: f.kind,
                        },
                    );
                    let _ = cwd.pop();
                    assert(cwd@ =~= before);
                }
                assert(tasks_view(out@) =~= tasks_view(old(out)@) + in_phase(
                    phase,
                    tree::tasks_of(list, start, end),
                ));
            },
            Entry::Directory(d) => {
                if d.files.len() > 0 {
                    let ghost before = cwd@;
                    let name = copy_bytes(&d.name);
                    proof {
                        lemma_names_push(before, name);
                    }
                    cwd.push(name);
                    visit_children(d, cwd, phase, range, out);
                    let ghost after = cwd@;
                    assert(names_of(after).len() == path.len() + 1);
                    let _ = cwd.pop();
                    proof {
                        assert(cwd@ =~= after.drop_last());
                        assert(names_of(cwd@) =~= names_of(after).drop_last());
                        assert(names_of(after).drop_last() =~= path);
                    }
                }
            },
            Entry::FileSet(Some(description)) => {
                let size: u64 = description.len() as u64 + CHECKSUM_SIZE_U64;
                let whole = Range { start: PhaseOffset(0), end: PhaseOffset(size) };
                if let Some(overlap) = overlaps(whole, copy_range(range)) {
                    out.push(
                        VisitTask {
                            phase,
                            range: copy_range(&overlap),
                            source: Source::FileSet(description).to_owned(),
                            offset: overlap.start - PhaseOffset(0),
                            file_size: size,
                            kind: Kind::FileSet,
                        },
                    );
                }
                assert(tasks_view(out@) =~= tasks_view(old(out)@) + in_phase(
                    phase,
                    tree::tasks_of(list, start, end),
                ));
            },
            Entry::FileSet(None) => {},
        }
        Ok(())
    }
}

/// The name of a tree.
pub open spec fn name_of(t: tree::Tree) -> Seq<u8> {
    match t {
        tree::Tree::File(f) => f.name,
        tree::Tree::Directory(d) => d.name,
        tree::Tree::FileSet(_) => fileset_name_bytes(),
    }
}

/// The name that stands for the description of the file set, `?fileset?`.
pub open spec fn fileset_name_bytes() -> Seq<u8> {
    seq![0x3f, 0x66, 0x69, 0x6c, 0x65, 0x73, 0x65, 0x74, 0x3f]
}

fn fileset_name() -> (r: Vec<u8>)
    ensures
        r@ == fileset_name_bytes(),
{
    let r: Vec<u8> = vec![0x3f, 0x66, 0x69, 0x6c, 0x65, 0x73, 0x65, 0x74, 0x3f];
    assert(r@ =~= fileset_name_bytes());
    r
}

/// One phase of a file set.
#[derive(Debug)]
pub struct FileSetPhaseEntry {
    /// Where the files of the phase are on disk.
    pub path: Vec<u8>,
    pub entry: Entry,
}

/// The phases that a server offers. The first phase holds the description of the file set itself,
/// the others hold files.
#[derive(Debug)]
pub struct FileSet {
    pub phases: Vec<FileSetPhaseEntry>,
}

/// What a [`FileSetPhaseEntry`] says.
pub struct PhaseModel {
    pub path: Seq<u8>,
    pub tree: tree::Tree,
}

impl View for FileSetPhaseEntry {
    type V = PhaseModel;

    open spec fn view(&self) -> PhaseModel {
        PhaseModel { path: self.path@, tree: self.entry@ }
    }
}

/// What some [`FileSetPhaseEntry`]s say.
pub open spec fn phases_view(phases: Seq<FileSetPhaseEntry>) -> Seq<PhaseModel> {
    phases.map_values(|phase: FileSetPhaseEntry| phase@)
}

impl View for FileSet {
    type V = Seq<PhaseModel>;

    open spec fn view(&self) -> Seq<PhaseModel> {
        phases_view(self.phases@)
    }
}

/// The files of a phase, in order.
pub open spec fn phase_spans(phase: PhaseModel) -> Seq<tree::FileSpan> {
    tree::spans(phase.tree, seq![phase.path])
}

/// The tasks of a part of a phase.
pub open spec fn part_tasks(set: Seq<PhaseModel>, part: (u16, Range<PhaseOffset>)) -> Seq<
    (u16, tree::TaskModel),
> {
    in_phase(
        part.0,
        tree::tasks_of(
            phase_spans(set[part.0 as int]),
            part.1.start.0 as int,
            part.1.end.0 as int,
        ),
    )
}

/// The tasks of some parts of phases, one part after the other.
pub open spec fn visit_tasks(
    set: Seq<PhaseModel>,
    parts: Seq<(u16, Range<PhaseOffset>)>,
) -> Seq<(u16, tree::TaskModel)>
    decreases parts.len(),
{
    if parts.len() == 0 {
        Seq::empty()
    } else {
        visit_tasks(set, parts.drop_last()) + part_tasks(set, parts.last())
    }
}

/// The parts are of ascending phases.
pub open spec fn ascending(parts: Seq<(u16, Range<PhaseOffset>)>) -> bool {
    forall|i: int, j: int|
        0 <= i < j < parts.len() ==> (#[trigger] parts[i]).0 < (#[trigger] parts[j]).0
}

/// The parts of a range of packets are of ascending phases, from the first on.
pub proof fn lemma_parts_ascending<P: PhaseSize>(range: Range<PacketIdx>, sizes: &P, phase: int)
    requires
        0 <= phase,
    ensures
        ascending(packet::phases_from(range, sizes, phase)),
        forall|i: int|
            0 <= i < packet::phases_from(range, sizes, phase).len() ==> phase
                <= (#[trigger] packet::phases_from(range, sizes, phase)[i]).0,
    decreases range.end.phase_of() + 1 - phase,
{
    if phase <= range.end.phase_of() {
        lemma_parts_ascending(range, sizes, phase + 1);
        let rest = packet::phases_from(range, sizes, phase + 1);
        let parts = packet::phases_from(range, sizes, phase);
        if let Some(bytes) = packet::bytes_in_phase(range, sizes, phase as u16) {
            assert(parts =~= seq![(phase as u16, bytes)] + rest);
            assert forall|i: int, j: int| 0 <= i < j < parts.len() implies (#[trigger] parts[i]).0
                < (#[trigger] parts[j]).0 by {
                assert(parts[j] == rest[j - 1]);
                if i > 0 {
                    assert(parts[i] == rest[i - 1]);
                }
            }
            assert forall|i: int| 0 <= i < parts.len() implies phase <= (#[trigger] parts[i]).0 by {
                if i > 0 {
                    assert(parts[i] == rest[i - 1]);
                }
            }
        }
    }
}

/// Always visits in PhaseOffset-order: phase by phase, and within a phase byte by byte.
pub proof fn law_visit_in_order(files: FileSet, range: Range<PacketIdx>, i: int, j: int)
    requires
        ({
            let parts = packet::phases_from(range, &files, range.start.phase_of() as int);
            &&& forall|k: int|
                0 <= k < parts.len() ==> (#[trigger] parts[k]).0 < files@.len()
                    && tree::well_placed(files@[parts[k].0 as int].tree)
            &&& 0 <= i < j < visit_tasks(files@, parts).len()
        }),
    ensures
        ({
            let parts = packet::phases_from(range, &files, range.start.phase_of() as int);
            let a = visit_tasks(files@, parts)[i];
            let b = visit_tasks(files@, parts)[j];
            a.0 < b.0 || a.0 == b.0 && a.1.end <= b.1.start
        }),
{
    lemma_parts_ascending(range, &files, range.start.phase_of() as int);
    lemma_visit_in_order(
        files@,
        packet::phases_from(range, &files, range.start.phase_of() as int),
        i,
        j,
    );
}

proof fn lemma_visit_in_order(
    set: Seq<PhaseModel>,
    parts: Seq<(u16, Range<PhaseOffset>)>,
    i: int,
    j: int,
)
    requires
        ascending(parts),
        forall|k: int|
            0 <= k < parts.len() ==> (#[trigger] parts[k]).0 < set.len() && tree::well_placed(
                set[parts[k].0 as int].tree,
            ),
        0 <= i < j < visit_tasks(set, parts).len(),
    ensures
        visit_tasks(set, parts)[i].0 < visit_tasks(set, parts)[j].0 || visit_tasks(set, parts)[i].0
            == visit_tasks(set, parts)[j].0 && visit_tasks(set, parts)[i].1.end <= visit_tasks(
            set,
            parts,
        )[j].1.start,
    decreases parts.len(),
{
    if parts.len() > 0 {
        let init = parts.drop_last();
        let (phase, bytes) = parts.last();
        let before = visit_tasks(set, init);
        assert forall|k: int| 0 <= k < init.len() implies (#[trigger] init[k]).0 < set.len()
            && tree::well_placed(set[init[k].0 as int].tree) && init[k].0 < phase by {
            assert(init[k] == parts[k]);
            assert(parts[k].0 < parts[parts.len() - 1].0);
        }
        assert(ascending(init)) by {
            assert forall|a: int, b: int| 0 <= a < b < init.len() implies (#[trigger] init[a]).0 < (
            #[trigger] init[b]).0 by {
                assert(init[a] == parts[a] && init[b] == parts[b]);
            }
        }
        if j < before.len() {
            lemma_visit_in_order(set, init, i, j);
        } else if i < before.len() {
            lemma_visited_phase(set, init, phase, i);
        } else {
            assert(parts[parts.len() - 1].0 < set.len());
            tree::law_visit_order(
                set[phase as int].tree,
                seq![set[phase as int].path],
                bytes.start.0 as int,
                bytes.end.0 as int,
                i - before.len(),
                j - before.len(),
            );
        }
    }
}

proof fn lemma_visited_phase(
    set: Seq<PhaseModel>,
    parts: Seq<(u16, Range<PhaseOffset>)>,
    limit: u16,
    i: int,
)
    requires
        forall|k: int| 0 <= k < parts.len() ==> (#[trigger] parts[k]).0 < limit,
        0 <= i < visit_tasks(set, parts).len(),
    ensures
        visit_tasks(set, parts)[i].0 < limit,
    decreases parts.len(),
{
    if parts.len() > 0 {
        let init = parts.drop_last();
        assert(parts.last() == parts[parts.len() - 1]);
        assert forall|k: int| 0 <= k < init.len() implies (#[trigger] init[k]).0 < limit by {
            assert(init[k] == parts[k]);
        }
        if i < visit_tasks(set, init).len() {
            lemma_visited_phase(set, init, limit, i);
        }
    }
}

/// Where a part of a range of packets begins: at the first packet, or at the start of its phase.
pub proof fn lemma_part_start<P: PhaseSize>(range: Range<PacketIdx>, sizes: &P, phase: int, i: int)
    requires
        0 <= phase,
        0 <= i < packet::phases_from(range, sizes, phase).len(),
    ensures
        ({
            let part = packet::phases_from(range, sizes, phase)[i];
            &&& phase <= part.0 <= range.end.phase_of()
            &&& packet::bytes_in_phase(range, sizes, part.0) == Some(part.1)
            &&& part.1.start.0 == if part.0 == range.start.phase_of() {
                range.start.index_of() * PAYLOAD_SIZE
            } else {
                0
            }
        }),
    decreases range.end.phase_of() + 1 - phase,
{
    assert(PAYLOAD_SIZE == 1369);
    packet::law_packet_idx_parts(range.start);
    let rest = packet::phases_from(range, sizes, phase + 1);
    if let Some(bytes) = packet::bytes_in_phase(range, sizes, phase as u16) {
        assert(packet::phases_from(range, sizes, phase) =~= seq![(phase as u16, bytes)] + rest);
        if i > 0 {
            lemma_part_start(range, sizes, phase + 1, i - 1);
        }
    } else {
        lemma_part_start(range, sizes, phase + 1, i);
    }
}

/// Every phase of which a range of packets covers bytes has its part.
pub proof fn lemma_part_exists<P: PhaseSize>(
    range: Range<PacketIdx>,
    sizes: &P,
    from: int,
    phase: u16,
) -> (i: int)
    requires
        0 <= from <= phase <= range.end.phase_of(),
        packet::bytes_in_phase(range, sizes, phase) is Some,
    ensures
        0 <= i < packet::phases_from(range, sizes, from).len(),
        packet::phases_from(range, sizes, from)[i].0 == phase,
    decreases phase - from,
{
    let rest = packet::phases_from(range, sizes, from + 1);
    if from == phase {
        0
    } else {
        let i = lemma_part_exists(range, sizes, from + 1, phase);
        if let Some(bytes) = packet::bytes_in_phase(range, sizes, from as u16) {
            assert(packet::phases_from(range, sizes, from) =~= seq![(from as u16, bytes)] + rest);
            i + 1
        } else {
            i
        }
    }
}

/// The tasks of the first parts come first, and those of the others are of later phases.
pub proof fn lemma_visit_prefix(
    set: Seq<PhaseModel>,
    parts: Seq<(u16, Range<PhaseOffset>)>,
    j: int,
)
    requires
        ascending(parts),
        0 <= j < parts.len(),
    ensures
        ({
            let all = visit_tasks(set, parts);
            let before = visit_tasks(set, parts.take(j));
            let upto = visit_tasks(set, parts.take(j + 1));
            &&& upto == before + part_tasks(set, parts[j])
            &&& upto.len() <= all.len()
            &&& all.take(upto.len() as int) == upto
            &&& forall|k: int| upto.len() <= k < all.len() ==> (#[trigger] all[k]).0 > parts[j].0
        }),
    decreases parts.len(),
{
    let all = visit_tasks(set, parts);
    let upto = visit_tasks(set, parts.take(j + 1));
    assert(parts.take(j + 1).drop_last() =~= parts.take(j));
    if j + 1 == parts.len() {
        assert(parts.take(j + 1) =~= parts);
        assert(all.take(upto.len() as int) =~= upto);
    } else {
        let init = parts.drop_last();
        assert(ascending(init)) by {
            assert forall|a: int, b: int| 0 <= a < b < init.len() implies (#[trigger] init[a]).0 < (
            #[trigger] init[b]).0 by {
                assert(init[a] == parts[a] && init[b] == parts[b]);
            }
        }
        lemma_visit_prefix(set, init, j);
        assert(init.take(j) =~= parts.take(j));
        assert(init.take(j + 1) =~= parts.take(j + 1));
        assert(init[j] == parts[j]);
        let most = visit_tasks(set, init);
        assert(all.take(upto.len() as int) =~= most.take(upto.len() as int));
        assert forall|k: int| upto.len() <= k < all.len() implies (#[trigger] all[k]).0
            > parts[j].0 by {
            if k < most.len() {
                assert(all[k] == most[k]);
            } else {
                assert(all[k] == part_tasks(set, parts.last())[k - most.len()]);
                assert(parts[j].0 < parts[parts.len() - 1].0);
            }
        }
    }
}

/// A task lies within a part of its phase.
pub proof fn lemma_task_part(
    set: Seq<PhaseModel>,
    parts: Seq<(u16, Range<PhaseOffset>)>,
    k: int,
) -> (i: int)
    requires
        0 <= k < visit_tasks(set, parts).len(),
    ensures
        0 <= i < parts.len(),
        parts[i].0 == visit_tasks(set, parts)[k].0,
        parts[i].1.start.0 <= visit_tasks(set, parts)[k].1.start,
        visit_tasks(set, parts)[k].1.end <= parts[i].1.end.0,
    decreases parts.len(),
{
    let init = parts.drop_last();
    let before = visit_tasks(set, init);
    if k < before.len() {
        let i = lemma_task_part(set, init, k);
        assert(init[i] == parts[i]);
        i
    } else {
        let (phase, range) = parts.last();
        let list = phase_spans(set[phase as int]);
        let at = tree::lemma_task_span(
            list,
            range.start.0 as int,
            range.end.0 as int,
            k - before.len(),
        );
        parts.len() - 1
    }
}

/// Whether a part of a phase begins within the phase.
pub open spec fn part_present(set: Seq<PhaseModel>, part: (u16, Range<PhaseOffset>)) -> bool {
    let t = set[part.0 as int].tree;
    part.1.start.0 < tree::start_of(t) + tree::extent(t)
}

/// Whether packets begin behind the end of an empty phase, and go on with the next.
pub open spec fn begins_behind_empty<P: PhaseSize>(range: Range<PacketIdx>, sizes: &P) -> bool {
    &&& range.start.phase_of() < range.end.phase_of()
    &&& range.start.index_of() > 0
    &&& sizes.phase_size(range.start.phase_of()) is None
}

/// The phases of a file set that is made of `items`.
pub open spec fn new_phases(items: Seq<PhaseModel>) -> Seq<PhaseModel> {
    seq![PhaseModel { path: fileset_name_bytes(), tree: tree::Tree::FileSet(None) }]
        + items.map_values(
        |item: PhaseModel|
            PhaseModel { path: item.path, tree: tree::assigned(item.tree, 0) },
    )
}

/// The files of each phase of a new file set lie one after the other from the start of the phase
/// on.
pub proof fn law_new_file_set_placed(items: Seq<PhaseModel>, i: int)
    requires
        0 <= i < items.len(),
        tree::files_only(items[i].tree),
        tree::file_bytes(items[i].tree) <= u64::MAX,
    ensures
        tree::placed(new_phases(items)[i + 1].tree, 0),
        tree::file_bytes(new_phases(items)[i + 1].tree) == tree::file_bytes(items[i].tree),
{
    tree::lemma_assigned_placed(items[i].tree, 0);
    tree::lemma_assigned_keeps(items[i].tree, 0);
}

/// A new file set has the phases that it is made of, each with its files as they were given, where
/// they are on disk, behind a first phase for its description.
pub proof fn law_new_file_set_keeps_files(items: Seq<PhaseModel>, i: int)
    requires
        0 <= i < items.len(),
    ensures
        new_phases(items).len() == items.len() + 1,
        new_phases(items)[i + 1].path == items[i].path,
        tree::alike(items[i].tree, new_phases(items)[i + 1].tree),
        new_phases(items)[0].tree == tree::Tree::FileSet(None),
{
    tree::law_layout_keeps_files(items[i].tree, 0);
}

/// Visiting parts of phases reaches every byte of them: as the byte of the file that it belongs to,
/// in its place.
pub proof fn law_visit_reaches_every_byte(
    set: Seq<PhaseModel>,
    parts: Seq<(u16, Range<PhaseOffset>)>,
    p: int,
    i: int,
    x: int,
) -> (k: int)
    requires
        0 <= p < parts.len(),
        parts[p].1.start.0 <= x < parts[p].1.end.0,
        0 <= i < phase_spans(set[parts[p].0 as int]).len(),
        tree::covers(phase_spans(set[parts[p].0 as int])[i], x),
    ensures
        0 <= k < visit_tasks(set, parts).len(),
        visit_tasks(set, parts)[k].0 == parts[p].0,
        tree::holds_byte(
            visit_tasks(set, parts)[k].1,
            phase_spans(set[parts[p].0 as int])[i],
            x,
            x - phase_spans(set[parts[p].0 as int])[i].offset,
        ),
    decreases parts.len(),
{
    let init = parts.drop_last();
    let before = visit_tasks(set, init);
    if p < init.len() {
        assert(init[p] == parts[p]);
        let k = law_visit_reaches_every_byte(set, init, p, i, x);
        assert(visit_tasks(set, parts)[k] == before[k]);
        k
    } else {
        let (phase, range) = parts[p];
        let k = tree::law_parts_hold_every_byte(
            phase_spans(set[phase as int]),
            range.start.0 as int,
            range.end.0 as int,
            i,
            x,
        );
        assert(visit_tasks(set, parts)[before.len() + k] == part_tasks(set, parts.last())[k]);
        before.len() + k
    }
}

/// Visiting parts of phases reaches nothing else: each byte of a task is a byte of one of the parts,
/// and of the file that the task names, in its place.
pub proof fn law_visit_reaches_nothing_else(
    set: Seq<PhaseModel>,
    parts: Seq<(u16, Range<PhaseOffset>)>,
    k: int,
    x: int,
) -> (r: (int, int))
    requires
        0 <= k < visit_tasks(set, parts).len(),
        visit_tasks(set, parts)[k].1.start <= x < visit_tasks(set, parts)[k].1.end,
    ensures
        0 <= r.0 < parts.len(),
        parts[r.0].0 == visit_tasks(set, parts)[k].0,
        parts[r.0].1.start.0 <= x < parts[r.0].1.end.0,
        0 <= r.1 < phase_spans(set[parts[r.0].0 as int]).len(),
        tree::covers(phase_spans(set[parts[r.0].0 as int])[r.1], x),
        tree::holds_byte(
            visit_tasks(set, parts)[k].1,
            phase_spans(set[parts[r.0].0 as int])[r.1],
            x,
            x - phase_spans(set[parts[r.0].0 as int])[r.1].offset,
        ),
    decreases parts.len(),
{
    let init = parts.drop_last();
    let before = visit_tasks(set, init);
    if k < before.len() {
        assert(visit_tasks(set, parts)[k] == before[k]);
        let (p, i) = law_visit_reaches_nothing_else(set, init, k, x);
        assert(init[p] == parts[p]);
        (p, i)
    } else {
        let (phase, range) = parts.last();
        assert(visit_tasks(set, parts)[k] == part_tasks(set, parts.last())[k - before.len()]);
        let i = tree::law_parts_hold_nothing_else(
            phase_spans(set[phase as int]),
            range.start.0 as int,
            range.end.0 as int,
            k - before.len(),
            x,
        );
        (parts.len() - 1, i)
    }
}

/// The size of a phase is that of its files: a byte comes before its end if, and only if, it is a
/// byte of one of them. A phase without bytes has none.
pub proof fn law_size_of_a_phase(files: FileSet, phase: u16, x: int)
    requires
        phase < files@.len(),
        tree::well_placed(files@[phase as int].tree),
        tree::start_of(files@[phase as int].tree) == 0,
        x >= 0,
    ensures
        (files.phase_size(phase) matches Some(size) && x < size.0) <==> exists|i: int|
            0 <= i < phase_spans(files@[phase as int]).len() && tree::covers(
                #[trigger] phase_spans(files@[phase as int])[i],
                x,
            ),
{
    let model = files@[phase as int];
    tree::lemma_well_placed_tiled(model.tree, seq![model.path]);
    tree::law_every_byte_has_a_file(model.tree, seq![model.path], x);
    let list = tree::spans(model.tree, seq![model.path]);
    assert(list == phase_spans(model));
    if x < tree::extent(model.tree) {
        let i = choose|i: int| 0 <= i < list.len() && tree::covers(#[trigger] list[i], x);
        assert(tree::covers(phase_spans(files@[phase as int])[i], x));
    }
}

impl PhaseSize for FileSet {
    open spec fn phase_known(&self, phase: u16) -> bool {
        &&& phase < self@.len()
        &&& tree::end_of(self@[phase as int].tree) is Some
        &&& tree::end_of(self@[phase as int].tree)->Some_0 <= u64::MAX
    }

    open spec fn phase_size(&self, phase: u16) -> Option<PhaseOffset> {
        let end = tree::end_of(self@[phase as int].tree)->Some_0;
        if end == 0 {
            None
        } else {
            Some(PhaseOffset(end as u64))
        }
    }

    fn max_offset_exclusive(&self, phase: u16) -> (r: Option<PhaseOffset>) {
        let end = self.phases[phase as usize].entry.last_offset_exclusive();
        if end.0 == 0 {
            None
        } else {
            Some(end)
        }
    }
}

impl FileSet {
    /// A file set of the given phases, behind a first phase for its own description, with the
    /// files of each phase laid one after the other.
    pub fn new(items: Vec<FileSetPhaseEntry>) -> (r: FileSet)
        requires
            forall|i: int|
                0 <= i < items@.len() ==> tree::file_bytes((#[trigger] items@[i])@.tree)
                    <= u64::MAX,
        ensures
            r@ == new_phases(phases_view(items@)),
    {
        let ghost given = phases_view(items@);
        let mut items = items;
        let mut phases: Vec<FileSetPhaseEntry> = Vec::new();
        phases.push(FileSetPhaseEntry { path: fileset_name(), entry: Entry::FileSet(None) });
        phases.append(&mut items);
        assert(phases@[0]@ == new_phases(given)[0]);
        assert forall|i: int| 1 <= i < phases@.len() implies (#[trigger] phases@[i])@ == given[i
            - 1] by {}
        let mut i: usize = 1;
        while i < phases.len()
            invariant
                1 <= i <= phases@.len() == given.len() + 1,
                forall|j: int|
                    0 <= j < given.len() ==> tree::file_bytes((#[trigger] given[j]).tree)
                        <= u64::MAX,
                forall|j: int| 0 <= j < i ==> (#[trigger] phases@[j])@ == new_phases(given)[j],
                forall|j: int| i <= j < phases@.len() ==> (#[trigger] phases@[j])@ == given[j - 1],
            decreases phases.len() - i,
        {
            assert(phases@[i as int]@ == given[i - 1]);
            let mut accum_offset = PhaseOffset(0);
            phases[i].entry.assign_offsets(&mut accum_offset);
            i = i + 1;
        }
        assert(phases_view(phases@) =~= new_phases(given));
        FileSet { phases }
    }

    /// Sets where the files of each phase but the first are on disk.
    pub fn replace_phase_paths(&mut self, paths: &Vec<Vec<u8>>) -> (r: Result<(), FileSetError>)
        ensures
            paths@.len() + 1 != old(self)@.len() ==> r == Err::<(), FileSetError>(
                FileSetError::WrongNumberOfPaths,
            ) && final(self)@ == old(self)@,
            paths@.len() + 1 == old(self)@.len() ==> r is Ok && final(self)@ == old(self)@.map(
                |i: int, phase: PhaseModel|
                    PhaseModel {
                        path: if i == 0 {
                            phase.path
                        } else {
                            paths@[i - 1]@
                        },
                        tree: phase.tree,
                    },
            ),
    {
        if self.phases.len() == 0 || paths.len() != self.phases.len() - 1 {
            return Err(FileSetError::WrongNumberOfPaths);
        }
        let ghost before = self@;
        let mut i: usize = 1;
        while i < self.phases.len()
            invariant
                1 <= i <= self.phases@.len(),
                self.phases@.len() == before.len() == paths@.len() + 1,
                forall|j: int|
                    0 <= j < before.len() ==> (#[trigger] self.phases@[j])@ == (PhaseModel {
                        path: if 1 <= j < i {
                            paths@[j - 1]@
                        } else {
                            before[j].path
                        },
                        tree: before[j].tree,
                    }),
            decreases self.phases.len() - i,
        {
            let path = copy_bytes(&paths[i - 1]);
            assert(self.phases@[i as int]@.tree == before[i as int].tree);
            self.phases[i].path = path;
            i = i + 1;
        }
        assert(self@ =~= before.map(
            |i: int, phase: PhaseModel|
                PhaseModel {
                    path: if i == 0 {
                        phase.path
                    } else {
                        paths@[i - 1]@
                    },
                    tree: phase.tree,
                },
        ));
        Ok(())
    }

    /// Phase 0 is excluded
    pub fn get_phases_excluding_first_phase(&self) -> (r: Vec<(u16, PhaseOffset)>)
        requires
            forall|i: int|
                1 <= i < self@.len() ==> tree::end_of((#[trigger] self@[i]).tree) is Some
                    && tree::end_of(self@[i].tree)->Some_0 <= u64::MAX,
        ensures
            r@.len() == if self@.len() == 0 {
                0
            } else {
                self@.len() - 1
            },
            forall|i: int|
                0 <= i < r@.len() ==> (#[trigger] r@[i]) == (
                    ((i + 1) % 0x1_0000) as u16,
                    PhaseOffset(tree::end_of(self@[i + 1].tree)->Some_0 as u64),
                ),
    {
        let mut output: Vec<(u16, PhaseOffset)> = Vec::new();
        let mut i: usize = 1;
        while i < self.phases.len()
            invariant
                1 <= i,
                i <= self@.len() || self@.len() == 0 && i == 1,
                self@.len() == self.phases@.len(),
                output@.len() == i - 1,
                forall|i: int|
                    1 <= i < self@.len() ==> tree::end_of((#[trigger] self@[i]).tree) is Some
                        && tree::end_of(self@[i].tree)->Some_0 <= u64::MAX,
                forall|j: int|
                    0 <= j < output@.len() ==> (#[trigger] output@[j]) == (
                        ((j + 1) % 0x1_0000) as u16,
                        PhaseOffset(tree::end_of(self@[j + 1].tree)->Some_0 as u64),
                    ),
            decreases self.phases.len() - i,
        {
            assert(self@[i as int].tree == self.phases@[i as int].entry@);
            output.push(
                ((i % 0x1_0000) as u16, self.phases[i].entry.last_offset_exclusive()),
            );
            i = i + 1;
        }
        output
    }

    /// The number of phases, including the first.
    pub fn num_phases(&self) -> (r: usize)
        ensures
            r == self@.len(),
    {
        self.phases.len()
    }

    /// A cursor that has not been moved yet.
    pub fn make_cursor<'a>(&'a self) -> (r: FileSetCursor<'a>)
        ensures
            r.inv(),
            r.set_of() == self@,
    {
        FileSetCursor::new(self)
    }

    /// Always visits in PhaseOffset-order, guaranteed
    #[verifier::spinoff_prover]
    #[verifier::rlimit(60)]
    pub fn visit(&self, range: Range<PacketIdx>) -> (r: Result<Vec<VisitTask>, FileSetError>)
        requires
            forall|phase: u16|
                range.start.phase_of() <= phase < range.end.phase_of()
                    ==> #[trigger] self.phase_known(phase),
            ({
                let parts = packet::phases_from(range, self, range.start.phase_of() as int);
                forall|i: int|
                    0 <= i < parts.len() ==> (#[trigger] parts[i]).0 < self@.len()
                        && tree::well_placed(self@[parts[i].0 as int].tree)
            }),
        ensures
            ({
                let parts = packet::phases_from(range, self, range.start.phase_of() as int);
                match r {
                    Ok(tasks) => {
                        &&& !begins_behind_empty(range, self)
                        &&& forall|i: int|
                            0 <= i < parts.len() ==> part_present(self@, #[trigger] parts[i])
                        &&& tasks_view(tasks@) == visit_tasks(self@, parts)
                    },
                    Err(e) => {
                        &&& e == FileSetError::RangeNotPresent
                        &&& begins_behind_empty(range, self) || exists|i: int|
                            0 <= i < parts.len() && !part_present(self@, #[trigger] parts[i])
                    },
                }
            }),
    {
        let ghost parts = packet::phases_from(range, self, range.start.phase_of() as int);
        let first: u16 = range.start.phase();
        if first < range.end.phase() && range.start.index().0 > 0 {
            if self.max_offset_exclusive(first).is_none() {
                return Err(FileSetError::RangeNotPresent);
            }
        }
        let ranges = PacketIdx::phases(range, self);
        let mut out: Vec<VisitTask> = Vec::new();
        let mut i: usize = 0;
        assert(parts.take(0) =~= Seq::empty());
        assert(tasks_view(out@) =~= visit_tasks(self@, parts.take(0)));
        while i < ranges.len()
            invariant
                i <= parts.len(),
                parts == packet::phases_from(range, self, range.start.phase_of() as int),
                ranges@ == parts,
                !begins_behind_empty(range, self),
                forall|j: int|
                    0 <= j < parts.len() ==> (#[trigger] parts[j]).0 < self@.len()
                        && tree::well_placed(self@[parts[j].0 as int].tree),
                forall|j: int| 0 <= j < i ==> part_present(self@, #[trigger] parts[j]),
                tasks_view(out@) == visit_tasks(self@, parts.take(i as int)),
            decreases ranges.len() - i,
        {
            let phase: u16 = ranges[i].0;
            assert(parts[i as int].0 == phase);
            assert(self@[phase as int] == self.phases@[phase as int]@);
            let mut cwd: Vec<Vec<u8>> = Vec::new();
            cwd.push(copy_bytes(&self.phases[phase as usize].path));
            assert(names_of(cwd@) =~= seq![self@[phase as int].path]);
            let visited = self.phases[phase as usize].entry.visit(
                &mut cwd,
                phase,
                &ranges[i].1,
                &mut out,
            );
            if visited.is_err() {
                assert(!part_present(self@, parts[i as int]));
                return Err(FileSetError::RangeNotPresent);
            }
            assert(parts.take(i + 1).drop_last() =~= parts.take(i as int));
            i = i + 1;
        }
        assert(parts.take(i as int) =~= parts);
        Ok(out)
    }
}

} // verus!
