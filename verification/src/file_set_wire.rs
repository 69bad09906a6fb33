//! The bytes that describe a file set, which servers send ahead of the files.
use std::sync::Arc;

use bytes::{Bytes, BytesMut};
use vstd::prelude::*;

use crate::file_set::{Entry, FileSet, FileSetPhaseEntry, RDirectory, RFile};
use crate::packet::PhaseOffset;
use crate::tree::{DirectoryModel, FileModel, Kind, Tree};
use crate::{buffers, endian, file_set, messages, tree, wire};

verus! {

/// Why bytes do not describe a file set.
#[derive(Clone, Copy, PartialEq, Eq, Debug, Structural)]
pub enum DescriptionError {
    /// The bytes end before the description does.
    Truncated,
    /// A tag names no variant.
    UnknownVariant,
    /// A name is not UTF-8.
    BadName,
}

/// What `String::from_utf8_lossy` makes of bytes that are not UTF-8.
pub uninterp spec fn replaced(name: Seq<u8>) -> Seq<u8>;

/// The UTF-8 that stands for a name: the name itself if it is UTF-8.
pub open spec fn utf8_name(name: Seq<u8>) -> Seq<u8> {
    if vstd::utf8::valid_utf8(name) {
        name
    } else {
        replaced(name)
    }
}

/// `String::from_utf8_lossy` keeps what is UTF-8, and makes UTF-8 of what is not.
#[verifier::external_body]
fn lossy(name: &[u8]) -> (r: Vec<u8>)
    ensures
        vstd::utf8::valid_utf8(name@) ==> r@ == name@,
        !vstd::utf8::valid_utf8(name@) ==> r@ == replaced(name@),
        vstd::utf8::valid_utf8(r@),
{
    String::from_utf8_lossy(name).into_owned().into_bytes()
}

/// `std::str::from_utf8` accepts UTF-8 and nothing else.
#[verifier::external_body]
fn is_utf8(name: &[u8]) -> (r: bool)
    ensures
        r == vstd::utf8::valid_utf8(name@),
{
    std::str::from_utf8(name).is_ok()
}

/// `Arc::from` makes shared bytes that are the same.
#[verifier::external_body]
fn share(data: &[u8]) -> (r: Arc<[u8]>)
    ensures
        r@ == data@,
{
    Arc::from(data)
}

/// Bytes behind their number.
pub open spec fn encode_bytes(data: Seq<u8>) -> Seq<u8> {
    endian::le_bytes(data.len(), 8) + data
}

/// The byte that stands for a kind of file.
pub open spec fn kind_tag(kind: Kind) -> nat {
    match kind {
        Kind::Normal => 0,
        Kind::Symlink => 1,
        Kind::FileSet => 2,
    }
}

/// The bytes of a file, after the tag.
pub open spec fn encode_file(f: FileModel) -> Seq<u8> {
    encode_bytes(utf8_name(f.name)) + (endian::le_bytes(f.size as nat, 8) + (endian::le_bytes(
        f.mode_bits as nat,
        4,
    ) + (endian::le_bytes(f.offset as nat, 8) + endian::le_bytes(kind_tag(f.kind), 1))))
}

/// The bytes of a directory, after the tag and before what it holds.
pub open spec fn encode_directory(offset: u64, name: Seq<u8>, count: nat) -> Seq<u8> {
    endian::le_bytes(offset as nat, 8) + (encode_bytes(utf8_name(name)) + endian::le_bytes(
        count,
        8,
    ))
}

/// The bytes of a tree: a one-byte tag, then the fields in order.
pub open spec fn encode_tree(t: Tree) -> Seq<u8>
    decreases t,
{
    match t {
        Tree::File(f) => endian::le_bytes(0, 1) + encode_file(f),
        Tree::Directory(d) => endian::le_bytes(1, 1) + (encode_directory(
            d.offset,
            d.name,
            d.files.len(),
        ) + encode_trees(d.files)),
        Tree::FileSet(None) => endian::le_bytes(2, 1) + endian::le_bytes(0, 1),
        Tree::FileSet(Some(description)) => endian::le_bytes(2, 1) + (endian::le_bytes(1, 1)
            + encode_bytes(description)),
    }
}

/// The bytes of some trees, one after the other.
pub open spec fn encode_trees(files: Seq<Tree>) -> Seq<u8>
    decreases files,
{
    if files.len() == 0 {
        Seq::empty()
    } else {
        encode_trees(files.drop_last()) + encode_tree(files.last())
    }
}

/// The trees of the phases of a file set.
pub open spec fn trees_in(set: Seq<file_set::PhaseModel>) -> Seq<Tree> {
    set.map_values(|phase: file_set::PhaseModel| phase.tree)
}

/// The bytes that describe a file set: how many phases there are, and the tree of each.
pub open spec fn encode_file_set(set: Seq<file_set::PhaseModel>) -> Seq<u8> {
    endian::le_bytes(set.len(), 8) + encode_trees(trees_in(set))
}

fn write_name(name: &Vec<u8>, output: &mut BytesMut)
    ensures
        buffers::buf_of(*final(output)) == buffers::buf_of(*old(output)) + encode_bytes(
            utf8_name(name@),
        ),
{
    let name = lossy(name.as_slice());
    wire::write_u64(output, name.len() as u64);
    wire::write_bytes(output, name.as_slice());
}

fn write_entry(entry: &Entry, output: &mut BytesMut)
    ensures
        buffers::buf_of(*final(output)) == buffers::buf_of(*old(output)) + encode_tree(entry@),
    decreases entry,
{
    match entry {
        Entry::File(f) => {
            wire::write_u8(output, 0);
            write_name(&f.name, output);
            wire::write_u64(output, f.size);
            wire::write_u32(output, f.mode_bits);
            wire::write_u64(output, f.offset.0);
            let tag: u8 = match f.kind {
                Kind::Normal => 0,
                Kind::Symlink => 1,
                Kind::FileSet => 2,
            };
            wire::write_u8(output, tag);
        },
        Entry::Directory(d) => {
            wire::write_u8(output, 1);
            wire::write_u64(output, d.offset.0);
            write_name(&d.name, output);
            wire::write_u64(output, d.files.len() as u64);
            assert(file_set::trees_of(d.files@).len() == d.files@.len());
            write_entries(&d.files, output);
        },
        Entry::FileSet(None) => {
            wire::write_u8(output, 2);
            wire::write_u8(output, 0);
        },
        Entry::FileSet(Some(description)) => {
            wire::write_u8(output, 2);
            wire::write_u8(output, 1);
            wire::write_u64(output, description.len() as u64);
            wire::write_bytes(output, description);
        },
    }
}

fn write_entries(files: &Vec<Entry>, output: &mut BytesMut)
    ensures
        buffers::buf_of(*final(output)) == buffers::buf_of(*old(output)) + encode_trees(
            file_set::trees_of(files@),
        ),
    decreases files@,
{
    let ghost all = file_set::trees_of(files@);
    let ghost head = buffers::buf_of(*output);
    let mut i: usize = 0;
    assert(all.take(0) =~= Seq::empty());
    assert(head + Seq::<u8>::empty() =~= head);
    while i < files.len()
        invariant
            i <= files@.len(),
            all == file_set::trees_of(files@),
            buffers::buf_of(*output) =~= head + encode_trees(all.take(i as int)),
        decreases files.len() - i,
    {
        assert(all[i as int] == files@[i as int]@);
        assert(all.take(i + 1).drop_last() =~= all.take(i as int));
        write_entry(&files[i], output);
        i = i + 1;
    }
    assert(all.take(i as int) =~= all);
}

/// The bytes that describe a file set.
pub fn describe(set: &FileSet) -> (r: Arc<[u8]>)
    ensures
        r@ == encode_file_set(set@),
{
    let mut output: BytesMut = BytesMut::new();
    let ghost all = trees_in(set@);
    wire::write_u64(&mut output, set.phases.len() as u64);
    let ghost head = buffers::buf_of(output);
    let mut i: usize = 0;
    assert(all.take(0) =~= Seq::empty());
    assert(head + Seq::<u8>::empty() =~= head);
    while i < set.phases.len()
        invariant
            i <= set.phases@.len(),
            all == trees_in(set@),
            buffers::buf_of(output) =~= head + encode_trees(all.take(i as int)),
        decreases set.phases.len() - i,
    {
        assert(all[i as int] == set.phases@[i as int].entry@);
        assert(all.take(i + 1).drop_last() =~= all.take(i as int));
        write_entry(&set.phases[i].entry, &mut output);
        i = i + 1;
    }
    assert(all.take(i as int) =~= all);
    let output = output.freeze();
    assert(buffers::bytes_of(output) =~= encode_file_set(set@));
    share(buffers::as_slice(&output))
}

/// Reads bytes behind their number: the bytes and the rest.
pub open spec fn take_bytes(input: Seq<u8>) -> Option<(Seq<u8>, Seq<u8>)> {
    match wire::take_le(input, 8) {
        None => None,
        Some((len, input)) => if input.len() < len {
            None
        } else {
            Some((input.take(len as int), input.skip(len as int)))
        },
    }
}

/// Reads a name: the name and the rest.
pub open spec fn take_name(input: Seq<u8>) -> Result<(Seq<u8>, Seq<u8>), DescriptionError> {
    match take_bytes(input) {
        None => Err(DescriptionError::Truncated),
        Some((name, rest)) => if vstd::utf8::valid_utf8(name) {
            Ok((name, rest))
        } else {
            Err(DescriptionError::BadName)
        },
    }
}

/// The kind of file that a byte stands for.
pub open spec fn kind_of_tag(tag: nat) -> Kind {
    if tag == 0 {
        Kind::Normal
    } else if tag == 1 {
        Kind::Symlink
    } else {
        Kind::FileSet
    }
}

/// Reads a file, after the tag: the file and the rest.
pub open spec fn take_file(input: Seq<u8>) -> Result<(FileModel, Seq<u8>), DescriptionError> {
    match take_name(input) {
        Err(e) => Err(e),
        Ok((name, input)) => match wire::take_le(input, 8) {
            None => Err(DescriptionError::Truncated),
            Some((size, input)) => match wire::take_le(input, 4) {
                None => Err(DescriptionError::Truncated),
                Some((mode_bits, input)) => match wire::take_le(input, 8) {
                    None => Err(DescriptionError::Truncated),
                    Some((offset, input)) => match wire::take_le(input, 1) {
                        None => Err(DescriptionError::Truncated),
                        Some((kind, input)) => if kind > 2 {
                            Err(DescriptionError::UnknownVariant)
                        } else {
                            Ok(
                                (
                                    FileModel {
                                        name,
                                        size: size as u64,
                                        mode_bits: mode_bits as u32,
                                        offset: offset as u64,
                                        kind: kind_of_tag(kind),
                                    },
                                    input,
                                ),
                            )
                        },
                    },
                },
            },
        },
    }
}

/// Reads the fields of a directory, after the tag and before what it holds.
pub open spec fn take_directory(input: Seq<u8>) -> Result<
    (u64, Seq<u8>, nat, Seq<u8>),
    DescriptionError,
> {
    match wire::take_le(input, 8) {
        None => Err(DescriptionError::Truncated),
        Some((offset, input)) => match take_name(input) {
            Err(e) => Err(e),
            Ok((name, input)) => match wire::take_le(input, 8) {
                None => Err(DescriptionError::Truncated),
                Some((count, input)) => Ok((offset as u64, name, count, input)),
            },
        },
    }
}

/// Reads the description of a file set within a description, after the tag. Any byte but one means
/// that there is none.
pub open spec fn take_description(input: Seq<u8>) -> Result<
    (Option<Seq<u8>>, Seq<u8>),
    DescriptionError,
> {
    match wire::take_le(input, 1) {
        None => Err(DescriptionError::Truncated),
        Some((there, input)) => if there != 1 {
            Ok((None, input))
        } else {
            match take_bytes(input) {
                None => Err(DescriptionError::Truncated),
                Some((description, input)) => Ok((Some(description), input)),
            }
        },
    }
}

/// Reads a tree: the tree and the rest.
pub open spec fn take_tree(input: Seq<u8>) -> Result<(Tree, Seq<u8>), DescriptionError>
    decreases input.len(), 0int,
{
    match wire::take_le(input, 1) {
        None => Err(DescriptionError::Truncated),
        Some((tag, rest)) => if tag == 0 {
            match take_file(rest) {
                Err(e) => Err(e),
                Ok((f, rest)) => Ok((Tree::File(f), rest)),
            }
        } else if tag == 1 {
            match take_directory(rest) {
                Err(e) => Err(e),
                Ok((offset, name, count, rest)) => if rest.len() >= input.len() {
                    Err(DescriptionError::Truncated)
                } else {
                    match take_trees(rest, count) {
                        Err(e) => Err(e),
                        Ok((files, rest)) => Ok(
                            (Tree::Directory(DirectoryModel { offset, name, files }), rest),
                        ),
                    }
                },
            }
        } else if tag == 2 {
            match take_description(rest) {
                Err(e) => Err(e),
                Ok((description, rest)) => Ok((Tree::FileSet(description), rest)),
            }
        } else {
            Err(DescriptionError::UnknownVariant)
        },
    }
}

/// Reads `count` trees: the trees and the rest. Each tree takes up bytes.
pub open spec fn take_trees(input: Seq<u8>, count: nat) -> Result<
    (Seq<Tree>, Seq<u8>),
    DescriptionError,
>
    decreases input.len(), 1int,
{
    if count == 0 {
        Ok((Seq::empty(), input))
    } else {
        match take_tree(input) {
            Err(e) => Err(e),
            Ok((t, rest)) => if rest.len() >= input.len() {
                Err(DescriptionError::Truncated)
            } else {
                match take_trees(rest, (count - 1) as nat) {
                    Err(e) => Err(e),
                    Ok((files, rest)) => Ok((seq![t] + files, rest)),
                }
            },
        }
    }
}

/// The file set that some bytes describe. Where the files of the phases are is not part of the
/// description, and bytes behind the description do not count.
pub open spec fn decode_file_set(input: Seq<u8>) -> Result<
    Seq<file_set::PhaseModel>,
    DescriptionError,
> {
    match wire::take_le(input, 8) {
        None => Err(DescriptionError::Truncated),
        Some((count, input)) => match take_trees(input, count) {
            Err(e) => Err(e),
            Ok((trees, _)) => Ok(
                trees.map_values(
                    |t: Tree| file_set::PhaseModel { path: Seq::empty(), tree: t },
                ),
            ),
        },
    }
}

proof fn lemma_take_shrinks(input: Seq<u8>)
    ensures
        take_bytes(input) matches Some((_, rest)) ==> rest.len() + 8 <= input.len(),
        take_file(input) matches Ok((_, rest)) ==> rest.len() < input.len(),
        take_directory(input) matches Ok((_, _, _, rest)) ==> rest.len() < input.len(),
        take_description(input) matches Ok((_, rest)) ==> rest.len() < input.len(),
{
}

fn read_bytes(input: &mut Bytes) -> (r: Option<Bytes>)
    ensures
        match take_bytes(buffers::bytes_of(*old(input))) {
            Some((data, rest)) => r is Some && buffers::bytes_of(r->Some_0) == data
                && buffers::bytes_of(*final(input)) == rest,
            None => r is None,
        },
{
    let len: u64 = match wire::read_u64(input) {
        Ok(len) => len,
        Err(_) => return None,
    };
    if len > input.len() as u64 {
        return None;
    }
    Some(input.split_to(len as usize))
}

fn read_name(input: &mut Bytes) -> (r: Result<Vec<u8>, DescriptionError>)
    ensures
        match take_name(buffers::bytes_of(*old(input))) {
            Ok((name, rest)) => r is Ok && r->Ok_0@ == name && buffers::bytes_of(*final(input))
                == rest,
            Err(e) => r is Err && r->Err_0 == e,
        },
{
    match read_bytes(input) {
        None => Err(DescriptionError::Truncated),
        Some(data) => {
            let name: &[u8] = buffers::as_slice(&data);
            if is_utf8(name) {
                let mut r: Vec<u8> = Vec::new();
                r.extend_from_slice(name);
                assert(r@ =~= name@);
                Ok(r)
            } else {
                Err(DescriptionError::BadName)
            }
        },
    }
}

fn read_file(input: &mut Bytes) -> (r: Result<RFile, DescriptionError>)
    ensures
        match take_file(buffers::bytes_of(*old(input))) {
            Ok((f, rest)) => r is Ok && file_set::tree_of(Entry::File(r->Ok_0)) == Tree::File(f)
                && buffers::bytes_of(*final(input)) == rest,
            Err(e) => r is Err && r->Err_0 == e,
        },
{
    let name: Vec<u8> = match read_name(input) {
        Ok(name) => name,
        Err(e) => return Err(e),
    };
    let size: u64 = match wire::read_u64(input) {
        Ok(n) => n,
        Err(_) => return Err(DescriptionError::Truncated),
    };
    let mode_bits: u32 = match wire::read_u32(input) {
        Ok(n) => n,
        Err(_) => return Err(DescriptionError::Truncated),
    };
    let offset: u64 = match wire::read_u64(input) {
        Ok(n) => n,
        Err(_) => return Err(DescriptionError::Truncated),
    };
    let tag: u8 = match wire::read_u8(input) {
        Ok(n) => n,
        Err(_) => return Err(DescriptionError::Truncated),
    };
    let kind: Kind = if tag == 0 {
        Kind::Normal
    } else if tag == 1 {
        Kind::Symlink
    } else if tag == 2 {
        Kind::FileSet
    } else {
        return Err(DescriptionError::UnknownVariant);
    };
    Ok(RFile { name, size, mode_bits, offset: PhaseOffset(offset), kind })
}

fn read_description(input: &mut Bytes) -> (r: Result<Entry, DescriptionError>)
    ensures
        match take_description(buffers::bytes_of(*old(input))) {
            Ok((description, rest)) => r is Ok && file_set::tree_of(r->Ok_0) == Tree::FileSet(
                description,
            ) && buffers::bytes_of(*final(input)) == rest,
            Err(e) => r is Err && r->Err_0 == e,
        },
{
    let there: u8 = match wire::read_u8(input) {
        Ok(n) => n,
        Err(_) => return Err(DescriptionError::Truncated),
    };
    if there != 1 {
        return Ok(Entry::FileSet(None));
    }
    match read_bytes(input) {
        None => Err(DescriptionError::Truncated),
        Some(data) => Ok(Entry::FileSet(Some(share(buffers::as_slice(&data))))),
    }
}

fn read_entry(input: &mut Bytes) -> (r: Result<Entry, DescriptionError>)
    ensures
        match take_tree(buffers::bytes_of(*old(input))) {
            Ok((t, rest)) => r is Ok && file_set::tree_of(r->Ok_0) == t && buffers::bytes_of(
                *final(input),
            ) == rest && rest.len() < buffers::bytes_of(*old(input)).len(),
            Err(e) => r is Err && r->Err_0 == e,
        },
    decreases buffers::bytes_of(*old(input)).len(), 0int,
{
    let ghost all = buffers::bytes_of(*input);
    let tag: u8 = match wire::read_u8(input) {
        Ok(tag) => tag,
        Err(_) => return Err(DescriptionError::Truncated),
    };
    proof {
        lemma_take_shrinks(buffers::bytes_of(*input));
    }
    if tag == 0 {
        match read_file(input) {
            Ok(f) => Ok(Entry::File(f)),
            Err(e) => Err(e),
        }
    } else if tag == 1 {
        let offset: u64 = match wire::read_u64(input) {
            Ok(n) => n,
            Err(_) => return Err(DescriptionError::Truncated),
        };
        let name: Vec<u8> = match read_name(input) {
            Ok(name) => name,
            Err(e) => return Err(e),
        };
        let count: u64 = match wire::read_u64(input) {
            Ok(n) => n,
            Err(_) => return Err(DescriptionError::Truncated),
        };
        match read_entries(input, count) {
            Ok(files) => Ok(
                Entry::Directory(RDirectory { offset: PhaseOffset(offset), name, files }),
            ),
            Err(e) => Err(e),
        }
    } else if tag == 2 {
        read_description(input)
    } else {
        Err(DescriptionError::UnknownVariant)
    }
}

fn read_entries(input: &mut Bytes, count: u64) -> (r: Result<Vec<Entry>, DescriptionError>)
    ensures
        match take_trees(buffers::bytes_of(*old(input)), count as nat) {
            Ok((files, rest)) => r is Ok && file_set::trees_of(r->Ok_0@) == files
                && buffers::bytes_of(*final(input)) == rest && rest.len() <= buffers::bytes_of(
                *old(input),
            ).len(),
            Err(e) => r is Err && r->Err_0 == e,
        },
    decreases buffers::bytes_of(*old(input)).len(), 1int,
{
    let ghost all = buffers::bytes_of(*input);
    let mut files: Vec<Entry> = Vec::new();
    let mut left: u64 = count;
    assert(file_set::trees_of(files@) =~= Seq::empty());
    while left > 0
        invariant
            left <= count,
            buffers::bytes_of(*input).len() <= all.len(),
            all == buffers::bytes_of(*old(input)),
            match take_trees(buffers::bytes_of(*input), left as nat) {
                Ok((more, rest)) => take_trees(all, count as nat) == Ok::<
                    (Seq<Tree>, Seq<u8>),
                    DescriptionError,
                >((file_set::trees_of(files@) + more, rest)),
                Err(e) => take_trees(all, count as nat) == Err::<
                    (Seq<Tree>, Seq<u8>),
                    DescriptionError,
                >(e),
            },
        decreases left,
    {
        let ghost before = buffers::bytes_of(*input);
        let ghost held = file_set::trees_of(files@);
        match read_entry(input) {
            Ok(entry) => {
                let ghost t = entry@;
                files.push(entry);
                proof {
                    assert(file_set::trees_of(files@) =~= held.push(t));
                    match take_trees(buffers::bytes_of(*input), (left - 1) as nat) {
                        Ok((more, rest)) => {
                            assert(held + (seq![t] + more) =~= held.push(t) + more);
                        },
                        Err(_) => {},
                    }
                }
            },
            Err(e) => return Err(e),
        }
        left = left - 1;
    }
    assert(file_set::trees_of(files@) + Seq::<Tree>::empty() =~= file_set::trees_of(files@));
    Ok(files)
}

/// The file set that some bytes describe. The phases have no paths yet.
pub fn parse(data: &[u8]) -> (r: Result<FileSet, DescriptionError>)
    ensures
        match decode_file_set(data@) {
            Ok(set) => r is Ok && r->Ok_0@ == set,
            Err(e) => r is Err && r->Err_0 == e,
        },
{
    let mut input: Bytes = Bytes::copy_from_slice(data);
    let count: u64 = match wire::read_u64(&mut input) {
        Ok(count) => count,
        Err(_) => return Err(DescriptionError::Truncated),
    };
    let mut entries: Vec<Entry> = match read_entries(&mut input, count) {
        Ok(entries) => entries,
        Err(e) => return Err(e),
    };
    let ghost trees = file_set::trees_of(entries@);
    let mut set = FileSet { phases: Vec::new() };
    while entries.len() > 0
        invariant
            trees.len() == set.phases@.len() + entries@.len(),
            forall|i: int|
                0 <= i < entries@.len() ==> file_set::tree_of(#[trigger] entries@[i])
                    == trees[set.phases@.len() + i],
            forall|i: int|
                0 <= i < set.phases@.len() ==> (#[trigger] set.phases@[i])@ == (
                file_set::PhaseModel { path: Seq::empty(), tree: trees[i] }),
        decreases entries@.len(),
    {
        let ghost before = entries@;
        let entry = entries.remove(0);
        set.phases.push(FileSetPhaseEntry { path: Vec::new(), entry });
        assert forall|i: int| 0 <= i < entries@.len() implies file_set::tree_of(
            #[trigger] entries@[i],
        ) == trees[set.phases@.len() + i] by {
            assert(entries@[i] == before[i + 1]);
        }
    }
    assert(set@ =~= trees.map_values(
        |t: Tree| file_set::PhaseModel { path: Seq::empty(), tree: t },
    ));
    Ok(set)
}

/// All names are UTF-8, and all counts fit their eight bytes.
pub open spec fn describable(t: Tree) -> bool
    decreases t,
{
    match t {
        Tree::File(f) => vstd::utf8::valid_utf8(f.name) && f.name.len() <= u64::MAX,
        Tree::Directory(d) => {
            &&& vstd::utf8::valid_utf8(d.name)
            &&& d.name.len() <= u64::MAX
            &&& d.files.len() <= u64::MAX
            &&& forall|i: int| 0 <= i < d.files.len() ==> describable(#[trigger] d.files[i])
        },
        Tree::FileSet(Some(description)) => description.len() <= u64::MAX,
        Tree::FileSet(None) => true,
    }
}

proof fn lemma_take_bytes(data: Seq<u8>, rest: Seq<u8>)
    requires
        data.len() <= u64::MAX,
    ensures
        take_bytes(encode_bytes(data) + rest) == Some((data, rest)),
        encode_bytes(data).len() == data.len() + 8,
{
    endian::lemma_pow256_widths();
    wire::lemma_take_le(data.len(), 8, data + rest);
    assert(encode_bytes(data) + rest =~= endian::le_bytes(data.len(), 8) + (data + rest));
    assert((data + rest).take(data.len() as int) =~= data);
    assert((data + rest).skip(data.len() as int) =~= rest);
}

proof fn lemma_take_file(f: FileModel, rest: Seq<u8>)
    requires
        vstd::utf8::valid_utf8(f.name),
        f.name.len() <= u64::MAX,
    ensures
        take_file(encode_file(f) + rest) == Ok::<(FileModel, Seq<u8>), DescriptionError>((f, rest)),
        encode_file(f).len() > 0,
{
    endian::lemma_pow256_widths();
    let name = encode_bytes(f.name);
    let size = endian::le_bytes(f.size as nat, 8);
    let mode = endian::le_bytes(f.mode_bits as nat, 4);
    let offset = endian::le_bytes(f.offset as nat, 8);
    let kind = endian::le_bytes(kind_tag(f.kind), 1);
    let r4 = kind + rest;
    let r3 = offset + r4;
    let r2 = mode + r3;
    let r1 = size + r2;
    assert(encode_file(f) + rest =~= name + r1);
    lemma_take_bytes(f.name, r1);
    wire::lemma_take_le(f.size as nat, 8, r2);
    wire::lemma_take_le(f.mode_bits as nat, 4, r3);
    wire::lemma_take_le(f.offset as nat, 8, r4);
    wire::lemma_take_le(kind_tag(f.kind), 1, rest);
}

proof fn lemma_take_directory(offset: u64, name: Seq<u8>, count: nat, rest: Seq<u8>)
    requires
        vstd::utf8::valid_utf8(name),
        name.len() <= u64::MAX,
        count <= u64::MAX,
    ensures
        take_directory(encode_directory(offset, name, count) + rest) == Ok::<
            (u64, Seq<u8>, nat, Seq<u8>),
            DescriptionError,
        >((offset, name, count, rest)),
{
    endian::lemma_pow256_widths();
    let r2 = endian::le_bytes(count, 8) + rest;
    let r1 = encode_bytes(name) + r2;
    assert(encode_directory(offset, name, count) + rest =~= endian::le_bytes(offset as nat, 8)
        + r1);
    wire::lemma_take_le(offset as nat, 8, r1);
    lemma_take_bytes(name, r2);
    wire::lemma_take_le(count, 8, rest);
}

#[verifier::spinoff_prover]
#[verifier::rlimit(60)]
proof fn lemma_take_tree(t: Tree, rest: Seq<u8>)
    requires
        describable(t),
    ensures
        take_tree(encode_tree(t) + rest) == Ok::<(Tree, Seq<u8>), DescriptionError>((t, rest)),
        encode_tree(t).len() > 0,
    decreases t, 0int,
{
    endian::lemma_pow256_widths();
    let input = encode_tree(t) + rest;
    match t {
        Tree::File(f) => {
            assert(input =~= endian::le_bytes(0, 1) + (encode_file(f) + rest));
            wire::lemma_take_le(0, 1, encode_file(f) + rest);
            lemma_take_file(f, rest);
        },
        Tree::Directory(d) => {
            let head = encode_directory(d.offset, d.name, d.files.len());
            let r2 = encode_trees(d.files) + rest;
            assert(input =~= endian::le_bytes(1, 1) + (head + r2));
            wire::lemma_take_le(1, 1, head + r2);
            lemma_take_directory(d.offset, d.name, d.files.len(), r2);
            lemma_take_trees(d.files, rest);
            assert(t == Tree::Directory(
                DirectoryModel { offset: d.offset, name: d.name, files: d.files },
            ));
        },
        Tree::FileSet(None) => {
            assert(input =~= endian::le_bytes(2, 1) + (endian::le_bytes(0, 1) + rest));
            wire::lemma_take_le(2, 1, endian::le_bytes(0, 1) + rest);
            wire::lemma_take_le(0, 1, rest);
        },
        Tree::FileSet(Some(description)) => {
            let r2 = encode_bytes(description) + rest;
            assert(input =~= endian::le_bytes(2, 1) + (endian::le_bytes(1, 1) + r2));
            wire::lemma_take_le(2, 1, endian::le_bytes(1, 1) + r2);
            wire::lemma_take_le(1, 1, r2);
            lemma_take_bytes(description, rest);
        },
    }
}

proof fn lemma_encode_trees_front(files: Seq<Tree>)
    requires
        files.len() > 0,
    ensures
        encode_trees(files) == encode_tree(files[0]) + encode_trees(files.skip(1)),
    decreases files.len(),
{
    if files.len() == 1 {
        reveal_with_fuel(encode_trees, 2);
        assert(files.drop_last() =~= Seq::empty());
        assert(files.skip(1) =~= Seq::empty());
        assert(encode_trees(files.drop_last()) =~= Seq::empty());
        assert(encode_trees(files) =~= encode_tree(files[0]) + Seq::<u8>::empty());
    } else {
        lemma_encode_trees_front(files.drop_last());
        assert(files.drop_last().skip(1) =~= files.skip(1).drop_last());
        assert(files.skip(1).last() == files.last());
        assert(encode_trees(files) =~= encode_tree(files[0]) + (encode_trees(
            files.skip(1).drop_last(),
        ) + encode_tree(files.last())));
    }
}

proof fn lemma_take_trees(files: Seq<Tree>, rest: Seq<u8>)
    requires
        forall|i: int| 0 <= i < files.len() ==> describable(#[trigger] files[i]),
    ensures
        take_trees(encode_trees(files) + rest, files.len()) == Ok::<
            (Seq<Tree>, Seq<u8>),
            DescriptionError,
        >((files, rest)),
    decreases files, 1int,
{
    if files.len() == 0 {
        assert(encode_trees(files) + rest =~= rest);
        assert(files =~= Seq::empty());
    } else {
        let more = files.skip(1);
        lemma_encode_trees_front(files);
        let r1 = encode_trees(more) + rest;
        assert(encode_trees(files) + rest =~= encode_tree(files[0]) + r1);
        lemma_take_tree(files[0], r1);
        assert forall|i: int| 0 <= i < more.len() implies describable(#[trigger] more[i]) by {
            assert(more[i] == files[i + 1]);
        }
        assert(decreases_to!(files => more));
        lemma_take_trees(more, rest);
        assert(seq![files[0]] + more =~= files);
    }
}

/// A file set read back from its description is the same file set, but for the paths of its
/// phases, whatever follows the description.
pub proof fn law_file_set_roundtrip(set: Seq<file_set::PhaseModel>, rest: Seq<u8>)
    requires
        set.len() <= u64::MAX,
        forall|i: int| 0 <= i < set.len() ==> describable((#[trigger] set[i]).tree),
    ensures
        decode_file_set(encode_file_set(set) + rest) == Ok::<
            Seq<file_set::PhaseModel>,
            DescriptionError,
        >(
            set.map_values(
                |phase: file_set::PhaseModel|
                    file_set::PhaseModel { path: Seq::empty(), tree: phase.tree },
            ),
        ),
{
    endian::lemma_pow256_widths();
    let trees = trees_in(set);
    let r1 = encode_trees(trees) + rest;
    assert(encode_file_set(set) + rest =~= endian::le_bytes(set.len(), 8) + r1);
    wire::lemma_take_le(set.len(), 8, r1);
    assert forall|i: int| 0 <= i < trees.len() implies describable(#[trigger] trees[i]) by {
        assert(trees[i] == set[i].tree);
    }
    lemma_take_trees(trees, rest);
    assert(trees.map_values(|t: Tree| file_set::PhaseModel { path: Seq::empty(), tree: t })
        =~= set.map_values(
        |phase: file_set::PhaseModel|
            file_set::PhaseModel { path: Seq::empty(), tree: phase.tree },
    ));
}

/// A part of some bytes, between what comes before it and what comes behind it.
proof fn lemma_part(bytes: Seq<u8>, front: Seq<u8>, part: Seq<u8>, back: Seq<u8>)
    requires
        bytes == front + (part + back),
    ensures
        bytes.subrange(front.len() as int, (front.len() + part.len()) as int) == part,
        bytes.skip((front.len() + part.len()) as int) == back,
        bytes == (front + part) + back,
{
    assert(bytes.subrange(front.len() as int, (front.len() + part.len()) as int) =~= part);
    assert(bytes.skip((front.len() + part.len()) as int) =~= back);
    assert(bytes =~= (front + part) + back);
}

/// A number among some bytes.
proof fn lemma_number(bytes: Seq<u8>, front: Seq<u8>, n: nat, width: nat, back: Seq<u8>)
    requires
        bytes == front + (endian::le_bytes(n, width) + back),
        n < endian::pow256(width),
    ensures
        messages::field(bytes, front.len() as int, width as int) == n,
        endian::le_bytes(n, width).len() == width,
        bytes == (front + endian::le_bytes(n, width)) + back,
{
    endian::lemma_le_bytes_value(n, width);
    lemma_part(bytes, front, endian::le_bytes(n, width), back);
}

proof fn lemma_one_byte(n: nat)
    requires
        n < 256,
    ensures
        endian::le_bytes(n, 1) == seq![n as u8],
{
    reveal_with_fuel(endian::le_bytes, 2);
    assert(endian::le_bytes(n, 1) =~= seq![n as u8]);
}

/// The bytes of a file in a description: each field stands in its place, in little-endian order,
/// the name behind its length.
#[verifier::spinoff_prover]
pub proof fn law_places_in_a_file(f: FileModel)
    requires
        vstd::utf8::valid_utf8(f.name),
        f.name.len() <= u64::MAX,
    ensures
        ({
            let bytes = encode_tree(Tree::File(f));
            let n = f.name.len() as int;
            &&& bytes.len() == 30 + n
            &&& bytes[0] == 0
            &&& messages::field(bytes, 1, 8) == n
            &&& bytes.subrange(9, 9 + n) == f.name
            &&& messages::field(bytes, 9 + n, 8) == f.size
            &&& messages::field(bytes, 17 + n, 4) == f.mode_bits
            &&& messages::field(bytes, 21 + n, 8) == f.offset
            &&& bytes[29 + n] == match f.kind {
                Kind::Normal => 0u8,
                Kind::Symlink => 1u8,
                Kind::FileSet => 2u8,
            }
        }),
{
    endian::lemma_pow256_widths();
    let bytes = encode_tree(Tree::File(f));
    let n = f.name.len();
    lemma_one_byte(0);
    lemma_one_byte(kind_tag(f.kind));
    let b5 = endian::le_bytes(kind_tag(f.kind), 1);
    let b4 = endian::le_bytes(f.offset as nat, 8) + b5;
    let b3 = endian::le_bytes(f.mode_bits as nat, 4) + b4;
    let b2 = endian::le_bytes(f.size as nat, 8) + b3;
    let b1 = f.name + b2;
    let a0 = endian::le_bytes(0, 1);
    let a1 = a0 + endian::le_bytes(n, 8);
    let a2 = a1 + f.name;
    let a3 = a2 + endian::le_bytes(f.size as nat, 8);
    let a4 = a3 + endian::le_bytes(f.mode_bits as nat, 4);
    let a5 = a4 + endian::le_bytes(f.offset as nat, 8);
    assert(bytes =~= a0 + (endian::le_bytes(n, 8) + b1));
    lemma_number(bytes, a0, n, 8, b1);
    lemma_part(bytes, a1, f.name, b2);
    lemma_number(bytes, a2, f.size as nat, 8, b3);
    lemma_number(bytes, a3, f.mode_bits as nat, 4, b4);
    lemma_number(bytes, a4, f.offset as nat, 8, b5);
    assert(bytes == a5 + b5);
    assert(bytes[29 + n as int] == b5[0]);
}

/// The bytes of a directory in a description: each field stands in its place, in little-endian
/// order, the name behind its length; what the directory holds comes last, behind how much it is.
#[verifier::spinoff_prover]
pub proof fn law_places_in_a_directory(d: DirectoryModel)
    requires
        vstd::utf8::valid_utf8(d.name),
        d.name.len() <= u64::MAX,
        d.files.len() <= u64::MAX,
    ensures
        ({
            let bytes = encode_tree(Tree::Directory(d));
            let n = d.name.len() as int;
            &&& bytes.len() >= 25 + n
            &&& bytes[0] == 1
            &&& messages::field(bytes, 1, 8) == d.offset
            &&& messages::field(bytes, 9, 8) == n
            &&& bytes.subrange(17, 17 + n) == d.name
            &&& messages::field(bytes, 17 + n, 8) == d.files.len()
            &&& bytes.skip(25 + n) == encode_trees(d.files)
        }),
{
    endian::lemma_pow256_widths();
    let bytes = encode_tree(Tree::Directory(d));
    let n = d.name.len();
    lemma_one_byte(1);
    let b4 = encode_trees(d.files);
    let b3 = endian::le_bytes(d.files.len(), 8) + b4;
    let b2 = d.name + b3;
    let b1 = endian::le_bytes(n, 8) + b2;
    let a0 = endian::le_bytes(1, 1);
    let a1 = a0 + endian::le_bytes(d.offset as nat, 8);
    let a2 = a1 + endian::le_bytes(n, 8);
    let a3 = a2 + d.name;
    assert(bytes =~= a0 + (endian::le_bytes(d.offset as nat, 8) + b1));
    lemma_number(bytes, a0, d.offset as nat, 8, b1);
    lemma_number(bytes, a1, n, 8, b2);
    lemma_part(bytes, a2, d.name, b3);
    lemma_number(bytes, a3, d.files.len(), 8, b4);
    lemma_part(bytes, a3, endian::le_bytes(d.files.len(), 8), b4);
}

/// The bytes of a description: how many phases there are, and then the tree of each phase, in order.
pub proof fn law_places_in_a_description(set: Seq<file_set::PhaseModel>, i: int)
    requires
        set.len() <= u64::MAX,
        0 <= i < set.len(),
    ensures
        ({
            let bytes = encode_file_set(set);
            let before = encode_trees(trees_in(set).take(i));
            let own = encode_tree(set[i].tree);
            &&& messages::field(bytes, 0, 8) == set.len()
            &&& bytes.len() >= 8 + before.len() + own.len()
            &&& bytes.subrange(
                (8 + before.len()) as int,
                (8 + before.len() + own.len()) as int,
            ) == own
        }),
{
    endian::lemma_pow256_widths();
    let bytes = encode_file_set(set);
    let trees = trees_in(set);
    let count = endian::le_bytes(set.len(), 8);
    assert(bytes =~= Seq::<u8>::empty() + (count + encode_trees(trees)));
    lemma_number(bytes, Seq::empty(), set.len(), 8, encode_trees(trees));
    lemma_trees_split(trees, i + 1);
    assert(trees.take(i + 1).drop_last() =~= trees.take(i));
    assert(trees.take(i + 1).last() == set[i].tree);
    let before = encode_trees(trees.take(i));
    let own = encode_tree(set[i].tree);
    let rest = encode_trees(trees.skip(i + 1));
    assert(bytes =~= (count + before) + (own + rest));
    lemma_part(bytes, count + before, own, rest);
}

/// The bytes of trees come in the order of the trees.
proof fn lemma_trees_split(files: Seq<Tree>, n: int)
    requires
        0 <= n <= files.len(),
    ensures
        encode_trees(files) == encode_trees(files.take(n)) + encode_trees(files.skip(n)),
    decreases files.len(),
{
    if n < files.len() {
        let init = files.drop_last();
        lemma_trees_split(init, n);
        assert(init.take(n) =~= files.take(n));
        assert(init.skip(n) =~= files.skip(n).drop_last());
        assert(files.skip(n).last() == files.last());
        assert(encode_trees(files) =~= encode_trees(files.take(n)) + encode_trees(files.skip(n)));
    } else {
        assert(files.take(n) =~= files);
        assert(files.skip(n) =~= Seq::empty());
        assert(encode_trees(files) =~= encode_trees(files.take(n)) + encode_trees(files.skip(n)));
    }
}

proof fn lemma_taken_counts(input: Seq<u8>)
    ensures
        take_bytes(input) matches Some((data, _)) ==> data.len() <= u64::MAX,
        take_directory(input) matches Ok((_, _, count, _)) ==> count <= u64::MAX,
{
    endian::lemma_pow256_widths();
    if input.len() >= 8 {
        wire::lemma_take_le_front(input, 8);
    }
    if let Ok((_, _, count, _)) = take_directory(input) {
        let named = take_name(input.skip(8))->Ok_0.1;
        wire::lemma_take_le_front(named, 8);
    }
}

proof fn lemma_taken_tree(input: Seq<u8>)
    ensures
        take_tree(input) matches Ok((t, _)) ==> describable(t),
    decreases input.len(), 0int,
{
    if let Some((tag, rest)) = wire::take_le(input, 1) {
        lemma_taken_counts(rest);
        if tag == 1 {
            if let Ok((offset, name, count, inner)) = take_directory(rest) {
                lemma_taken_counts(rest.skip(8));
                if inner.len() < input.len() {
                    lemma_taken_trees(inner, count);
                }
            }
        } else if tag == 2 {
            lemma_taken_counts(rest.skip(1));
        }
    }
}

proof fn lemma_taken_trees(input: Seq<u8>, count: nat)
    ensures
        take_trees(input, count) matches Ok((files, _)) ==> files.len() == count && forall|i: int|
            0 <= i < files.len() ==> describable(#[trigger] files[i]),
    decreases input.len(), 1int,
{
    if count > 0 {
        lemma_taken_tree(input);
        if let Ok((t, rest)) = take_tree(input) {
            if rest.len() < input.len() {
                lemma_taken_trees(rest, (count - 1) as nat);
                if let Ok((files, _)) = take_trees(rest, (count - 1) as nat) {
                    let all = seq![t] + files;
                    assert forall|i: int| 0 <= i < all.len() implies describable(
                        #[trigger] all[i],
                    ) by {
                        if i > 0 {
                            assert(all[i] == files[i - 1]);
                        }
                    }
                }
            }
        }
    }
}

/// What is read from a description has names that are UTF-8, and as many phases as it says; so the
/// file set can be described again, and read back from that description.
pub proof fn law_read_file_set_is_describable(input: Seq<u8>, i: int)
    ensures
        decode_file_set(input) matches Ok(set) ==> {
            &&& set.len() == messages::field(input, 0, 8)
            &&& set.len() <= u64::MAX
            &&& 0 <= i < set.len() ==> describable(set[i].tree) && set[i].path == Seq::<u8>::empty()
        },
{
    endian::lemma_pow256_widths();
    if let Ok(set) = decode_file_set(input) {
        wire::lemma_take_le_front(input, 8);
        assert(input.take(8) =~= input.subrange(0, 8));
        let count = endian::le_value(input.take(8));
        lemma_taken_trees(input.skip(8), count);
    }
}

/// More bytes behind change nothing about what is read, but for what is left.
proof fn lemma_more_le(input: Seq<u8>, more: Seq<u8>, width: nat)
    ensures
        wire::take_le(input, width) matches Some((n, rest)) ==> wire::take_le(input + more, width)
            == Some((n, rest + more)),
{
    if input.len() >= width {
        assert((input + more).take(width as int) =~= input.take(width as int));
        assert((input + more).skip(width as int) =~= input.skip(width as int) + more);
    }
}

proof fn lemma_more_bytes(input: Seq<u8>, more: Seq<u8>)
    ensures
        take_bytes(input) matches Some((data, rest)) ==> take_bytes(input + more) == Some(
            (data, rest + more),
        ),
{
    lemma_more_le(input, more, 8);
    if let Some((len, rest)) = wire::take_le(input, 8) {
        if rest.len() >= len {
            assert((rest + more).take(len as int) =~= rest.take(len as int));
            assert((rest + more).skip(len as int) =~= rest.skip(len as int) + more);
        }
    }
}

proof fn lemma_more_file(input: Seq<u8>, more: Seq<u8>)
    ensures
        take_file(input) matches Ok((f, rest)) ==> take_file(input + more) == Ok::<
            (FileModel, Seq<u8>),
            DescriptionError,
        >((f, rest + more)),
{
    if take_file(input) is Ok {
        lemma_more_bytes(input, more);
        let i1 = take_name(input)->Ok_0.1;
        lemma_more_le(i1, more, 8);
        let i2 = wire::take_le(i1, 8)->Some_0.1;
        lemma_more_le(i2, more, 4);
        let i3 = wire::take_le(i2, 4)->Some_0.1;
        lemma_more_le(i3, more, 8);
        let i4 = wire::take_le(i3, 8)->Some_0.1;
        lemma_more_le(i4, more, 1);
    }
}

proof fn lemma_more_directory(input: Seq<u8>, more: Seq<u8>)
    ensures
        take_directory(input) matches Ok((offset, name, count, rest)) ==> take_directory(
            input + more,
        ) == Ok::<(u64, Seq<u8>, nat, Seq<u8>), DescriptionError>(
            (offset, name, count, rest + more),
        ),
{
    if take_directory(input) is Ok {
        lemma_more_le(input, more, 8);
        let i1 = wire::take_le(input, 8)->Some_0.1;
        lemma_more_bytes(i1, more);
        let i2 = take_name(i1)->Ok_0.1;
        lemma_more_le(i2, more, 8);
    }
}

proof fn lemma_more_description(input: Seq<u8>, more: Seq<u8>)
    ensures
        take_description(input) matches Ok((description, rest)) ==> take_description(input + more)
            == Ok::<(Option<Seq<u8>>, Seq<u8>), DescriptionError>((description, rest + more)),
{
    lemma_more_le(input, more, 1);
    if let Some((there, rest)) = wire::take_le(input, 1) {
        lemma_more_bytes(rest, more);
    }
}

proof fn lemma_more_tree(input: Seq<u8>, more: Seq<u8>)
    ensures
        take_tree(input) matches Ok((t, rest)) ==> take_tree(input + more) == Ok::<
            (Tree, Seq<u8>),
            DescriptionError,
        >((t, rest + more)),
    decreases input.len(), 0int,
{
    lemma_more_le(input, more, 1);
    if let Some((tag, rest)) = wire::take_le(input, 1) {
        lemma_more_file(rest, more);
        lemma_more_directory(rest, more);
        lemma_more_description(rest, more);
        if tag == 1 {
            if let Ok((offset, name, count, inner)) = take_directory(rest) {
                if inner.len() < input.len() {
                    lemma_more_trees(inner, count, more);
                }
            }
        }
    }
}

proof fn lemma_more_trees(input: Seq<u8>, count: nat, more: Seq<u8>)
    ensures
        take_trees(input, count) matches Ok((files, rest)) ==> take_trees(input + more, count)
            == Ok::<(Seq<Tree>, Seq<u8>), DescriptionError>((files, rest + more)),
    decreases input.len(), 1int,
{
    if count > 0 {
        lemma_more_tree(input, more);
        if let Ok((t, rest)) = take_tree(input) {
            if rest.len() < input.len() {
                lemma_more_trees(rest, (count - 1) as nat, more);
            }
        }
    }
}

/// A description that is cut short describes no file set.
pub proof fn law_cut_description_is_refused(set: Seq<file_set::PhaseModel>, k: int)
    requires
        set.len() <= u64::MAX,
        forall|i: int| 0 <= i < set.len() ==> describable((#[trigger] set[i]).tree),
        0 <= k < encode_file_set(set).len(),
    ensures
        decode_file_set(encode_file_set(set).take(k)) is Err,
{
    let bytes = encode_file_set(set);
    let cut = bytes.take(k);
    let more = bytes.skip(k);
    assert(cut + more =~= bytes);
    if decode_file_set(cut) is Ok {
        endian::lemma_pow256_widths();
        let trees = trees_in(set);
        wire::lemma_take_le(set.len(), 8, encode_trees(trees));
        lemma_more_le(cut, more, 8);
        let (count, inner) = wire::take_le(cut, 8)->Some_0;
        lemma_more_trees(inner, count, more);
        assert forall|i: int| 0 <= i < trees.len() implies describable(#[trigger] trees[i]) by {
            assert(trees[i] == set[i].tree);
        }
        lemma_take_trees(trees, Seq::empty());
        assert(encode_trees(trees) + Seq::<u8>::empty() =~= encode_trees(trees));
        let rest = take_trees(inner, count)->Ok_0.1;
        assert((rest + more).len() == 0);
    }
}

} // verus!
