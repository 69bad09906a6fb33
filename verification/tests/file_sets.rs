use std::sync::Arc;

use filecast::checksum::{calculate_checksum, hasher_checksum, AtomicChecksum};
use filecast::file_set::{
    Entry, FileSet, FileSetError, FileSetPhaseEntry, OwnedSource, OwnedSourceId, RDirectory, RFile,
    Source, VisitTask,
};
use filecast::file_set_wire::{describe, parse, DescriptionError};
use filecast::tree::Kind;
use filecast::{IndexInPhase, PacketIdx, PhaseOffset, PhaseSize};

fn file(name: &str, len: u64) -> Entry {
    Entry::create_file(name.as_bytes().to_vec(), len, 0o644, false)
}

fn directory(name: &str, files: Vec<Entry>) -> Entry {
    Entry::create_directory(name.as_bytes().to_vec(), files)
}

fn phase(path: &str, entry: Entry) -> FileSetPhaseEntry {
    FileSetPhaseEntry { path: path.as_bytes().to_vec(), entry }
}

/// Files of 1016, 3016 and 116 bytes, checksums included.
fn sample() -> FileSet {
    FileSet::new(vec![phase(
        "/sample",
        directory(
            "",
            vec![
                file("a", 1000),
                directory("empty", vec![]),
                directory("sub", vec![file("b", 3000)]),
                file("c", 100),
            ],
        ),
    )])
}

fn path(names: &[&str]) -> Vec<Vec<u8>> {
    names.iter().map(|name| name.as_bytes().to_vec()).collect()
}

fn show(task: &VisitTask) -> (u16, u64, u64, Option<Vec<Vec<u8>>>, u64, u64) {
    let source = match &task.source {
        OwnedSource::Path(path) => Some(path.clone()),
        OwnedSource::FileSet(_) => None,
    };
    (task.phase, task.range.start.0, task.range.end.0, source, task.offset, task.file_size)
}

#[test]
fn atomic_checksum() {
    let mut sum = AtomicChecksum::new();
    sum.update([1, 2, 3, 4, 5, 6, 7, 8, 9, 10, 11, 12, 13, 14, 15, 16]);
    assert_eq!(sum.bytes(), [1, 2, 3, 4, 5, 6, 7, 8, 9, 10, 11, 12, 13, 14, 15, 16]);

    sum.partial_update(15, &[1]);
    assert_eq!(sum.bytes(), [1, 2, 3, 4, 5, 6, 7, 8, 9, 10, 11, 12, 13, 14, 15, 1]);
    sum.partial_update(11, &[1, 2]);
    assert_eq!(sum.bytes(), [1, 2, 3, 4, 5, 6, 7, 8, 9, 10, 11, 1, 2, 14, 15, 1]);
}

#[test]
fn checksums_begin_as_zeroes_and_come_in_pieces() {
    let whole = calculate_checksum(b"some content");
    let mut sum = AtomicChecksum::default();
    assert_eq!(sum.bytes(), [0; 16]);
    sum.partial_update(9, &whole[9..]);
    sum.partial_update(0, &whole[..9]);
    assert_eq!(sum.bytes(), whole);
}

#[test]
fn checksum_values() {
    assert_eq!(
        calculate_checksum(b""),
        [
            0xaf, 0x13, 0x49, 0xb9, 0xf5, 0xf9, 0xa1, 0xa6, 0xa0, 0x40, 0x4d, 0xea, 0x36, 0xdc,
            0xc9, 0x49
        ]
    );
    assert_eq!(calculate_checksum(b"abc"), blake3::hash(b"abc").as_bytes()[..16]);
    let mut hasher = blake3::Hasher::new();
    hasher.update(b"a").update(b"bc");
    assert_eq!(hasher_checksum(&hasher), calculate_checksum(b"abc"));
}

#[test]
fn files_are_laid_one_after_the_other() {
    let set = sample();
    assert_eq!(set.num_phases(), 2);
    let Entry::Directory(root) = &set.phases[1].entry else { panic!() };
    let starts: Vec<u64> = root.files.iter().map(|e| e.first_offset().0).collect();
    assert_eq!(starts, vec![0, 1016, 1016, 4032]);
    let ends: Vec<u64> = root.files.iter().map(|e| e.last_offset_exclusive().0).collect();
    assert_eq!(ends, vec![1016, 1016, 4032, 4148]);
    assert_eq!(set.phases[1].entry.file_count(), 3);
    assert_eq!(set.phases[1].entry.file_size(), 4148);
    assert_eq!(set.get_phases_excluding_first_phase(), vec![(1, PhaseOffset(4148))]);
    assert_eq!(set.max_offset_exclusive(1), Some(PhaseOffset(4148)));
    assert!(set.is_walkable());
    let Entry::File(a) = &root.files[0] else { panic!() };
    assert_eq!(a.range(), PhaseOffset(0)..PhaseOffset(1016));
    assert_eq!(a.kind, Kind::Normal);
    assert_eq!(root.files[2].name(), b"sub".to_vec());
    assert_eq!(set.phases[0].entry.name(), b"?fileset?".to_vec());
    assert_eq!(set.phases[0].path, b"?fileset?".to_vec());
}

#[test]
fn symlinks_are_files_of_their_own_kind() {
    let Entry::File(link) = Entry::create_file(b"l".to_vec(), 7, 0o777, true) else { panic!() };
    assert_eq!((link.size, link.kind, link.mode_bits), (23, Kind::Symlink, 0o777));
}

#[test]
fn an_empty_phase_has_no_size() {
    let set = FileSet::new(vec![phase("/nothing", directory("", vec![]))]);
    assert_eq!(set.max_offset_exclusive(1), None);
}

#[test]
fn visits_do_not_begin_behind_the_end_of_an_empty_phase() {
    let set = FileSet::new(vec![
        phase("/nothing", directory("", vec![])),
        phase("/something", file("f", 10)),
    ]);
    let visit = |first: u64| {
        set.visit(PacketIdx::new(1, IndexInPhase(first))..PacketIdx::new(2, IndexInPhase(1)))
    };
    let tasks = visit(0).unwrap();
    assert_eq!(tasks.iter().map(|t| t.phase).collect::<Vec<u16>>(), vec![2]);
    assert_eq!(visit(1).unwrap_err(), FileSetError::RangeNotPresent);
}

#[test]
fn sources() {
    let names = path(&["/sample", "a"]);
    let owned = Source::Path(&names).to_owned();
    assert_eq!(owned, OwnedSource::Path(names.clone()));
    assert_eq!(owned.to_owned_id(), OwnedSourceId::Path(names.clone()));
    let description: Arc<[u8]> = Arc::from(&b"xyz"[..]);
    let owned = Source::FileSet(&description).to_owned();
    assert_eq!(owned, OwnedSource::FileSet(description));
    assert_eq!(owned.to_owned_id(), OwnedSourceId::FileSet);
    assert!(OwnedSourceId::Path(names.clone()).same(&OwnedSourceId::Path(names.clone())));
    assert!(!OwnedSourceId::Path(names).same(&OwnedSourceId::FileSet));
}

#[test]
fn scan_home2() {
    let set = sample();
    let tasks = set
        .visit(PacketIdx::new(1, IndexInPhase(0))..PacketIdx::new(1, IndexInPhase(1000)))
        .unwrap();
    assert_eq!(
        tasks.iter().map(show).collect::<Vec<_>>(),
        vec![
            (1, 0, 1016, Some(path(&["/sample", "", "a"])), 0, 1016),
            (1, 1016, 4032, Some(path(&["/sample", "", "sub", "b"])), 0, 3016),
            (1, 4032, 4148, Some(path(&["/sample", "", "c"])), 0, 116),
        ]
    );

    let mut cursor = set.make_cursor();
    let need = cursor.seek(1, PhaseOffset(1000)).unwrap();
    assert_eq!(need.path, path(&["/sample", "", "a"]));
    assert_eq!((need.file_offset, need.file_size), (1000, 1016));
    assert_eq!(need.file_range, PhaseOffset(0)..PhaseOffset(1016));
    let need = cursor.seek(1, PhaseOffset(4000)).unwrap();
    assert_eq!(need.path, path(&["/sample", "", "sub", "b"]));
    assert_eq!((need.file_offset, need.file_size), (2984, 3016));
    let need = cursor.seek(1, PhaseOffset(4001)).unwrap();
    assert_eq!((need.file_offset, need.file_size), (2985, 3016));
    let need = cursor.seek(1, PhaseOffset(0)).unwrap();
    assert_eq!(need.path, path(&["/sample", "", "a"]));
    assert_eq!(need.file_offset, 0);
    assert_eq!(cursor.seek(0, PhaseOffset(0)).unwrap_err(), FileSetError::FileSetPhase);
    assert_eq!(cursor.seek(2, PhaseOffset(0)).unwrap_err(), FileSetError::BadPhase);
}

#[test]
fn visits_cover_parts_of_files() {
    let set = sample();
    let tasks = set
        .visit(PacketIdx::new(1, IndexInPhase(2))..PacketIdx::new(1, IndexInPhase(3)))
        .unwrap();
    assert_eq!(
        tasks.iter().map(show).collect::<Vec<_>>(),
        vec![
            (1, 2738, 4032, Some(path(&["/sample", "", "sub", "b"])), 1722, 3016),
            (1, 4032, 4107, Some(path(&["/sample", "", "c"])), 0, 116),
        ]
    );
    assert_eq!(
        set.visit(PacketIdx::new(1, IndexInPhase(4))..PacketIdx::new(1, IndexInPhase(5)))
            .unwrap_err(),
        FileSetError::RangeNotPresent
    );
}

#[test]
fn every_byte_is_found_by_the_cursor_where_visits_put_it() {
    let set = sample();
    let tasks = set
        .visit(PacketIdx::new(1, IndexInPhase(0))..PacketIdx::new(1, IndexInPhase(4)))
        .unwrap();
    let mut cursor = set.make_cursor();
    for offset in (0..4148).rev().chain(0..4148) {
        let need = cursor.seek(1, PhaseOffset(offset)).unwrap();
        let at = tasks
            .iter()
            .find(|t| t.range.start.0 <= offset && offset < t.range.end.0)
            .unwrap();
        assert_eq!(OwnedSource::Path(need.path), at.source);
        assert_eq!(need.file_offset, at.offset + offset - at.range.start.0);
    }
}

#[test]
fn paths_are_replaced() {
    let mut set = sample();
    assert_eq!(
        set.replace_phase_paths(&path(&["x", "y"])),
        Err(FileSetError::WrongNumberOfPaths)
    );
    assert_eq!(set.phases[1].path, b"/sample".to_vec());
    assert_eq!(set.replace_phase_paths(&path(&["out"])), Ok(()));
    assert_eq!(set.phases[1].path, b"out".to_vec());
    assert_eq!(set.phases[0].path, b"?fileset?".to_vec());
}

#[test]
fn description_bytes() {
    let set = FileSet::new(vec![phase("/x", directory("d", vec![file("f", 1)]))]);
    let mut expected = vec![2, 0, 0, 0, 0, 0, 0, 0];
    // The place of the description itself.
    expected.extend_from_slice(&[2, 0]);
    // The directory: offset, name, and one file.
    expected.push(1);
    expected.extend_from_slice(&[0; 8]);
    expected.extend_from_slice(&[1, 0, 0, 0, 0, 0, 0, 0, b'd']);
    expected.extend_from_slice(&[1, 0, 0, 0, 0, 0, 0, 0]);
    // The file: name, size, mode, offset and kind.
    expected.push(0);
    expected.extend_from_slice(&[1, 0, 0, 0, 0, 0, 0, 0, b'f']);
    expected.extend_from_slice(&[17, 0, 0, 0, 0, 0, 0, 0]);
    expected.extend_from_slice(&[0xa4, 1, 0, 0]);
    expected.extend_from_slice(&[0; 8]);
    expected.push(0);
    assert_eq!(&describe(&set)[..], &expected[..]);
}

#[test]
fn a_description_is_read_back() {
    let mut set = sample();
    let meta = set.calculate_meta_and_assign_fileset_buf();
    assert_eq!(meta.phases, 1);
    assert_eq!(meta.file_count, 3);
    assert_eq!(meta.total_size_bytes, 4148);
    assert_eq!(&meta.fileset_buf[..], &describe(&sample())[..]);
    let Entry::FileSet(Some(description)) = &set.phases[0].entry else { panic!() };
    assert_eq!(description, &meta.fileset_buf);

    let mut bytes = meta.fileset_buf.to_vec();
    bytes.extend_from_slice(b"0123456789abcdef");
    let read = parse(&bytes).unwrap();
    assert_eq!(read.num_phases(), 2);
    assert_eq!(read.phases[1].path, Vec::<u8>::new());
    assert_eq!(
        format!("{:?}", read.phases[1].entry),
        format!("{:?}", set.phases[1].entry)
    );
    assert_eq!(&describe(&read)[..], &meta.fileset_buf[..]);
    assert!(read.is_walkable());
    // With the description in its place, the first phase has bytes of its own.
    let described = describe(&set);
    assert_eq!(described.len(), meta.fileset_buf.len() + 8 + meta.fileset_buf.len());
    assert_eq!(&describe(&parse(&described).unwrap())[..], &described[..]);
}

#[test]
fn names_that_are_not_utf8_are_replaced() {
    let set = FileSet::new(vec![phase(
        "/x",
        Entry::create_file(vec![b'a', 0xff, b'b'], 0, 0, false),
    )]);
    let read = parse(&describe(&set)).unwrap();
    assert_eq!(read.phases[1].entry.name(), "a\u{fffd}b".as_bytes().to_vec());
}

#[test]
fn bad_descriptions() {
    let good = describe(&sample());
    for len in 0..good.len() {
        assert_eq!(parse(&good[..len]).unwrap_err(), DescriptionError::Truncated);
    }
    assert_eq!(
        parse(&[1, 0, 0, 0, 0, 0, 0, 0, 3]).unwrap_err(),
        DescriptionError::UnknownVariant
    );
    assert_eq!(
        parse(&[1, 0, 0, 0, 0, 0, 0, 0, 0, 1, 0, 0, 0, 0, 0, 0, 0, 0xff]).unwrap_err(),
        DescriptionError::BadName
    );
}

#[test]
fn misplaced_files_are_found_out() {
    let misplaced = |offset: u64, size: u64| FileSet {
        phases: vec![
            phase("", Entry::FileSet(None)),
            phase(
                "",
                Entry::Directory(RDirectory {
                    offset: PhaseOffset(0),
                    name: vec![],
                    files: vec![Entry::File(RFile {
                        name: vec![b'f'],
                        size,
                        mode_bits: 0,
                        offset: PhaseOffset(offset),
                        kind: Kind::Normal,
                    })],
                }),
            ),
        ],
    };
    assert!(misplaced(0, 16).is_walkable());
    assert!(!misplaced(1, 16).is_walkable());
    assert!(!misplaced(0, 15).is_walkable());
}

#[test]
fn sizes_that_cannot_be_counted() {
    let half = 1 << 63;
    let two = directory("", vec![file("a", half - 16), file("b", half - 17)]);
    assert_eq!(two.checked_size(), Some(u64::MAX));
    assert_eq!(FileSet::checked_total(&vec![phase("", two)]), Some(u64::MAX));
    let more = || directory("", vec![file("a", half - 16), file("b", half - 16)]);
    assert_eq!(more().checked_size(), None);
    assert_eq!(directory("", vec![more()]).checked_size(), None);
    assert_eq!(FileSet::checked_total(&vec![phase("", file("a", 1)), phase("", more())]), None);
    let phases = vec![phase("", file("a", half - 16)), phase("", file("b", half - 16))];
    assert_eq!(FileSet::checked_total(&phases), None);
    assert_eq!(FileSet::checked_total(&vec![]), Some(0));
}

#[test]
fn the_place_of_a_byte_does_not_depend_on_what_was_sought_before() {
    let set = sample();
    for offset in (0..4148).step_by(97) {
        let fresh = set.make_cursor().seek(1, PhaseOffset(offset)).unwrap();
        for before in (0..4148).step_by(101) {
            let mut cursor = set.make_cursor();
            cursor.seek(1, PhaseOffset(before)).unwrap();
            let need = cursor.seek(1, PhaseOffset(offset)).unwrap();
            assert_eq!(need.path, fresh.path);
            assert_eq!(need.file_offset, fresh.file_offset);
            assert_eq!(need.file_size, fresh.file_size);
            assert_eq!(need.file_range, fresh.file_range);
        }
    }
}
