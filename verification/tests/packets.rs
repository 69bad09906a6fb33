use std::ops::Range;

use bytes::{Bytes, BytesMut};
use filecast::file_set::{Entry, FileSet, FileSetPhaseEntry};
use filecast::packet::TooShort;
use filecast::util::{choose_mode, fast_hash, next_backoff, scan_step, Mode, ModeError, ScanStep, Wait};
use filecast::{
    byte_range, calculate_phase_offset, contains, overlaps, IndexInPhase, PacketIdx, PhaseOffset,
    RetransmitGeneration, SessionId, HEADER_SIZE, MTU, PAYLOAD_SIZE,
    PAYLOAD_SIZE_USIZE_WITHOUT_HASH,
};

#[test]
fn sizes_add_up() {
    assert_eq!(HEADER_SIZE, 31);
    assert_eq!(PAYLOAD_SIZE, 1369);
    assert_eq!(HEADER_SIZE + PAYLOAD_SIZE, MTU);
    assert_eq!(PAYLOAD_SIZE_USIZE_WITHOUT_HASH, 1353);
}

#[test]
fn generations_wrap_around() {
    assert_eq!(RetransmitGeneration(7).next(), RetransmitGeneration(8));
    assert_eq!(RetransmitGeneration(u16::MAX).next(), RetransmitGeneration(0));
}

#[test]
fn session_ids_are_drawn() {
    let ids: Vec<SessionId> = (0..8).map(|_| SessionId::make_random()).collect();
    assert!(ids.iter().any(|id| *id != ids[0]));
}

#[test]
fn packet_index_comes_apart() {
    let idx = PacketIdx::new(3, IndexInPhase(42));
    assert_eq!(idx, PacketIdx(3 * (1 << 48) + 42));
    assert_eq!(idx.phase(), 3);
    assert_eq!(idx.index(), IndexInPhase(42));
    assert_eq!(idx.label(), "#3.42");
    assert_eq!(PacketIdx(0).label(), "#0.0");
    assert_eq!(PacketIdx::invalid().label(), "#65535.281474976710655");
    assert_eq!(PacketIdx::invalid().phase(), u16::MAX);
}

#[test]
fn packet_indices_are_ordered_by_phase() {
    assert!(PacketIdx::new(1, IndexInPhase(1000)) < PacketIdx::new(2, IndexInPhase(0)));
    assert!(PacketIdx::new(2, IndexInPhase(3)) < PacketIdx::new(2, IndexInPhase(4)));
}

#[test]
fn saturating_sub_stays_in_phase() {
    let idx = PacketIdx::new(5, IndexInPhase(20));
    assert_eq!(idx.saturating_sub(IndexInPhase(14)), PacketIdx::new(5, IndexInPhase(6)));
    assert_eq!(idx.saturating_sub(IndexInPhase(21)), PacketIdx::new(5, IndexInPhase(0)));
}

#[test]
fn packet_index_bytes() {
    let mut buf = BytesMut::new();
    PacketIdx(0x0102_0304_0506_0708).serialize(&mut buf);
    assert_eq!(&buf[..], &[1, 2, 3, 4, 5, 6, 7, 8]);
    let mut bytes: Bytes = buf.freeze();
    assert_eq!(PacketIdx::deserialize(&mut bytes), Ok(PacketIdx(0x0102_0304_0506_0708)));
    assert!(bytes.is_empty());
    let mut short = Bytes::copy_from_slice(&[1, 2, 3]);
    assert_eq!(PacketIdx::deserialize(&mut short), Err(TooShort));
    assert_eq!(&short[..], &[1, 2, 3]);
}

#[test]
fn overlap_of_ranges() {
    assert_eq!(overlaps(0..10, 5..15), Some(5..10));
    assert_eq!(overlaps(5..15, 0..10), Some(5..10));
    assert_eq!(overlaps(0..20, 5..15), Some(5..15));
    assert_eq!(overlaps(0..5, 5..10), None);
    assert_eq!(overlaps(5..10, 0..5), None);
}

#[test]
fn containing_ranges() {
    assert!(contains(0..10, 2..10));
    assert!(!contains(0..10, 2..11));
    assert!(!contains(3..10, 2..5));
    assert!(contains(5..5, 7..7));
    assert!(contains(0..1, 7..7));
}

#[test]
fn packets_and_bytes() {
    assert_eq!(calculate_phase_offset(IndexInPhase(3)), PhaseOffset(4107));
    assert_eq!(
        byte_range(IndexInPhase(1)..IndexInPhase(3)),
        PhaseOffset(1369)..PhaseOffset(4107)
    );
    assert_eq!(PhaseOffset(1369).floor_index(), IndexInPhase(1));
    assert_eq!(PhaseOffset(1368).floor_index(), IndexInPhase(0));
    assert_eq!(PhaseOffset(1369).ceil_index(), IndexInPhase(1));
    assert_eq!(PhaseOffset(1370).ceil_index(), IndexInPhase(2));
    assert_eq!(PhaseOffset(0).ceil_index(), IndexInPhase(0));
    assert_eq!(PhaseOffset(10) + 5, PhaseOffset(15));
    assert_eq!(PhaseOffset(10) - PhaseOffset(4), 6);
}

/// A file set with one file per phase; its sizes include the checksum, and 0 means no file.
fn sized(sizes: &[u64]) -> FileSet {
    FileSet::new(
        sizes
            .iter()
            .map(|size| FileSetPhaseEntry {
                path: b"/x".to_vec(),
                entry: if *size == 0 {
                    Entry::create_directory(vec![], vec![])
                } else {
                    Entry::create_file(b"f".to_vec(), size - 16, 0, false)
                },
            })
            .collect(),
    )
}

fn phases(packets: Range<PacketIdx>, sizes: &[u64]) -> Vec<(u16, u64, u64)> {
    PacketIdx::phases(packets, &sized(sizes))
        .into_iter()
        .map(|(phase, range)| (phase, range.start.0, range.end.0))
        .collect()
}

#[test]
fn packet_ranges_split_by_phase() {
    let start = PacketIdx::new(1, IndexInPhase(2));
    assert_eq!(
        phases(start..PacketIdx::new(1, IndexInPhase(4)), &[9999]),
        vec![(1, 2738, 5476)]
    );
    assert_eq!(
        phases(start..PacketIdx::new(3, IndexInPhase(1)), &[5000, 100, 7000]),
        vec![(1, 2738, 5000), (2, 0, 100), (3, 0, 1369)]
    );
    assert_eq!(
        phases(start..PacketIdx::new(3, IndexInPhase(0)), &[5000, 0, 7000]),
        vec![(1, 2738, 5000)]
    );
    assert_eq!(phases(start..start, &[5000]), vec![]);
}

#[test]
fn quick_hash_values() {
    assert_eq!(fast_hash(b""), 0);
    assert_eq!(fast_hash(b"hello"), 0x1073_5254_cc0f_3cb2);
    assert_eq!(fast_hash(b"12345678"), 0x1e08_1f0e_515d_af65);
    assert_eq!(fast_hash(b"hello, multicast world"), 0x9896_17ca_7b9a_265c);
}

#[test]
fn waits_grow() {
    assert_eq!(next_backoff(0), (1, Wait::Yield));
    assert_eq!(next_backoff(1), (2, Wait::Sleep(2)));
    assert_eq!(next_backoff(5_000_000), (10_000_000, Wait::Sleep(10_000_000)));
    assert_eq!(next_backoff(8_000_000), (10_000_000, Wait::Sleep(10_000_000)));
}

#[test]
fn modes() {
    assert_eq!(choose_mode(1, 0), Ok(Mode::Send));
    assert_eq!(choose_mode(0, 2), Ok(Mode::Receive));
    assert_eq!(choose_mode(1, 1), Err(ModeError::Both));
    assert_eq!(choose_mode(0, 0), Err(ModeError::Neither));
}

#[test]
fn scanned_things() {
    assert_eq!(scan_step(true, false, false), ScanStep::File);
    assert_eq!(scan_step(false, true, false), ScanStep::File);
    assert_eq!(scan_step(false, false, true), ScanStep::Directory);
    assert_eq!(scan_step(false, false, false), ScanStep::Skip);
}
