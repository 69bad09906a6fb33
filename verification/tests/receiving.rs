use std::ops::Range;

use bytes::Bytes;
use filecast::checksum::calculate_checksum;
use filecast::client::{sections_to_request, ClientProtocolHandler};
use filecast::client_state::{
    announcement, load_file_set, recv_batch_size, try_write, ClientError, ClientStateEnum,
};
use filecast::disk_read_engine::{ReadEngine, TaskRead};
use filecast::disk_writer::FileSetDiskWriter;
use filecast::file_set::{Entry, FileSet, FileSetError, FileSetPhaseEntry};
use filecast::file_set_wire::{describe, DescriptionError};
use filecast::messages::{Announce, LinkQualitySignal, Message, Payload, Request};
use filecast::peer::PeerAddrV4;
use filecast::sync::SyncState;
use filecast::{IndexInPhase, PacketIdx, PhaseOffset, RetransmitGeneration, SessionId};

const SESSION: SessionId = SessionId(7);
const SERVER: PeerAddrV4 = PeerAddrV4 { ip: 1, port: 2 };
const LAST: u64 = ((1 << 48) - 1) * 1369;

fn payload(phase: u16, index: u64, data: &[u8]) -> Payload {
    Payload {
        session_id: SESSION,
        retransmit_generation: RetransmitGeneration(1),
        index: PacketIdx::new(phase, IndexInPhase(index)),
        eof_approaching: PacketIdx::invalid(),
        data: Bytes::copy_from_slice(data),
    }
}

fn ranges(request: &Request) -> Vec<(u64, u64)> {
    request.sections.iter().map(|r| (r.start.0, r.end.0)).collect()
}

fn asked(missing: &[(u64, u64)], on_its_way: Option<(u64, u64)>) -> Vec<(u64, u64)> {
    let on_its_way = on_its_way.map(|(a, b)| PhaseOffset(a)..PhaseOffset(b));
    sections_to_request(&missing.to_vec(), &on_its_way)
        .into_iter()
        .map(|r| (r.start.0, r.end.0))
        .collect()
}

#[test]
fn requests_cover_what_is_missing() {
    assert_eq!(asked(&[], None), vec![]);
    assert_eq!(asked(&[(0, 1)], None), vec![(0, 1)]);
    assert_eq!(asked(&[(1369, 2738)], None), vec![(1, 2)]);
    assert_eq!(asked(&[(1368, 2739)], None), vec![(0, 3)]);
    // Holes in one packet are asked for once.
    assert_eq!(asked(&[(0, 10), (20, 30)], None), vec![(0, 1)]);
    assert_eq!(asked(&[(0, 10), (20, 3000)], None), vec![(0, 1), (1, 3)]);
    // No more than five ranges.
    let many: Vec<(u64, u64)> = (0..7).map(|i| (i * 13690, i * 13690 + 1)).collect();
    assert_eq!(asked(&many, None), vec![(0, 1), (10, 11), (20, 21), (30, 31), (40, 41)]);
}

#[test]
fn requests_leave_out_what_is_on_its_way() {
    let on_its_way = Some((1369, 1369 * 3));
    assert_eq!(asked(&[(1369, 1369 * 2)], on_its_way), vec![]);
    assert_eq!(asked(&[(0, 1369)], on_its_way), vec![(0, 1)]);
    assert_eq!(asked(&[(1369 * 3, 1369 * 4)], on_its_way), vec![(3, 4)]);
    assert_eq!(asked(&[(0, 1369 * 2)], on_its_way), vec![(0, 1)]);
    assert_eq!(asked(&[(1369, 1369 * 5)], on_its_way), vec![(3, 5)]);
    // What reaches beyond both ends is asked for behind the end only.
    assert_eq!(asked(&[(0, 1369 * 5)], on_its_way), vec![(3, 5)]);
}

#[test]
fn what_is_missing_behind_is_asked_for() {
    let missing = [(100, 3000), (4000, 4001), (8000, 20_000)];
    for to in (0..20_000).step_by(500) {
        let sections = asked(&missing, Some((0, to)));
        for &(start, end) in &missing {
            for x in (start..end).filter(|&x| x >= to) {
                let index = x / 1369;
                assert_eq!(sections.iter().filter(|s| s.0 <= index && index < s.1).count(), 1);
            }
        }
    }
}

#[test]
fn what_is_missing_before_is_asked_for() {
    // The packet at 1369 * 4 has come, and more is queued behind it.
    let missing = [(0, 1000), (1369 * 2, 1369 * 4), (1369 * 5, 1369 * 30)];
    let sections = asked(&missing, Some((1369 * 4, 1369 * 10)));
    assert_eq!(sections, vec![(0, 1), (2, 4), (10, 30)]);

    let mut c = ClientProtocolHandler::new(SESSION, &vec![(1, PhaseOffset(1369 * 30))]);
    let mut p = payload(1, 4, &[0; 1369]);
    p.eof_approaching = PacketIdx::new(1, IndexInPhase(10));
    let r = c.on_payload(1, p).request.unwrap();
    assert_eq!(ranges(&r), vec![(0, 4), (10, 30)]);
}

#[test]
fn the_last_bytes_of_a_file_complete_it() {
    // Three files, of 1016, 3016 and 17 bytes, in three packets.
    for order in [[0, 1, 2], [2, 1, 0], [1, 0, 2]] {
        let received = sample();
        let phases = received.get_phases_excluding_first_phase();
        let size = phases[0].1 .0;
        assert_eq!(size, 1016 + 3016 + 17);
        let mut client = ClientProtocolHandler::new(SESSION, &phases);
        let mut writer = FileSetDiskWriter::new(&received);
        let mut come = vec![false; size as usize];
        for index in order {
            let (start, end) = (index * 1369, (index * 1369 + 1369).min(size));
            let data = vec![0; (end - start) as usize];
            let order = client.on_payload(1, payload(1, index, &data)).write.unwrap();
            come[start as usize..end as usize].fill(true);
            for w in writer.write(order.dest, order.data, order.completed_range).unwrap() {
                let (from, to) = match w.path.last().unwrap().as_slice() {
                    b"a" => (0, 1016),
                    b"b" => (1016, 4032),
                    _ => (4032, 4049),
                };
                assert_eq!(w.finished.is_some(), come[from..to].iter().all(|c| *c));
            }
        }
    }
}

#[test]
fn a_client_begins_with_everything_missing() {
    let mut c = ClientProtocolHandler::new(
        SESSION,
        &vec![(1, PhaseOffset(5000)), (3, PhaseOffset(10))],
    );
    assert_eq!(c.missing.len(), 4);
    let r = c.on_timeout(1).unwrap();
    assert_eq!(ranges(&r), vec![(0, 4)]);
    assert_eq!((r.session_id, r.phase), (SESSION, 1));
    assert_eq!(r.retransmit_generation, RetransmitGeneration(0));
    assert_eq!(r.loss, LinkQualitySignal::KeepGoing);
    assert!(c.on_timeout(0).is_none());
    assert_eq!(ranges(&c.on_timeout(3).unwrap()), vec![(0, 1)]);
}

#[test]
fn packets_fill_a_phase() {
    let mut c = ClientProtocolHandler::new(SESSION, &vec![(1, PhaseOffset(4000))]);
    let full = [5; 1369];

    let r = c.on_payload(1, payload(1, 0, &full));
    let order = r.write.unwrap();
    assert_eq!(order.dest, PacketIdx::new(1, IndexInPhase(0)));
    assert_eq!(&order.data[..], &full);
    assert_eq!(order.completed_range, PhaseOffset(0)..PhaseOffset(1369));
    assert!(r.request.is_none() && !r.phase_done);
    assert_eq!(c.last_retransmit_generation, RetransmitGeneration(1));
    assert_eq!((c.loss, c.no_loss_counter), (LinkQualitySignal::KeepGoing, 1));

    // The same again is of no use.
    let r = c.on_payload(1, payload(1, 0, &full));
    assert!(r.write.is_none() && r.request.is_none() && !r.phase_done);
    assert_eq!(c.no_loss_counter, 1);

    let r = c.on_payload(1, payload(1, 2, &[6; 1262]));
    assert_eq!(r.write.unwrap().completed_range, PhaseOffset(2738)..PhaseOffset(LAST));
    let r = c.on_payload(1, payload(1, 1, &full));
    assert_eq!(r.write.unwrap().completed_range, PhaseOffset(0)..PhaseOffset(LAST));
    assert!(r.phase_done);
    assert!(c.on_timeout(1).is_none());
}

#[test]
fn phases_are_received_one_after_the_other() {
    let phases = vec![(2, PhaseOffset(2000)), (1, PhaseOffset(10))];
    let mut state = SyncState::new(SESSION, phases);
    assert_eq!(state.current(), Some(2));
    assert_eq!(ranges(&state.on_timeout().unwrap()), vec![(0, 2)]);
    for (phase, index, len, done) in
        [(1, 0, 10, false), (2, 1, 631, false), (2, 1, 631, false), (2, 0, 1369, true)]
    {
        let r = state.on_message(Message::Payload(payload(phase, index, &vec![1; len])));
        assert_eq!(r.phase_done, done);
    }
    assert_eq!(state.current(), Some(1));
    let r = state.on_timeout().unwrap();
    assert_eq!((r.phase, ranges(&r)), (1, vec![(0, 1)]));
    assert!(state.on_message(Message::Payload(payload(1, 0, &[1; 10]))).phase_done);
    assert_eq!(state.current(), None);
    assert!(state.handler.on_timeout(1).is_none() && state.handler.on_timeout(2).is_none());
}

#[test]
fn packets_that_cannot_be_taken() {
    let state = SyncState::new(SESSION, vec![(1, PhaseOffset(5000))]);
    let takeable = |p: Payload| state.is_takeable(&Message::Payload(p));
    assert!(takeable(payload(1, 0, &[1; 10])));
    assert!(takeable(payload(1, 9, &[])));
    assert!(!takeable(payload(1, 1, &[])));
    let mut p = payload(1, 0, &[1; 10]);
    p.eof_approaching = PacketIdx::new(1, IndexInPhase(3));
    assert!(takeable(p.clone()));
    p.eof_approaching = PacketIdx::new(2, IndexInPhase(3));
    assert!(!takeable(p.clone()));
    // It is no use anyway.
    p.index = PacketIdx::new(1, IndexInPhase(9));
    assert!(takeable(p.clone()));
    p.index = PacketIdx::new(1, IndexInPhase(0));
    p.session_id = SessionId(8);
    assert!(takeable(p));
    assert!(state.is_takeable(&Message::RequestAnnounce));
}

#[test]
fn other_messages_do_not_count() {
    let mut c = ClientProtocolHandler::new(SESSION, &vec![(1, PhaseOffset(4000))]);
    let mut stranger = payload(1, 0, &[1; 10]);
    stranger.session_id = SessionId(8);
    for message in [
        Message::RequestAnnounce,
        Message::Payload(stranger),
        Message::Payload(payload(2, 0, &[1; 10])),
    ] {
        let r = c.on_message(1, message);
        assert!(r.write.is_none() && r.request.is_none() && !r.phase_done);
    }
    assert_eq!(c.last_retransmit_generation, RetransmitGeneration(0));
    assert!(c.on_message(1, Message::Payload(payload(1, 0, &[1; 10]))).write.is_some());
    assert!(!c.is_useful(1, IndexInPhase(0), 10));
    assert!(c.is_useful(1, IndexInPhase(0), 11));
}

#[test]
fn a_hole_means_loss() {
    let mut c = ClientProtocolHandler::new(SESSION, &vec![(1, PhaseOffset(100_000))]);
    c.on_payload(1, payload(1, 0, &[0; 1369]));
    c.on_payload(1, payload(1, 2, &[0; 1369]));
    assert_eq!((c.loss, c.no_loss_counter), (LinkQualitySignal::LossDetected, 0));
    let r = c.on_timeout(1).unwrap();
    assert_eq!(r.loss, LinkQualitySignal::LossDetected);
    assert_eq!(ranges(&r), vec![(1, 2), (3, 74)]);
    assert_eq!(c.loss, LinkQualitySignal::KeepGoing);
}

#[test]
fn a_hundred_packets_without_loss_ask_for_more() {
    let mut c = ClientProtocolHandler::new(SESSION, &vec![(1, PhaseOffset(1_000_000))]);
    for i in 0..100 {
        c.on_payload(1, payload(1, i, &[0; 1369]));
    }
    assert_eq!((c.loss, c.no_loss_counter), (LinkQualitySignal::KeepGoing, 100));
    c.on_payload(1, payload(1, 100, &[0; 1369]));
    assert_eq!((c.loss, c.no_loss_counter), (LinkQualitySignal::IncreaseWindow, 0));
}

#[test]
fn the_end_of_a_burst_is_a_time_to_ask() {
    let mut c = ClientProtocolHandler::new(SESSION, &vec![(1, PhaseOffset(1369 * 40))]);
    c.on_payload(1, payload(1, 0, &[0; 1369]));
    let mut p = payload(1, 1, &[0; 1369]);
    p.eof_approaching = PacketIdx::new(1, IndexInPhase(15));
    let r = c.on_payload(1, p).request.unwrap();
    assert_eq!(ranges(&r), vec![(15, 40)]);
    // The packet is of generation 1.
    assert_eq!(r.retransmit_generation, RetransmitGeneration(2));
    assert_eq!(c.last_retransmit_generation, RetransmitGeneration(1));
    assert_eq!(c.on_timeout(1).unwrap().retransmit_generation, RetransmitGeneration(1));
    let mut p = payload(1, 2, &[0; 1369]);
    p.eof_approaching = PacketIdx::new(1, IndexInPhase(40));
    assert!(c.on_payload(1, p).request.is_none());
}

#[test]
fn old_generations_are_believed_in_the_end() {
    let mut c = ClientProtocolHandler::new(SESSION, &vec![(1, PhaseOffset(10))]);
    let mut see = |generation: u16| {
        let mut p = payload(1, 5, &[0; 10]);
        p.retransmit_generation = RetransmitGeneration(generation);
        c.on_payload(1, p);
        c.last_retransmit_generation.0
    };
    assert_eq!(see(1000), 1000);
    // The last hundred generations before count as old ones.
    assert_eq!(see(900), 1000);
    assert_eq!(see(898), 898);
    for _ in 0..100 {
        assert_eq!(see(890), 898);
    }
    assert_eq!(see(890), 890);
}

#[test]
fn batches() {
    assert_eq!(recv_batch_size(64), 2);
    assert_eq!(recv_batch_size(1), 64);
    assert_eq!(recv_batch_size(10), 7);
    assert_eq!(recv_batch_size(32), 2);
    assert_eq!(recv_batch_size(1000), 2);
}

fn announce(phases: u16, fileset_size: u64) -> Announce {
    Announce { session_id: SESSION, fileset_size, phases, file_count: 3, total_size_bytes: 4 }
}

#[test]
fn an_announcement_needs_a_path_for_each_phase() {
    assert_eq!(announcement(Message::Announce(announce(3, 4))), Some(announce(3, 4)));
    assert_eq!(announcement(Message::RequestAnnounce), None);
    match ClientStateEnum::on_announce(2, announce(3, 4), SERVER) {
        Ok(ClientStateEnum::AwaitingFileSet { session_id, phases, server, buf }) => {
            assert_eq!((session_id, phases, server), (SESSION, 3, SERVER));
            assert_eq!(buf, vec![0; 20]);
        }
        _ => panic!(),
    }
    match ClientStateEnum::on_announce(3, announce(3, 4), SERVER) {
        Err(ClientError::WrongNumberOfPaths { phases, paths }) => {
            assert_eq!((phases, paths), (3, 3))
        }
        _ => panic!(),
    }
}

fn file(name: &str, len: usize) -> Entry {
    Entry::create_file(name.as_bytes().to_vec(), len as u64, 0o644, false)
}

fn content(len: usize) -> Vec<u8> {
    (0..len).map(|i| (i * 31 + i / 256 + len) as u8).collect()
}

fn sample() -> FileSet {
    FileSet::new(vec![FileSetPhaseEntry {
        path: b"in".to_vec(),
        entry: Entry::create_directory(
            b"".to_vec(),
            vec![file("a", 1000), file("b", 3000), file("c", 1)],
        ),
    }])
}

#[test]
fn the_first_phase_gives_the_file_set() {
    let description = describe(&sample());
    let mut whole = description.to_vec();
    whole.extend_from_slice(&calculate_checksum(&description));
    let mut buf = vec![0; whole.len()];
    assert_eq!(try_write(&mut buf, PacketIdx::new(0, IndexInPhase(0)), &whole).unwrap(), true);
    assert!(matches!(
        try_write(&mut buf, PacketIdx::new(1, IndexInPhase(0)), &whole),
        Err(ClientError::WrongPhase)
    ));
    let set = load_file_set(&buf, &vec![b"out".to_vec()]).unwrap();
    assert_eq!(set.phases[1].path, b"out".to_vec());
    assert_eq!(&describe(&set)[..], &description[..]);
    match ClientStateEnum::on_file_set(set, SESSION, SERVER) {
        ClientStateEnum::Receiving { phases, fileset, session_id, server } => {
            assert_eq!(phases, vec![(1, PhaseOffset(4049))]);
            assert_eq!(fileset.num_phases(), 2);
            assert_eq!((session_id, server), (SESSION, SERVER));
        }
        _ => panic!(),
    }
    assert!(matches!(load_file_set(&buf, &vec![]), Err(ClientError::PhasesWithoutPaths)));
    buf[0] = 99;
    match load_file_set(&buf, &vec![]) {
        Err(ClientError::ChecksumMismatch { calculated, received }) => {
            assert_eq!(received, calculate_checksum(&description));
            assert_ne!(calculated, received);
        }
        _ => panic!(),
    }
    let mut nonsense = vec![1, 0, 0, 0, 0, 0, 0, 0, 3];
    nonsense.extend_from_slice(&calculate_checksum(&[1, 0, 0, 0, 0, 0, 0, 0, 3]));
    assert!(matches!(
        load_file_set(&nonsense, &vec![]),
        Err(ClientError::Description(DescriptionError::UnknownVariant))
    ));
}

#[test]
fn blocks_go_to_their_places() {
    let mut buf = vec![0; 1369 + 5];
    try_write(&mut buf, PacketIdx::new(0, IndexInPhase(1)), &[1, 2, 3]).unwrap();
    let mut expected = vec![0; 1374];
    expected[1369..1372].copy_from_slice(&[1, 2, 3]);
    assert_eq!(buf, expected);
}

fn path(names: &[&str]) -> Vec<Vec<u8>> {
    names.iter().map(|name| name.as_bytes().to_vec()).collect()
}

#[test]
fn a_packet_is_written_file_by_file() {
    let set = sample();
    let mut writer = FileSetDiskWriter::new(&set);
    let data: Vec<u8> = (0..1369).map(|i| i as u8).collect();
    let dest = PacketIdx::new(1, IndexInPhase(0));
    let none = PhaseOffset(0)..PhaseOffset(0);
    let writes = writer.write(dest, Bytes::from(data.clone()), none.clone()).unwrap();
    assert_eq!(writes.len(), 2);
    assert_eq!(writes[0].path, path(&["in", "", "a"]));
    assert_eq!((writes[0].open, writes[0].offset), (true, 0));
    assert_eq!(&writes[0].data[..], &data[..1000]);
    assert!(writes[0].finished.is_none());
    assert_eq!(writes[1].path, path(&["in", "", "b"]));
    assert_eq!((writes[1].open, writes[1].offset), (true, 0));
    assert_eq!(&writes[1].data[..], &data[1016..]);

    // The file stays open for the next packet.
    let dest = PacketIdx::new(1, IndexInPhase(1));
    let writes = writer.write(dest, Bytes::from(vec![9; 1369]), none.clone()).unwrap();
    assert_eq!(writes.len(), 1);
    assert_eq!((writes[0].open, writes[0].offset), (false, 353));

    // The first file is complete, with the checksum that has arrived.
    let dest = PacketIdx::new(1, IndexInPhase(0));
    let completed = PhaseOffset(0)..PhaseOffset(2738);
    let writes = writer.write(dest, Bytes::from(data.clone()), completed).unwrap();
    let finished = writes[0].finished.unwrap();
    assert_eq!(finished.size, 1000);
    assert_eq!(finished.sum, data[1000..1016]);
    let sum: [u8; 16] = data[1000..1016].try_into().unwrap();
    assert!(finished.is_intact(&sum));
    assert!(!finished.is_intact(&[0; 16]));
    assert!(writes[1].finished.is_none() && writes[1].open);

    let nothing = writer.write(PacketIdx::new(9, IndexInPhase(0)), Bytes::new(), none.clone());
    assert!(nothing.unwrap().is_empty());
    let some = || Bytes::from(vec![1]);
    assert_eq!(
        writer.write(PacketIdx::new(9, IndexInPhase(0)), some(), none.clone()).err(),
        Some(FileSetError::BadPhase)
    );
    assert_eq!(
        writer.write(PacketIdx::new(0, IndexInPhase(0)), some(), none).err(),
        Some(FileSetError::FileSetPhase)
    );
}

/// Sends the files of the sample from one end to the other, the packets in the given order.
fn transfer(order: &[u64]) {
    let lens = [1000, 3000, 1];
    let mut engine = ReadEngine::new(sample());
    let idx: Range<PacketIdx> =
        PacketIdx::new(1, IndexInPhase(0))..PacketIdx::new(1, IndexInPhase(3));
    let reads: Vec<TaskRead> = lens
        .iter()
        .map(|len| TaskRead { bytes: content(*len), whole: [0; 16] })
        .collect();
    let sent = engine.get_packets(RetransmitGeneration(0), SESSION, idx, &reads);
    assert_eq!(sent.len(), 3);

    let received = sample();
    let phases = received.get_phases_excluding_first_phase();
    let mut client = ClientProtocolHandler::new(SESSION, &phases);
    let mut writer = FileSetDiskWriter::new(&received);
    let mut disk: std::collections::HashMap<Vec<Vec<u8>>, Vec<u8>> = Default::default();
    let mut intact = 0;
    let mut done = false;
    for i in order {
        let reaction = client.on_payload(1, sent[*i as usize].clone());
        let order = reaction.write.unwrap();
        for w in writer.write(order.dest, order.data, order.completed_range).unwrap() {
            let bytes = disk.entry(w.path.clone()).or_default();
            let end = w.offset as usize + w.data.len();
            if bytes.len() < end {
                bytes.resize(end, 0);
            }
            bytes[w.offset as usize..end].copy_from_slice(&w.data);
            if let Some(finished) = w.finished {
                bytes.resize(finished.size as usize, 0);
                assert!(finished.is_intact(&calculate_checksum(bytes)));
                intact += 1;
            }
        }
        done = reaction.phase_done;
    }
    assert!(done);
    assert_eq!(intact, 3);
    for (name, len) in [("a", 1000), ("b", 3000), ("c", 1)] {
        assert_eq!(disk[&path(&["in", "", name])], content(len));
    }
}

#[test]
fn what_is_sent_arrives() {
    transfer(&[0, 1, 2]);
    transfer(&[2, 1, 0]);
    transfer(&[1, 2, 0]);
    transfer(&[2, 0, 1]);
}
