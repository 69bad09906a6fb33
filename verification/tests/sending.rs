use std::ops::Range;

use bytes::{Bytes, BytesMut};
use filecast::checksum::calculate_checksum;
use filecast::client::ClientProtocolHandler;
use filecast::disk_read_engine::{
    split_large_ranges, ReadEngine, TaskRead, WORK_DIVISION_LENGTH,
};
use filecast::file_set::{Entry, FileSet, FileSetPhaseEntry, OwnedSource};
use filecast::messages::{Announce, LinkQualitySignal, Message, MessageError, Payload, Request};
use filecast::meta::Meta;
use filecast::peer::{PeerAddr, PeerAddrV4, PeerAddrV6};
use filecast::send_queue::{max_buf_size, split_batch, Accumulate, SendQueue};
use filecast::server::{sections_disjoint, Pacing, SendOrder, ServerError, ServerLogicState};
use filecast::{IndexInPhase, PacketIdx, PhaseOffset, RetransmitGeneration, SessionId};

const SESSION: SessionId = SessionId(7);
const GENERATION: RetransmitGeneration = RetransmitGeneration(9);

fn content(name: &str, len: usize) -> Vec<u8> {
    (0..len).map(|i| (i * 7 + name.len() * 13 + i / 251) as u8).collect()
}

fn file(name: &str, len: usize) -> Entry {
    Entry::create_file(name.as_bytes().to_vec(), len as u64, 0o644, false)
}

/// A file set of one phase with three files.
fn sample() -> FileSet {
    FileSet::new(vec![FileSetPhaseEntry {
        path: b"/sample".to_vec(),
        entry: Entry::create_directory(
            b"".to_vec(),
            vec![file("a", 1000), file("bb", 3000), file("ccc", 0)],
        ),
    }])
}

/// What the files of the sample hold, checksums included, one after the other.
fn sample_bytes() -> Vec<u8> {
    let mut all = Vec::new();
    for (name, len) in [("a", 1000), ("bb", 3000), ("ccc", 0)] {
        let content = content(name, len);
        all.extend_from_slice(&content);
        all.extend_from_slice(&calculate_checksum(&content));
    }
    all
}

fn content_of(path: &[Vec<u8>]) -> Vec<u8> {
    let name = std::str::from_utf8(path.last().unwrap()).unwrap();
    let len = match name {
        "a" => 1000,
        "bb" => 3000,
        _ => 0,
    };
    content(name, len)
}

/// Reads what the tasks of a range need, straight from the contents.
fn reads(engine: &ReadEngine, idx: &Range<PacketIdx>) -> Vec<TaskRead> {
    let job = engine.start(GENERATION, SESSION, idx.clone());
    job.tasks
        .iter()
        .map(|task| match &task.source {
            OwnedSource::Path(path) => {
                let all = content_of(path);
                let start = (task.offset as usize).min(all.len());
                let len = (task.range.end.0 - task.range.start.0) as usize;
                let end = (start + len).min(all.len());
                TaskRead { bytes: all[start..end].to_vec(), whole: calculate_checksum(&all) }
            }
            OwnedSource::FileSet(_) => TaskRead { bytes: vec![], whole: [0; 16] },
        })
        .collect()
}

fn range(phase: u16, indices: Range<u64>) -> Range<PacketIdx> {
    PacketIdx::new(phase, IndexInPhase(indices.start))
        ..PacketIdx::new(phase, IndexInPhase(indices.end))
}

fn packets(engine: &mut ReadEngine, idx: Range<PacketIdx>) -> Vec<Payload> {
    let reads = reads(engine, &idx);
    engine.get_packets(GENERATION, SESSION, idx, &reads)
}

#[test]
fn read_engine() {
    let mut engine = ReadEngine::new(sample());
    let idx = range(1, 0..2);
    let reads = reads(&engine, &idx);
    let sent = engine.get_packets(RetransmitGeneration(0), SessionId(0), idx, &reads);
    let all = sample_bytes();
    assert_eq!(sent.len(), 2);
    for (k, p) in sent.iter().enumerate() {
        assert_eq!(p.session_id, SessionId(0));
        assert_eq!(p.retransmit_generation, RetransmitGeneration(0));
        assert_eq!(p.index, PacketIdx::new(1, IndexInPhase(k as u64)));
        assert_eq!(&p.data[..], &all[k * 1369..(k + 1) * 1369]);
    }
    assert_eq!(sent[0].eof_approaching, PacketIdx::new(1, IndexInPhase(2)));
    assert_eq!(sent[1].eof_approaching, PacketIdx::invalid());
}

/// Three phases: files, nothing, and one file.
fn three_phases() -> FileSet {
    let phase = |entry: Entry| FileSetPhaseEntry { path: b"/sample".to_vec(), entry };
    let files = vec![file("a", 1000), file("bb", 3000), file("ccc", 0)];
    FileSet::new(vec![
        phase(Entry::create_directory(b"".to_vec(), files)),
        phase(Entry::create_directory(b"none".to_vec(), vec![])),
        phase(file("bb", 3000)),
    ])
}

#[test]
fn no_packet_has_bytes_of_two_phases() {
    let mut engine = ReadEngine::new(three_phases());
    let mut last = content("bb", 3000);
    last.extend_from_slice(&calculate_checksum(&last));
    let idx = |a: (u16, u64), b: (u16, u64)| {
        PacketIdx::new(a.0, IndexInPhase(a.1))..PacketIdx::new(b.0, IndexInPhase(b.1))
    };
    let sent = packets(&mut engine, idx((1, 1), (3, 2)));
    let shown: Vec<(u16, u64)> =
        sent.iter().map(|p| (p.index.phase(), p.index.index().0)).collect();
    assert_eq!(shown, vec![(1, 1), (1, 2), (3, 0), (3, 1)]);
    let all = sample_bytes();
    assert_eq!(&sent[0].data[..], &all[1369..2738]);
    assert_eq!(&sent[1].data[..], &all[2738..4048]);
    assert_eq!(&sent[2].data[..], &last[..1369]);
    assert_eq!(&sent[3].data[..], &last[1369..2738]);
    let told: Vec<bool> =
        sent.iter().map(|p| p.eof_approaching != PacketIdx::invalid()).collect();
    assert_eq!(told, vec![false, false, true, false]);
    // A burst that begins with an empty phase begins with the next.
    let sent = packets(&mut engine, idx((2, 0), (3, 9)));
    assert_eq!(sent.len(), 3);
    assert_eq!(sent[0].index, PacketIdx::new(3, IndexInPhase(0)));
    assert_eq!(sent[2].data.len(), 3016 - 2 * 1369);
}

#[test]
fn packets_hold_the_bytes_of_the_phase() {
    let all = sample_bytes();
    assert_eq!(all.len(), 4048);
    for first in 0..3u64 {
        for last in first + 1..6 {
            let mut engine = ReadEngine::new(sample());
            // Whatever has been read before makes no difference.
            packets(&mut engine, range(1, 0..first + 1));
            let sent = packets(&mut engine, range(1, first..last));
            assert_eq!(sent.len() as u64, last.min(3) - first);
            for (k, p) in sent.iter().enumerate() {
                let start = (first as usize + k) * 1369;
                assert_eq!(&p.data[..], &all[start..(start + 1369).min(all.len())]);
            }
        }
    }
}

#[test]
fn only_unhashed_sources_are_hashed_again() {
    let mut engine = ReadEngine::new(sample());
    // The end of a file whose beginning has not been read.
    let job = engine.start(GENERATION, SESSION, range(1, 2..3));
    assert!(engine.needs_hash(&job));
    packets(&mut engine, range(1, 0..3));
    let job = engine.start(GENERATION, SESSION, range(1, 2..3));
    assert!(!engine.needs_hash(&job));
    let mut job = engine.start(GENERATION, SESSION, range(1, 2..3));
    let end = content("bb", 3000)[1722..].to_vec();
    let sent = engine.finish_task(&mut job, &end, &[0; 16]);
    assert_eq!(sent.len(), 0);
    // A file without bytes is never hashed on the way.
    assert!(engine.needs_hash(&job));
    let sent = engine.finish_task(&mut job, &[], &calculate_checksum(b""));
    assert_eq!(&sent[0].data[..], &sample_bytes()[2738..]);
    assert!(job.current().is_none());
}

#[test]
fn the_description_and_links_are_sent() {
    let mut set = FileSet::new(vec![FileSetPhaseEntry {
        path: b"/l".to_vec(),
        entry: Entry::create_file(b"link".to_vec(), 6, 0o777, true),
    }]);
    let meta = set.calculate_meta_and_assign_fileset_buf();
    let mut engine = ReadEngine::new(set);
    let sent = packets(&mut engine, range(0, 0..1));
    let mut expected = meta.fileset_buf.to_vec();
    expected.extend_from_slice(&calculate_checksum(&meta.fileset_buf));
    assert_eq!(&sent[0].data[..], &expected[..]);
    let read = TaskRead { bytes: b"target".to_vec(), whole: [0; 16] };
    let sent = engine.get_packets(GENERATION, SESSION, range(1, 0..1), &vec![read]);
    let mut expected = b"target".to_vec();
    expected.extend_from_slice(&calculate_checksum(b"target"));
    assert_eq!(&sent[0].data[..], &expected[..]);
}

#[test]
fn checksums_of_sources() {
    let mut engine = ReadEngine::new(sample());
    let path = OwnedSource::Path(vec![b"x".to_vec()]);
    assert_eq!(engine.get_checksum(&path), None);
    engine.absorb(&path, 0, b"abc", 5);
    engine.absorb(&path, 4, b"e", 5);
    assert_eq!(engine.get_checksum(&path), None);
    engine.absorb(&path, 1, b"bcde", 5);
    assert_eq!(engine.get_checksum(&path), Some(calculate_checksum(b"abcde")));
    let description = OwnedSource::FileSet(std::sync::Arc::from(&b"xyz"[..]));
    assert_eq!(engine.get_checksum(&description), Some(calculate_checksum(b"xyz")));
}

#[test]
fn successors() {
    let engine = ReadEngine::new(sample());
    assert_eq!(
        engine.successor(PacketIdx::new(1, IndexInPhase(2))),
        PacketIdx::new(1, IndexInPhase(3))
    );
    assert_eq!(
        engine.successor(PacketIdx::new(1, IndexInPhase(3))),
        PacketIdx::new(2, IndexInPhase(0))
    );
    // No packet is within an empty phase.
    let engine = ReadEngine::new(three_phases());
    assert_eq!(
        engine.successor(PacketIdx::new(2, IndexInPhase(0))),
        PacketIdx::new(3, IndexInPhase(0))
    );
}

#[test]
fn large_ranges_are_split() {
    let pieces = |start: u64, end: u64| -> Vec<(u64, u64)> {
        split_large_ranges(PhaseOffset(start)..PhaseOffset(end))
            .into_iter()
            .map(|r| (r.start.0, r.end.0))
            .collect()
    };
    assert_eq!(WORK_DIVISION_LENGTH, 81920);
    assert_eq!(pieces(5, 5), vec![]);
    assert_eq!(pieces(5, 6), vec![(5, 6)]);
    assert_eq!(pieces(0, 81920), vec![(0, 81920)]);
    assert_eq!(pieces(10, 170000), vec![(10, 81930), (81930, 163850), (163850, 170000)]);
}

#[test]
fn pacing_steps() {
    let mut pacing = Pacing::default();
    assert_eq!(pacing.buffer_size_packets, 15);
    pacing.report(LinkQualitySignal::KeepGoing);
    assert_eq!(pacing.buffer_size_packets, 15);
    pacing.report(LinkQualitySignal::IncreaseWindow);
    assert_eq!(pacing.buffer_size_packets, 30);
    pacing.report(LinkQualitySignal::IncreaseWindow);
    assert_eq!(pacing.buffer_size_packets, 52);
    pacing.report(LinkQualitySignal::LossDetected);
    assert_eq!(pacing.buffer_size_packets, 26);
    pacing.report(LinkQualitySignal::LossDetected);
    assert_eq!(pacing.buffer_size_packets, 15);
    for _ in 0..100 {
        pacing.report(LinkQualitySignal::IncreaseWindow);
    }
    assert_eq!(pacing.buffer_size_packets, 10000);
    for packets in [15, 16, 17, 9999, 10000] {
        let after = |signal: LinkQualitySignal| {
            let mut pacing = Pacing { buffer_size_packets: packets };
            pacing.report(signal);
            pacing.buffer_size_packets
        };
        assert_eq!(after(LinkQualitySignal::LossDetected) < packets, packets > 15);
        assert_eq!(after(LinkQualitySignal::IncreaseWindow) > packets, packets < 10000);
        assert_eq!(after(LinkQualitySignal::KeepGoing), packets);
    }
}

fn peer(port: u16) -> PeerAddr {
    PeerAddr::V4(PeerAddrV4 { ip: 0x7f00_0001, port })
}

fn server() -> ServerLogicState {
    let mut set = sample();
    let meta: Meta = set.calculate_meta_and_assign_fileset_buf();
    ServerLogicState::new(SESSION, meta, 0)
}

fn request(generation: u16, loss: LinkQualitySignal, sections: &[Range<u64>]) -> Request {
    Request {
        session_id: SESSION,
        phase: 1,
        retransmit_generation: RetransmitGeneration(generation),
        loss,
        sections: sections.iter().map(|r| IndexInPhase(r.start)..IndexInPhase(r.end)).collect(),
    }
}

fn show(orders: Vec<SendOrder>) -> Vec<(u16, u64, u64)> {
    orders
        .into_iter()
        .map(|o| {
            assert_eq!(o.range.start.phase(), 1);
            assert_eq!(o.range.end.phase(), 1);
            (o.generation.0, o.range.start.index().0, o.range.end.index().0)
        })
        .collect()
}

const MS: u64 = 1_000_000;

#[test]
fn a_request_is_answered_within_the_budget() {
    let mut s = server();
    let r = request(0, LinkQualitySignal::KeepGoing, &[0..4, 6..8, 10..30, 40..50]);
    assert!(s.is_processable(&r, peer(1), 200 * MS));
    let orders = s.process_request(r, peer(1), 200 * MS).unwrap();
    assert_eq!(show(orders), vec![(1, 0, 4), (1, 6, 8), (1, 10, 19)]);
    assert_eq!(s.current_retransmit_generation, RetransmitGeneration(1));
    assert_eq!(s.pack_leader, peer(1));
    assert_eq!(s.pack_leader_last_head, 200 * MS);
    let r = request(1, LinkQualitySignal::IncreaseWindow, &[0..100]);
    assert_eq!(show(s.process_request(r, peer(1), 210 * MS).unwrap()), vec![(2, 0, 30)]);
}

#[test]
fn empty_requests_are_refused() {
    let mut s = server();
    let r = request(0, LinkQualitySignal::KeepGoing, &[]);
    assert_eq!(s.process_request(r, peer(1), 0).err(), Some(ServerError::EmptyRequest));
}

#[test]
fn only_the_pack_leader_is_answered() {
    let mut s = server();
    let ask = |generation: u16, at: u64| {
        request(generation, LinkQualitySignal::KeepGoing, &[at..at + 1])
    };
    assert_eq!(show(s.process_request(ask(0, 50), peer(1), 101 * MS).unwrap()), vec![(1, 50, 51)]);
    // Another peer that is further on does not lead, but its request counts.
    assert_eq!(show(s.process_request(ask(1, 60), peer(2), 102 * MS).unwrap()), vec![]);
    assert_eq!(s.current_retransmit_generation, RetransmitGeneration(2));
    // One that is behind does.
    assert_eq!(show(s.process_request(ask(2, 40), peer(3), 103 * MS).unwrap()), vec![(3, 40, 41)]);
    assert_eq!(s.pack_leader, peer(3));
    assert_eq!(s.packet_leader_position, PacketIdx::new(1, IndexInPhase(40)));
    // And anyone does when the leader has been silent.
    assert_eq!(show(s.process_request(ask(3, 70), peer(2), 203 * MS).unwrap()), vec![]);
    let late = 203 * MS + 1;
    assert_eq!(show(s.process_request(ask(4, 70), peer(2), late).unwrap()), vec![(5, 70, 71)]);
}

#[test]
fn requests_of_other_generations_count_once_a_second() {
    let mut s = server();
    let r = || request(77, LinkQualitySignal::KeepGoing, &[0..1]);
    assert_eq!(show(s.process_request(r(), peer(1), 1000 * MS).unwrap()), vec![]);
    assert_eq!(s.current_retransmit_generation, RetransmitGeneration(0));
    assert_eq!(s.pack_leader, peer(1));
    let orders = s.process_request(r(), peer(1), 1000 * MS + 1).unwrap();
    assert_eq!(show(orders), vec![(1, 0, 1)]);
    assert_eq!(show(s.process_request(r(), peer(1), 1500 * MS).unwrap()), vec![]);
}

#[test]
fn requests_ahead_of_the_end_of_a_burst_count() {
    let mut s = server();
    let r = |generation: u16| request(generation, LinkQualitySignal::KeepGoing, &[0..1]);
    let now = 200 * MS;
    assert_eq!(show(s.process_request(r(0), peer(1), now).unwrap()), vec![(1, 0, 1)]);
    // The clients have seen packets of generation 1, and ask with the next.
    assert_eq!(show(s.process_request(r(2), peer(1), now).unwrap()), vec![(2, 0, 1)]);
    assert_eq!(show(s.process_request(r(3), peer(1), now).unwrap()), vec![(3, 0, 1)]);
    // They have no effect on the time of requests that are out of date.
    assert_eq!(s.time_when_last_out_of_date_retransmit_gen_accepted, 0);
    // Neither older ones nor those further on count.
    assert_eq!(show(s.process_request(r(2), peer(1), now).unwrap()), vec![]);
    assert_eq!(show(s.process_request(r(5), peer(1), now).unwrap()), vec![]);
    s.current_retransmit_generation = RetransmitGeneration(u16::MAX);
    assert_eq!(show(s.process_request(r(0), peer(1), now).unwrap()), vec![(0, 0, 1)]);
}

#[test]
fn bad_ranges_are_found_out_when_they_are_reached() {
    let s = server();
    let late = 200 * MS;
    let huge = 1u64 << 48;
    let check = |sections: &[Range<u64>]| {
        s.is_processable(&request(0, LinkQualitySignal::KeepGoing, sections), peer(1), late)
    };
    assert!(check(&[]));
    assert!(!check(&[huge..huge + 1]));
    assert!(!check(&[0..huge]));
    assert!(!check(&[5..4]));
    assert!(!check(&[0..4, 5..4]));
    assert!(check(&[0..15, 5..4]));
}

#[test]
fn overlapping_sections() {
    let r = |sections: &[Range<u64>]| request(0, LinkQualitySignal::KeepGoing, sections);
    assert!(sections_disjoint(&r(&[0..4, 4..8, 10..11])));
    assert!(!sections_disjoint(&r(&[0..4, 8..10, 3..5])));
}

fn bytes_of(message: Message) -> Bytes {
    let mut buf = BytesMut::new();
    message.msg_serialize(&mut buf);
    buf.freeze()
}

#[test]
fn messages_to_a_server() {
    let mut s = server();
    let v6 = PeerAddr::V6(PeerAddrV6 { ip: 1, port: 2, flowinfo: 3, scope_id: 4 });
    let action = s.receive_message(bytes_of(Message::RequestAnnounce), v6, 5).unwrap();
    assert!(action.orders.is_empty());
    let size = s.meta.fileset_buf.len() as u64;
    let announce = Announce {
        session_id: SESSION,
        fileset_size: size,
        phases: 2,
        file_count: 3,
        total_size_bytes: 4048,
    };
    assert_eq!(action.announce, Some(announce));

    let action = s.receive_message(bytes_of(Message::Announce(announce)), peer(1), 6).unwrap();
    assert!(action.orders.is_empty() && action.announce.is_none());

    let other = Announce { session_id: SessionId(8), ..announce };
    assert_eq!(
        s.receive_message(bytes_of(Message::Announce(other)), peer(1), 6).err(),
        Some(ServerError::CollidingSession)
    );
    assert_eq!(
        s.receive_message(Bytes::copy_from_slice(&[9]), peer(1), 6).err(),
        Some(ServerError::Message(MessageError::UnknownVariant))
    );
    let r = request(0, LinkQualitySignal::KeepGoing, &[]);
    assert_eq!(
        s.receive_message(bytes_of(Message::Request(r)), peer(1), 6).err(),
        Some(ServerError::EmptyRequest)
    );
    let r = request(0, LinkQualitySignal::KeepGoing, &[0..3]);
    let action = s.receive_message(bytes_of(Message::Request(r)), peer(1), 200 * MS).unwrap();
    assert_eq!(show(action.orders), vec![(1, 0, 3)]);
}

fn payload(index: u64, len: usize) -> Payload {
    Payload {
        session_id: SESSION,
        retransmit_generation: GENERATION,
        index: PacketIdx::new(1, IndexInPhase(index)),
        eof_approaching: PacketIdx::invalid(),
        data: Bytes::from(vec![index as u8; len]),
    }
}

#[test]
fn packets_are_collected_and_come_apart() {
    assert_eq!(max_buf_size(1), 1400);
    assert_eq!(max_buf_size(64), 65507);
    let mut acc = Accumulate::new(max_buf_size(4));
    assert!(acc.flush().is_none());
    assert!(!acc.send(payload(0, 1369)));
    assert!(!acc.send(payload(1, 1369)));
    assert!(!acc.send(payload(2, 1369)));
    assert!(acc.send(payload(3, 1369)));
    let bytes = acc.flush().unwrap();
    assert_eq!(bytes.len(), 4 * 1400);
    assert!(acc.flush().is_none());
    // A short packet ends a batch.
    assert!(!acc.send(payload(4, 1369)));
    assert!(acc.send(payload(5, 10)));
    let bytes = acc.flush().unwrap();
    assert_eq!(bytes.len(), 1400 + 41);
    acc.flush_failed(&bytes);
    assert_eq!(acc.flush().unwrap(), bytes);
    let pieces = split_batch(&bytes);
    let back: Vec<Message> =
        pieces.into_iter().map(|b| Message::msg_deserialize(b).unwrap()).collect();
    assert_eq!(
        back,
        vec![Message::Payload(payload(4, 1369)), Message::Payload(payload(5, 10))]
    );
    assert!(split_batch(&[]).is_empty());
}

#[test]
fn packets_leave_in_order() {
    let mut queue = SendQueue::new();
    let mut left = Vec::new();
    let d = queue.prepare(range(1, 10..14));
    assert!(d.packets.is_empty() && !d.flush);
    for (index, count, flush) in
        [(12, 0, false), (10, 1, false), (10, 0, false), (11, 2, false), (13, 1, true)]
    {
        let d = queue.add_payload(payload(index, 5));
        assert_eq!(d.packets.len(), count);
        assert_eq!(d.flush, flush);
        left.extend(d.packets);
    }
    assert_eq!(left, vec![payload(10, 5), payload(11, 5), payload(12, 5), payload(13, 5)]);
    let d = queue.prepare(range(1, 3..3));
    assert!(d.packets.is_empty() && d.flush);
}

#[test]
fn what_is_collected_fits_a_send() {
    for batch in 1..60 {
        let most = max_buf_size(batch);
        let mut acc = Accumulate::new(most);
        let mut collected = 0;
        for i in 0..100 {
            collected += 1;
            // Every seventh packet is a short one.
            let len = if i % 7 == 6 { 3 } else { 1369 };
            if acc.send(payload(i, len)) {
                let bytes = acc.flush().unwrap();
                assert!(bytes.len() <= most);
                assert_eq!(split_batch(&bytes).len(), collected);
                collected = 0;
            }
        }
    }
}

/// A phase of one file that takes a hundred packets, with its description.
fn described() -> FileSet {
    let mut set = FileSet::new(vec![FileSetPhaseEntry {
        path: b"/large".to_vec(),
        entry: file("large", 100 * 1369 - 16),
    }]);
    set.calculate_meta_and_assign_fileset_buf();
    set
}

#[test]
fn the_end_of_a_burst_is_told_once() {
    let mut engine = ReadEngine::new(described());
    let bytes = content("large", 100 * 1369 - 16);
    let idx = range(1, 20..60);
    let reads = vec![TaskRead { bytes: bytes[20 * 1369..60 * 1369].to_vec(), whole: [0; 16] }];
    let sent = engine.get_packets(GENERATION, SESSION, idx, &reads);
    assert_eq!(sent.len(), 40);
    for (k, p) in sent.iter().enumerate() {
        assert_eq!(p.data.len(), 1369);
        let told = if k == 40 - 14 {
            PacketIdx::new(1, IndexInPhase(60))
        } else {
            PacketIdx::invalid()
        };
        assert_eq!(p.eof_approaching, told);
    }
}

#[test]
fn what_cannot_be_read_is_found_out() {
    let engine = ReadEngine::new(described());
    assert!(engine.is_readable(&range(0, 0..1)));
    assert!(engine.is_readable(&range(1, 0..100)));
    assert!(engine.is_readable(&range(1, 99..1000)));
    assert!(!engine.is_readable(&range(1, 100..101)));
    assert!(!engine.is_readable(&range(2, 0..1)));
    assert!(!engine.is_readable(&(PacketIdx(1)..PacketIdx(0))));
    assert!(engine.is_readable(&range(1, 500..500)));
    let job = engine.start(GENERATION, SESSION, range(1, 99..1000));
    assert_eq!(job.chunk_size(), 1353);
    assert_eq!(job.current().unwrap().offset, 99 * 1369);
}

#[test]
fn a_server_can_process_what_clients_ask_for() {
    let server = server();
    let largest = ((1 << 48) - 1) * 1369;
    for size in [1, 1369, 5000, largest] {
        let client = ClientProtocolHandler::new(SESSION, &vec![(1, PhaseOffset(size))]);
        for on_its_way in [None, Some(PhaseOffset(0)..PhaseOffset(1369))] {
            if let Some(r) = client.make_request(1, RetransmitGeneration(0), &on_its_way) {
                assert!(server.is_processable(&r, peer(1), 200 * MS));
                assert!(sections_disjoint(&r));
            } else {
                assert!(size <= 1369 && on_its_way.is_some());
            }
        }
    }
}
