use std::ops::Range;

use bytes::{Bytes, BytesMut};
use filecast::messages::{
    Announce, LinkQualitySignal, Message, MessageError, Payload, Request, PAYLOAD_HEADER_SIZE,
};
use filecast::sections::Sections;
use filecast::{IndexInPhase, PacketIdx, RetransmitGeneration, SessionId, MTU_USIZE};

fn roundtrip(message: Message) {
    let mut buf = BytesMut::new();
    message.msg_serialize(&mut buf);
    let roundtripped = Message::msg_deserialize(buf.freeze()).unwrap();
    assert_eq!(message, roundtripped);
}

fn sections(ranges: &[Range<u64>]) -> Sections {
    ranges.iter().map(|r| IndexInPhase(r.start)..IndexInPhase(r.end)).collect()
}

#[test]
fn roundtrip_messages() {
    roundtrip(Message::Request(Request {
        session_id: SessionId(42),
        retransmit_generation: RetransmitGeneration(37),
        phase: 3,
        sections: [IndexInPhase(0)..IndexInPhase(42)][..].iter().cloned().collect(),
        loss: LinkQualitySignal::IncreaseWindow,
    }));
    roundtrip(Message::Payload(Payload {
        session_id: SessionId(42),
        retransmit_generation: RetransmitGeneration(37),
        index: PacketIdx::new(42, IndexInPhase(0)),
        eof_approaching: PacketIdx::invalid(),
        data: b"hello"[..].into(),
    }));
    roundtrip(Message::Announce(Announce {
        session_id: SessionId(42),
        fileset_size: 2,
        phases: 1,
        file_count: 43,
        total_size_bytes: 44,
    }));
    roundtrip(Message::RequestAnnounce);
}

fn bytes_of(message: &Message) -> Vec<u8> {
    let mut buf = BytesMut::new();
    message.msg_serialize(&mut buf);
    buf.to_vec()
}

#[test]
fn request_bytes() {
    let message = Message::Request(Request {
        session_id: SessionId(0x0403_0201),
        phase: 0x0605,
        retransmit_generation: RetransmitGeneration(0x0807),
        loss: LinkQualitySignal::LossDetected,
        sections: sections(&[1..2]),
    });
    assert_eq!(
        bytes_of(&message),
        vec![
            0, 1, 2, 3, 4, 5, 6, 7, 8, 2, 1, 0, 0, 0, 0, 0, 0, 0, 1, 0, 0, 0, 0, 0, 0, 0, 2, 0, 0,
            0, 0, 0, 0, 0
        ]
    );
    assert_eq!(message.session_id(), Some(SessionId(0x0403_0201)));
}

#[test]
fn payload_bytes() {
    let message = Message::Payload(Payload {
        session_id: SessionId(1),
        retransmit_generation: RetransmitGeneration(2),
        index: PacketIdx(3),
        eof_approaching: PacketIdx(4),
        data: Bytes::copy_from_slice(&[9, 8]),
    });
    assert_eq!(
        bytes_of(&message),
        vec![
            1, 1, 0, 0, 0, 2, 0, 3, 0, 0, 0, 0, 0, 0, 0, 4, 0, 0, 0, 0, 0, 0, 0, 2, 0, 0, 0, 0, 0,
            0, 0, 9, 8
        ]
    );
}

#[test]
fn a_full_payload_fills_a_datagram() {
    let message = Message::Payload(Payload {
        session_id: SessionId(1),
        retransmit_generation: RetransmitGeneration(2),
        index: PacketIdx(3),
        eof_approaching: PacketIdx(4),
        data: Bytes::from(vec![0; 1369]),
    });
    assert_eq!(PAYLOAD_HEADER_SIZE, 31);
    assert_eq!(bytes_of(&message).len(), MTU_USIZE);
}

#[test]
fn announce_bytes() {
    assert_eq!(
        bytes_of(&Message::Announce(Announce {
            session_id: SessionId(1),
            fileset_size: 2,
            phases: 3,
            file_count: 4,
            total_size_bytes: 5,
        })),
        vec![
            2, 1, 0, 0, 0, 2, 0, 0, 0, 0, 0, 0, 0, 3, 0, 4, 0, 0, 0, 0, 0, 0, 0, 5, 0, 0, 0, 0, 0,
            0, 0
        ]
    );
    assert_eq!(bytes_of(&Message::RequestAnnounce), vec![3]);
    assert_eq!(Message::RequestAnnounce.session_id(), None);
}

#[test]
fn what_follows_a_message_does_not_count() {
    let message = Message::msg_deserialize(Bytes::copy_from_slice(&[3, 99, 99])).unwrap();
    assert_eq!(message, Message::RequestAnnounce);
}

#[test]
fn bad_messages() {
    assert_eq!(Message::msg_deserialize(Bytes::new()), Err(MessageError::Truncated));
    assert_eq!(
        Message::msg_deserialize(Bytes::copy_from_slice(&[4])),
        Err(MessageError::UnknownVariant)
    );
    assert_eq!(
        Message::msg_deserialize(Bytes::copy_from_slice(&[0, 1, 2, 3, 4, 5, 6, 7, 8, 3])),
        Err(MessageError::UnknownVariant)
    );
    let mut many = vec![0, 1, 2, 3, 4, 5, 6, 7, 8, 0, 6, 0, 0, 0, 0, 0, 0, 0];
    many.extend_from_slice(&[0; 96]);
    assert_eq!(
        Message::msg_deserialize(Bytes::from(many)),
        Err(MessageError::TooManySections)
    );
    let payload = bytes_of(&Message::Payload(Payload {
        session_id: SessionId(1),
        retransmit_generation: RetransmitGeneration(2),
        index: PacketIdx(3),
        eof_approaching: PacketIdx(4),
        data: Bytes::copy_from_slice(b"hello"),
    }));
    for len in 0..payload.len() {
        assert_eq!(
            Message::msg_deserialize(Bytes::copy_from_slice(&payload[..len])),
            Err(MessageError::Truncated)
        );
    }
}
