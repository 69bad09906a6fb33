//! The messages that servers and clients exchange, and their bytes on the wire.
use bytes::{Bytes, BytesMut};
use vstd::prelude::*;

use crate::packet::{
    PacketIdx, RetransmitGeneration, SessionId, MTU_USIZE, PAYLOAD_SIZE,
};
use crate::sections::Sections;
use crate::{buffers, endian, sections, wire};

verus! {

/// Size of a 0-payload `Message::Payload` message.
///
/// Includes Message tag and payload size field.
pub const PAYLOAD_HEADER_SIZE: u64 = 1 + 4 + 2 + 8 + 8 + 8;

/// What a client tells its server about the quality of the link.
#[derive(Clone, Copy, PartialEq, Eq, Debug, Structural)]
pub enum LinkQualitySignal {
    KeepGoing,
    IncreaseWindow,
    LossDetected,
}

/// A client asks for packets.
#[derive(PartialEq, Debug)]
pub struct Request {
    pub session_id: SessionId,
    pub phase: u16,
    pub retransmit_generation: RetransmitGeneration,
    /// Client did not receiver everything it wanted.
    pub loss: LinkQualitySignal,
    pub sections: Sections,
}

/// A server sends a packet.
#[derive(PartialEq, Eq, Debug)]
pub struct Payload {
    pub session_id: SessionId,
    pub retransmit_generation: RetransmitGeneration,
    pub index: PacketIdx,
    /// We're approaching the end of the batch, clients
    /// are encouraged to make new requests (with retransmit_generation + 1)
    ///
    /// The new request should start at the given packet index, to avoid retransmitting
    /// already queued stuff. The invalid packet index means that the end is not near.
    pub eof_approaching: PacketIdx,
    pub data: Bytes,
}

/// A server tells what it has.
#[derive(Clone, Copy, PartialEq, Eq, Debug, Structural)]
pub struct Announce {
    pub session_id: SessionId,
    pub fileset_size: u64,
    pub phases: u16,
    pub file_count: u64,
    pub total_size_bytes: u64,
}

/// What one datagram holds.
#[derive(PartialEq, Debug)]
pub enum Message {
    Request(Request),
    Payload(Payload),
    Announce(Announce),
    RequestAnnounce,
}

/// Why bytes are not a message.
#[derive(Clone, Copy, PartialEq, Eq, Debug, Structural)]
pub enum MessageError {
    /// The bytes end before the message does.
    Truncated,
    /// A tag names no variant.
    UnknownVariant,
    /// A request lists more packet ranges than a request can hold.
    TooManySections,
}

/// What a [`Request`] says.
pub struct RequestModel {
    pub session_id: SessionId,
    pub phase: u16,
    pub retransmit_generation: RetransmitGeneration,
    pub loss: LinkQualitySignal,
    pub sections: Seq<(u64, u64)>,
}

/// What a [`Payload`] says.
pub struct PayloadModel {
    pub session_id: SessionId,
    pub retransmit_generation: RetransmitGeneration,
    pub index: PacketIdx,
    pub eof_approaching: PacketIdx,
    pub data: Seq<u8>,
}

/// What a [`Message`] says.
pub enum MessageModel {
    Request(RequestModel),
    Payload(PayloadModel),
    Announce(Announce),
    RequestAnnounce,
}

impl View for Request {
    type V = RequestModel;

    open spec fn view(&self) -> RequestModel {
        RequestModel {
            session_id: self.session_id,
            phase: self.phase,
            retransmit_generation: self.retransmit_generation,
            loss: self.loss,
            sections: sections::sections_of(self.sections),
        }
    }
}

impl View for Payload {
    type V = PayloadModel;

    open spec fn view(&self) -> PayloadModel {
        PayloadModel {
            session_id: self.session_id,
            retransmit_generation: self.retransmit_generation,
            index: self.index,
            eof_approaching: self.eof_approaching,
            data: buffers::bytes_of(self.data),
        }
    }
}

impl View for Message {
    type V = MessageModel;

    open spec fn view(&self) -> MessageModel {
        match *self {
            Message::Request(r) => MessageModel::Request(r@),
            Message::Payload(p) => MessageModel::Payload(p@),
            Message::Announce(a) => MessageModel::Announce(a),
            Message::RequestAnnounce => MessageModel::RequestAnnounce,
        }
    }
}

impl Clone for Payload {
    fn clone(&self) -> (r: Self)
        ensures
            r@ == self@,
    {
        Payload {
            session_id: self.session_id,
            retransmit_generation: self.retransmit_generation,
            index: self.index,
            eof_approaching: self.eof_approaching,
            data: self.data.clone(),
        }
    }
}

/// The byte that stands for a link quality signal.
pub open spec fn loss_tag(loss: LinkQualitySignal) -> nat {
    match loss {
        LinkQualitySignal::KeepGoing => 0,
        LinkQualitySignal::IncreaseWindow => 1,
        LinkQualitySignal::LossDetected => 2,
    }
}

/// The bytes of a list of packet ranges: the start and the end of each, eight bytes each.
pub open spec fn encode_sections(list: Seq<(u64, u64)>) -> Seq<u8>
    decreases list.len(),
{
    if list.len() == 0 {
        Seq::empty()
    } else {
        endian::le_bytes(list[0].0 as nat, 8) + (endian::le_bytes(list[0].1 as nat, 8)
            + encode_sections(list.skip(1)))
    }
}

/// The bytes of a request, after the tag.
pub open spec fn encode_request(r: RequestModel) -> Seq<u8> {
    endian::le_bytes(r.session_id.0 as nat, 4) + (endian::le_bytes(r.phase as nat, 2) + (
    endian::le_bytes(r.retransmit_generation.0 as nat, 2) + (endian::le_bytes(loss_tag(r.loss), 1)
        + (endian::le_bytes(r.sections.len(), 8) + encode_sections(r.sections)))))
}

/// The bytes of a payload, after the tag.
pub open spec fn encode_payload(p: PayloadModel) -> Seq<u8> {
    endian::le_bytes(p.session_id.0 as nat, 4) + (endian::le_bytes(
        p.retransmit_generation.0 as nat,
        2,
    ) + (endian::le_bytes(p.index.0 as nat, 8) + (endian::le_bytes(p.eof_approaching.0 as nat, 8)
        + (endian::le_bytes(p.data.len(), 8) + p.data))))
}

/// The bytes of an announcement, after the tag.
pub open spec fn encode_announce(a: Announce) -> Seq<u8> {
    endian::le_bytes(a.session_id.0 as nat, 4) + (endian::le_bytes(a.fileset_size as nat, 8) + (
    endian::le_bytes(a.phases as nat, 2) + (endian::le_bytes(a.file_count as nat, 8)
        + endian::le_bytes(a.total_size_bytes as nat, 8))))
}

/// The bytes of a message: a one-byte tag, then the fields in order.
pub open spec fn encode_message(m: MessageModel) -> Seq<u8> {
    match m {
        MessageModel::Request(r) => endian::le_bytes(0, 1) + encode_request(r),
        MessageModel::Payload(p) => endian::le_bytes(1, 1) + encode_payload(p),
        MessageModel::Announce(a) => endian::le_bytes(2, 1) + encode_announce(a),
        MessageModel::RequestAnnounce => endian::le_bytes(3, 1),
    }
}

/// Reads `count` packet ranges.
pub open spec fn decode_sections(input: Seq<u8>, count: nat) -> Option<Seq<(u64, u64)>>
    decreases count,
{
    if count == 0 {
        Some(Seq::empty())
    } else {
        match wire::take_le(input, 8) {
            None => None,
            Some((start, input)) => match wire::take_le(input, 8) {
                None => None,
                Some((end, input)) => match decode_sections(input, (count - 1) as nat) {
                    None => None,
                    Some(rest) => Some(seq![(start as u64, end as u64)] + rest),
                },
            },
        }
    }
}

/// Reads a request, after the tag.
pub open spec fn decode_request(input: Seq<u8>) -> Result<RequestModel, MessageError> {
    match wire::take_le(input, 4) {
        None => Err(MessageError::Truncated),
        Some((session_id, input)) => match wire::take_le(input, 2) {
            None => Err(MessageError::Truncated),
            Some((phase, input)) => match wire::take_le(input, 2) {
                None => Err(MessageError::Truncated),
                Some((generation, input)) => match wire::take_le(input, 1) {
                    None => Err(MessageError::Truncated),
                    Some((loss, input)) => if loss > 2 {
                        Err(MessageError::UnknownVariant)
                    } else {
                        match wire::take_le(input, 8) {
                            None => Err(MessageError::Truncated),
                            Some((count, input)) => if count > sections::MAX_SECTIONS_PER_REQUEST {
                                Err(MessageError::TooManySections)
                            } else {
                                match decode_sections(input, count) {
                                    None => Err(MessageError::Truncated),
                                    Some(list) => Ok(
                                        RequestModel {
                                            session_id: SessionId(session_id as u32),
                                            phase: phase as u16,
                                            retransmit_generation: RetransmitGeneration(
                                                generation as u16,
                                            ),
                                            loss: if loss == 0 {
                                                LinkQualitySignal::KeepGoing
                                            } else if loss == 1 {
                                                LinkQualitySignal::IncreaseWindow
                                            } else {
                                                LinkQualitySignal::LossDetected
                                            },
                                            sections: list,
                                        },
                                    ),
                                }
                            },
                        }
                    },
                },
            },
        },
    }
}

/// Reads a payload, after the tag.
pub open spec fn decode_payload(input: Seq<u8>) -> Result<PayloadModel, MessageError> {
    match wire::take_le(input, 4) {
        None => Err(MessageError::Truncated),
        Some((session_id, input)) => match wire::take_le(input, 2) {
            None => Err(MessageError::Truncated),
            Some((generation, input)) => match wire::take_le(input, 8) {
                None => Err(MessageError::Truncated),
                Some((index, input)) => match wire::take_le(input, 8) {
                    None => Err(MessageError::Truncated),
                    Some((eof_approaching, input)) => match wire::take_le(input, 8) {
                        None => Err(MessageError::Truncated),
                        Some((len, input)) => if len > input.len() {
                            Err(MessageError::Truncated)
                        } else {
                            Ok(
                                PayloadModel {
                                    session_id: SessionId(session_id as u32),
                                    retransmit_generation: RetransmitGeneration(generation as u16),
                                    index: PacketIdx(index as u64),
                                    eof_approaching: PacketIdx(eof_approaching as u64),
                                    data: input.take(len as int),
                                },
                            )
                        },
                    },
                },
            },
        },
    }
}

/// Reads an announcement, after the tag.
pub open spec fn decode_announce(input: Seq<u8>) -> Result<Announce, MessageError> {
    match wire::take_le(input, 4) {
        None => Err(MessageError::Truncated),
        Some((session_id, input)) => match wire::take_le(input, 8) {
            None => Err(MessageError::Truncated),
            Some((fileset_size, input)) => match wire::take_le(input, 2) {
                None => Err(MessageError::Truncated),
                Some((phases, input)) => match wire::take_le(input, 8) {
                    None => Err(MessageError::Truncated),
                    Some((file_count, input)) => match wire::take_le(input, 8) {
                        None => Err(MessageError::Truncated),
                        Some((total_size_bytes, input)) => Ok(
                            Announce {
                                session_id: SessionId(session_id as u32),
                                fileset_size: fileset_size as u64,
                                phases: phases as u16,
                                file_count: file_count as u64,
                                total_size_bytes: total_size_bytes as u64,
                            },
                        ),
                    },
                },
            },
        },
    }
}

/// Reads a message off the front of `input`; what follows it does not matter.
pub open spec fn decode_message(input: Seq<u8>) -> Result<MessageModel, MessageError> {
    match wire::take_le(input, 1) {
        None => Err(MessageError::Truncated),
        Some((tag, input)) => if tag == 0 {
            match decode_request(input) {
                Ok(r) => Ok(MessageModel::Request(r)),
                Err(e) => Err(e),
            }
        } else if tag == 1 {
            match decode_payload(input) {
                Ok(p) => Ok(MessageModel::Payload(p)),
                Err(e) => Err(e),
            }
        } else if tag == 2 {
            match decode_announce(input) {
                Ok(a) => Ok(MessageModel::Announce(a)),
                Err(e) => Err(e),
            }
        } else if tag == 3 {
            Ok(MessageModel::RequestAnnounce)
        } else {
            Err(MessageError::UnknownVariant)
        },
    }
}

impl MessageModel {
    /// The session that a message belongs to, if any.
    pub open spec fn session(self) -> Option<SessionId> {
        match self {
            MessageModel::Request(r) => Some(r.session_id),
            MessageModel::Payload(p) => Some(p.session_id),
            MessageModel::Announce(a) => Some(a.session_id),
            MessageModel::RequestAnnounce => None,
        }
    }
}

impl Message {
    /// The session that this message belongs to, if any.
    pub fn session_id(&self) -> (r: Option<SessionId>)
        ensures
            r == self@.session(),
    {
        match self {
            Message::Request(s) => Some(s.session_id),
            Message::Payload(p) => Some(p.session_id),
            Message::Announce(a) => Some(a.session_id),
            Message::RequestAnnounce => None,
        }
    }

    /// Appends the bytes of this message to `output`.
    pub fn msg_serialize(&self, output: &mut BytesMut)
        requires
            self@ matches MessageModel::Payload(p) ==> p.data.len() <= PAYLOAD_SIZE,
        ensures
            buffers::buf_of(*final(output)) == buffers::buf_of(*old(output)) + encode_message(
                self@,
            ),
    {
        match self {
            Message::Request(r) => {
                wire::write_u8(output, 0);
                write_request(r, output);
            },
            Message::Payload(p) => {
                wire::write_u8(output, 1);
                write_payload(p, output);
            },
            Message::Announce(a) => {
                wire::write_u8(output, 2);
                write_announce(a, output);
            },
            Message::RequestAnnounce => {
                wire::write_u8(output, 3);
            },
        }
    }

    /// Reads a message off the front of `input`.
    pub fn msg_deserialize(input: Bytes) -> (r: Result<Message, MessageError>)
        ensures
            match decode_message(buffers::bytes_of(input)) {
                Ok(m) => r is Ok && r->Ok_0@ == m,
                Err(e) => r is Err && r->Err_0 == e,
            },
    {
        let mut input = input;
        let tag: u8 = match wire::read_u8(&mut input) {
            Ok(tag) => tag,
            Err(_) => return Err(MessageError::Truncated),
        };
        if tag == 0 {
            match read_request(input) {
                Ok(r) => Ok(Message::Request(r)),
                Err(e) => Err(e),
            }
        } else if tag == 1 {
            match read_payload(input) {
                Ok(p) => Ok(Message::Payload(p)),
                Err(e) => Err(e),
            }
        } else if tag == 2 {
            match read_announce(input) {
                Ok(a) => Ok(Message::Announce(a)),
                Err(e) => Err(e),
            }
        } else if tag == 3 {
            Ok(Message::RequestAnnounce)
        } else {
            Err(MessageError::UnknownVariant)
        }
    }
}

fn write_request(r: &Request, output: &mut BytesMut)
    ensures
        buffers::buf_of(*final(output)) == buffers::buf_of(*old(output)) + encode_request(r@),
{
    wire::write_u32(output, r.session_id.0);
    wire::write_u16(output, r.phase);
    wire::write_u16(output, r.retransmit_generation.0);
    let tag: u8 = match r.loss {
        LinkQualitySignal::KeepGoing => 0,
        LinkQualitySignal::IncreaseWindow => 1,
        LinkQualitySignal::LossDetected => 2,
    };
    wire::write_u8(output, tag);
    let count: usize = sections::len(&r.sections);
    wire::write_u64(output, count as u64);
    let ghost list = sections::sections_of(r.sections);
    let ghost head = buffers::buf_of(*output);
    let mut i: usize = 0;
    assert(list.skip(0) =~= list);
    while i < count
        invariant
            i <= count,
            count == list.len(),
            list == sections::sections_of(r.sections),
            buffers::buf_of(*output) + encode_sections(list.skip(i as int)) =~= head
                + encode_sections(list),
        decreases count - i,
    {
        let section = sections::get(&r.sections, i);
        wire::write_u64(output, section.start.0);
        wire::write_u64(output, section.end.0);
        assert(list.skip(i as int).skip(1) =~= list.skip(i + 1));
        i = i + 1;
    }
    assert(list.skip(count as int) =~= Seq::empty());
}

fn write_payload(p: &Payload, output: &mut BytesMut)
    ensures
        buffers::buf_of(*final(output)) == buffers::buf_of(*old(output)) + encode_payload(p@),
{
    wire::write_u32(output, p.session_id.0);
    wire::write_u16(output, p.retransmit_generation.0);
    wire::write_u64(output, p.index.0);
    wire::write_u64(output, p.eof_approaching.0);
    wire::write_u64(output, p.data.len() as u64);
    wire::write_bytes(output, buffers::as_slice(&p.data));
}

fn write_announce(a: &Announce, output: &mut BytesMut)
    ensures
        buffers::buf_of(*final(output)) == buffers::buf_of(*old(output)) + encode_announce(*a),
{
    wire::write_u32(output, a.session_id.0);
    wire::write_u64(output, a.fileset_size);
    wire::write_u16(output, a.phases);
    wire::write_u64(output, a.file_count);
    wire::write_u64(output, a.total_size_bytes);
}

fn read_request(input: Bytes) -> (r: Result<Request, MessageError>)
    ensures
        match decode_request(buffers::bytes_of(input)) {
            Ok(m) => r is Ok && r->Ok_0@ == m,
            Err(e) => r is Err && r->Err_0 == e,
        },
{
    let mut input = input;
    let session_id: u32 = match wire::read_u32(&mut input) {
        Ok(n) => n,
        Err(_) => return Err(MessageError::Truncated),
    };
    let phase: u16 = match wire::read_u16(&mut input) {
        Ok(n) => n,
        Err(_) => return Err(MessageError::Truncated),
    };
    let generation: u16 = match wire::read_u16(&mut input) {
        Ok(n) => n,
        Err(_) => return Err(MessageError::Truncated),
    };
    let tag: u8 = match wire::read_u8(&mut input) {
        Ok(n) => n,
        Err(_) => return Err(MessageError::Truncated),
    };
    let loss = match tag {
        0 => LinkQualitySignal::KeepGoing,
        1 => LinkQualitySignal::IncreaseWindow,
        2 => LinkQualitySignal::LossDetected,
        _ => return Err(MessageError::UnknownVariant),
    };
    let count: u64 = match wire::read_u64(&mut input) {
        Ok(n) => n,
        Err(_) => return Err(MessageError::Truncated),
    };
    if count > sections::MAX_SECTIONS_PER_REQUEST as u64 {
        return Err(MessageError::TooManySections);
    }
    let list = match read_sections(input, count) {
        Some(list) => list,
        None => return Err(MessageError::Truncated),
    };
    Ok(
        Request {
            session_id: SessionId(session_id),
            phase,
            retransmit_generation: RetransmitGeneration(generation),
            loss,
            sections: list,
        },
    )
}

fn read_sections(input: Bytes, count: u64) -> (r: Option<Sections>)
    requires
        count <= sections::MAX_SECTIONS_PER_REQUEST,
    ensures
        match decode_sections(buffers::bytes_of(input), count as nat) {
            Some(list) => r is Some && sections::sections_of(r->Some_0) == list,
            None => r is None,
        },
{
    let ghost all = buffers::bytes_of(input);
    let mut rest = input;
    let mut list = sections::new();
    let mut i: u64 = 0;
    while i < count
        invariant
            all == buffers::bytes_of(input),
            i <= count <= sections::MAX_SECTIONS_PER_REQUEST,
            sections::sections_of(list).len() == i,
            decode_sections(all, count as nat) == match decode_sections(
                buffers::bytes_of(rest),
                (count - i) as nat,
            ) {
                Some(more) => Some(sections::sections_of(list) + more),
                None => None,
            },
        decreases count - i,
    {
        let ghost before = sections::sections_of(list);
        let start: u64 = match wire::read_u64(&mut rest) {
            Ok(n) => n,
            Err(_) => return None,
        };
        let end: u64 = match wire::read_u64(&mut rest) {
            Ok(n) => n,
            Err(_) => return None,
        };
        let pushed = sections::try_push(
            &mut list,
            crate::packet::IndexInPhase(start)..crate::packet::IndexInPhase(end),
        );
        proof {
            let more = decode_sections(buffers::bytes_of(rest), (count - i - 1) as nat);
            if let Some(more) = more {
                assert(before + (seq![(start, end)] + more) =~= sections::sections_of(list) + more);
            }
        }
        i = i + 1;
    }
    assert(sections::sections_of(list) + Seq::<(u64, u64)>::empty() =~= sections::sections_of(
        list,
    ));
    Some(list)
}

fn read_payload(input: Bytes) -> (r: Result<Payload, MessageError>)
    ensures
        match decode_payload(buffers::bytes_of(input)) {
            Ok(m) => r is Ok && r->Ok_0@ == m,
            Err(e) => r is Err && r->Err_0 == e,
        },
{
    let mut input = input;
    let session_id: u32 = match wire::read_u32(&mut input) {
        Ok(n) => n,
        Err(_) => return Err(MessageError::Truncated),
    };
    let generation: u16 = match wire::read_u16(&mut input) {
        Ok(n) => n,
        Err(_) => return Err(MessageError::Truncated),
    };
    let index: u64 = match wire::read_u64(&mut input) {
        Ok(n) => n,
        Err(_) => return Err(MessageError::Truncated),
    };
    let eof_approaching: u64 = match wire::read_u64(&mut input) {
        Ok(n) => n,
        Err(_) => return Err(MessageError::Truncated),
    };
    let len: u64 = match wire::read_u64(&mut input) {
        Ok(n) => n,
        Err(_) => return Err(MessageError::Truncated),
    };
    if len > input.len() as u64 {
        return Err(MessageError::Truncated);
    }
    let data = input.split_to(len as usize);
    Ok(
        Payload {
            session_id: SessionId(session_id),
            retransmit_generation: RetransmitGeneration(generation),
            index: PacketIdx(index),
            eof_approaching: PacketIdx(eof_approaching),
            data,
        },
    )
}

fn read_announce(input: Bytes) -> (r: Result<Announce, MessageError>)
    ensures
        r == decode_announce(buffers::bytes_of(input)),
{
    let mut input = input;
    let session_id: u32 = match wire::read_u32(&mut input) {
        Ok(n) => n,
        Err(_) => return Err(MessageError::Truncated),
    };
    let fileset_size: u64 = match wire::read_u64(&mut input) {
        Ok(n) => n,
        Err(_) => return Err(MessageError::Truncated),
    };
    let phases: u16 = match wire::read_u16(&mut input) {
        Ok(n) => n,
        Err(_) => return Err(MessageError::Truncated),
    };
    let file_count: u64 = match wire::read_u64(&mut input) {
        Ok(n) => n,
        Err(_) => return Err(MessageError::Truncated),
    };
    let total_size_bytes: u64 = match wire::read_u64(&mut input) {
        Ok(n) => n,
        Err(_) => return Err(MessageError::Truncated),
    };
    Ok(
        Announce {
            session_id: SessionId(session_id),
            fileset_size,
            phases,
            file_count,
            total_size_bytes,
        },
    )
}

proof fn lemma_sections_roundtrip(list: Seq<(u64, u64)>, tail: Seq<u8>)
    ensures
        encode_sections(list).len() == 16 * list.len(),
        decode_sections(encode_sections(list) + tail, list.len()) == Some(list),
    decreases list.len(),
{
    endian::lemma_pow256_widths();
    if list.len() > 0 {
        let more = encode_sections(list.skip(1)) + tail;
        let second = endian::le_bytes(list[0].1 as nat, 8) + more;
        lemma_sections_roundtrip(list.skip(1), tail);
        wire::lemma_take_le(list[0].1 as nat, 8, more);
        wire::lemma_take_le(list[0].0 as nat, 8, second);
        assert(encode_sections(list) + tail =~= endian::le_bytes(list[0].0 as nat, 8) + second);
        assert(seq![list[0]] + list.skip(1) =~= list);
    }
}

proof fn lemma_assoc(a: Seq<u8>, b: Seq<u8>, c: Seq<u8>)
    ensures
        (a + b) + c == a + (b + c),
{
    assert((a + b) + c =~= a + (b + c));
}

#[verifier::spinoff_prover]
proof fn lemma_request_roundtrip(r: RequestModel, tail: Seq<u8>)
    requires
        r.sections.len() <= sections::MAX_SECTIONS_PER_REQUEST,
    ensures
        decode_message(encode_message(MessageModel::Request(r)) + tail) == Ok::<
            MessageModel,
            MessageError,
        >(MessageModel::Request(r)),
{
    endian::lemma_pow256_widths();
    let m = MessageModel::Request(r);
    let s5 = encode_sections(r.sections) + tail;
    let s4 = endian::le_bytes(r.sections.len(), 8) + s5;
    let s3 = endian::le_bytes(loss_tag(r.loss), 1) + s4;
    let s2 = endian::le_bytes(r.retransmit_generation.0 as nat, 2) + s3;
    let s1 = endian::le_bytes(r.phase as nat, 2) + s2;
    let s0 = endian::le_bytes(r.session_id.0 as nat, 4) + s1;
    lemma_sections_roundtrip(r.sections, tail);
    wire::lemma_take_le(r.sections.len(), 8, s5);
    wire::lemma_take_le(loss_tag(r.loss), 1, s4);
    wire::lemma_take_le(r.retransmit_generation.0 as nat, 2, s3);
    wire::lemma_take_le(r.phase as nat, 2, s2);
    wire::lemma_take_le(r.session_id.0 as nat, 4, s1);
    wire::lemma_take_le(0, 1, s0);
    let e5 = encode_sections(r.sections);
    let e4 = endian::le_bytes(r.sections.len(), 8) + e5;
    let e3 = endian::le_bytes(loss_tag(r.loss), 1) + e4;
    let e2 = endian::le_bytes(r.retransmit_generation.0 as nat, 2) + e3;
    let e1 = endian::le_bytes(r.phase as nat, 2) + e2;
    let e0 = endian::le_bytes(r.session_id.0 as nat, 4) + e1;
    lemma_assoc(endian::le_bytes(r.sections.len(), 8), e5, tail);
    lemma_assoc(endian::le_bytes(loss_tag(r.loss), 1), e4, tail);
    lemma_assoc(endian::le_bytes(r.retransmit_generation.0 as nat, 2), e3, tail);
    lemma_assoc(endian::le_bytes(r.phase as nat, 2), e2, tail);
    lemma_assoc(endian::le_bytes(r.session_id.0 as nat, 4), e1, tail);
    lemma_assoc(endian::le_bytes(0, 1), e0, tail);
    assert(encode_message(m) + tail == endian::le_bytes(0, 1) + s0);
    assert(decode_request(s0) == Ok::<RequestModel, MessageError>(r));
}

#[verifier::spinoff_prover]
proof fn lemma_payload_roundtrip(p: PayloadModel, tail: Seq<u8>)
    requires
        p.data.len() <= u64::MAX,
    ensures
        decode_message(encode_message(MessageModel::Payload(p)) + tail) == Ok::<
            MessageModel,
            MessageError,
        >(MessageModel::Payload(p)),
{
    endian::lemma_pow256_widths();
    let m = MessageModel::Payload(p);
    let s5 = p.data + tail;
    let s4 = endian::le_bytes(p.data.len(), 8) + s5;
    let s3 = endian::le_bytes(p.eof_approaching.0 as nat, 8) + s4;
    let s2 = endian::le_bytes(p.index.0 as nat, 8) + s3;
    let s1 = endian::le_bytes(p.retransmit_generation.0 as nat, 2) + s2;
    let s0 = endian::le_bytes(p.session_id.0 as nat, 4) + s1;
    wire::lemma_take_le(p.data.len(), 8, s5);
    wire::lemma_take_le(p.eof_approaching.0 as nat, 8, s4);
    wire::lemma_take_le(p.index.0 as nat, 8, s3);
    wire::lemma_take_le(p.retransmit_generation.0 as nat, 2, s2);
    wire::lemma_take_le(p.session_id.0 as nat, 4, s1);
    wire::lemma_take_le(1, 1, s0);
    assert(encode_message(m) + tail =~= endian::le_bytes(1, 1) + s0);
    assert(s5.take(p.data.len() as int) =~= p.data);
}

#[verifier::spinoff_prover]
proof fn lemma_announce_roundtrip(a: Announce, tail: Seq<u8>)
    ensures
        decode_message(encode_message(MessageModel::Announce(a)) + tail) == Ok::<
            MessageModel,
            MessageError,
        >(MessageModel::Announce(a)),
{
    endian::lemma_pow256_widths();
    let m = MessageModel::Announce(a);
    let s4 = endian::le_bytes(a.total_size_bytes as nat, 8) + tail;
    let s3 = endian::le_bytes(a.file_count as nat, 8) + s4;
    let s2 = endian::le_bytes(a.phases as nat, 2) + s3;
    let s1 = endian::le_bytes(a.fileset_size as nat, 8) + s2;
    let s0 = endian::le_bytes(a.session_id.0 as nat, 4) + s1;
    wire::lemma_take_le(a.total_size_bytes as nat, 8, tail);
    wire::lemma_take_le(a.file_count as nat, 8, s4);
    wire::lemma_take_le(a.phases as nat, 2, s3);
    wire::lemma_take_le(a.fileset_size as nat, 8, s2);
    wire::lemma_take_le(a.session_id.0 as nat, 4, s1);
    wire::lemma_take_le(2, 1, s0);
    assert(encode_message(m) + tail =~= endian::le_bytes(2, 1) + s0);
}

/// A message that is serialized and then deserialized comes back as it was, whatever follows it.
pub proof fn law_message_roundtrip(m: MessageModel, tail: Seq<u8>)
    requires
        m matches MessageModel::Request(r) ==> r.sections.len()
            <= sections::MAX_SECTIONS_PER_REQUEST,
        m matches MessageModel::Payload(p) ==> p.data.len() <= u64::MAX,
    ensures
        decode_message(encode_message(m) + tail) == Ok::<MessageModel, MessageError>(m),
{
    match m {
        MessageModel::Request(r) => lemma_request_roundtrip(r, tail),
        MessageModel::Payload(p) => lemma_payload_roundtrip(p, tail),
        MessageModel::Announce(a) => lemma_announce_roundtrip(a, tail),
        MessageModel::RequestAnnounce => {
            endian::lemma_pow256_widths();
            wire::lemma_take_le(3, 1, tail);
        },
    }
}

/// How long messages are. A payload message adds [`PAYLOAD_HEADER_SIZE`] bytes to its data, so it
/// fills one datagram at most when the data fits the payload size; the other messages always fit.
pub proof fn law_message_length(m: MessageModel)
    requires
        m matches MessageModel::Request(r) ==> r.sections.len()
            <= sections::MAX_SECTIONS_PER_REQUEST,
    ensures
        m matches MessageModel::Payload(p) ==> encode_message(m).len() == PAYLOAD_HEADER_SIZE
            + p.data.len(),
        m matches MessageModel::Payload(p) ==> (encode_message(m).len() <= MTU_USIZE
            <==> p.data.len() <= PAYLOAD_SIZE),
        m matches MessageModel::Request(r) ==> encode_message(m).len() == 18 + 16
            * r.sections.len(),
        m is Announce ==> encode_message(m).len() == 31,
        m is RequestAnnounce ==> encode_message(m).len() == 1,
        !(m is Payload) ==> encode_message(m).len() <= MTU_USIZE,
{
    reveal_with_fuel(endian::le_bytes, 9);
    if let MessageModel::Request(r) = m {
        lemma_sections_roundtrip(r.sections, Seq::empty());
    }
}

/// The number that the `width` bytes from `at` on spell, least significant byte first.
pub open spec fn field(bytes: Seq<u8>, at: int, width: int) -> nat {
    endian::le_value(bytes.subrange(at, at + width))
}

proof fn lemma_field(input: Seq<u8>, at: int, width: nat)
    requires
        0 <= at <= input.len(),
    ensures
        wire::take_le(input.skip(at), width) == if at + width <= input.len() {
            Some((field(input, at, width as int), input.skip(at + width)))
        } else {
            None
        },
        at + width <= input.len() ==> field(input, at, width as int) < endian::pow256(width),
{
    if at + width <= input.len() {
        assert(input.skip(at).take(width as int) =~= input.subrange(at, at + width));
        assert(input.skip(at).skip(width as int) =~= input.skip(at + width));
        endian::lemma_le_value_bytes(input.subrange(at, at + width));
    }
}

proof fn lemma_tag(input: Seq<u8>)
    requires
        input.len() > 0,
    ensures
        wire::take_le(input, 1) == Some((input[0] as nat, input.skip(1))),
{
    let first = input.take(1);
    reveal_with_fuel(endian::le_value, 2);
    assert(first.skip(1) =~= Seq::empty());
    assert(endian::le_value(first) == first[0] as nat);
}

/// What bytes say whose first byte is that of a packet: each field stands in its place, in
/// little-endian order, the data behind them, with its length before it. The bytes may go on behind
/// the data, but must not end before it does.
#[verifier::spinoff_prover]
pub proof fn law_places_in_a_packet(input: Seq<u8>)
    requires
        input.len() > 0,
        input[0] == 1,
    ensures
        ({
            let len = field(input, 23, 8);
            &&& input.len() < 31 || input.len() < 31 + len ==> decode_message(input) == Err::<
                MessageModel,
                MessageError,
            >(MessageError::Truncated)
            &&& input.len() >= 31 && input.len() >= 31 + len ==> {
                &&& decode_message(input) matches Ok(MessageModel::Payload(p))
                &&& p.session_id.0 == field(input, 1, 4)
                &&& p.retransmit_generation.0 == field(input, 5, 2)
                &&& p.index.0 == field(input, 7, 8)
                &&& p.eof_approaching.0 == field(input, 15, 8)
                &&& p.data == input.subrange(31, (31 + len) as int)
            }
        }),
{
    endian::lemma_pow256_widths();
    lemma_tag(input);
    lemma_field(input, 1, 4);
    if input.len() >= 5 {
        lemma_field(input, 5, 2);
    }
    if input.len() >= 7 {
        lemma_field(input, 7, 8);
    }
    if input.len() >= 15 {
        lemma_field(input, 15, 8);
    }
    if input.len() >= 23 {
        lemma_field(input, 23, 8);
    }
    if input.len() >= 31 {
        let len = field(input, 23, 8) as int;
        if input.len() >= 31 + len {
            assert(input.skip(31).take(len) =~= input.subrange(31, 31 + len));
        }
    }
}

/// What bytes say whose first byte is that of an announcement: each field stands in its place, in
/// little-endian order.
#[verifier::spinoff_prover]
pub proof fn law_places_in_an_announcement(input: Seq<u8>)
    requires
        input.len() > 0,
        input[0] == 2,
    ensures
        input.len() < 31 ==> decode_message(input) == Err::<MessageModel, MessageError>(
            MessageError::Truncated,
        ),
        input.len() >= 31 ==> {
            &&& decode_message(input) matches Ok(MessageModel::Announce(a))
            &&& a.session_id.0 == field(input, 1, 4)
            &&& a.fileset_size == field(input, 5, 8)
            &&& a.phases == field(input, 13, 2)
            &&& a.file_count == field(input, 15, 8)
            &&& a.total_size_bytes == field(input, 23, 8)
        },
{
    endian::lemma_pow256_widths();
    lemma_tag(input);
    lemma_field(input, 1, 4);
    if input.len() >= 5 {
        lemma_field(input, 5, 8);
    }
    if input.len() >= 13 {
        lemma_field(input, 13, 2);
    }
    if input.len() >= 15 {
        lemma_field(input, 15, 8);
    }
    if input.len() >= 23 {
        lemma_field(input, 23, 8);
    }
}

proof fn lemma_places_in_sections(input: Seq<u8>, at: int, count: nat)
    requires
        0 <= at <= input.len(),
    ensures
        input.len() < at + 16 * count ==> decode_sections(input.skip(at), count) is None,
        input.len() >= at + 16 * count ==> {
            &&& decode_sections(input.skip(at), count) matches Some(list)
            &&& list.len() == count
            &&& forall|k: int|
                0 <= k < count ==> (#[trigger] list[k]).0 == field(input, at + 16 * k, 8)
                    && list[k].1 == field(input, at + 16 * k + 8, 8)
        },
    decreases count,
{
    if count > 0 {
        endian::lemma_pow256_widths();
        lemma_field(input, at, 8);
        if at + 8 <= input.len() {
            lemma_field(input, at + 8, 8);
        }
        if at + 16 <= input.len() {
            lemma_places_in_sections(input, at + 16, (count - 1) as nat);
            if input.len() >= at + 16 * count {
                let rest = decode_sections(input.skip(at + 16), (count - 1) as nat)->Some_0;
                let list = decode_sections(input.skip(at), count)->Some_0;
                assert forall|k: int| 0 <= k < count implies (#[trigger] list[k]).0 == field(
                    input,
                    at + 16 * k,
                    8,
                ) && list[k].1 == field(input, at + 16 * k + 8, 8) by {
                    if k > 0 {
                        assert(list[k] == rest[k - 1]);
                        assert(at + 16 + 16 * (k - 1) == at + 16 * k);
                    }
                }
            }
        }
    }
}

/// What bytes say whose first byte is that of a request: each field stands in its place, in
/// little-endian order, and the packet ranges behind them, with their number before them. There are
/// three signals, and at most five packet ranges.
#[verifier::spinoff_prover]
pub proof fn law_places_in_a_request(input: Seq<u8>, k: int)
    requires
        input.len() > 0,
        input[0] == 0,
    ensures
        ({
            let count = field(input, 10, 8);
            let message = decode_message(input);
            &&& input.len() < 10 ==> message == Err::<MessageModel, MessageError>(
                MessageError::Truncated,
            )
            &&& input.len() >= 10 && input[9] > 2 ==> message == Err::<MessageModel, MessageError>(
                MessageError::UnknownVariant,
            )
            &&& 10 <= input.len() < 18 && input[9] <= 2 ==> message == Err::<
                MessageModel,
                MessageError,
            >(MessageError::Truncated)
            &&& input.len() >= 18 && input[9] <= 2 && count > 5 ==> message == Err::<
                MessageModel,
                MessageError,
            >(MessageError::TooManySections)
            &&& 18 <= input.len() < 18 + 16 * count && input[9] <= 2 && count <= 5 ==> message
                == Err::<MessageModel, MessageError>(MessageError::Truncated)
            &&& input.len() >= 18 && input.len() >= 18 + 16 * count && input[9] <= 2 && count <= 5
                ==> {
                &&& message matches Ok(MessageModel::Request(r))
                &&& r.session_id.0 == field(input, 1, 4)
                &&& r.phase == field(input, 5, 2)
                &&& r.retransmit_generation.0 == field(input, 7, 2)
                &&& r.loss == LinkQualitySignal::KeepGoing <==> input[9] == 0
                &&& r.loss == LinkQualitySignal::IncreaseWindow <==> input[9] == 1
                &&& r.loss == LinkQualitySignal::LossDetected <==> input[9] == 2
                &&& r.sections.len() == count
                &&& 0 <= k < count ==> r.sections[k].0 == field(input, 18 + 16 * k, 8)
                    && r.sections[k].1 == field(input, 26 + 16 * k, 8)
            }
        }),
{
    endian::lemma_pow256_widths();
    lemma_tag(input);
    lemma_field(input, 1, 4);
    if input.len() >= 5 {
        lemma_field(input, 5, 2);
    }
    if input.len() >= 7 {
        lemma_field(input, 7, 2);
    }
    if input.len() >= 9 {
        lemma_field(input, 9, 1);
    }
    if input.len() >= 10 {
        lemma_field(input, 10, 8);
        lemma_tag(input.skip(9));
        assert(input.skip(9)[0] == input[9]);
    }
    if input.len() >= 18 {
        let count = field(input, 10, 8);
        if count <= 5 {
            lemma_places_in_sections(input, 18, count);
            if input.len() >= 18 + 16 * count && 0 <= k < count {
                let list = decode_sections(input.skip(18), count)->Some_0;
                assert(list[k].0 == field(input, 18 + 16 * k, 8));
                assert(18 + 16 * k + 8 == 26 + 16 * k);
            }
        }
    }
}

/// Bytes that begin like no packet, announcement or request are a request for an announcement, or
/// no message.
pub proof fn law_other_first_bytes(input: Seq<u8>)
    ensures
        input.len() == 0 ==> decode_message(input) == Err::<MessageModel, MessageError>(
            MessageError::Truncated,
        ),
        input.len() > 0 && input[0] == 3 ==> decode_message(input) == Ok::<
            MessageModel,
            MessageError,
        >(MessageModel::RequestAnnounce),
        input.len() > 0 && input[0] > 3 ==> decode_message(input) == Err::<
            MessageModel,
            MessageError,
        >(MessageError::UnknownVariant),
{
    if input.len() > 0 {
        lemma_tag(input);
    }
}

/// The bytes of a message: the first tells which message it is, and each field stands in its place,
/// in little-endian order.
#[verifier::spinoff_prover]
pub proof fn law_message_bytes(m: MessageModel, k: int)
    requires
        m matches MessageModel::Request(r) ==> r.sections.len()
            <= sections::MAX_SECTIONS_PER_REQUEST,
        m matches MessageModel::Payload(p) ==> p.data.len() <= u64::MAX,
    ensures
        ({
            let bytes = encode_message(m);
            &&& m is RequestAnnounce ==> bytes == seq![3u8]
            &&& m matches MessageModel::Announce(a) ==> {
                &&& bytes.len() == 31
                &&& bytes[0] == 2
                &&& field(bytes, 1, 4) == a.session_id.0
                &&& field(bytes, 5, 8) == a.fileset_size
                &&& field(bytes, 13, 2) == a.phases
                &&& field(bytes, 15, 8) == a.file_count
                &&& field(bytes, 23, 8) == a.total_size_bytes
            }
            &&& m matches MessageModel::Payload(p) ==> {
                &&& bytes.len() == 31 + p.data.len()
                &&& bytes[0] == 1
                &&& field(bytes, 1, 4) == p.session_id.0
                &&& field(bytes, 5, 2) == p.retransmit_generation.0
                &&& field(bytes, 7, 8) == p.index.0
                &&& field(bytes, 15, 8) == p.eof_approaching.0
                &&& field(bytes, 23, 8) == p.data.len()
                &&& bytes.skip(31) == p.data
            }
            &&& m matches MessageModel::Request(r) ==> {
                &&& bytes.len() == 18 + 16 * r.sections.len()
                &&& bytes[0] == 0
                &&& field(bytes, 1, 4) == r.session_id.0
                &&& field(bytes, 5, 2) == r.phase
                &&& field(bytes, 7, 2) == r.retransmit_generation.0
                &&& bytes[9] <= 2
                &&& bytes[9] == 0 <==> r.loss == LinkQualitySignal::KeepGoing
                &&& bytes[9] == 2 <==> r.loss == LinkQualitySignal::LossDetected
                &&& field(bytes, 10, 8) == r.sections.len()
                &&& 0 <= k < r.sections.len() ==> field(bytes, 18 + 16 * k, 8) == r.sections[k].0
                    && field(bytes, 26 + 16 * k, 8) == r.sections[k].1
            }
        }),
{
    let bytes = encode_message(m);
    law_message_roundtrip(m, Seq::empty());
    law_message_length(m);
    assert(bytes + Seq::<u8>::empty() =~= bytes);
    law_other_first_bytes(bytes);
    if bytes[0] == 0 {
        law_places_in_a_request(bytes, k);
    } else if bytes[0] == 1 {
        law_places_in_a_packet(bytes);
        if let MessageModel::Payload(p) = m {
            assert(p.data.len() == field(bytes, 23, 8));
            assert(bytes.skip(31) =~= bytes.subrange(31, (31 + p.data.len()) as int));
        }
    } else if bytes[0] == 2 {
        law_places_in_an_announcement(bytes);
    } else {
        assert(bytes =~= seq![3u8]);
    }
}

} // verus!
