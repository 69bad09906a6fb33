//! The way of packets to the socket: put in order, collected into large sends, and taken apart
//! again on the other side.
use std::ops::Range;

use bytes::{Bytes, BytesMut};
use vstd::prelude::*;
use vstd::slice::slice_subrange;

use crate::messages::{Message, Payload, PAYLOAD_HEADER_SIZE};
use crate::packet::{PacketIdx, MTU_USIZE, PAYLOAD_SIZE};
use crate::{buffers, disk_read_engine, messages, packet};

verus! {

/// The most bytes that one send may have: what fits a UDP datagram behind its headers.
pub const MAX_GSO_BYTES: usize = 65507;

/// The most bytes to collect, if one send can be taken apart into `batch` datagrams.
pub open spec fn send_limit(batch: int) -> int {
    if batch * MTU_USIZE < MAX_GSO_BYTES {
        batch * MTU_USIZE
    } else {
        MAX_GSO_BYTES as int
    }
}

/// As much is collected as fits one send: no more datagrams than it can be taken apart into, and no
/// more bytes than it may have.
pub proof fn law_send_limit(batch: int, n: int)
    ensures
        n <= send_limit(batch) <==> n <= batch * 1400 && n <= 65507,
{
}

/// How many bytes to collect, if one send can be taken apart into `max_send_batch` datagrams.
pub fn max_buf_size(max_send_batch: usize) -> (r: usize)
    requires
        max_send_batch * MTU_USIZE <= usize::MAX,
    ensures
        r == send_limit(max_send_batch as int),
{
    let size: usize = max_send_batch * MTU_USIZE;
    if size < MAX_GSO_BYTES {
        size
    } else {
        MAX_GSO_BYTES
    }
}

/// Collects packets that are sent with one call.
pub struct Accumulate {
    pub max_buf_size_bytes: usize,
    pub send_buf: BytesMut,
}

/// The bytes of a packet on the wire.
pub open spec fn datagram(p: messages::PayloadModel) -> Seq<u8> {
    messages::encode_message(messages::MessageModel::Payload(p))
}

/// Whether what has been collected has to be sent now, when the last packet has `size` bytes: the
/// packet is shorter than the others, so that none can follow it, or there is no room for another.
pub open spec fn flush_due(collected: int, size: int, max: int) -> bool {
    collected > 0 && (size != MTU_USIZE || collected + MTU_USIZE > max)
}

/// What has been collected waits for another packet if, and only if, one can follow it: the last
/// packet is a full one, and another full one still fits.
pub proof fn law_collecting_goes_on(collected: int, size: int, max: int)
    requires
        0 < size <= collected,
    ensures
        !flush_due(collected, size, max) <==> size == 1400 && collected + 1400 <= max,
{
}

impl Accumulate {
    /// What has been collected.
    pub open spec fn collected(self) -> Seq<u8> {
        buffers::buf_of(self.send_buf)
    }

    /// Nothing has been collected.
    pub fn new(max_buf_size_bytes: usize) -> (r: Self)
        ensures
            r.max_buf_size_bytes == max_buf_size_bytes,
            r.collected() == Seq::<u8>::empty(),
    {
        Accumulate { max_buf_size_bytes, send_buf: BytesMut::new() }
    }

    /// Adds a packet. The result says whether what has been collected has to be sent now.
    pub fn send(&mut self, payload: Payload) -> (r: bool)
        requires
            payload@.data.len() <= PAYLOAD_SIZE,
            old(self).collected().len() + PAYLOAD_HEADER_SIZE + payload@.data.len() + MTU_USIZE
                <= usize::MAX,
        ensures
            final(self).max_buf_size_bytes == old(self).max_buf_size_bytes,
            collects(
                old(self).collected(),
                old(self).max_buf_size_bytes as int,
                payload@,
                final(self).collected(),
                r,
            ),
    {
        let size_before: usize = self.send_buf.len();
        let msg = Message::Payload(payload);
        proof {
            messages::law_message_length(msg@);
        }
        msg.msg_serialize(&mut self.send_buf);
        let size: usize = self.send_buf.len();
        let packet_size: usize = size - size_before;
        size > 0 && (packet_size != MTU_USIZE || size + MTU_USIZE > self.max_buf_size_bytes)
    }

    /// Takes out what has been collected, `None` if there is nothing.
    pub fn flush(&mut self) -> (r: Option<Bytes>)
        ensures
            final(self).max_buf_size_bytes == old(self).max_buf_size_bytes,
            takes_out(old(self).collected(), final(self).collected(), sent_view(r)),
    {
        let size: usize = self.send_buf.len();
        if size == 0 {
            assert(self.collected() =~= Seq::empty());
            return None;
        }
        let bytes = self.send_buf.split_to(size).freeze();
        assert(self.collected() =~= Seq::empty());
        assert(buffers::bytes_of(bytes) =~= old(self).collected());
        Some(bytes)
    }

    /// What was taken out could not be sent: it is put back, ahead of what comes.
    pub fn flush_failed(&mut self, bytes: &Bytes)
        requires
            old(self).collected().len() == 0,
        ensures
            final(self).max_buf_size_bytes == old(self).max_buf_size_bytes,
            puts_back(buffers::bytes_of(*bytes), final(self).collected()),
    {
        self.send_buf.extend_from_slice(buffers::as_slice(bytes));
        assert(self.collected() =~= buffers::bytes_of(*bytes));
    }
}

/// What is to be sent.
pub open spec fn sent_view(r: Option<Bytes>) -> Option<Seq<u8>> {
    match r {
        Some(bytes) => Some(buffers::bytes_of(bytes)),
        None => None,
    }
}

/// `after` is what stays when what has been collected is taken out; `sent` is what is to be sent.
pub open spec fn takes_out(before: Seq<u8>, after: Seq<u8>, sent: Option<Seq<u8>>) -> bool {
    &&& after == Seq::<u8>::empty()
    &&& sent == if before.len() == 0 {
        None
    } else {
        Some(before)
    }
}

/// `after` is what has been collected when what could not be sent has been put back.
pub open spec fn puts_back(sent: Seq<u8>, after: Seq<u8>) -> bool {
    after == sent
}

/// All that was collected is sent, at once; nothing is sent where nothing was collected. And what
/// could not be sent is collected as it was before.
pub proof fn law_all_is_sent(
    before: Seq<u8>,
    between: Seq<u8>,
    sent: Option<Seq<u8>>,
    after: Seq<u8>,
)
    requires
        takes_out(before, between, sent),
        sent matches Some(bytes) ==> puts_back(bytes, after),
    ensures
        between.len() == 0,
        sent is Some <==> before.len() > 0,
        sent matches Some(bytes) ==> bytes + between == before && after == before,
{
    assert(before + Seq::<u8>::empty() =~= before);
}

/// `after` is what has been collected when the packet `p` has come to `before`; `due` says whether
/// it has to be sent now.
pub open spec fn collects(
    before: Seq<u8>,
    max: int,
    p: messages::PayloadModel,
    after: Seq<u8>,
    due: bool,
) -> bool {
    &&& after == before + datagram(p)
    &&& due == flush_due(after.len() as int, datagram(p).len() as int, max)
}

/// What is collected is the datagrams of the packets, each of them whole, in the order in which they
/// came; and it waits for another if, and only if, the last is a full one and another full one fits.
pub proof fn law_datagrams_are_collected(
    packets: Seq<messages::PayloadModel>,
    max: int,
    p: messages::PayloadModel,
    after: Seq<u8>,
    due: bool,
)
    requires
        collects(datagrams(packets), max, p, after, due),
    ensures
        after == datagrams(packets.push(p)),
        !due <==> p.data.len() == 1369 && after.len() + 1400 <= max,
{
    assert(packets.push(p).drop_last() =~= packets);
    messages::law_message_length(messages::MessageModel::Payload(p));
}

/// The bytes of packets, one after the other.
pub open spec fn datagrams(packets: Seq<messages::PayloadModel>) -> Seq<u8>
    decreases packets.len(),
{
    if packets.len() == 0 {
        Seq::empty()
    } else {
        datagrams(packets.drop_last()) + datagram(packets.last())
    }
}

/// The piece in place `at` of bytes that are cut into datagrams.
pub open spec fn piece(bytes: Seq<u8>, at: int) -> Seq<u8> {
    bytes.subrange(
        at * MTU_USIZE,
        if (at + 1) * MTU_USIZE <= bytes.len() {
            (at + 1) * MTU_USIZE
        } else {
            bytes.len() as int
        },
    )
}

/// How many datagrams bytes are cut into.
pub open spec fn piece_count(bytes: Seq<u8>) -> int {
    (bytes.len() + MTU_USIZE - 1) / (MTU_USIZE as int)
}

/// Takes received bytes apart into datagrams: all have the full size, but for the last.
pub fn split_batch(bytes: &[u8]) -> (r: Vec<Bytes>)
    ensures
        r@.len() == piece_count(bytes@),
        forall|i: int|
            0 <= i < r@.len() ==> buffers::bytes_of(#[trigger] r@[i]) == piece(bytes@, i),
{
    let mut r: Vec<Bytes> = Vec::new();
    let mut at: usize = 0;
    while at < bytes.len()
        invariant
            at <= bytes@.len(),
            at == r@.len() * 1400 || at == bytes@.len() && r@.len() == piece_count(bytes@),
            at == r@.len() * 1400 ==> r@.len() <= piece_count(bytes@),
            forall|i: int|
                0 <= i < r@.len() ==> buffers::bytes_of(#[trigger] r@[i]) == piece(bytes@, i),
        decreases bytes.len() - at,
    {
        let end: usize = if bytes.len() - at > MTU_USIZE {
            at + MTU_USIZE
        } else {
            bytes.len()
        };
        let part: &[u8] = slice_subrange(bytes, at, end);
        assert(MTU_USIZE == 1400);
        assert(part@ =~= piece(bytes@, r@.len() as int));
        r.push(Bytes::copy_from_slice(part));
        at = end;
    }
    r
}

/// Packets that were collected come apart again as they were: each but the last fills a datagram.
pub proof fn law_batch_comes_apart(packets: Seq<messages::PayloadModel>, at: int)
    requires
        forall|i: int|
            0 <= i < packets.len() - 1 ==> datagram(#[trigger] packets[i]).len() == MTU_USIZE,
        packets.len() > 0 ==> 0 < datagram(packets.last()).len() <= MTU_USIZE,
        0 <= at < packets.len(),
    ensures
        piece_count(datagrams(packets)) == packets.len(),
        piece(datagrams(packets), at) == datagram(packets[at]),
{
    let n = packets.len() - 1;
    let init = packets.drop_last();
    lemma_full_datagrams(init);
    assert(MTU_USIZE == 1400);
    let all = datagrams(packets);
    assert(all.len() == n * 1400 + datagram(packets.last()).len());
    if at < n {
        lemma_full_piece(init, at);
        assert((at + 1) * 1400 <= n * 1400);
        assert(piece(all, at) =~= piece(datagrams(init), at));
        assert(init[at] == packets[at]);
    } else {
        assert(piece(all, at) =~= datagram(packets.last()));
    }
}

proof fn lemma_full_datagrams(packets: Seq<messages::PayloadModel>)
    requires
        forall|i: int|
            0 <= i < packets.len() ==> datagram(#[trigger] packets[i]).len() == MTU_USIZE,
    ensures
        datagrams(packets).len() == packets.len() * 1400,
    decreases packets.len(),
{
    if packets.len() > 0 {
        let init = packets.drop_last();
        assert forall|i: int| 0 <= i < init.len() implies datagram(#[trigger] init[i]).len()
            == MTU_USIZE by {
            assert(init[i] == packets[i]);
        }
        lemma_full_datagrams(init);
        assert(packets.last() == packets[packets.len() - 1]);
    }
}

proof fn lemma_full_piece(packets: Seq<messages::PayloadModel>, at: int)
    requires
        forall|i: int|
            0 <= i < packets.len() ==> datagram(#[trigger] packets[i]).len() == MTU_USIZE,
        0 <= at < packets.len(),
    ensures
        piece(datagrams(packets), at) == datagram(packets[at]),
    decreases packets.len(),
{
    let init = packets.drop_last();
    let n = init.len() as int;
    assert forall|i: int| 0 <= i < init.len() implies datagram(#[trigger] init[i]).len()
        == MTU_USIZE by {
        assert(init[i] == packets[i]);
    }
    lemma_full_datagrams(init);
    lemma_full_datagrams(packets);
    assert(MTU_USIZE == 1400);
    let all = datagrams(packets);
    if at < n {
        lemma_full_piece(init, at);
        assert((at + 1) * 1400 <= n * 1400);
        assert(piece(all, at) =~= piece(datagrams(init), at));
        assert(init[at] == packets[at]);
    } else {
        assert(piece(all, at) =~= datagram(packets[at]));
    }
}

/// Whether the packets are collected without a need to send what has been collected before the
/// last of them.
pub open spec fn collected_together(packets: Seq<messages::PayloadModel>, max: int) -> bool {
    forall|i: int|
        0 <= i < packets.len() - 1 ==> !flush_due(
            datagrams(packets.take(i + 1)).len() as int,
            datagram(#[trigger] packets[i]).len() as int,
            max,
        )
}

/// What is collected until it has to be sent is not more than may be collected, and all packets
/// but the last have the full size, so that they come apart again.
pub proof fn law_sends_fit(packets: Seq<messages::PayloadModel>, max: int)
    requires
        packets.len() > 0,
        MTU_USIZE <= max,
        forall|i: int| 0 <= i < packets.len() ==> (#[trigger] packets[i]).data.len() <= PAYLOAD_SIZE,
        collected_together(packets, max),
    ensures
        datagrams(packets).len() <= max,
        forall|i: int|
            0 <= i < packets.len() - 1 ==> datagram(#[trigger] packets[i]).len() == MTU_USIZE,
{
    let n = packets.len() as int;
    assert forall|i: int| 0 <= i < n implies 0 < datagram(#[trigger] packets[i]).len()
        <= MTU_USIZE by {
        messages::law_message_length(messages::MessageModel::Payload(packets[i]));
    }
    assert forall|i: int| 0 <= i < n - 1 implies datagram(#[trigger] packets[i]).len() == MTU_USIZE
        && datagrams(packets.take(i + 1)).len() + MTU_USIZE <= max by {
        assert(packets.take(i + 1).last() == packets[i]);
        assert(datagrams(packets.take(i + 1)).len() > 0);
    }
    assert(packets.last() == packets[n - 1]);
    if n > 1 {
        assert(datagram(packets[n - 2]).len() == MTU_USIZE);
        assert(packets.take(n - 2 + 1) =~= packets.drop_last());
    } else {
        assert(datagrams(packets.drop_last()).len() == 0);
    }
}

/// What has become of a packet of a burst.
pub enum PayloadBucket {
    Awaiting,
    Present(Payload),
    Sent,
}

/// What a [`PayloadBucket`] says.
pub enum BucketModel {
    Awaiting,
    Present(messages::PayloadModel),
    Sent,
}

impl View for PayloadBucket {
    type V = BucketModel;

    open spec fn view(&self) -> BucketModel {
        match *self {
            PayloadBucket::Awaiting => BucketModel::Awaiting,
            PayloadBucket::Present(p) => BucketModel::Present(p@),
            PayloadBucket::Sent => BucketModel::Sent,
        }
    }
}

/// What some buckets say.
pub open spec fn buckets_view(buckets: Seq<PayloadBucket>) -> Seq<BucketModel> {
    buckets.map_values(|bucket: PayloadBucket| bucket@)
}

/// Puts the packets of a burst in order, however they come.
pub struct SendQueue {
    pub cur_range: Range<PacketIdx>,
    pub payloads: Vec<PayloadBucket>,
    /// The packet that leaves next.
    pub pointer: usize,
}

/// What leaves the queue.
pub struct Departure {
    pub packets: Vec<Payload>,
    /// Whether the burst is over, so that what has been collected has to be sent.
    pub flush: bool,
}

/// How many packets from `from` on are there, without a gap.
pub open spec fn run_length(buckets: Seq<BucketModel>, from: int) -> nat
    decreases buckets.len() - from,
{
    if 0 <= from < buckets.len() && buckets[from] is Present {
        1 + run_length(buckets, from + 1)
    } else {
        0
    }
}

/// The packets that are there from `from` on, without a gap.
pub open spec fn run_of(buckets: Seq<BucketModel>, from: int) -> Seq<messages::PayloadModel> {
    Seq::new(
        run_length(buckets, from),
        |i: int| buckets[from + i]->Present_0,
    )
}

/// The buckets when the packets that are there from `from` on have left.
pub open spec fn departed(buckets: Seq<BucketModel>, from: int) -> Seq<BucketModel> {
    Seq::new(
        buckets.len(),
        |i: int|
            if from <= i < from + run_length(buckets, from) {
                BucketModel::Sent
            } else {
                buckets[i]
            },
    )
}

proof fn lemma_run(buckets: Seq<BucketModel>, from: int)
    requires
        0 <= from <= buckets.len(),
    ensures
        from + run_length(buckets, from) <= buckets.len(),
        forall|i: int|
            from <= i < from + run_length(buckets, from) ==> (#[trigger] buckets[i]) is Present,
        from + run_length(buckets, from) < buckets.len() ==> !(buckets[from + run_length(
            buckets,
            from,
        )] is Present),
    decreases buckets.len() - from,
{
    if from < buckets.len() && buckets[from] is Present {
        lemma_run(buckets, from + 1);
    }
}

impl SendQueue {
    /// What the buckets say.
    pub open spec fn buckets(self) -> Seq<BucketModel> {
        buckets_view(self.payloads@)
    }

    /// There is a bucket for each packet of the burst. Those before the pointer have left; of the
    /// others none has left, and the first of them has not come. A packet is in the bucket of its
    /// index.
    pub open spec fn inv(self) -> bool {
        let buckets = self.buckets();
        &&& self.cur_range.end.0 - self.cur_range.start.0 == buckets.len()
        &&& self.pointer <= buckets.len()
        &&& forall|i: int|
            0 <= i < buckets.len() ==> ((#[trigger] buckets[i]) is Sent <==> i < self.pointer)
        &&& self.pointer < buckets.len() ==> buckets[self.pointer as int] is Awaiting
        &&& forall|i: int|
            0 <= i < buckets.len() ==> (#[trigger] buckets[i] matches BucketModel::Present(p)
                ==> p.index.0 == self.cur_range.start.0 + i)
    }

    /// A queue without a burst.
    pub fn new() -> (r: Self)
        ensures
            r.inv(),
            r.buckets() == Seq::<BucketModel>::empty(),
            r.pointer == 0,
    {
        let r = SendQueue {
            cur_range: Range { start: PacketIdx::invalid(), end: PacketIdx::invalid() },
            payloads: Vec::new(),
            pointer: 0,
        };
        assert(r.buckets() =~= Seq::empty());
        r
    }

    /// Lets the packets leave that are there, up to the first that is not.
    fn depart(&mut self) -> (r: Departure)
        requires
            old(self).pointer <= old(self).payloads@.len(),
        ensures
            final(self).cur_range == old(self).cur_range,
            final(self).buckets() == departed(old(self).buckets(), old(self).pointer as int),
            final(self).pointer == old(self).pointer + run_length(
                old(self).buckets(),
                old(self).pointer as int,
            ),
            disk_read_engine::payloads_view(r.packets@) == run_of(
                old(self).buckets(),
                old(self).pointer as int,
            ),
            r.flush == (final(self).pointer == old(self).buckets().len()),
    {
        let ghost all = self.buckets();
        let ghost from = self.pointer as int;
        let ghost run = run_length(all, from);
        let mut packets: Vec<Payload> = Vec::new();
        proof {
            lemma_run(all, from);
            assert(self.buckets() =~= all);
        }
        let mut going = true;
        while going
            invariant
                self.cur_range == old(self).cur_range,
                run == run_length(all, from),
                all == old(self).buckets(),
                from == old(self).pointer,
                from <= self.pointer <= from + run <= all.len(),
                packets@.len() == self.pointer - from,
                self.payloads@.len() == all.len(),
                forall|i: int|
                    from <= i < from + run ==> (#[trigger] all[i]) is Present,
                from + run < all.len() ==> !(all[(from + run) as int] is Present),
                forall|i: int|
                    0 <= i < all.len() ==> (#[trigger] self.payloads@[i])@ == if from <= i
                        < self.pointer {
                        BucketModel::Sent
                    } else {
                        all[i]
                    },
                forall|i: int|
                    0 <= i < packets@.len() ==> (#[trigger] packets@[i])@
                        == all[from + i]->Present_0,
                !going ==> self.pointer == from + run,
            decreases
                from + run - self.pointer + if going {
                    1int
                } else {
                    0
                },
        {
            if self.pointer == self.payloads.len() {
                going = false;
            } else {
                let ghost at = self.pointer as int;
                let pointer: usize = self.pointer;
                let ghost before = self.payloads@;
                assert(before[at]@ == all[at]);
                let mut bucket = PayloadBucket::Sent;
                match &self.payloads[pointer] {
                    PayloadBucket::Present(_) => {
                        assert(all[at] is Present);
                        std::mem::swap(&mut self.payloads[pointer], &mut bucket);
                        if let PayloadBucket::Present(p) = bucket {
                            packets.push(p);
                        }
                        self.pointer = pointer + 1;
                    },
                    _ => {
                        going = false;
                    },
                }
            }
        }
        proof {
            assert(self.buckets() =~= departed(all, from));
            assert(disk_read_engine::payloads_view(packets@) =~= run_of(all, from));
        }
        let flush = self.pointer == self.payloads.len();
        Departure { packets, flush }
    }

    /// A burst begins.
    pub fn prepare(&mut self, range: Range<PacketIdx>) -> (r: Departure)
        requires
            range.start.phase_of() == range.end.phase_of(),
            range.start.0 <= range.end.0,
            range.end.0 - range.start.0 <= usize::MAX,
        ensures
            final(self).inv(),
            awaits_burst(*final(self), range),
            r.packets@.len() == 0,
            r.flush == (range.start.0 == range.end.0),
    {
        let count: usize = (range.end.0 - range.start.0) as usize;
        let mut payloads: Vec<PayloadBucket> = Vec::new();
        while payloads.len() < count
            invariant
                payloads@.len() <= count,
                forall|i: int| 0 <= i < payloads@.len() ==> (#[trigger] payloads@[i])@ is Awaiting,
            decreases count - payloads@.len(),
        {
            payloads.push(PayloadBucket::Awaiting);
        }
        self.cur_range = range;
        self.payloads = payloads;
        self.pointer = 0;
        let ghost fresh = Seq::new(count as nat, |i: int| BucketModel::Awaiting);
        assert(self.buckets() =~= fresh);
        let r = self.depart();
        assert(self.buckets() =~= fresh);
        assert(disk_read_engine::payloads_view(r.packets@).len() == 0);
        r
    }

    /// A packet of the burst has been read. One that has come before does not count.
    pub fn add_payload(&mut self, p: Payload) -> (r: Departure)
        requires
            old(self).inv(),
            old(self).cur_range.start.0 <= p.index.0 < old(self).cur_range.end.0,
        ensures
            final(self).inv(),
            final(self).cur_range == old(self).cur_range,
            takes_in(
                *old(self),
                p@,
                *final(self),
                disk_read_engine::payloads_view(r.packets@),
                r.flush,
            ),
    {
        let count: usize = self.payloads.len();
        assert(self.buckets().len() == count);
        let offset: usize = (p.index.0 - self.cur_range.start.0) as usize;
        let ghost before = self.buckets();
        let ghost at = offset as int;
        let ghost model = p@;
        assert(before[at] == self.payloads@[at]@);
        let awaiting = match &self.payloads[offset] {
            PayloadBucket::Awaiting => true,
            _ => false,
        };
        if awaiting {
            self.payloads.set(offset, PayloadBucket::Present(p));
        }
        let ghost added = if before[at] is Awaiting {
            before.update(at, BucketModel::Present(model))
        } else {
            before
        };
        assert(self.buckets() =~= added);
        let ghost from = self.pointer as int;
        let r = self.depart();
        proof {
            lemma_run(added, from);
            let after = self.buckets();
            assert forall|i: int| 0 <= i < after.len() implies ((#[trigger] after[i]) is Sent <==> i
                < self.pointer) by {
                assert(before[i] is Sent <==> i < from);
            }
            assert forall|i: int| 0 <= i < after.len() implies (
            #[trigger] after[i] matches BucketModel::Present(q) ==> q.index.0
                == self.cur_range.start.0 + i) by {
                assert(before[i] matches BucketModel::Present(q) ==> q.index.0
                    == self.cur_range.start.0 + i);
            }
            if self.pointer < after.len() {
                let next = self.pointer as int;
                assert(before[next] is Sent <==> next < from);
                assert(after[next] == added[next]);
            }
        }
        r
    }
}

/// Whether a queue waits for all packets of a burst.
pub open spec fn awaits_burst(queue: SendQueue, range: Range<PacketIdx>) -> bool {
    &&& queue.cur_range == range
    &&& queue.pointer == 0
    &&& queue.buckets() == Seq::new(
        (range.end.0 - range.start.0) as nat,
        |i: int| BucketModel::Awaiting,
    )
}

/// A burst begins with all of its packets to come, and with none left from before.
pub proof fn law_burst_begins(queue: SendQueue, range: Range<PacketIdx>, i: int)
    requires
        awaits_burst(queue, range),
        range.start.0 <= range.end.0,
    ensures
        queue.buckets().len() == range.end.0 - range.start.0,
        queue.cur_range == range,
        queue.pointer == 0,
        0 <= i < queue.buckets().len() ==> queue.buckets()[i] is Awaiting,
{
}

/// `after` is the queue when the packet `p` has come to `before`; the packets `leaving` leave, and
/// `flush` says whether they were the last.
pub open spec fn takes_in(
    before: SendQueue,
    p: messages::PayloadModel,
    after: SendQueue,
    leaving: Seq<messages::PayloadModel>,
    flush: bool,
) -> bool {
    let at = p.index.0 - before.cur_range.start.0;
    let added = if before.buckets()[at] is Awaiting {
        before.buckets().update(at, BucketModel::Present(p))
    } else {
        before.buckets()
    };
    let from = before.pointer as int;
    &&& after.cur_range == before.cur_range
    &&& after.buckets() == departed(added, from)
    &&& after.pointer == from + run_length(added, from)
    &&& leaving == run_of(added, from)
    &&& flush == (after.pointer == before.buckets().len())
}

/// No packet is lost, changed or held back: one that has come either leaves in its place or stays in
/// its place; and whatever is still there waits for a packet before it that has not come.
pub proof fn law_no_packet_is_lost(
    before: SendQueue,
    p: messages::PayloadModel,
    after: SendQueue,
    leaving: Seq<messages::PayloadModel>,
    flush: bool,
    i: int,
)
    requires
        before.inv(),
        before.cur_range.start.0 <= p.index.0 < before.cur_range.end.0,
        takes_in(before, p, after, leaving, flush),
        0 <= i < before.buckets().len(),
    ensures
        ({
            let at = p.index.0 - before.cur_range.start.0;
            let from = before.pointer as int;
            let next = after.pointer as int;
            let here = if i == at && before.buckets()[i] is Awaiting {
                BucketModel::Present(p)
            } else {
                before.buckets()[i]
            };
            &&& next == from + leaving.len()
            &&& after.buckets().len() == before.buckets().len()
            &&& next <= after.buckets().len()
            &&& here matches BucketModel::Present(q) ==> {
                ||| from <= i < next && leaving[i - from] == q
                ||| i > next && after.buckets()[i] == BucketModel::Present(q)
            }
            &&& here is Awaiting ==> next <= i && after.buckets()[i] is Awaiting
            &&& here is Sent ==> i < from && after.buckets()[i] is Sent
            &&& next < after.buckets().len() ==> after.buckets()[next] is Awaiting
            &&& flush <==> next == after.buckets().len()
        }),
{
    let at = p.index.0 - before.cur_range.start.0;
    let all = before.buckets();
    let added = if all[at] is Awaiting {
        all.update(at, BucketModel::Present(p))
    } else {
        all
    };
    let from = before.pointer as int;
    lemma_run(added, from);
    assert(all[i] is Sent <==> i < from);
    let next = after.pointer as int;
    if next < all.len() {
        assert(all[next] is Sent <==> next < from);
        assert(added[next] is Awaiting);
    }
}

/// When every packet of a burst has come, all of them have left, and the burst is over.
pub proof fn law_burst_leaves_as_a_whole(
    before: SendQueue,
    p: messages::PayloadModel,
    after: SendQueue,
    leaving: Seq<messages::PayloadModel>,
    flush: bool,
)
    requires
        before.inv(),
        before.cur_range.start.0 <= p.index.0 < before.cur_range.end.0,
        takes_in(before, p, after, leaving, flush),
        forall|i: int|
            0 <= i < before.buckets().len() && i != p.index.0 - before.cur_range.start.0 ==> !((
            #[trigger] before.buckets()[i]) is Awaiting),
    ensures
        flush,
        after.pointer == before.buckets().len(),
        before.pointer + leaving.len() == before.buckets().len(),
{
    let at = p.index.0 - before.cur_range.start.0;
    law_no_packet_is_lost(before, p, after, leaving, flush, at);
    let next = after.pointer as int;
    if next < before.buckets().len() {
        law_no_packet_is_lost(before, p, after, leaving, flush, next);
    }
}

/// Packets leave in the order of their indices, each once: what leaves begins with the packet
/// behind the last that has left, and goes on without a gap.
pub proof fn law_packets_leave_in_order(
    queue: SendQueue,
    p: messages::PayloadModel,
    k: int,
)
    requires
        queue.inv(),
        queue.cur_range.start.0 <= p.index.0 < queue.cur_range.end.0,
    ensures
        ({
            let at = p.index.0 - queue.cur_range.start.0;
            let added = if queue.buckets()[at] is Awaiting {
                queue.buckets().update(at, BucketModel::Present(p))
            } else {
                queue.buckets()
            };
            let leaving = run_of(added, queue.pointer as int);
            0 <= k < leaving.len() ==> leaving[k].index.0 == queue.cur_range.start.0
                + queue.pointer + k
        }),
{
    let at = p.index.0 - queue.cur_range.start.0;
    let before = queue.buckets();
    let added = if before[at] is Awaiting {
        before.update(at, BucketModel::Present(p))
    } else {
        before
    };
    let from = queue.pointer as int;
    lemma_run(added, from);
    if 0 <= k < run_length(added, from) {
        assert(added[from + k] is Present);
        assert(before[from + k] matches BucketModel::Present(q) ==> q.index.0
            == queue.cur_range.start.0 + from + k);
    }
}

} // verus!
