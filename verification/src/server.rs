//! The sending side: how fast to send, and whom to listen to.
use std::ops::Range;

use bytes::Bytes;
use vstd::prelude::*;

use crate::client::{ClientProtocolHandler, Reaction};
use crate::messages::{Announce, LinkQualitySignal, Message, MessageError, Request};
use crate::meta::Meta;
use crate::packet::{
    overlaps, IndexInPhase, PacketIdx, RetransmitGeneration, SessionId, INVALID_INDEX, MAX_BURST_SIZE,
    MAX_INDEX, MAX_OFFSET, MIN_BURST_SIZE,
};
use crate::peer::{PeerAddr, PeerAddrV4};
use crate::{buffers, client, messages, packet, range_set, sections};

verus! {

/// How many packets a burst may have.
pub struct Pacing {
    pub buffer_size_packets: usize,
}

impl Default for Pacing {
    fn default() -> (r: Self)
        ensures
            r.buffer_size_packets == MIN_BURST_SIZE,
    {
        Pacing { buffer_size_packets: MIN_BURST_SIZE }
    }
}

/// How many packets a burst may have, after what a client has said of the link.
pub open spec fn paced(packets: int, signal: LinkQualitySignal) -> int {
    match signal {
        LinkQualitySignal::KeepGoing => packets,
        LinkQualitySignal::IncreaseWindow => {
            let more = (packets + 5) * 3 / 2;
            if more < MAX_BURST_SIZE {
                more
            } else {
                MAX_BURST_SIZE as int
            }
        },
        LinkQualitySignal::LossDetected => if packets / 2 > MIN_BURST_SIZE {
            packets / 2
        } else {
            MIN_BURST_SIZE as int
        },
    }
}

impl Pacing {
    /// Takes in what a client says of the link.
    pub fn report(&mut self, link_quality_signal: LinkQualitySignal)
        requires
            link_quality_signal == LinkQualitySignal::IncreaseWindow ==> (
            old(self).buffer_size_packets + 5) * 3 <= usize::MAX,
        ensures
            final(self).buffer_size_packets == paced(
                old(self).buffer_size_packets as int,
                link_quality_signal,
            ),
    {
        match link_quality_signal {
            LinkQualitySignal::KeepGoing => {},
            LinkQualitySignal::IncreaseWindow => {
                let more: usize = ((self.buffer_size_packets + 5) * 3) / 2;
                self.buffer_size_packets = if more < MAX_BURST_SIZE {
                    more
                } else {
                    MAX_BURST_SIZE
                };
            },
            LinkQualitySignal::LossDetected => {
                let fewer: usize = self.buffer_size_packets / 2;
                self.buffer_size_packets = if fewer > MIN_BURST_SIZE {
                    fewer
                } else {
                    MIN_BURST_SIZE
                };
            },
        }
    }
}

/// Whatever clients say, a burst has neither too few packets nor too many.
pub proof fn law_pacing_bounded(packets: int, signal: LinkQualitySignal)
    requires
        MIN_BURST_SIZE <= packets <= MAX_BURST_SIZE,
    ensures
        MIN_BURST_SIZE <= paced(packets, signal) <= MAX_BURST_SIZE,
{
}

/// Loss slows a server down, unless it is as slow as can be already, and the wish for more speeds it
/// up, unless it is as fast as can be. Nothing else changes its speed.
pub proof fn law_pacing_direction(packets: int)
    requires
        MIN_BURST_SIZE <= packets <= MAX_BURST_SIZE,
    ensures
        packets > MIN_BURST_SIZE ==> paced(packets, LinkQualitySignal::LossDetected) < packets,
        packets == MIN_BURST_SIZE ==> paced(packets, LinkQualitySignal::LossDetected) == packets,
        packets < MAX_BURST_SIZE ==> paced(packets, LinkQualitySignal::IncreaseWindow) > packets,
        packets == MAX_BURST_SIZE ==> paced(packets, LinkQualitySignal::IncreaseWindow) == packets,
        paced(packets, LinkQualitySignal::KeepGoing) == packets,
{
}

/// Loss halves the speed of a server, down to its least. The wish for more brings half as much again
/// and a few packets more, up to its most.
pub proof fn law_pacing_steps(packets: int)
    requires
        packets >= 0,
    ensures
        ({
            let slower = paced(packets, LinkQualitySignal::LossDetected);
            let faster = paced(packets, LinkQualitySignal::IncreaseWindow);
            &&& slower >= MIN_BURST_SIZE
            &&& slower == MIN_BURST_SIZE || 2 * slower == packets || 2 * slower + 1 == packets
            &&& packets >= 2 * MIN_BURST_SIZE ==> 2 * slower == packets || 2 * slower + 1 == packets
            &&& faster <= MAX_BURST_SIZE
            &&& faster == MAX_BURST_SIZE || 2 * faster == 3 * packets + 15 || 2 * faster + 1 == 3
                * packets + 15
            &&& 3 * packets + 15 < 2 * MAX_BURST_SIZE ==> 2 * faster == 3 * packets + 15 || 2
                * faster + 1 == 3 * packets + 15
        }),
{
}

/// An order to send packets.
pub struct SendOrder {
    pub generation: RetransmitGeneration,
    pub range: Range<PacketIdx>,
}

/// What an order says: the generation, the first packet, and the packet behind the last.
pub open spec fn order_model(order: SendOrder) -> (u16, u64, u64) {
    (order.generation.0, order.range.start.0, order.range.end.0)
}

/// What some orders say.
pub open spec fn orders_model(orders: Seq<SendOrder>) -> Seq<(u16, u64, u64)> {
    orders.map_values(|order: SendOrder| order_model(order))
}

/// The packet at `index` of `phase`.
pub open spec fn packet_at(phase: u16, index: int) -> int {
    phase * 0x1_0000_0000_0000 + index
}

/// How many packets of a range are sent with a budget.
pub open spec fn granted(section: (u64, u64), budget: int) -> int {
    if section.1 - section.0 > budget {
        budget
    } else {
        section.1 - section.0
    }
}

/// The orders for packet ranges of a phase: range by range, until the budget is used up. The last
/// range may be cut short.
pub open spec fn orders_for(
    generation: u16,
    phase: u16,
    list: Seq<(u64, u64)>,
    budget: int,
) -> Seq<(u16, u64, u64)>
    decreases list.len(),
{
    if list.len() == 0 {
        Seq::empty()
    } else {
        let count = granted(list[0], budget);
        let order = (
            generation,
            packet_at(phase, list[0].0 as int) as u64,
            packet_at(phase, list[0].0 + count) as u64,
        );
        if budget == count {
            seq![order]
        } else {
            seq![order] + orders_for(generation, phase, list.skip(1), budget - count)
        }
    }
}

/// The ranges that are looked at before the budget is used up are ranges of packets.
pub open spec fn ranges_ok(list: Seq<(u64, u64)>, budget: int) -> bool
    decreases list.len(),
{
    list.len() == 0 || {
        &&& list[0].0 <= list[0].1 <= MAX_INDEX
        &&& budget == granted(list[0], budget) || ranges_ok(
            list.skip(1),
            budget - granted(list[0], budget),
        )
    }
}

/// How long a pack leader may keep silent before another client takes over.
pub const PACK_LEADER_CHANGE_TIME_NANOS: u64 = 100_000_000;

/// How much time lies at least between two requests of another generation that are answered.
pub const OUT_OF_DATE_TIME_NANOS: u64 = 1_000_000_000;

/// What a server knows about its clients. Times are nanoseconds since some moment before.
pub struct ServerLogicState {
    pub session_id: SessionId,
    pub current_retransmit_generation: RetransmitGeneration,
    pub pack_leader: PeerAddr,
    pub packet_leader_position: PacketIdx,
    pub pack_leader_last_head: u64,
    pub pacing: Pacing,
    pub time_when_last_out_of_date_retransmit_gen_accepted: u64,
    pub meta: Meta,
}

/// Why a message was not answered.
#[derive(Clone, Copy, PartialEq, Eq, Debug, Structural)]
pub enum ServerError {
    /// A request asks for nothing.
    EmptyRequest,
    /// Another session uses the same group.
    CollidingSession,
    /// The bytes are not a message.
    Message(MessageError),
}

/// The time from `then` to `now`.
pub open spec fn elapsed(then: u64, now: u64) -> int {
    if now < then {
        0
    } else {
        now - then
    }
}

impl ServerLogicState {
    /// Whether the sender of a request becomes the pack leader: it is behind the pack leader, or
    /// the pack leader has been silent for too long.
    pub open spec fn leads(self, r: messages::RequestModel, src: PeerAddr, now: u64) -> bool {
        ||| self.pack_leader != src && packet_at(r.phase, r.sections[0].0 as int)
            < self.packet_leader_position.0
        ||| elapsed(self.pack_leader_last_head, now) > PACK_LEADER_CHANGE_TIME_NANOS
    }

    /// Whether a request is of the current generation, or of the next: a request for what follows
    /// the current burst, made when its end was near.
    pub open spec fn is_current(self, r: messages::RequestModel) -> bool {
        ||| r.retransmit_generation == self.current_retransmit_generation
        ||| r.retransmit_generation == self.current_retransmit_generation.successor()
    }

    /// Whether a request counts: it is of the current generation or the next, or no other request
    /// of another generation has counted for some time.
    pub open spec fn counts(self, r: messages::RequestModel, now: u64) -> bool {
        ||| self.is_current(r)
        ||| elapsed(self.time_when_last_out_of_date_retransmit_gen_accepted, now)
            > OUT_OF_DATE_TIME_NANOS
    }

    /// Whether a request is answered with packets: it counts, and comes from the pack leader.
    pub open spec fn answers(self, r: messages::RequestModel, src: PeerAddr, now: u64) -> bool {
        self.counts(r, now) && (self.leads(r, src, now) || self.pack_leader == src)
    }

    /// How many packets the answer to a request may have.
    pub open spec fn budget(self, r: messages::RequestModel) -> int {
        paced(self.pacing.buffer_size_packets as int, r.loss)
    }

    /// The request speaks of packets, as far as it is looked at.
    pub open spec fn can_process(self, r: messages::RequestModel, src: PeerAddr, now: u64) -> bool {
        r.sections.len() > 0 ==> {
            &&& r.sections[0].0 <= MAX_INDEX
            &&& self.answers(r, src, now) ==> {
                &&& r.loss == LinkQualitySignal::IncreaseWindow ==> (
                self.pacing.buffer_size_packets + 5) * 3 <= usize::MAX
                &&& ranges_ok(r.sections, self.budget(r))
            }
        }
    }

    /// What a server knows after a request that asks for something.
    pub open spec fn after(self, r: messages::RequestModel, src: PeerAddr, now: u64) -> Self {
        let leads = self.leads(r, src, now);
        let counts = self.counts(r, now);
        let answers = self.answers(r, src, now);
        ServerLogicState {
            session_id: self.session_id,
            current_retransmit_generation: if counts {
                self.current_retransmit_generation.successor()
            } else {
                self.current_retransmit_generation
            },
            pack_leader: if leads {
                src
            } else {
                self.pack_leader
            },
            packet_leader_position: if leads {
                PacketIdx(packet_at(r.phase, r.sections[0].0 as int) as u64)
            } else {
                self.packet_leader_position
            },
            pack_leader_last_head: if answers {
                now
            } else {
                self.pack_leader_last_head
            },
            pacing: if answers {
                Pacing { buffer_size_packets: self.budget(r) as usize }
            } else {
                self.pacing
            },
            time_when_last_out_of_date_retransmit_gen_accepted: if counts && !self.is_current(r) {
                now
            } else {
                self.time_when_last_out_of_date_retransmit_gen_accepted
            },
            meta: self.meta,
        }
    }

    /// The orders that a request gives rise to.
    pub open spec fn orders(self, r: messages::RequestModel, src: PeerAddr, now: u64) -> Seq<
        (u16, u64, u64),
    > {
        if self.answers(r, src, now) {
            orders_for(
                self.after(r, src, now).current_retransmit_generation.0,
                r.phase,
                r.sections,
                self.budget(r),
            )
        } else {
            Seq::empty()
        }
    }

    /// Orders the packets of a request, as many as a burst may have.
    fn send(&self, generation: RetransmitGeneration, r: &Request) -> (orders: Vec<SendOrder>)
        requires
            ranges_ok(
                sections::sections_of(r.sections),
                self.pacing.buffer_size_packets as int,
            ),
        ensures
            orders_model(orders@) == orders_for(
                generation.0,
                r.phase,
                sections::sections_of(r.sections),
                self.pacing.buffer_size_packets as int,
            ),
    {
        let ghost list = sections::sections_of(r.sections);
        let ghost whole = self.pacing.buffer_size_packets as int;
        let mut orders: Vec<SendOrder> = Vec::new();
        let mut budget: u64 = self.pacing.buffer_size_packets as u64;
        let count: usize = sections::len(&r.sections);
        let mut i: usize = 0;
        proof {
            assert(list.skip(0) =~= list);
            assert(orders_model(orders@) =~= Seq::empty());
            assert(Seq::<(u16, u64, u64)>::empty() + orders_for(
                generation.0,
                r.phase,
                list,
                whole,
            ) =~= orders_for(generation.0, r.phase, list, whole));
        }
        while i < count
            invariant
                i <= count,
                count == list.len(),
                list == sections::sections_of(r.sections),
                whole == self.pacing.buffer_size_packets,
                ranges_ok(list.skip(i as int), budget as int),
                orders_for(generation.0, r.phase, list, whole) == orders_model(orders@)
                    + orders_for(generation.0, r.phase, list.skip(i as int), budget as int),
            decreases count - i,
        {
            let section = sections::get(&r.sections, i);
            let ghost before = orders@;
            let ghost rest = list.skip(i as int);
            assert(rest[0] == list[i as int]);
            assert(rest.skip(1) =~= list.skip(i + 1));
            let size: u64 = section.end.0 - section.start.0;
            let granted_size: u64 = if size > budget {
                budget
            } else {
                size
            };
            let start = PacketIdx::new(r.phase, section.start);
            let end = PacketIdx::new(r.phase, IndexInPhase(section.start.0 + granted_size));
            orders.push(SendOrder { generation, range: Range { start, end } });
            assert(orders_model(orders@) =~= orders_model(before).push(
                (generation.0, start.0, end.0),
            ));
            if budget == granted_size {
                assert(orders_model(orders@) =~= orders_model(before) + seq![
                    (generation.0, start.0, end.0),
                ]);
                return orders;
            }
            proof {
                let more = orders_for(
                    generation.0,
                    r.phase,
                    list.skip(i + 1),
                    budget - granted_size,
                );
                assert(orders_model(before) + (seq![(generation.0, start.0, end.0)] + more)
                    =~= orders_model(orders@) + more);
            }
            budget = budget - granted_size;
            i = i + 1;
        }
        proof {
            assert(list.skip(i as int) =~= Seq::empty());
            assert(orders_model(orders@) + Seq::<(u16, u64, u64)>::empty() =~= orders_model(
                orders@,
            ));
        }
        orders
    }

    /// A client asks for packets.
    pub fn process_request(&mut self, r: Request, src: PeerAddr, now: u64) -> (result: Result<
        Vec<SendOrder>,
        ServerError,
    >)
        requires
            old(self).can_process(r@, src, now),
        ensures
            r@.sections.len() == 0 ==> result == Err::<Vec<SendOrder>, ServerError>(
                ServerError::EmptyRequest,
            ) && *final(self) == *old(self),
            r@.sections.len() > 0 ==> *final(self) == old(self).after(r@, src, now) && (
            result matches Ok(orders) && orders_model(orders@) == old(self).orders(r@, src, now)),
    {
        if sections::len(&r.sections) == 0 {
            return Err(ServerError::EmptyRequest);
        }
        let first_section = sections::get(&r.sections, 0);
        let first_idx = PacketIdx::new(r.phase, first_section.start);
        if self.pack_leader != src && first_idx < self.packet_leader_position
            || now.saturating_sub(self.pack_leader_last_head) > PACK_LEADER_CHANGE_TIME_NANOS {
            self.pack_leader = src;
            self.packet_leader_position = first_idx;
        }
        if r.retransmit_generation != self.current_retransmit_generation && r.retransmit_generation
            != self.current_retransmit_generation.next() {
            if now.saturating_sub(self.time_when_last_out_of_date_retransmit_gen_accepted)
                > OUT_OF_DATE_TIME_NANOS {
                self.time_when_last_out_of_date_retransmit_gen_accepted = now;
            } else {
                let none: Vec<SendOrder> = Vec::new();
                assert(orders_model(none@) =~= Seq::empty());
                return Ok(none);
            }
        }
        self.current_retransmit_generation = self.current_retransmit_generation.next();
        if self.pack_leader != src {
            let none: Vec<SendOrder> = Vec::new();
            assert(orders_model(none@) =~= Seq::empty());
            return Ok(none);
        }
        self.pack_leader_last_head = now;
        if r.loss != LinkQualitySignal::KeepGoing {
            self.pacing.report(r.loss);
        }
        Ok(self.send(self.current_retransmit_generation, &r))
    }
}

/// How many packets some orders have.
pub open spec fn packets_ordered(orders: Seq<(u16, u64, u64)>) -> int
    decreases orders.len(),
{
    if orders.len() == 0 {
        0
    } else {
        orders[0].2 - orders[0].1 + packets_ordered(orders.skip(1))
    }
}

/// How many packets some ranges have.
pub open spec fn packets_asked(list: Seq<(u64, u64)>) -> int
    decreases list.len(),
{
    if list.len() == 0 {
        0
    } else {
        list[0].1 - list[0].0 + packets_asked(list.skip(1))
    }
}

/// The answer to a request has as many packets as were asked for, or as many as a burst may have,
/// whichever is less.
pub proof fn law_burst_within_budget(
    generation: u16,
    phase: u16,
    list: Seq<(u64, u64)>,
    budget: int,
)
    requires
        budget >= 0,
        forall|i: int|
            0 <= i < list.len() ==> (#[trigger] list[i]).0 <= list[i].1 <= MAX_INDEX,
    ensures
        ranges_ok(list, budget),
        packets_asked(list) >= 0,
        packets_ordered(orders_for(generation, phase, list, budget)) == if packets_asked(list)
            < budget {
            packets_asked(list)
        } else {
            budget
        },
    decreases list.len(),
{
    if list.len() > 0 {
        let count = granted(list[0], budget);
        let rest = list.skip(1);
        assert(list[0].0 <= list[0].1 <= MAX_INDEX);
        assert forall|i: int| 0 <= i < rest.len() implies (#[trigger] rest[i]).0 <= rest[i].1
            <= MAX_INDEX by {
            assert(rest[i] == list[i + 1]);
        }
        law_burst_within_budget(generation, phase, rest, budget - count);
        let orders = orders_for(generation, phase, list, budget);
        if budget == count {
            reveal_with_fuel(packets_ordered, 2);
            assert(orders.skip(1) =~= Seq::empty());
        } else {
            assert(orders.skip(1) =~= orders_for(generation, phase, rest, budget - count));
        }
    } else {
        assert(orders_for(generation, phase, list, budget).len() == 0);
    }
}

/// A server can process whatever a client asks for, as long as what the client misses has packets.
pub proof fn law_requests_can_be_processed(
    client: ClientProtocolHandler,
    phase: u16,
    generation: RetransmitGeneration,
    on_its_way: Option<(u64, u64)>,
    server: ServerLogicState,
    src: PeerAddr,
    now: u64,
)
    requires
        client.inv(),
        phase < client.missing@.len(),
        forall|k: int|
            0 <= k < client.missing_of(phase).len() ==> (#[trigger] client.missing_of(phase)[k]).1
                <= MAX_OFFSET,
        MIN_BURST_SIZE <= server.pacing.buffer_size_packets <= MAX_BURST_SIZE,
    ensures
        client::request_of(client, phase, generation, on_its_way) matches Some(r) ==> server.can_process(
            r,
            src,
            now,
        ),
{
    let missing = client.missing_of(phase);
    assert(range_set::apart(range_set::range_list(client.missing@[phase as int])));
    if let Some(r) = client::request_of(client, phase, generation, on_its_way) {
        assert forall|i: int| 0 <= i < r.sections.len() implies (#[trigger] r.sections[i]).0
            <= r.sections[i].1 <= MAX_INDEX by {
            client::law_requests_have_packets(missing, on_its_way, i);
        }
        law_burst_within_budget(0, phase, r.sections, server.budget(r));
    }
}

/// A client that is told of the end of a burst asks in time: its request counts, however long ago
/// another did, as long as the burst is still the last that the server has sent.
pub proof fn law_early_requests_count(
    before: ClientProtocolHandler,
    phase: u16,
    p: messages::PayloadModel,
    after: ClientProtocolHandler,
    reaction: Reaction,
    server: ServerLogicState,
    now: u64,
)
    requires
        client::takes_packet(before, phase, p, after, reaction),
        client::takes_generation(
            before.last_retransmit_generation.0,
            p.retransmit_generation.0,
            before.last_retransmit_generation_update_counter,
        ),
        p.retransmit_generation == server.current_retransmit_generation,
        p.eof_approaching.0 != INVALID_INDEX,
    ensures
        reaction.request matches Some(r) ==> r@.retransmit_generation
            == p.retransmit_generation.successor() && server.counts(r@, now),
{
}

/// Each order of an answer is for packets of the range in the same place of the request, from its
/// first packet on.
pub proof fn law_only_requested_packets(
    generation: u16,
    phase: u16,
    list: Seq<(u64, u64)>,
    budget: int,
    at: int,
)
    requires
        budget >= 0,
        ranges_ok(list, budget),
        0 <= at < orders_for(generation, phase, list, budget).len(),
    ensures
        at < list.len(),
        orders_for(generation, phase, list, budget)[at].0 == generation,
        orders_for(generation, phase, list, budget)[at].1 == packet_at(phase, list[at].0 as int),
        packet_at(phase, list[at].0 as int) <= orders_for(generation, phase, list, budget)[at].2
            <= packet_at(phase, list[at].1 as int),
    decreases list.len(),
{
    if list.len() > 0 {
        let count = granted(list[0], budget);
        if at > 0 {
            law_only_requested_packets(
                generation,
                phase,
                list.skip(1),
                budget - count,
                at - 1,
            );
        }
    }
}

/// The orders of an answer are for whole ranges, one for each range in turn. Only the last may be
/// for fewer packets, and only when the burst is full; and only then are ranges left out.
pub proof fn law_whole_ranges_ordered(
    generation: u16,
    phase: u16,
    list: Seq<(u64, u64)>,
    budget: int,
    at: int,
)
    requires
        budget >= 0,
        forall|i: int|
            0 <= i < list.len() ==> (#[trigger] list[i]).0 <= list[i].1 <= MAX_INDEX,
        0 <= at < list.len(),
    ensures
        ({
            let orders = orders_for(generation, phase, list, budget);
            &&& at < orders.len() - 1 ==> orders[at].2 == packet_at(phase, list[at].1 as int)
            &&& at < orders.len() && orders[at].2 != packet_at(phase, list[at].1 as int)
                ==> packets_ordered(orders) == budget
            &&& orders.len() != list.len() ==> packets_ordered(orders) == budget
            &&& 0 < orders.len() <= list.len()
        }),
    decreases list.len(),
{
    law_burst_within_budget(generation, phase, list, budget);
    let count = granted(list[0], budget);
    let rest = list.skip(1);
    assert(list[0].0 <= list[0].1 <= MAX_INDEX);
    assert forall|i: int| 0 <= i < rest.len() implies (#[trigger] rest[i]).0 <= rest[i].1
        <= MAX_INDEX by {
        assert(rest[i] == list[i + 1]);
    }
    let orders = orders_for(generation, phase, list, budget);
    if budget == count {
        reveal_with_fuel(packets_ordered, 2);
        assert(orders.skip(1) =~= Seq::empty());
    } else {
        let more = orders_for(generation, phase, rest, budget - count);
        assert(orders.skip(1) =~= more);
        if rest.len() > 0 {
            law_whole_ranges_ordered(
                generation,
                phase,
                rest,
                budget - count,
                if at > 0 {
                    at - 1
                } else {
                    0
                },
            );
            if 0 < at < orders.len() {
                assert(rest[at - 1] == list[at]);
                assert(orders[at] == more[at - 1]);
            }
        } else {
            assert(more.len() == 0);
        }
    }
}

/// The first packet that a request asks for, among the packets of all phases.
pub open spec fn first_asked(r: messages::RequestModel) -> int {
    r.phase * 0x1_0000_0000_0000 + r.sections[0].0
}

/// A leader whose request has been answered keeps the lead for a tenth of a second, against every
/// peer that is not behind it: what such a peer asks for meanwhile is not sent.
pub proof fn law_leader_keeps_lead(
    server: ServerLogicState,
    r: messages::RequestModel,
    leader: PeerAddr,
    t: u64,
    other: messages::RequestModel,
    src: PeerAddr,
    now: u64,
)
    requires
        server.answers(r, leader, t),
        now <= t + 100_000_000,
        src != leader,
        first_asked(other) >= server.after(r, leader, t).packet_leader_position.0,
    ensures
        ({
            let then = server.after(r, leader, t);
            let next = then.after(other, src, now);
            &&& then.pack_leader == leader
            &&& !then.leads(other, src, now)
            &&& then.orders(other, src, now).len() == 0
            &&& next.pack_leader == leader
            &&& next.packet_leader_position == then.packet_leader_position
            &&& next.pack_leader_last_head == t
            &&& next.pacing == then.pacing
        }),
{
}

/// A peer takes the lead if it is behind the leader, or if the leader has been silent for more than
/// a tenth of a second. Nobody else does. Where the lead is taken, the leader is found at the first
/// packet that it asks for, else where it was.
pub proof fn law_lead_is_taken(
    server: ServerLogicState,
    r: messages::RequestModel,
    src: PeerAddr,
    now: u64,
)
    requires
        r.sections[0].0 <= MAX_INDEX,
    ensures
        ({
            let after = server.after(r, src, now);
            let behind = src != server.pack_leader && first_asked(r)
                < server.packet_leader_position.0;
            let silent = now > server.pack_leader_last_head + 100_000_000;
            &&& behind || silent ==> after.pack_leader == src
                && after.packet_leader_position.0 == first_asked(r)
            &&& !behind && !silent ==> after.pack_leader == server.pack_leader
                && after.packet_leader_position == server.packet_leader_position
            &&& after.session_id == server.session_id
            &&& after.meta == server.meta
        }),
{
}

/// How a server goes on from one generation to the next: with each request of the current
/// generation or the next, and, once a second at most, with a request of any other.
pub proof fn law_generation_goes_on(
    server: ServerLogicState,
    r: messages::RequestModel,
    src: PeerAddr,
    now: u64,
)
    ensures
        ({
            let after = server.after(r, src, now);
            let current = server.current_retransmit_generation.0;
            let next = if current == 0xffff {
                0int
            } else {
                current + 1
            };
            let expected = r.retransmit_generation.0 == current || r.retransmit_generation.0
                == next;
            let rare = now > server.time_when_last_out_of_date_retransmit_gen_accepted
                + 1_000_000_000;
            &&& expected || rare ==> after.current_retransmit_generation.0 == next
            &&& !expected && !rare ==> after.current_retransmit_generation.0 == current
            &&& !expected && rare ==> after.time_when_last_out_of_date_retransmit_gen_accepted
                == now
            &&& expected || !rare ==> after.time_when_last_out_of_date_retransmit_gen_accepted
                == server.time_when_last_out_of_date_retransmit_gen_accepted
        }),
{
}

/// Of the requests that are neither of the current generation nor of the next, no second one counts
/// within a second: it is not answered and leaves generation and speed as they are.
pub proof fn law_late_requests_count_rarely(
    server: ServerLogicState,
    r: messages::RequestModel,
    first: PeerAddr,
    t: u64,
    other: messages::RequestModel,
    src: PeerAddr,
    now: u64,
)
    requires
        server.counts(r, t),
        !server.is_current(r),
        !server.after(r, first, t).is_current(other),
        now <= t + 1_000_000_000,
    ensures
        ({
            let then = server.after(r, first, t);
            let next = then.after(other, src, now);
            &&& then.orders(other, src, now).len() == 0
            &&& next.current_retransmit_generation == then.current_retransmit_generation
            &&& next.pacing == then.pacing
            &&& next.pack_leader_last_head == then.pack_leader_last_head
        }),
{
}

/// The leader is answered: with the packets that it asks for, as many as a burst may have, in a
/// burst of the new generation. Its answer is a sign of life, and what it says of the link counts.
pub proof fn law_leader_is_answered(
    server: ServerLogicState,
    r: messages::RequestModel,
    src: PeerAddr,
    now: u64,
    at: int,
)
    requires
        forall|i: int|
            0 <= i < r.sections.len() ==> (#[trigger] r.sections[i]).0 <= r.sections[i].1
                <= MAX_INDEX,
        r.sections.len() > 0,
        MIN_BURST_SIZE <= server.pacing.buffer_size_packets <= MAX_BURST_SIZE,
        server.after(r, src, now).pack_leader == src,
        server.after(r, src, now).current_retransmit_generation
            != server.current_retransmit_generation,
    ensures
        ({
            let after = server.after(r, src, now);
            let orders = server.orders(r, src, now);
            &&& after.pack_leader_last_head == now
            &&& after.pacing.buffer_size_packets == paced(
                server.pacing.buffer_size_packets as int,
                r.loss,
            )
            &&& packets_ordered(orders) == if packets_asked(r.sections)
                < after.pacing.buffer_size_packets {
                packets_asked(r.sections)
            } else {
                after.pacing.buffer_size_packets as int
            }
            &&& orders.len() > 0
            &&& orders[0].1 == first_asked(r)
            &&& 0 <= at < orders.len() ==> {
                &&& orders[at].0 == after.current_retransmit_generation.0
                &&& at < r.sections.len()
                &&& orders[at].1 == r.phase * 0x1_0000_0000_0000 + r.sections[at].0
                &&& orders[at].1 <= orders[at].2
                &&& orders[at].2 <= r.phase * 0x1_0000_0000_0000 + r.sections[at].1
            }
        }),
{
    law_pacing_bounded(server.pacing.buffer_size_packets as int, r.loss);
    let generation = server.after(r, src, now).current_retransmit_generation.0;
    law_burst_within_budget(generation, r.phase, r.sections, server.budget(r));
    law_whole_ranges_ordered(generation, r.phase, r.sections, server.budget(r), 0);
    law_only_requested_packets(generation, r.phase, r.sections, server.budget(r), 0);
    if 0 <= at < server.orders(r, src, now).len() {
        law_only_requested_packets(generation, r.phase, r.sections, server.budget(r), at);
    }
}

/// Nobody but the leader is answered, and nobody without a new generation. What is not answered is
/// no sign of life, and changes nothing about the speed.
pub proof fn law_only_leader_is_answered(
    server: ServerLogicState,
    r: messages::RequestModel,
    src: PeerAddr,
    now: u64,
)
    requires
        server.after(r, src, now).pack_leader != src || server.after(
            r,
            src,
            now,
        ).current_retransmit_generation == server.current_retransmit_generation,
    ensures
        server.orders(r, src, now).len() == 0,
        server.after(r, src, now).pacing == server.pacing,
        server.after(r, src, now).pack_leader_last_head == server.pack_leader_last_head,
{
}

/// What a server does about a message.
pub struct ServerAction {
    pub orders: Vec<SendOrder>,
    /// The announcement to be sent to the peer, if it asked for one.
    pub announce: Option<Announce>,
}

/// The announcement of a file set. It counts the first phase, too.
pub open spec fn announce_of(session_id: SessionId, meta: Meta) -> Announce {
    Announce {
        session_id,
        fileset_size: meta.fileset_buf@.len() as u64,
        phases: ((meta.phases + 1) % 0x1_0000) as u16,
        file_count: meta.file_count,
        total_size_bytes: meta.total_size_bytes,
    }
}

/// Nothing is to be done.
pub open spec fn no_action(result: Result<ServerAction, ServerError>) -> bool {
    result matches Ok(action) && action.orders@.len() == 0 && action.announce is None
}

/// `after` is what a server knows, and `result` what it does, when it has received something from
/// the peer `src`: the message `m`, or bytes that are none.
pub open spec fn receives(
    before: ServerLogicState,
    m: Result<messages::MessageModel, MessageError>,
    src: PeerAddr,
    now: u64,
    after: ServerLogicState,
    result: Result<ServerAction, ServerError>,
) -> bool {
    match m {
        Err(e) => result == Err::<ServerAction, ServerError>(ServerError::Message(e)) && after
            == before,
        Ok(messages::MessageModel::Request(r)) => if r.session_id != before.session_id {
            result == Err::<ServerAction, ServerError>(ServerError::CollidingSession) && after
                == before
        } else if r.sections.len() == 0 {
            result == Err::<ServerAction, ServerError>(ServerError::EmptyRequest) && after == before
        } else {
            &&& after == before.after(r, src, now)
            &&& result matches Ok(action)
            &&& action.announce is None
            &&& orders_model(action.orders@) == before.orders(r, src, now)
        },
        Ok(messages::MessageModel::Payload(p)) => after == before && if p.session_id
            != before.session_id {
            result == Err::<ServerAction, ServerError>(ServerError::CollidingSession)
        } else {
            no_action(result)
        },
        Ok(messages::MessageModel::Announce(a)) => after == before && if a.session_id
            != before.session_id {
            result == Err::<ServerAction, ServerError>(ServerError::CollidingSession)
        } else {
            no_action(result)
        },
        Ok(messages::MessageModel::RequestAnnounce) => {
            &&& after == before
            &&& result matches Ok(action)
            &&& action.orders@.len() == 0
            &&& action.announce == Some(announce_of(before.session_id, before.meta))
        },
    }
}

/// Another session does not get through to a server: a message of it is refused, whatever it is, and
/// changes nothing.
pub proof fn law_other_sessions_are_refused(
    before: ServerLogicState,
    m: messages::MessageModel,
    src: PeerAddr,
    now: u64,
    after: ServerLogicState,
    result: Result<ServerAction, ServerError>,
)
    requires
        receives(before, Ok(m), src, now, after, result),
        m.session() is Some,
    ensures
        m.session() != Some(before.session_id) ==> after == before && result == Err::<
            ServerAction,
            ServerError,
        >(ServerError::CollidingSession),
        m.session() == Some(before.session_id) ==> result != Err::<ServerAction, ServerError>(
            ServerError::CollidingSession,
        ),
{
}

/// Only a request that asks for something changes what a server knows, and only such a request makes
/// it send packets. Whoever asks for an announcement gets it, and nobody else.
pub proof fn law_only_requests_move_a_server(
    before: ServerLogicState,
    m: Result<messages::MessageModel, MessageError>,
    src: PeerAddr,
    now: u64,
    after: ServerLogicState,
    result: Result<ServerAction, ServerError>,
)
    requires
        receives(before, m, src, now, after, result),
    ensures
        !(m matches Ok(messages::MessageModel::Request(r)) && r.session_id == before.session_id
            && r.sections.len() > 0) ==> after == before && (result matches Ok(action)
            ==> action.orders@.len() == 0),
        result matches Ok(action) ==> (action.announce is Some <==> m matches Ok(
            messages::MessageModel::RequestAnnounce,
        )),
        result is Ok && action_of(result).announce is Some ==> {
            let a = action_of(result).announce->Some_0;
            &&& a.session_id == before.session_id
            &&& before.meta.fileset_buf@.len() <= u64::MAX ==> a.fileset_size
                == before.meta.fileset_buf@.len()
            &&& before.meta.phases < 0xffff ==> a.phases == before.meta.phases + 1
            &&& a.file_count == before.meta.file_count
            &&& a.total_size_bytes == before.meta.total_size_bytes
        },
        m matches Ok(messages::MessageModel::RequestAnnounce) ==> result is Ok,
{
}

/// For a tenth of a second a new server answers no peer. The peer whose request comes first then
/// leads, and is answered with a burst of the least size, if the request is of the first generation
/// or the next.
pub proof fn law_new_server_is_led(
    server: ServerLogicState,
    session_id: SessionId,
    meta: Meta,
    t: u64,
    r: messages::RequestModel,
    src: PeerAddr,
    now: u64,
)
    requires
        server.is_fresh(session_id, meta, t),
        src != PeerAddr::V4(PeerAddrV4 { ip: 0, port: 0 }),
        r.sections.len() > 0,
        forall|i: int|
            0 <= i < r.sections.len() ==> (#[trigger] r.sections[i]).0 <= r.sections[i].1
                <= MAX_INDEX,
        r.retransmit_generation.0 <= 1,
        r.loss == LinkQualitySignal::KeepGoing,
    ensures
        server.session_id == session_id,
        server.meta == meta,
        now <= t + 100_000_000 ==> server.orders(r, src, now).len() == 0,
        now > t + 100_000_000 ==> {
            &&& server.after(r, src, now).pack_leader == src
            &&& server.after(r, src, now).current_retransmit_generation.0 == 1
            &&& packets_ordered(server.orders(r, src, now)) == if packets_asked(r.sections) < 15 {
                packets_asked(r.sections)
            } else {
                15
            }
        },
{
    assert(r.sections[0].0 <= MAX_INDEX);
    if now > t + 100_000_000 {
        law_leader_is_answered(server, r, src, now, 0);
    }
}

/// What is done about a message.
pub open spec fn action_of(result: Result<ServerAction, ServerError>) -> ServerAction {
    result->Ok_0
}

impl ServerLogicState {
    /// Nobody has asked the server for anything yet, since it began at `now`.
    pub open spec fn is_fresh(self, session_id: SessionId, meta: Meta, now: u64) -> bool {
        &&& self.session_id == session_id
        &&& self.current_retransmit_generation == RetransmitGeneration(0)
        &&& self.pack_leader == PeerAddr::V4(PeerAddrV4 { ip: 0, port: 0 })
        &&& self.packet_leader_position == PacketIdx(0)
        &&& self.pack_leader_last_head == now
        &&& self.pacing.buffer_size_packets == MIN_BURST_SIZE
        &&& self.time_when_last_out_of_date_retransmit_gen_accepted == now
        &&& self.meta == meta
    }

    /// A server that nobody has asked for anything yet.
    pub fn new(session_id: SessionId, meta: Meta, now: u64) -> (r: Self)
        ensures
            r.is_fresh(session_id, meta, now),
    {
        ServerLogicState {
            session_id,
            current_retransmit_generation: RetransmitGeneration(0),
            pack_leader: PeerAddr::V4(PeerAddrV4 { ip: 0, port: 0 }),
            packet_leader_position: PacketIdx(0),
            pack_leader_last_head: now,
            pacing: Pacing::default(),
            time_when_last_out_of_date_retransmit_gen_accepted: now,
            meta,
        }
    }

    /// The announcement of the file set.
    pub fn announce(&self) -> (r: Announce)
        ensures
            r == announce_of(self.session_id, self.meta),
    {
        Announce {
            session_id: self.session_id,
            fileset_size: self.meta.fileset_buf.len() as u64,
            phases: self.meta.phases.wrapping_add(1),
            file_count: self.meta.file_count,
            total_size_bytes: self.meta.total_size_bytes,
        }
    }

    /// Bytes have come from a peer.
    pub fn receive_message(&mut self, input: Bytes, src: PeerAddr, now: u64) -> (result: Result<
        ServerAction,
        ServerError,
    >)
        requires
            messages::decode_message(buffers::bytes_of(input)) matches Ok(
                messages::MessageModel::Request(r),
            ) ==> r.session_id == old(self).session_id ==> old(self).can_process(r, src, now),
        ensures
            receives(
                *old(self),
                messages::decode_message(buffers::bytes_of(input)),
                src,
                now,
                *final(self),
                result,
            ),
    {
        let msg: Message = match Message::msg_deserialize(input) {
            Ok(msg) => msg,
            Err(e) => return Err(ServerError::Message(e)),
        };
        if let Some(msg_session_id) = msg.session_id() {
            if msg_session_id != self.session_id {
                return Err(ServerError::CollidingSession);
            }
        }
        match msg {
            Message::Request(r) => match self.process_request(r, src, now) {
                Ok(orders) => Ok(ServerAction { orders, announce: None }),
                Err(e) => Err(e),
            },
            Message::RequestAnnounce => Ok(
                ServerAction { orders: Vec::new(), announce: Some(self.announce()) },
            ),
            _ => Ok(ServerAction { orders: Vec::new(), announce: None }),
        }
    }
}

impl ServerLogicState {
    /// Whether a request speaks of packets, as far as it is looked at.
    pub fn is_processable(&self, r: &Request, src: PeerAddr, now: u64) -> (b: bool)
        ensures
            b == self.can_process(r@, src, now),
    {
        if sections::len(&r.sections) == 0 {
            return true;
        }
        let first = sections::get(&r.sections, 0);
        if first.start.0 > MAX_INDEX {
            return false;
        }
        let leads = self.pack_leader != src && PacketIdx::new(r.phase, first.start)
            < self.packet_leader_position || now.saturating_sub(self.pack_leader_last_head)
            > PACK_LEADER_CHANGE_TIME_NANOS;
        let counts = r.retransmit_generation == self.current_retransmit_generation
            || r.retransmit_generation == self.current_retransmit_generation.next() || now.saturating_sub(self.time_when_last_out_of_date_retransmit_gen_accepted)
            > OUT_OF_DATE_TIME_NANOS;
        if !(counts && (leads || self.pack_leader == src)) {
            return true;
        }
        if r.loss == LinkQualitySignal::IncreaseWindow && self.pacing.buffer_size_packets
            > usize::MAX / 3 - 5 {
            return false;
        }
        let mut pacing = Pacing { buffer_size_packets: self.pacing.buffer_size_packets };
        pacing.report(r.loss);
        ranges_acceptable(r, pacing.buffer_size_packets as u64)
    }
}

fn ranges_acceptable(r: &Request, budget: u64) -> (b: bool)
    ensures
        b == ranges_ok(sections::sections_of(r.sections), budget as int),
{
    let ghost list = sections::sections_of(r.sections);
    let count: usize = sections::len(&r.sections);
    let mut left: u64 = budget;
    let mut i: usize = 0;
    assert(list.skip(0) =~= list);
    while i < count
        invariant
            i <= count,
            count == list.len(),
            list == sections::sections_of(r.sections),
            ranges_ok(list, budget as int) == ranges_ok(list.skip(i as int), left as int),
        decreases count - i,
    {
        let section = sections::get(&r.sections, i);
        proof {
            assert(list.skip(i as int)[0] == list[i as int]);
            assert(list.skip(i as int).skip(1) =~= list.skip(i + 1));
        }
        if section.start.0 > section.end.0 || section.end.0 > MAX_INDEX {
            return false;
        }
        let size: u64 = section.end.0 - section.start.0;
        if size >= left {
            return true;
        }
        left = left - size;
        i = i + 1;
    }
    true
}

/// Whether no packet is in two of the ranges of a request.
pub fn sections_disjoint(r: &Request) -> (b: bool)
    ensures
        b == forall|i: int, j: int|
            0 <= i < j < r@.sections.len() ==> (#[trigger] r@.sections[i]).1 <= (
            #[trigger] r@.sections[j]).0 || r@.sections[j].1 <= r@.sections[i].0,
{
    let ghost list = r@.sections;
    let count: usize = sections::len(&r.sections);
    let mut i: usize = 0;
    while i < count
        invariant
            i <= count == list.len(),
            list == r@.sections,
            forall|a: int, b: int|
                0 <= a < i && a < b < list.len() ==> (#[trigger] list[a]).1 <= (
                #[trigger] list[b]).0 || list[b].1 <= list[a].0,
        decreases count - i,
    {
        let mut j: usize = i + 1;
        while j < count
            invariant
                i < j <= count == list.len(),
                list == r@.sections,
                forall|b: int|
                    i < b < j ==> list[i as int].1 <= (#[trigger] list[b]).0 || list[b].1
                        <= list[i as int].0,
            decreases count - j,
        {
            let a = sections::get(&r.sections, i);
            let b = sections::get(&r.sections, j);
            if overlaps(a, b).is_some() {
                assert(!(list[i as int].1 <= list[j as int].0 || list[j as int].1
                    <= list[i as int].0));
                return false;
            }
            j = j + 1;
        }
        i = i + 1;
    }
    true
}

} // verus!
