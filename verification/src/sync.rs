//! Receiving phases, one after the other.
use vstd::prelude::*;

use crate::client::{ClientProtocolHandler, Reaction};
use crate::messages::{LinkQualitySignal, Message, Request};
use crate::packet::{PhaseOffset, SessionId, INVALID_INDEX, PAYLOAD_SIZE};
use crate::sections::MAX_SECTIONS_PER_REQUEST;
use crate::{buffers, client, messages, range_set};

verus! {

/// The phases that a client receives, and how far it has come.
pub struct SyncState {
    pub handler: ClientProtocolHandler,
    /// The phases, each with its size, in the order in which they are received.
    pub phases: Vec<(u16, PhaseOffset)>,
    /// The place of the phase that is being received, behind the last when all is done.
    pub at: usize,
}

impl SyncState {
    /// The handler knows of all phases, and misses nothing of those that are done.
    pub open spec fn inv(self) -> bool {
        &&& self.handler.inv()
        &&& self.at <= self.phases@.len()
        &&& forall|i: int|
            0 <= i < self.phases@.len() ==> (#[trigger] self.phases@[i]).0
                < self.handler.missing@.len()
        &&& forall|i: int|
            0 <= i < self.at ==> self.handler.missing_of((#[trigger] self.phases@[i]).0).len() == 0
    }

    /// The phase that is being received.
    pub open spec fn phase(self) -> u16 {
        self.phases@[self.at as int].0
    }

    /// The phase that is being received, `None` when all is done.
    pub open spec fn current_phase(self) -> Option<u16> {
        if self.at < self.phases@.len() {
            Some(self.phase())
        } else {
            None
        }
    }

    /// Nothing of the phases has arrived.
    pub fn new(session_id: SessionId, phases: Vec<(u16, PhaseOffset)>) -> (r: Self)
        requires
            forall|i: int| 0 <= i < phases@.len() ==> (#[trigger] phases@[i]).1.0 > 0,
        ensures
            r.inv(),
            r.handler.is_fresh(session_id, phases@),
            r.phases == phases,
            r.at == 0,
    {
        let handler = ClientProtocolHandler::new(session_id, &phases);
        proof {
            assert forall|i: int| 0 <= i < phases@.len() implies (#[trigger] phases@[i]).0
                < handler.missing@.len() by {
                lemma_slots(phases@, i);
            }
        }
        SyncState { handler, phases, at: 0 }
    }

    /// The phase that is being received, `None` when all is done.
    pub fn current(&self) -> (r: Option<u16>)
        requires
            self.inv(),
        ensures
            r == self.current_phase(),
    {
        if self.at < self.phases.len() {
            Some(self.phases[self.at].0)
        } else {
            None
        }
    }

    /// Nothing has come for a while: asks again for all that is missing of the phase.
    pub fn on_timeout(&mut self) -> (r: Option<Request>)
        requires
            old(self).inv(),
            old(self).at < old(self).phases@.len(),
        ensures
            final(self).inv(),
            has_asked(*old(self), *final(self), client::request_view(r)),
    {
        assert(self.phases@[self.at as int].0 < self.handler.missing@.len());
        self.handler.on_timeout(self.phases[self.at].0)
    }

    /// Whether a message can be taken now.
    pub fn is_takeable(&self, message: &Message) -> (r: bool)
        requires
            self.inv(),
            self.at < self.phases@.len(),
        ensures
            r == client::can_take_message(self.handler, self.phase(), message@),
    {
        assert(self.phases@[self.at as int].0 < self.handler.missing@.len());
        self.handler.is_takeable(self.phases[self.at].0, message)
    }

    /// A message has come. When nothing of the phase is missing any more, the next one is received.
    pub fn on_message(&mut self, message: Message) -> (r: Reaction)
        requires
            old(self).inv(),
            old(self).at < old(self).phases@.len(),
            client::can_take_message(old(self).handler, old(self).phase(), message@),
        ensures
            final(self).inv(),
            takes_message(*old(self), message@, *final(self), r),
    {
        let count: usize = self.phases.len();
        let ghost before = self.handler;
        assert(self.phases@[self.at as int].0 < self.handler.missing@.len());
        let reaction = self.handler.on_message(self.phases[self.at].0, message);
        proof {
            assert forall|i: int| 0 <= i < self.at implies self.handler.missing_of(
                (#[trigger] self.phases@[i]).0,
            ).len() == 0 by {
                assert(before.missing_of(self.phases@[i].0).len() == 0);
            }
            assert(self.at < count);
        }
        if reaction.phase_done {
            self.at = self.at + 1;
        }
        reaction
    }
}

/// `after` is how far a client has come, and `reaction` what it does, when the message `m` has come:
/// when nothing of the phase is missing any more, the next one is received.
pub open spec fn takes_message(
    before: SyncState,
    m: messages::MessageModel,
    after: SyncState,
    reaction: Reaction,
) -> bool {
    &&& client::reacts(before.handler, before.phase(), m, after.handler, reaction)
    &&& after.phases == before.phases
    &&& after.at == before.at + if reaction.phase_done {
        1int
    } else {
        0
    }
}

/// A client goes on to the next phase when no byte of the phase is missing any more, with the packet
/// that brought the last of them, and not before.
pub proof fn law_next_phase_in_turn(
    before: SyncState,
    m: messages::MessageModel,
    after: SyncState,
    reaction: Reaction,
)
    requires
        before.inv(),
        before.at < before.phases@.len(),
        after.inv(),
        takes_message(before, m, after, reaction),
        before.handler.missing_of(before.phase()).len() > 0,
        m matches messages::MessageModel::Payload(p) ==> p.data.len() > 0,
    ensures
        after.phases == before.phases,
        after.at == before.at || after.at == before.at + 1,
        after.at == before.at + 1 <==> forall|x: int|
            !#[trigger] range_set::covered(after.handler.missing_of(before.phase()), x),
{
    let phase = before.phase();
    assert(before.phases@[before.at as int].0 < before.handler.missing@.len());
    let missing = before.handler.missing_of(phase);
    assert(range_set::apart(missing));
    assert(missing[0].0 <= missing[0].0 < missing[0].1);
    assert(range_set::covered(missing, missing[0].0 as int));
    match m {
        messages::MessageModel::Payload(p) => {
            if p.session_id == before.handler.session_id && p.index.phase_of() == phase {
                client::law_useful_packets(before.handler, phase, p);
                let left = after.handler.missing_of(phase);
                assert(phase < after.handler.missing@.len());
                assert(range_set::apart(left));
                client::law_phase_done(left);
            }
        },
        _ => {},
    }
}

/// `after` is what a client knows when it has asked for all that is missing: what it has seen of the
/// link has been told.
pub open spec fn has_asked(
    before: SyncState,
    after: SyncState,
    request: Option<messages::RequestModel>,
) -> bool {
    &&& request == client::request_of(
        before.handler,
        before.phase(),
        before.handler.last_retransmit_generation,
        None,
    )
    &&& after == (SyncState {
        handler: ClientProtocolHandler { loss: LinkQualitySignal::KeepGoing, ..before.handler },
        ..before
    })
}

/// A client that hears nothing asks if, and only if, something of the phase is missing. It asks for
/// nothing that is not missing, with the generation that it has seen last, and tells what it has
/// seen of the link. What is missing stays missing.
pub proof fn law_silence_is_answered(
    before: SyncState,
    after: SyncState,
    request: Option<messages::RequestModel>,
    x: int,
)
    requires
        before.inv(),
        before.at < before.phases@.len(),
        has_asked(before, after, request),
    ensures
        ({
            let missing = before.handler.missing_of(before.phase());
            let index = x / (PAYLOAD_SIZE as int);
            &&& request is None ==> !range_set::covered(missing, x)
            &&& request matches Some(r) ==> {
                &&& missing.len() > 0
                &&& r.session_id == before.handler.session_id
                &&& r.phase == before.phase()
                &&& r.retransmit_generation == before.handler.last_retransmit_generation
                &&& r.loss == before.handler.loss
                &&& client::asked_for(r.sections, x) ==> client::holds_missing(missing, x)
                &&& missing.len() <= MAX_SECTIONS_PER_REQUEST && range_set::covered(missing, x)
                    ==> client::asked_for(r.sections, index)
                &&& range_set::covered(missing, x) && index < r.sections.last().1
                    ==> client::asked_for(r.sections, index)
            }
            &&& after.handler.missing == before.handler.missing
            &&& after.phases == before.phases
            &&& after.at == before.at
            &&& after.handler.loss == LinkQualitySignal::KeepGoing
        }),
{
    let missing = before.handler.missing_of(before.phase());
    assert(before.phases@[before.at as int].0 < before.handler.missing@.len());
    assert(range_set::apart(missing));
    if range_set::covered(missing, x) {
        client::law_missing_is_asked_for(missing);
        client::law_asked_up_to_the_last(missing, None, x);
        if missing.len() <= MAX_SECTIONS_PER_REQUEST {
            client::law_few_holes_are_asked_for(missing, x);
        }
    }
    if client::asked_for(client::sections_for(missing, None), x) {
        client::law_only_missing_asked_for(missing, None, x);
    }
}

/// A client goes through `states`. At each event a message comes, or nothing has come for a while.
pub open spec fn is_history(
    states: Seq<SyncState>,
    events: Seq<Option<messages::MessageModel>>,
    reactions: Seq<Reaction>,
) -> bool {
    &&& states.len() == events.len() + 1
    &&& reactions.len() == events.len()
    &&& forall|k: int| 0 <= k < states.len() ==> (#[trigger] states[k]).inv()
    &&& forall|k: int|
        0 <= k < events.len() ==> match #[trigger] events[k] {
            Some(m) => takes_message(states[k], m, states[k + 1], reactions[k]),
            None => has_asked(
                states[k],
                states[k + 1],
                client::request_view(reactions[k].request),
            ),
        }
}

/// A message is a packet that holds the byte `x` of a phase, and its bytes are to be written.
pub open spec fn brings(
    event: Option<messages::MessageModel>,
    reaction: Reaction,
    session_id: SessionId,
    phase: u16,
    x: int,
) -> bool {
    &&& event matches Some(messages::MessageModel::Payload(p))
    &&& p.session_id == session_id
    &&& p.index.phase_of() == phase
    &&& p.index.index_of() * PAYLOAD_SIZE <= x < p.index.index_of() * PAYLOAD_SIZE + p.data.len()
    &&& reaction.write matches Some(order)
    &&& order.dest == p.index
    &&& buffers::bytes_of(order.data) == p.data
}

/// A client is done with a phase only when each byte of it has come in a packet of the session and
/// of that phase, and has been given out to be written.
pub proof fn law_every_byte_has_come(
    states: Seq<SyncState>,
    events: Seq<Option<messages::MessageModel>>,
    reactions: Seq<Reaction>,
    session_id: SessionId,
    i: int,
    x: int,
) -> (k: int)
    requires
        is_history(states, events, reactions),
        states[0].handler.is_fresh(session_id, states[0].phases@),
        0 <= i < states.last().at,
        i < states[0].phases@.len(),
        forall|j: int|
            0 <= j < states[0].phases@.len() && j != i ==> (#[trigger] states[0].phases@[j]).0
                != states[0].phases@[i].0,
        0 <= x < states[0].phases@[i].1.0,
    ensures
        0 <= k < events.len(),
        brings(events[k], reactions[k], session_id, states[0].phases@[i].0, x),
{
    let first = states[0];
    let phase = first.phases@[i].0;
    client::law_fresh_client_misses_all(first.handler, session_id, first.phases@, i, x);
    lemma_kept(states, events, reactions, states.len() - 1);
    let last = states[states.len() - 1];
    assert(last.inv());
    assert(last.phases@[i] == first.phases@[i]);
    assert(last.handler.missing_of(last.phases@[i].0).len() == 0);
    lemma_brought(states, events, reactions, phase, x, states.len() - 1)
}

/// What does not change in the course of events.
proof fn lemma_kept(
    states: Seq<SyncState>,
    events: Seq<Option<messages::MessageModel>>,
    reactions: Seq<Reaction>,
    n: int,
)
    requires
        is_history(states, events, reactions),
        0 <= n < states.len(),
    ensures
        states[n].phases == states[0].phases,
        states[n].handler.session_id == states[0].handler.session_id,
        states[n].handler.missing@.len() == states[0].handler.missing@.len(),
    decreases n,
{
    if n > 0 {
        lemma_kept(states, events, reactions, n - 1);
        assert(states[n - 1 + 1] == states[n]);
        match events[n - 1] {
            Some(m) => {
                assert(takes_message(states[n - 1], m, states[n], reactions[n - 1]));
            },
            None => {},
        }
    }
}

/// A byte that was missing and is not missing any more has been brought in between.
proof fn lemma_brought(
    states: Seq<SyncState>,
    events: Seq<Option<messages::MessageModel>>,
    reactions: Seq<Reaction>,
    phase: u16,
    x: int,
    n: int,
) -> (k: int)
    requires
        is_history(states, events, reactions),
        0 <= n < states.len(),
        phase < states[0].handler.missing@.len(),
        range_set::covered(states[0].handler.missing_of(phase), x),
        !range_set::covered(states[n].handler.missing_of(phase), x),
    ensures
        0 <= k < n,
        brings(events[k], reactions[k], states[0].handler.session_id, phase, x),
    decreases n,
{
    if range_set::covered(states[n - 1].handler.missing_of(phase), x) {
        let before = states[n - 1];
        let after = states[n];
        assert(states[n - 1 + 1] == after);
        lemma_kept(states, events, reactions, n - 1);
        match events[n - 1] {
            Some(messages::MessageModel::Payload(p)) => {
                assert(takes_message(
                    before,
                    messages::MessageModel::Payload(p),
                    after,
                    reactions[n - 1],
                ));
                assert(client::takes_packet(
                    before.handler,
                    before.phase(),
                    p,
                    after.handler,
                    reactions[n - 1],
                ));
                if before.phase() != phase {
                    assert(after.handler.missing@[phase as int] == before.handler.missing@[
                    phase as int]);
                }
            },
            Some(m) => {
                assert(takes_message(before, m, after, reactions[n - 1]));
            },
            None => {},
        }
        n - 1
    } else {
        lemma_brought(states, events, reactions, phase, x, n - 1)
    }
}

/// Once loss has been seen it is not forgotten: as long as no packet tells of the end of a burst, and
/// packets keep coming, the client knows of it, and the next request that it makes tells of it.
pub proof fn law_loss_is_told(
    states: Seq<SyncState>,
    events: Seq<Option<messages::MessageModel>>,
    reactions: Seq<Reaction>,
    n: int,
)
    requires
        is_history(states, events, reactions),
        0 <= n < states.len(),
        states[0].handler.loss == LinkQualitySignal::LossDetected,
        forall|k: int|
            0 <= k < n ==> match #[trigger] events[k] {
                Some(messages::MessageModel::Payload(p)) => p.eof_approaching.0 == INVALID_INDEX,
                Some(_) => true,
                None => false,
            },
    ensures
        states[n].handler.loss == LinkQualitySignal::LossDetected,
        n < events.len() ==> (reactions[n].request matches Some(r) ==> r.loss
            == LinkQualitySignal::LossDetected),
    decreases n,
{
    if n < events.len() {
        match events[n] {
            Some(m) => {
                assert(takes_message(states[n], m, states[n + 1], reactions[n]));
            },
            None => {},
        }
    }
    if n > 0 {
        law_loss_is_told(states, events, reactions, n - 1);
        assert(states[n - 1 + 1] == states[n]);
        assert(events[n - 1] is Some);
    }
}

/// The phases are received in their order: all before the one that is being received are there, and
/// where none is being received all are.
pub proof fn law_phases_before_are_there(state: SyncState, i: int, x: int)
    requires
        state.inv(),
        0 <= i < state.phases@.len(),
        state.current_phase() is None || i < state.at,
    ensures
        !range_set::covered(state.handler.missing_of(state.phases@[i].0), x),
        state.current_phase() matches Some(phase) ==> phase == state.phases@[state.at as int].0,
{
}

/// When all phases have been received, no byte of any of them is missing.
pub proof fn law_nothing_missing_in_the_end(state: SyncState, i: int, x: int)
    requires
        state.inv(),
        state.at == state.phases@.len(),
        0 <= i < state.phases@.len(),
    ensures
        !range_set::covered(state.handler.missing_of(state.phases@[i].0), x),
{
}

proof fn lemma_slots(phases: Seq<(u16, PhaseOffset)>, i: int)
    requires
        0 <= i < phases.len(),
    ensures
        phases[i].0 < client::phase_slots(phases),
    decreases phases.len(),
{
    if i < phases.len() - 1 {
        lemma_slots(phases.drop_last(), i);
        assert(phases.drop_last()[i] == phases[i]);
    }
}

} // verus!
