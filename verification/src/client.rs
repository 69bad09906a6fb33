//! The receiving side: which bytes are missing, what to ask for, and what to do with a packet.
use std::ops::Range;

use bytes::Bytes;
use rangemap::RangeSet;
use vstd::prelude::*;

use crate::messages::{LinkQualitySignal, Message, Payload, Request};
use crate::packet::{
    calculate_phase_offset, IndexInPhase, PacketIdx, PhaseOffset, RetransmitGeneration, SessionId,
    INVALID_INDEX, MAX_INDEX, MAX_OFFSET, PAYLOAD_SIZE,
};
use crate::sections::{Sections, MAX_SECTIONS_PER_REQUEST};
use crate::{buffers, messages, packet, range_set, sections};

verus! {

/// What is left of a missing range when what is on its way already is left out. Of a range that
/// reaches beyond both ends of `on_its_way`, only the part behind it is left.
pub open spec fn cut(range: (u64, u64), on_its_way: Option<(u64, u64)>) -> Option<(u64, u64)> {
    match on_its_way {
        None => Some(range),
        Some((from, to)) => if from <= range.0 && range.1 <= to {
            None
        } else if range.1 <= from || to <= range.0 {
            Some(range)
        } else {
            let start = if range.1 > to {
                to
            } else {
                range.0
            };
            let end = if start < from {
                from
            } else {
                range.1
            };
            if end <= start {
                None
            } else {
                Some((start, end))
            }
        },
    }
}

/// The packets that hold the bytes from `range.0` to `range.1`.
pub open spec fn packets_around(range: (u64, u64)) -> (u64, u64) {
    (
        (range.0 / PAYLOAD_SIZE) as u64,
        ((range.1 + PAYLOAD_SIZE - 1) / (PAYLOAD_SIZE as int)) as u64,
    )
}

/// The packet ranges with one more missing range asked for. No packet is asked for twice, and a
/// list that is full stays as it is.
pub open spec fn with_missing(
    asked: Seq<(u64, u64)>,
    range: (u64, u64),
    on_its_way: Option<(u64, u64)>,
) -> Seq<(u64, u64)> {
    match cut(range, on_its_way) {
        None => asked,
        Some(range) => {
            let (start, end) = packets_around(range);
            if asked.len() > 0 && end <= asked.last().1 || asked.len() >= MAX_SECTIONS_PER_REQUEST {
                asked
            } else if asked.len() > 0 && start < asked.last().1 {
                asked.push((asked.last().1, end))
            } else {
                asked.push((start, end))
            }
        },
    }
}

/// The packet ranges to ask for.
pub open spec fn sections_for(
    missing: Seq<(u64, u64)>,
    on_its_way: Option<(u64, u64)>,
) -> Seq<(u64, u64)>
    decreases missing.len(),
{
    if missing.len() == 0 {
        Seq::empty()
    } else {
        with_missing(
            sections_for(missing.drop_last(), on_its_way),
            missing.last(),
            on_its_way,
        )
    }
}

/// The two numbers of a range of bytes.
pub open spec fn pair_of(range: Option<Range<PhaseOffset>>) -> Option<(u64, u64)> {
    match range {
        Some(range) => Some((range.start.0, range.end.0)),
        None => None,
    }
}

/// The packet ranges to ask for, given the missing ranges in order. Packets that hold only bytes
/// of `disallowed_range`, which are on their way, are not asked for.
pub fn sections_to_request(
    missing: &Vec<(u64, u64)>,
    disallowed_range: &Option<Range<PhaseOffset>>,
) -> (r: Sections)
    ensures
        sections::sections_of(r) == sections_for(missing@, pair_of(*disallowed_range)),
{
    let ghost on_its_way = pair_of(*disallowed_range);
    let mut sections: Sections = sections::new();
    let mut i: usize = 0;
    while i < missing.len()
        invariant
            i <= missing@.len(),
            on_its_way == pair_of(*disallowed_range),
            sections::sections_of(sections) == sections_for(missing@.take(i as int), on_its_way),
        decreases missing.len() - i,
    {
        let (start, end): (u64, u64) = missing[i];
        proof {
            assert(missing@.take(i + 1).drop_last() =~= missing@.take(i as int));
            assert(missing@.take(i + 1).last() == (start, end));
        }
        let rest: Option<(u64, u64)> = cut_range(start, end, disallowed_range);
        if let Some((start, end)) = rest {
            let mut start: IndexInPhase = PhaseOffset(start).floor_index();
            let end: IndexInPhase = PhaseOffset(end).ceil_index();
            let len: usize = sections::len(&sections);
            let mut wanted = true;
            if len > 0 {
                let prev: Range<IndexInPhase> = sections::get(&sections, len - 1);
                if end <= prev.end {
                    wanted = false;
                } else if start < prev.end {
                    start = prev.end;
                }
            }
            if wanted {
                let _ = sections::try_push(&mut sections, Range { start, end });
            }
        }
        i = i + 1;
    }
    assert(missing@.take(i as int) =~= missing@);
    sections
}

fn cut_range(start: u64, end: u64, disallowed_range: &Option<Range<PhaseOffset>>) -> (r: Option<
    (u64, u64),
>)
    ensures
        r == cut((start, end), pair_of(*disallowed_range)),
{
    let mut start: u64 = start;
    let mut end: u64 = end;
    if let Some(disallowed) = disallowed_range {
        if start >= disallowed.start.0 && end <= disallowed.end.0 {
            return None;
        }
        if !(end <= disallowed.start.0 || start >= disallowed.end.0) {
            if end > disallowed.end.0 {
                start = disallowed.end.0;
            }
            if start < disallowed.start.0 {
                end = disallowed.start.0;
            }
            if end <= start {
                return None;
            }
        }
    }
    Some((start, end))
}

/// Whether the packet is asked for.
pub open spec fn asked_for(asked: Seq<(u64, u64)>, index: int) -> bool {
    range_set::covered(asked, index)
}

/// The packet ranges of a request are in order and share no packet, none is empty, and there are
/// no more than fit a request.
pub proof fn law_sections_ordered(missing: Seq<(u64, u64)>, on_its_way: Option<(u64, u64)>)
    requires
        range_set::apart(missing),
    ensures
        ({
            let asked = sections_for(missing, on_its_way);
            &&& asked.len() <= MAX_SECTIONS_PER_REQUEST
            &&& forall|i: int| 0 <= i < asked.len() ==> (#[trigger] asked[i]).0 < asked[i].1
            &&& forall|i: int, j: int|
                0 <= i < j < asked.len() ==> (#[trigger] asked[i]).1 <= (#[trigger] asked[j]).0
        }),
    decreases missing.len(),
{
    if missing.len() > 0 {
        let init = missing.drop_last();
        lemma_apart_prefix(missing);
        law_sections_ordered(init, on_its_way);
        let before = sections_for(init, on_its_way);
        let asked = sections_for(missing, on_its_way);
        if asked != before {
            assert(before =~= asked.drop_last());
            assert forall|i: int, j: int| 0 <= i < j < asked.len() implies (
            #[trigger] asked[i]).1 <= (#[trigger] asked[j]).0 by {
                assert(asked[i] == before[i]);
                if j < before.len() {
                    assert(asked[j] == before[j]);
                } else if i < before.len() - 1 {
                    assert(before[i].1 <= before[before.len() - 1].0);
                }
            }
        }
    }
}

proof fn lemma_apart_prefix(list: Seq<(u64, u64)>)
    requires
        range_set::apart(list),
        list.len() > 0,
    ensures
        range_set::apart(list.drop_last()),
        list.last().0 < list.last().1,
{
    let init = list.drop_last();
    assert(list.last() == list[list.len() - 1]);
    assert forall|i: int| 0 <= i < init.len() implies (#[trigger] init[i]).0 < init[i].1 by {
        assert(init[i] == list[i]);
    }
    assert forall|i: int, j: int| 0 <= i < j < init.len() implies (#[trigger] init[i]).1 < (
    #[trigger] init[j]).0 by {
        assert(init[i] == list[i] && init[j] == list[j]);
    }
}

/// Whether the packet holds a missing byte.
pub open spec fn holds_missing(missing: Seq<(u64, u64)>, index: int) -> bool {
    exists|x: int| #[trigger]
        range_set::covered(missing, x) && x / (PAYLOAD_SIZE as int) == index
}

/// Only packets that hold a missing byte are asked for.
pub proof fn law_only_missing_asked_for(
    missing: Seq<(u64, u64)>,
    on_its_way: Option<(u64, u64)>,
    index: int,
)
    requires
        range_set::apart(missing),
        asked_for(sections_for(missing, on_its_way), index),
    ensures
        holds_missing(missing, index),
    decreases missing.len(),
{
    if missing.len() > 0 {
        let init = missing.drop_last();
        lemma_apart_prefix(missing);
        let before = sections_for(init, on_its_way);
        let asked = sections_for(missing, on_its_way);
        let at = choose|at: int|
            0 <= at < asked.len() && (#[trigger] asked[at]).0 <= index < asked[at].1;
        if at < before.len() {
            assert(before[at] == asked[at]);
            assert(asked_for(before, index));
            law_only_missing_asked_for(init, on_its_way, index);
            let x = choose|x: int| #[trigger]
                range_set::covered(init, x) && x / (PAYLOAD_SIZE as int) == index;
            let i = choose|i: int| 0 <= i < init.len() && (#[trigger] init[i]).0 <= x < init[i].1;
            assert(missing[i] == init[i]);
            assert(range_set::covered(missing, x));
        } else {
            let range = missing.last();
            let rest = cut(range, on_its_way)->Some_0;
            assert(missing[missing.len() - 1] == range);
            assert(PAYLOAD_SIZE == 1369);
            let x = if rest.0 < index * 1369 {
                index * 1369
            } else {
                rest.0 as int
            };
            assert(x / 1369 == index);
            assert(range.0 <= x < range.1);
            assert(range_set::covered(missing, x));
        }
    }
}

/// Whether the byte is not on its way: it lies behind what is, or before, if not everything from it
/// on is missing up to what lies behind.
pub open spec fn is_beside(
    missing: Seq<(u64, u64)>,
    on_its_way: Option<(u64, u64)>,
    x: int,
) -> bool {
    match on_its_way {
        None => true,
        Some((from, to)) => {
            ||| from <= to <= x
            ||| x < from && !range_set::covered(missing, from as int)
            ||| x < from <= to && exists|y: int|
                x <= y <= to && !(#[trigger] range_set::covered(missing, y))
        },
    }
}

/// What is not on its way, given all that is missing, is not on its way given less.
proof fn lemma_beside_prefix(missing: Seq<(u64, u64)>, on_its_way: Option<(u64, u64)>, x: int)
    requires
        missing.len() > 0,
        is_beside(missing, on_its_way, x),
    ensures
        is_beside(missing.drop_last(), on_its_way, x),
{
    let init = missing.drop_last();
    assert forall|y: int| #[trigger] range_set::covered(init, y) implies range_set::covered(
        missing,
        y,
    ) by {
        let at = choose|at: int| 0 <= at < init.len() && (#[trigger] init[at]).0 <= y < init[at].1;
        assert(missing[at] == init[at]);
    }
    if let Some((from, to)) = on_its_way {
        if x < from <= to && exists|y: int|
            x <= y <= to && !(#[trigger] range_set::covered(missing, y)) {
            let y = choose|y: int| x <= y <= to && !(#[trigger] range_set::covered(missing, y));
            assert(!range_set::covered(init, y));
        }
    }
}

/// What is left of a missing range holds what is not on its way.
proof fn lemma_beside_kept(
    missing: Seq<(u64, u64)>,
    on_its_way: Option<(u64, u64)>,
    i: int,
    x: int,
)
    requires
        range_set::apart(missing),
        0 <= i < missing.len(),
        missing[i].0 <= x < missing[i].1,
        is_beside(missing, on_its_way, x),
    ensures
        cut(missing[i], on_its_way) matches Some(rest) && rest.0 <= x < rest.1,
{
    let range = missing[i];
    if let Some((from, to)) = on_its_way {
        if x < from < range.1 {
            assert(missing[i].0 <= from < missing[i].1);
            assert(range_set::covered(missing, from as int));
            assert(from <= to);
            let y = choose|y: int| x <= y <= to && !(#[trigger] range_set::covered(missing, y));
            if y < range.1 {
                assert(missing[i].0 <= y < missing[i].1);
                assert(range_set::covered(missing, y));
            }
            assert(range.1 <= to);
        }
    }
}

/// A request that has room for more packet ranges asks for every packet that holds a missing byte
/// that is not on its way: behind what is, or before, if not everything from there on is missing up
/// to what lies behind.
pub proof fn law_all_missing_asked_for(
    missing: Seq<(u64, u64)>,
    on_its_way: Option<(u64, u64)>,
    x: int,
)
    requires
        range_set::apart(missing),
        sections_for(missing, on_its_way).len() < MAX_SECTIONS_PER_REQUEST,
        range_set::covered(missing, x),
        is_beside(missing, on_its_way, x),
    ensures
        asked_for(sections_for(missing, on_its_way), x / (PAYLOAD_SIZE as int)),
    decreases missing.len(),
{
    if missing.len() > 0 {
        let init = missing.drop_last();
        let range = missing.last();
        lemma_apart_prefix(missing);
        let before = sections_for(init, on_its_way);
        let asked = sections_for(missing, on_its_way);
        let index = x / (PAYLOAD_SIZE as int);
        assert(PAYLOAD_SIZE == 1369);
        let i = choose|i: int|
            0 <= i < missing.len() && (#[trigger] missing[i]).0 <= x < missing[i].1;
        if i < init.len() {
            assert(init[i] == missing[i]);
            assert(range_set::covered(init, x));
            lemma_beside_prefix(missing, on_its_way, x);
            law_all_missing_asked_for(init, on_its_way, x);
            let at = choose|at: int|
                0 <= at < before.len() && (#[trigger] before[at]).0 <= index < before[at].1;
            assert(asked[at] == before[at]);
        } else {
            let rest = cut(range, on_its_way)->Some_0;
            let (start, end) = packets_around(rest);
            lemma_beside_kept(missing, on_its_way, i, x);
            assert(start <= index < end);
            if before.len() > 0 {
                lemma_last_asked(init, on_its_way);
                law_sections_ordered(init, on_its_way);
                assert(init[init.len() - 1] == missing[init.len() - 1]);
                assert(missing[init.len() - 1].1 < missing[missing.len() - 1].0);
                let last = before[before.len() - 1];
                if index < last.1 {
                    assert(asked[before.len() - 1] == last);
                } else {
                    assert(asked[before.len() as int].0 <= index < asked[before.len() as int].1);
                }
            } else {
                assert(asked[0] == (start, end));
            }
        }
    }
}

/// Whether a request is full or not: every packet that holds a missing byte that is not on its way,
/// and that comes before the end of the last packet range, is asked for; and only a full request
/// leaves any of those behind that end out.
pub proof fn law_asked_up_to_the_last(
    missing: Seq<(u64, u64)>,
    on_its_way: Option<(u64, u64)>,
    x: int,
)
    requires
        range_set::apart(missing),
        range_set::covered(missing, x),
        is_beside(missing, on_its_way, x),
    ensures
        ({
            let asked = sections_for(missing, on_its_way);
            let index = x / (PAYLOAD_SIZE as int);
            asked_for(asked, index) || asked.len() == MAX_SECTIONS_PER_REQUEST && asked.last().1
                <= index
        }),
    decreases missing.len(),
{
    if missing.len() > 0 {
        let init = missing.drop_last();
        let range = missing.last();
        lemma_apart_prefix(missing);
        let before = sections_for(init, on_its_way);
        let asked = sections_for(missing, on_its_way);
        let index = x / (PAYLOAD_SIZE as int);
        assert(PAYLOAD_SIZE == 1369);
        law_sections_ordered(init, on_its_way);
        let i = choose|i: int|
            0 <= i < missing.len() && (#[trigger] missing[i]).0 <= x < missing[i].1;
        if i < init.len() {
            assert(init[i] == missing[i]);
            assert(range_set::covered(init, x));
            lemma_beside_prefix(missing, on_its_way, x);
            law_asked_up_to_the_last(init, on_its_way, x);
            if asked_for(before, index) {
                let at = choose|at: int|
                    0 <= at < before.len() && (#[trigger] before[at]).0 <= index < before[at].1;
                assert(asked[at] == before[at]);
            }
        } else {
            let rest = cut(range, on_its_way)->Some_0;
            let (start, end) = packets_around(rest);
            lemma_beside_kept(missing, on_its_way, i, x);
            assert(start <= index < end);
            if before.len() > 0 {
                lemma_last_asked(init, on_its_way);
                assert(init[init.len() - 1] == missing[init.len() - 1]);
                assert(missing[init.len() - 1].1 < missing[missing.len() - 1].0);
                let last = before[before.len() - 1];
                if index < last.1 {
                    assert(last.0 < last.1);
                    assert(last.0 <= index);
                    assert(asked[before.len() - 1] == last);
                } else if before.len() < MAX_SECTIONS_PER_REQUEST {
                    assert(asked[before.len() as int].0 <= index < asked[before.len() as int].1);
                }
            } else {
                assert(asked[0] == (start, end));
            }
        }
    }
}

/// There are no more packet ranges than missing ranges, and where there are as many, the last
/// reaches as far.
proof fn lemma_section_count(missing: Seq<(u64, u64)>)
    requires
        missing.len() <= MAX_SECTIONS_PER_REQUEST,
    ensures
        sections_for(missing, None).len() <= missing.len(),
        missing.len() > 0 && sections_for(missing, None).len() == missing.len() ==> sections_for(
            missing,
            None,
        ).last().1 == packets_around(missing.last()).1,
    decreases missing.len(),
{
    if missing.len() > 0 {
        lemma_section_count(missing.drop_last());
    }
}

/// With no more missing ranges than fit a request, every packet that holds a missing byte is asked
/// for, where nothing is on its way.
pub proof fn law_few_holes_are_asked_for(missing: Seq<(u64, u64)>, x: int)
    requires
        range_set::apart(missing),
        missing.len() <= MAX_SECTIONS_PER_REQUEST,
        range_set::covered(missing, x),
    ensures
        asked_for(sections_for(missing, None), x / (PAYLOAD_SIZE as int)),
{
    law_asked_up_to_the_last(missing, None, x);
    lemma_section_count(missing);
    let i = choose|i: int| 0 <= i < missing.len() && (#[trigger] missing[i]).0 <= x < missing[i].1;
    assert(PAYLOAD_SIZE == 1369);
    if i < missing.len() - 1 {
        assert(missing[i].1 < missing[missing.len() - 1].0);
        assert(missing[missing.len() - 1].0 < missing[missing.len() - 1].1);
    }
    assert(x < missing.last().1);
}

/// Where bytes end, in packets: behind the packet of the last of them.
pub open spec fn is_packet_end(end: int, index: int) -> bool {
    (index - 1) * PAYLOAD_SIZE < end <= index * PAYLOAD_SIZE
}

/// Each packet range ends where the packets of a missing range end, or where those bytes of it end
/// that come before what is on its way: no range is cut short.
pub proof fn law_ranges_are_whole(
    missing: Seq<(u64, u64)>,
    on_its_way: Option<(u64, u64)>,
    k: int,
) -> (i: int)
    requires
        range_set::apart(missing),
        0 <= k < sections_for(missing, on_its_way).len(),
    ensures
        0 <= i < missing.len(),
        ({
            let end = sections_for(missing, on_its_way)[k].1 as int;
            is_packet_end(missing[i].1 as int, end) || (on_its_way matches Some((from, to))
                && missing[i].0 < from < missing[i].1 && is_packet_end(from as int, end))
        }),
    decreases missing.len(),
{
    let init = missing.drop_last();
    lemma_apart_prefix(missing);
    let before = sections_for(init, on_its_way);
    if k < before.len() {
        let i = law_ranges_are_whole(init, on_its_way, k);
        assert(missing[i] == init[i]);
        i
    } else {
        assert(PAYLOAD_SIZE == 1369);
        let range = missing.last();
        let rest = cut(range, on_its_way)->Some_0;
        let end = packets_around(rest).1 as int;
        assert(is_packet_end(rest.1 as int, end));
        missing.len() - 1
    }
}

/// A packet is asked for only if it holds a missing byte that is not on its way.
pub proof fn law_nothing_queued_is_asked_for(
    missing: Seq<(u64, u64)>,
    on_its_way: Option<(u64, u64)>,
    index: int,
) -> (x: int)
    requires
        range_set::apart(missing),
        on_its_way matches Some((from, to)) ==> from <= to,
        asked_for(sections_for(missing, on_its_way), index),
    ensures
        range_set::covered(missing, x),
        x / (PAYLOAD_SIZE as int) == index,
        on_its_way matches Some((from, to)) ==> !(from <= x < to),
    decreases missing.len(),
{
    let init = missing.drop_last();
    lemma_apart_prefix(missing);
    let before = sections_for(init, on_its_way);
    let asked = sections_for(missing, on_its_way);
    let at = choose|at: int|
        0 <= at < asked.len() && (#[trigger] asked[at]).0 <= index < asked[at].1;
    if at < before.len() {
        assert(before[at] == asked[at]);
        assert(asked_for(before, index));
        let x = law_nothing_queued_is_asked_for(init, on_its_way, index);
        let i = choose|i: int| 0 <= i < init.len() && (#[trigger] init[i]).0 <= x < init[i].1;
        assert(missing[i] == init[i]);
        x
    } else {
        let range = missing.last();
        let rest = cut(range, on_its_way)->Some_0;
        assert(missing[missing.len() - 1] == range);
        assert(PAYLOAD_SIZE == 1369);
        let x = if rest.0 < index * 1369 {
            index * 1369
        } else {
            rest.0 as int
        };
        assert(x / 1369 == index);
        assert(rest.0 <= x < rest.1);
        assert(range.0 <= x < range.1);
        assert(range_set::covered(missing, x));
        x
    }
}

/// As long as anything is missing, something is asked for, where nothing is on its way.
pub proof fn law_missing_is_asked_for(missing: Seq<(u64, u64)>)
    requires
        range_set::apart(missing),
        missing.len() > 0,
    ensures
        sections_for(missing, None).len() > 0,
    decreases missing.len(),
{
    let init = missing.drop_last();
    if init.len() > 0 {
        lemma_apart_prefix(missing);
        law_missing_is_asked_for(init);
    } else {
        assert(sections_for(init, None).len() == 0);
    }
}

/// All that is asked for are ranges of packets, as long as what is missing has packets.
pub proof fn law_requests_have_packets(
    missing: Seq<(u64, u64)>,
    on_its_way: Option<(u64, u64)>,
    i: int,
)
    requires
        range_set::apart(missing),
        forall|k: int| 0 <= k < missing.len() ==> (#[trigger] missing[k]).1 <= MAX_OFFSET,
        0 <= i < sections_for(missing, on_its_way).len(),
    ensures
        sections_for(missing, on_its_way)[i].0 <= sections_for(missing, on_its_way)[i].1
            <= MAX_INDEX,
    decreases missing.len(),
{
    law_sections_ordered(missing, on_its_way);
    if missing.len() > 0 {
        let init = missing.drop_last();
        lemma_apart_prefix(missing);
        assert(missing.last() == missing[missing.len() - 1]);
        assert forall|k: int| 0 <= k < init.len() implies (#[trigger] init[k]).1 <= MAX_OFFSET by {
            assert(init[k] == missing[k]);
        }
        let before = sections_for(init, on_its_way);
        if i < before.len() {
            law_requests_have_packets(init, on_its_way, i);
            assert(sections_for(missing, on_its_way)[i] == before[i]);
        } else {
            assert(PAYLOAD_SIZE == 1369);
            assert(MAX_OFFSET == MAX_INDEX * 1369);
        }
    }
}

proof fn lemma_last_asked(missing: Seq<(u64, u64)>, on_its_way: Option<(u64, u64)>)
    requires
        range_set::apart(missing),
        sections_for(missing, on_its_way).len() > 0,
    ensures
        missing.len() > 0,
        sections_for(missing, on_its_way).last().1 <= packets_around(missing.last()).1,
    decreases missing.len(),
{
    let init = missing.drop_last();
    lemma_apart_prefix(missing);
    assert(PAYLOAD_SIZE == 1369);
    if sections_for(init, on_its_way).len() > 0 {
        lemma_last_asked(init, on_its_way);
        assert(init[init.len() - 1] == missing[init.len() - 1]);
        assert(missing[init.len() - 1].1 < missing[missing.len() - 1].0);
    }
}

/// The missing ranges of phase `phase` when nothing has arrived: all of it, if it is to be received.
pub open spec fn all_missing(phases: Seq<(u16, PhaseOffset)>, phase: int) -> Seq<(u64, u64)>
    decreases phases.len(),
{
    if phases.len() == 0 {
        Seq::empty()
    } else if phases.last().0 == phase {
        seq![(0, phases.last().1.0)]
    } else {
        all_missing(phases.drop_last(), phase)
    }
}

/// One more than the highest phase that is to be received.
pub open spec fn phase_slots(phases: Seq<(u16, PhaseOffset)>) -> int
    decreases phases.len(),
{
    if phases.len() == 0 {
        0
    } else if phases.last().0 < phase_slots(phases.drop_last()) {
        phase_slots(phases.drop_last())
    } else {
        phases.last().0 + 1
    }
}

/// A packet to be written.
pub struct WriteOrder {
    pub dest: PacketIdx,
    pub data: Bytes,
    /// The completely transferred range that this write is a part of.
    ///
    /// The completeness assumes this write has occurred.
    pub completed_range: Range<PhaseOffset>,
}

/// What is to be done about a packet that has arrived.
pub struct Reaction {
    pub write: Option<WriteOrder>,
    pub request: Option<Request>,
    /// Whether nothing of the phase is missing any more.
    pub phase_done: bool,
}

/// What a client knows about the phases that it receives.
pub struct ClientProtocolHandler {
    pub session_id: SessionId,
    /// Missing range per phase
    pub missing: Vec<RangeSet<u64>>,
    pub last_retransmit_generation: RetransmitGeneration,
    /// We avoid stepping the generation back. But in degenerate cases,
    /// we may have to, to avoid getting stuck. So keep a retry count.
    pub last_retransmit_generation_update_counter: u32,
    pub loss: LinkQualitySignal,
    pub no_loss_counter: u32,
}

/// Whether the generation of a packet is taken over: it is not an old one, or too many have seemed
/// to be old.
pub open spec fn takes_generation(last: u16, seen: u16, counter: u32) -> bool {
    (seen - last) % 0x1_0000 < 0xffff - 100 || counter > 100
}

/// What is said of the link, and how many packets have come without loss, after a packet that was
/// missing has come. `loss_seen` says that it has left a hole.
pub open spec fn link_after(loss: LinkQualitySignal, counter: int, loss_seen: bool) -> (
    LinkQualitySignal,
    int,
) {
    if loss_seen {
        (LinkQualitySignal::LossDetected, 0)
    } else if counter + 1 > 100 && loss == LinkQualitySignal::KeepGoing {
        (LinkQualitySignal::IncreaseWindow, 0)
    } else {
        (loss, counter + 1)
    }
}

/// Where the run of bytes begins that have arrived and lead up to `start`.
pub open spec fn run_start(missing: Seq<(u64, u64)>, start: int) -> u64 {
    if range_set::any_hit(missing, 0, start) {
        missing[choose|at: int| range_set::is_last_hit(missing, 0, start, at)].1
    } else {
        0
    }
}

/// Where the run of bytes ends that have arrived and go on from `end`.
pub open spec fn run_end(missing: Seq<(u64, u64)>, end: int) -> u64 {
    if range_set::any_hit(missing, end, MAX_OFFSET as int) {
        missing[choose|at: int| range_set::is_first_hit(missing, end, MAX_OFFSET as int, at)].0
    } else {
        MAX_OFFSET
    }
}

/// The first byte of a packet.
pub open spec fn first_byte(p: messages::PayloadModel) -> int {
    p.index.index_of() * PAYLOAD_SIZE
}

impl ClientProtocolHandler {
    /// The ranges of `phase` that are missing.
    pub open spec fn missing_of(self, phase: u16) -> Seq<(u64, u64)> {
        range_set::range_list(self.missing@[phase as int])
    }

    /// The missing ranges are kept in order.
    pub open spec fn inv(self) -> bool {
        &&& forall|i: int|
            0 <= i < self.missing@.len() ==> range_set::apart(
                range_set::range_list(#[trigger] self.missing@[i]),
            )
        &&& self.last_retransmit_generation_update_counter <= 101
    }

    /// Nothing of the given phases has arrived, each of which comes with its size.
    pub open spec fn is_fresh(self, session_id: SessionId, phases: Seq<(u16, PhaseOffset)>) -> bool {
        &&& self.session_id == session_id
        &&& self.missing@.len() == phase_slots(phases)
        &&& forall|i: int|
            0 <= i < self.missing@.len() ==> range_set::range_list(#[trigger] self.missing@[i])
                == all_missing(phases, i)
        &&& self.last_retransmit_generation == RetransmitGeneration(0)
        &&& self.last_retransmit_generation_update_counter == 0
        &&& self.loss == LinkQualitySignal::KeepGoing
        &&& self.no_loss_counter == 0
    }

    /// A client that is to receive the given phases, each with its size, and has nothing of them.
    pub fn new(session_id: SessionId, phases: &Vec<(u16, PhaseOffset)>) -> (r: Self)
        requires
            forall|i: int| 0 <= i < phases@.len() ==> (#[trigger] phases@[i]).1.0 > 0,
        ensures
            r.inv(),
            r.is_fresh(session_id, phases@),
    {
        let mut missing: Vec<RangeSet<u64>> = Vec::new();
        let mut i: usize = 0;
        while i < phases.len()
            invariant
                i <= phases@.len(),
                forall|j: int| 0 <= j < phases@.len() ==> (#[trigger] phases@[j]).1.0 > 0,
                missing@.len() == phase_slots(phases@.take(i as int)),
                forall|j: int|
                    0 <= j < missing@.len() ==> range_set::range_list(#[trigger] missing@[j])
                        == all_missing(phases@.take(i as int), j),
            decreases phases.len() - i,
        {
            let (phase, phase_size): (u16, PhaseOffset) = phases[i];
            let ghost done = phases@.take(i as int);
            let ghost next = phases@.take(i + 1);
            proof {
                assert(next.drop_last() =~= done);
                assert(next.last() == (phase, phase_size));
                assert(phases@[i as int].1.0 > 0);
                lemma_none_missing(done);
            }
            while missing.len() < phase as usize + 1
                invariant
                    missing@.len() >= phase_slots(done),
                    missing@.len() == phase_slots(done) || missing@.len() <= phase + 1,
                    forall|j: int|
                        0 <= j < missing@.len() ==> range_set::range_list(#[trigger] missing@[j])
                            == all_missing(done, j),
                    forall|j: int|
                        phase_slots(done) <= j ==> #[trigger] all_missing(done, j) =~= Seq::<
                            (u64, u64),
                        >::empty(),
                decreases phase + 1 - missing@.len(),
            {
                missing.push(range_set::new_set());
            }
            let mut all = range_set::new_set();
            range_set::insert(&mut all, 0, phase_size.0);
            proof {
                let list = range_set::range_list(all);
                assert forall|x: int| #[trigger]
                    range_set::covered(list, x) <==> 0 <= x < phase_size.0 by {
                    assert(!range_set::covered(Seq::<(u64, u64)>::empty(), x));
                }
                range_set::lemma_one_range(list, 0, phase_size.0);
            }
            missing.set(phase as usize, all);
            i = i + 1;
        }
        proof {
            assert(phases@.take(i as int) =~= phases@);
            assert forall|j: int| 0 <= j < missing@.len() implies range_set::apart(
                range_set::range_list(#[trigger] missing@[j]),
            ) by {
                lemma_all_missing_apart(phases@, j);
            }
        }
        ClientProtocolHandler {
            session_id,
            missing,
            last_retransmit_generation: RetransmitGeneration(0),
            last_retransmit_generation_update_counter: 0,
            loss: LinkQualitySignal::KeepGoing,
            no_loss_counter: 0,
        }
    }
}

/// A client that has received nothing misses every byte of every phase that it is to receive, and
/// nothing else. It has nothing to tell of the link.
pub proof fn law_fresh_client_misses_all(
    handler: ClientProtocolHandler,
    session_id: SessionId,
    phases: Seq<(u16, PhaseOffset)>,
    i: int,
    x: int,
)
    requires
        handler.is_fresh(session_id, phases),
        0 <= i < phases.len(),
        forall|j: int| 0 <= j < phases.len() && j != i ==> (#[trigger] phases[j]).0 != phases[i].0,
    ensures
        handler.session_id == session_id,
        phases[i].0 < handler.missing@.len(),
        range_set::covered(handler.missing_of(phases[i].0), x) <==> 0 <= x < phases[i].1.0,
        handler.loss == LinkQualitySignal::KeepGoing,
        handler.no_loss_counter == 0,
        handler.last_retransmit_generation.0 == 0,
        handler.last_retransmit_generation_update_counter == 0,
{
    lemma_size_missing(phases, i);
    let list = handler.missing_of(phases[i].0);
    assert(range_set::range_list(handler.missing@[phases[i].0 as int]) == all_missing(
        phases,
        phases[i].0 as int,
    ));
    if 0 <= x < phases[i].1.0 {
        assert(list[0].0 <= x < list[0].1);
    }
}

/// Nothing is missing of a phase that is not to be received.
pub proof fn law_fresh_client_misses_nothing_else(
    handler: ClientProtocolHandler,
    session_id: SessionId,
    phases: Seq<(u16, PhaseOffset)>,
    phase: u16,
    x: int,
)
    requires
        handler.is_fresh(session_id, phases),
        phase < handler.missing@.len(),
        forall|j: int| 0 <= j < phases.len() ==> (#[trigger] phases[j]).0 != phase,
    ensures
        !range_set::covered(handler.missing_of(phase), x),
{
    assert(range_set::range_list(handler.missing@[phase as int]) == all_missing(
        phases,
        phase as int,
    ));
    lemma_none_missing_of(phases, phase as int);
}

proof fn lemma_none_missing_of(phases: Seq<(u16, PhaseOffset)>, phase: int)
    requires
        forall|j: int| 0 <= j < phases.len() ==> (#[trigger] phases[j]).0 != phase,
    ensures
        all_missing(phases, phase).len() == 0,
    decreases phases.len(),
{
    if phases.len() > 0 {
        let init = phases.drop_last();
        assert(phases.last() == phases[phases.len() - 1]);
        assert forall|j: int| 0 <= j < init.len() implies (#[trigger] init[j]).0 != phase by {
            assert(init[j] == phases[j]);
        }
        lemma_none_missing_of(init, phase);
    }
}

proof fn lemma_size_missing(phases: Seq<(u16, PhaseOffset)>, i: int)
    requires
        0 <= i < phases.len(),
        forall|j: int| 0 <= j < phases.len() && j != i ==> (#[trigger] phases[j]).0 != phases[i].0,
    ensures
        all_missing(phases, phases[i].0 as int) == seq![(0u64, phases[i].1.0)],
        phases[i].0 < phase_slots(phases),
    decreases phases.len(),
{
    if i < phases.len() - 1 {
        let init = phases.drop_last();
        assert(phases.last() == phases[phases.len() - 1]);
        assert(init[i] == phases[i]);
        assert forall|j: int| 0 <= j < init.len() && j != i implies (#[trigger] init[j]).0
            != init[i].0 by {
            assert(init[j] == phases[j]);
        }
        lemma_size_missing(init, i);
    }
}

/// The request of some generation for what is missing, `None` where nothing is to be asked for.
pub open spec fn request_of(
    handler: ClientProtocolHandler,
    phase: u16,
    retransmit_generation: RetransmitGeneration,
    on_its_way: Option<(u64, u64)>,
) -> Option<messages::RequestModel> {
    let asked = sections_for(handler.missing_of(phase), on_its_way);
    if asked.len() == 0 {
        None
    } else {
        Some(
            messages::RequestModel {
                session_id: handler.session_id,
                phase,
                retransmit_generation,
                loss: handler.loss,
                sections: asked,
            },
        )
    }
}

/// What an optional request says.
pub open spec fn request_view(request: Option<Request>) -> Option<messages::RequestModel> {
    match request {
        Some(request) => Some(request@),
        None => None,
    }
}

/// Nothing is to be done.
pub open spec fn idle(reaction: Reaction) -> bool {
    reaction.write is None && reaction.request is None && !reaction.phase_done
}

impl ClientProtocolHandler {
    /// The request of some generation for what is missing, `None` where nothing is to be asked for.
    /// Packets that hold only bytes of `disallowed_range` are not asked for.
    pub fn make_request(
        &self,
        phase: u16,
        retransmit_generation: RetransmitGeneration,
        disallowed_range: &Option<Range<PhaseOffset>>,
    ) -> (r: Option<Request>)
        requires
            phase < self.missing@.len(),
        ensures
            request_view(r) == request_of(
                *self,
                phase,
                retransmit_generation,
                pair_of(*disallowed_range),
            ),
    {
        let missing = range_set::ranges(&self.missing[phase as usize]);
        let sections = sections_to_request(&missing, disallowed_range);
        if sections::len(&sections) == 0 {
            // this can happen if we're processing a 'eof approaching' but there's
            // actually nothing more to send.
            return None;
        }
        Some(
            Request {
                session_id: self.session_id,
                phase,
                retransmit_generation,
                loss: self.loss,
                sections,
            },
        )
    }

    /// Nothing has come for a while: asks again for all that is missing.
    pub fn on_timeout(&mut self, phase: u16) -> (r: Option<Request>)
        requires
            phase < old(self).missing@.len(),
        ensures
            request_view(r) == request_of(
                *old(self),
                phase,
                old(self).last_retransmit_generation,
                None,
            ),
            *final(self) == (ClientProtocolHandler {
                loss: LinkQualitySignal::KeepGoing,
                ..*old(self)
            }),
    {
        let request = self.make_request(phase, self.last_retransmit_generation, &None);
        self.loss = LinkQualitySignal::KeepGoing;
        request
    }

    /// Whether a packet of `len` bytes at `index` of `phase` reaches into what is missing.
    pub fn is_useful(&self, phase: u16, index: IndexInPhase, len: u64) -> (r: bool)
        requires
            self.inv(),
            phase < self.missing@.len(),
            index.0 * PAYLOAD_SIZE + len <= u64::MAX,
        ensures
            r == range_set::any_hit(
                self.missing_of(phase),
                index.0 * PAYLOAD_SIZE,
                index.0 * PAYLOAD_SIZE + len,
            ),
    {
        let start: PhaseOffset = calculate_phase_offset(index);
        range_set::overlaps(&self.missing[phase as usize], start.0, start.0 + len)
    }

    /// The run of bytes that have arrived around the bytes from `start` to `end`.
    fn run_around(&self, phase: u16, start: u64, end: u64) -> (r: Range<PhaseOffset>)
        requires
            self.inv(),
            phase < self.missing@.len(),
        ensures
            r.start.0 == run_start(self.missing_of(phase), start as int),
            r.end.0 == run_end(self.missing_of(phase), end as int),
    {
        let set = &self.missing[phase as usize];
        let ghost list = self.missing_of(phase);
        assert(range_set::apart(range_set::range_list(self.missing@[phase as int])));
        let missing_range_end = range_set::first_overlapping(set, end, MAX_OFFSET);
        let missing_range_start = range_set::last_overlapping(set, 0, start);
        let from: u64 = match missing_range_start {
            Some((_, end)) => {
                proof {
                    let at = choose|at: int| #[trigger]
                        range_set::is_last_hit(list, 0, start as int, at) && list[at]
                            == missing_range_start->Some_0;
                    let chosen = choose|at: int|
                        range_set::is_last_hit(list, 0, start as int, at);
                    assert(range_set::hits(list[at], 0, start as int));
                    range_set::lemma_last_hit(list, 0, start as int, at, chosen);
                }
                end
            },
            None => 0,
        };
        let to: u64 = match missing_range_end {
            Some((start, _)) => {
                proof {
                    let max = MAX_OFFSET as int;
                    let at = choose|at: int| #[trigger]
                        range_set::is_first_hit(list, end as int, max, at) && list[at]
                            == missing_range_end->Some_0;
                    let chosen = choose|at: int|
                        range_set::is_first_hit(list, end as int, max, at);
                    assert(range_set::hits(list[at], end as int, max));
                    range_set::lemma_first_hit(list, end as int, max, at, chosen);
                }
                start
            },
            None => MAX_OFFSET,
        };
        Range { start: PhaseOffset(from), end: PhaseOffset(to) }
    }
}

/// Whether a packet of the phase reaches into what is missing.
pub open spec fn useful(
    handler: ClientProtocolHandler,
    phase: u16,
    p: messages::PayloadModel,
) -> bool {
    range_set::any_hit(
        handler.missing_of(phase),
        first_byte(p),
        first_byte(p) + p.data.len(),
    )
}

/// A packet with data is useful if, and only if, it holds a byte that is missing.
pub proof fn law_useful_packets(handler: ClientProtocolHandler, phase: u16, p: messages::PayloadModel)
    requires
        handler.inv(),
        phase < handler.missing@.len(),
        p.data.len() > 0,
    ensures
        useful(handler, phase, p) <==> exists|x: int|
            first_byte(p) <= x < first_byte(p) + p.data.len() && #[trigger] range_set::covered(
                handler.missing_of(phase),
                x,
            ),
{
    let list = handler.missing_of(phase);
    let start = first_byte(p);
    let end = start + p.data.len();
    assert(range_set::apart(range_set::range_list(handler.missing@[phase as int])));
    if useful(handler, phase, p) {
        let i = choose|i: int| 0 <= i < list.len() && range_set::hits(#[trigger] list[i], start, end);
        let x = if list[i].0 < start {
            start
        } else {
            list[i].0 as int
        };
        assert(list[i].0 <= x < list[i].1);
        assert(range_set::covered(list, x));
    }
    if exists|x: int| start <= x < end && #[trigger] range_set::covered(list, x) {
        let x = choose|x: int| start <= x < end && #[trigger] range_set::covered(list, x);
        let i = choose|i: int| 0 <= i < list.len() && (#[trigger] list[i]).0 <= x < list[i].1;
        assert(range_set::hits(list[i], start, end));
    }
}

/// A packet of the phase can be taken: its bytes have offsets, and if it is useful, then it is not
/// empty, and a burst that is coming to its end is one of the same phase.
pub open spec fn can_take(
    handler: ClientProtocolHandler,
    phase: u16,
    p: messages::PayloadModel,
) -> bool {
    &&& first_byte(p) + p.data.len() <= u64::MAX
    &&& useful(handler, phase, p) ==> {
        &&& p.data.len() > 0
        &&& handler.no_loss_counter < u32::MAX
        &&& p.eof_approaching.0 != INVALID_INDEX ==> p.eof_approaching.phase_of() == phase
    }
}

/// What a handler knows after it has seen the generation of a packet.
pub open spec fn generation_seen(
    handler: ClientProtocolHandler,
    generation: RetransmitGeneration,
) -> ClientProtocolHandler {
    if takes_generation(
        handler.last_retransmit_generation.0,
        generation.0,
        handler.last_retransmit_generation_update_counter,
    ) {
        ClientProtocolHandler { last_retransmit_generation: generation, ..handler }
    } else {
        ClientProtocolHandler {
            last_retransmit_generation_update_counter: (
            handler.last_retransmit_generation_update_counter + 1) as u32,
            ..handler
        }
    }
}

/// `after` is what a handler knows, and `reaction` what it does, when the useful packet `p` has
/// come.
pub open spec fn takes_packet(
    before: ClientProtocolHandler,
    phase: u16,
    p: messages::PayloadModel,
    after: ClientProtocolHandler,
    reaction: Reaction,
) -> bool {
    let start = first_byte(p);
    let end = start + p.data.len();
    let left = after.missing_of(phase);
    let link = link_after(
        before.loss,
        before.no_loss_counter as int,
        left.len() > before.missing_of(phase).len(),
    );
    let eof = p.eof_approaching.0 != INVALID_INDEX;
    let seen = generation_seen(before, p.retransmit_generation);
    &&& after.missing@.len() == before.missing@.len()
    &&& forall|i: int|
        0 <= i < before.missing@.len() && i != phase ==> #[trigger] after.missing@[i]
            == before.missing@[i]
    &&& range_set::is_difference(before.missing_of(phase), start, end, left)
    &&& after.session_id == before.session_id
    &&& after.last_retransmit_generation == seen.last_retransmit_generation
    &&& after.last_retransmit_generation_update_counter
        == seen.last_retransmit_generation_update_counter
    &&& after.no_loss_counter == link.1
    &&& after.loss == if eof {
        LinkQualitySignal::KeepGoing
    } else {
        link.0
    }
    &&& reaction.write matches Some(order)
    &&& order.dest == p.index
    &&& buffers::bytes_of(order.data) == p.data
    &&& order.completed_range.start.0 == run_start(left, start)
    &&& order.completed_range.end.0 == run_end(left, end)
    &&& request_view(reaction.request) == if eof {
        request_of(
            ClientProtocolHandler { loss: link.0, ..after },
            phase,
            after.last_retransmit_generation.successor(),
            Some((start as u64, (p.eof_approaching.index_of() * PAYLOAD_SIZE) as u64)),
        )
    } else {
        None
    }
    &&& reaction.phase_done == (left.len() == 0)
}

/// `after` is what a handler knows, and `reaction` what it does, when the packet `p` has come while
/// `phase` is being received.
pub open spec fn reacts_to_packet(
    before: ClientProtocolHandler,
    phase: u16,
    p: messages::PayloadModel,
    after: ClientProtocolHandler,
    reaction: Reaction,
) -> bool {
    if p.index.phase_of() != phase {
        after == before && idle(reaction)
    } else if !useful(before, phase, p) {
        after == generation_seen(before, p.retransmit_generation) && idle(reaction)
    } else {
        takes_packet(before, phase, p, after, reaction)
    }
}

/// `after` is what a handler knows, and `reaction` what it does, when the message `m` has come while
/// `phase` is being received. Only packets of the session count.
pub open spec fn reacts(
    before: ClientProtocolHandler,
    phase: u16,
    m: messages::MessageModel,
    after: ClientProtocolHandler,
    reaction: Reaction,
) -> bool {
    match m {
        messages::MessageModel::Payload(p) if p.session_id == before.session_id =>
            reacts_to_packet(before, phase, p, after, reaction),
        _ => after == before && idle(reaction),
    }
}

/// A message can be taken while `phase` is being received: if it is a packet of the session and of
/// the phase, then that packet can.
pub open spec fn can_take_message(
    handler: ClientProtocolHandler,
    phase: u16,
    m: messages::MessageModel,
) -> bool {
    m matches messages::MessageModel::Payload(p) ==> p.session_id == handler.session_id
        && p.index.phase_of() == phase ==> can_take(handler, phase, p)
}

/// What a server sends can be taken: a packet that is not empty and not longer than packets are, as
/// long as the end of the burst, if it is told, is one of the same phase. So can every message that
/// is no packet of the session and of the phase.
pub proof fn law_sent_messages_can_be_taken(
    handler: ClientProtocolHandler,
    phase: u16,
    m: messages::MessageModel,
)
    requires
        handler.no_loss_counter < u32::MAX,
        m matches messages::MessageModel::Payload(p) ==> p.session_id == handler.session_id
            && p.index.phase_of() == phase ==> 0 < p.data.len() <= 1369 && (p.eof_approaching.0
            == INVALID_INDEX || p.eof_approaching.phase_of() == p.index.phase_of()),
    ensures
        can_take_message(handler, phase, m),
{
    if let messages::MessageModel::Payload(p) = m {
        packet::law_packet_idx_parts(p.index);
        assert(PAYLOAD_SIZE == 1369);
    }
}

/// Whether a packet has left a new hole in what is missing.
pub open spec fn leaves_hole(
    before: ClientProtocolHandler,
    phase: u16,
    after: ClientProtocolHandler,
) -> bool {
    after.missing_of(phase).len() > before.missing_of(phase).len()
}

/// What the server is told of the link next: by the request that answers the packet, or by a later
/// one.
pub open spec fn told_next(after: ClientProtocolHandler, reaction: Reaction) -> LinkQualitySignal {
    match reaction.request {
        Some(r) => r.loss,
        None => after.loss,
    }
}

/// Loss is told: once a packet has left a hole, and whatever packets come then, the next request
/// says so. Without loss nothing is taken back, and a wish for more is made after a hundred packets
/// without loss, no earlier.
pub proof fn law_link_quality(
    before: ClientProtocolHandler,
    phase: u16,
    p: messages::PayloadModel,
    after: ClientProtocolHandler,
    reaction: Reaction,
)
    requires
        takes_packet(before, phase, p, after, reaction),
        p.eof_approaching.0 == INVALID_INDEX || reaction.request is Some,
    ensures
        ({
            let told = told_next(after, reaction);
            &&& leaves_hole(before, phase, after) ==> told == LinkQualitySignal::LossDetected
                && after.no_loss_counter == 0
            &&& before.loss == LinkQualitySignal::LossDetected ==> told
                == LinkQualitySignal::LossDetected
            &&& told == LinkQualitySignal::LossDetected ==> leaves_hole(before, phase, after)
                || before.loss == LinkQualitySignal::LossDetected
            &&& before.loss == LinkQualitySignal::IncreaseWindow && !leaves_hole(
                before,
                phase,
                after,
            ) ==> told == LinkQualitySignal::IncreaseWindow
            &&& told == LinkQualitySignal::IncreaseWindow && before.loss
                == LinkQualitySignal::KeepGoing <==> before.loss == LinkQualitySignal::KeepGoing
                && !leaves_hole(before, phase, after) && before.no_loss_counter >= 100
            &&& !leaves_hole(before, phase, after) && after.no_loss_counter != 0
                ==> after.no_loss_counter == before.no_loss_counter + 1
            &&& !leaves_hole(before, phase, after) && after.no_loss_counter == 0 ==> told
                == LinkQualitySignal::IncreaseWindow && before.no_loss_counter >= 100
            &&& reaction.request is Some ==> after.loss == LinkQualitySignal::KeepGoing
        }),
{
}

/// What a request says of its sender: its session, the phase, and what it has seen of the link.
pub proof fn law_request_speaks_for_its_sender(
    handler: ClientProtocolHandler,
    phase: u16,
    generation: RetransmitGeneration,
    on_its_way: Option<(u64, u64)>,
)
    ensures
        request_of(handler, phase, generation, on_its_way) matches Some(r) ==> {
            &&& r.session_id == handler.session_id
            &&& r.phase == phase
            &&& r.retransmit_generation == generation
            &&& r.loss == handler.loss
            &&& r.sections.len() > 0
            &&& r.sections == sections_for(handler.missing_of(phase), on_its_way)
        },
        request_of(handler, phase, generation, on_its_way) is None ==> sections_for(
            handler.missing_of(phase),
            on_its_way,
        ).len() == 0,
{
}

/// A packet fills the bytes of its place, and no others: afterwards just these are no longer
/// missing, of its own phase.
pub proof fn law_packet_fills_its_place(
    before: ClientProtocolHandler,
    phase: u16,
    p: messages::PayloadModel,
    after: ClientProtocolHandler,
    reaction: Reaction,
    other: u16,
    x: int,
)
    requires
        takes_packet(before, phase, p, after, reaction),
        phase < before.missing@.len(),
        other < before.missing@.len(),
    ensures
        after.missing@.len() == before.missing@.len(),
        ({
            let start = p.index.index_of() * PAYLOAD_SIZE;
            range_set::covered(after.missing_of(other), x) <==> range_set::covered(
                before.missing_of(other),
                x,
            ) && !(other == phase && start <= x < start + p.data.len())
        }),
{
    if other != phase {
        assert(after.missing@[other as int] == before.missing@[other as int]);
    }
}

/// A packet is written where it belongs, with its own bytes. The range that is called complete
/// holds the packet and no missing byte, and ends on both sides where a byte is missing or where
/// there are no more bytes. The phase is done if, and only if, no byte of it is missing.
pub proof fn law_packet_is_written(
    before: ClientProtocolHandler,
    phase: u16,
    p: messages::PayloadModel,
    after: ClientProtocolHandler,
    reaction: Reaction,
)
    requires
        after.inv(),
        phase < after.missing@.len(),
        takes_packet(before, phase, p, after, reaction),
        p.data.len() > 0,
        p.index.index_of() * PAYLOAD_SIZE + p.data.len() <= MAX_OFFSET,
    ensures
        ({
            let start = p.index.index_of() * PAYLOAD_SIZE;
            let end = start + p.data.len();
            let left = after.missing_of(phase);
            &&& reaction.write matches Some(order)
            &&& order.dest == p.index
            &&& buffers::bytes_of(order.data) == p.data
            &&& order.completed_range.start.0 <= start
            &&& end <= order.completed_range.end.0 <= MAX_OFFSET
            &&& forall|x: int|
                order.completed_range.start.0 <= x < order.completed_range.end.0
                    ==> !#[trigger] range_set::covered(left, x)
            &&& order.completed_range.start.0 > 0 ==> range_set::covered(
                left,
                order.completed_range.start.0 - 1,
            )
            &&& order.completed_range.end.0 < MAX_OFFSET ==> range_set::covered(
                left,
                order.completed_range.end.0 as int,
            )
            &&& reaction.phase_done <==> forall|x: int| !#[trigger] range_set::covered(left, x)
        }),
{
    let start = p.index.index_of() * PAYLOAD_SIZE;
    let end = start + p.data.len();
    let left = after.missing_of(phase);
    assert(PAYLOAD_SIZE == 1369);
    assert(range_set::apart(range_set::range_list(after.missing@[phase as int])));
    assert forall|x: int| start <= x < end implies !#[trigger] range_set::covered(left, x) by {}
    law_completed_range(left, start, end);
    law_phase_done(left);
}

/// A message that is no packet of the session and of the phase changes nothing, and gives rise to
/// nothing.
pub proof fn law_other_messages_do_nothing(
    before: ClientProtocolHandler,
    phase: u16,
    m: messages::MessageModel,
    after: ClientProtocolHandler,
    reaction: Reaction,
)
    requires
        reacts(before, phase, m, after, reaction),
        m matches messages::MessageModel::Payload(p) ==> p.session_id != before.session_id
            || p.index.phase_of() != phase,
    ensures
        after == before,
        reaction.write is None,
        reaction.request is None,
        !reaction.phase_done,
{
}

/// A packet of the session and of the phase is taken, if it holds a missing byte; of one that holds
/// none only the generation counts.
pub proof fn law_useful_packets_are_taken(
    before: ClientProtocolHandler,
    phase: u16,
    p: messages::PayloadModel,
    after: ClientProtocolHandler,
    reaction: Reaction,
)
    requires
        before.inv(),
        phase < before.missing@.len(),
        reacts(before, phase, messages::MessageModel::Payload(p), after, reaction),
        p.session_id == before.session_id,
        p.index.phase_of() == phase,
        p.data.len() > 0,
    ensures
        (exists|x: int|
            first_byte(p) <= x < first_byte(p) + p.data.len() && #[trigger] range_set::covered(
                before.missing_of(phase),
                x,
            )) ==> takes_packet(before, phase, p, after, reaction),
        !(exists|x: int|
            first_byte(p) <= x < first_byte(p) + p.data.len() && #[trigger] range_set::covered(
                before.missing_of(phase),
                x,
            )) ==> {
            &&& reaction.write is None
            &&& reaction.request is None
            &&& !reaction.phase_done
            &&& after.missing == before.missing
            &&& after.loss == before.loss
            &&& after.no_loss_counter == before.no_loss_counter
            &&& after.session_id == before.session_id
        },
        first_byte(p) == p.index.index_of() * PAYLOAD_SIZE,
{
    law_useful_packets(before, phase, p);
}

/// The generation that lies `steps` steps behind another, going round.
pub open spec fn steps_on(generation: u16, steps: int) -> int {
    if generation + steps < 0x1_0000 {
        generation + steps
    } else {
        generation + steps - 0x1_0000
    }
}

/// A client follows its server: the generation of a packet is believed, unless it lies at most a
/// hundred and one steps back. Then it is believed only when a hundred and one others have seemed to
/// lie back before it.
pub proof fn law_generations_are_followed(
    handler: ClientProtocolHandler,
    seen: RetransmitGeneration,
    steps: int,
)
    requires
        handler.inv(),
        0 <= steps < 0x1_0000,
        seen.0 == steps_on(handler.last_retransmit_generation.0, steps),
    ensures
        ({
            let after = generation_seen(handler, seen);
            let back = 0x1_0000 - steps;
            let counter = handler.last_retransmit_generation_update_counter;
            &&& back > 101 ==> after.last_retransmit_generation == seen
                && after.last_retransmit_generation_update_counter == counter
            &&& back <= 101 && counter <= 100 ==> after.last_retransmit_generation
                == handler.last_retransmit_generation
                && after.last_retransmit_generation_update_counter == counter + 1
            &&& back <= 101 && counter > 100 ==> after.last_retransmit_generation == seen
                && after.last_retransmit_generation_update_counter == counter
            &&& after.missing == handler.missing
            &&& after.loss == handler.loss
            &&& after.no_loss_counter == handler.no_loss_counter
            &&& after.session_id == handler.session_id
        }),
{
}

/// Every packet of the session and of the phase counts for the generation that a client follows,
/// whether it holds a missing byte or not.
pub proof fn law_every_packet_counts_for_the_generation(
    before: ClientProtocolHandler,
    phase: u16,
    p: messages::PayloadModel,
    after: ClientProtocolHandler,
    reaction: Reaction,
    steps: int,
)
    requires
        before.inv(),
        reacts(before, phase, messages::MessageModel::Payload(p), after, reaction),
        p.session_id == before.session_id,
        p.index.phase_of() == phase,
        0 <= steps < 0x1_0000,
        p.retransmit_generation.0 == steps_on(before.last_retransmit_generation.0, steps),
    ensures
        ({
            let back = 0x1_0000 - steps;
            let counter = before.last_retransmit_generation_update_counter;
            &&& back > 101 || counter > 100 ==> after.last_retransmit_generation
                == p.retransmit_generation && after.last_retransmit_generation_update_counter
                == counter
            &&& back <= 101 && counter <= 100 ==> after.last_retransmit_generation
                == before.last_retransmit_generation
                && after.last_retransmit_generation_update_counter == counter + 1
        }),
{
    law_generations_are_followed(before, p.retransmit_generation, steps);
}

/// The generation that a client follows goes by the packets that it takes.
pub proof fn law_taken_packets_count_for_the_generation(
    before: ClientProtocolHandler,
    phase: u16,
    p: messages::PayloadModel,
    after: ClientProtocolHandler,
    reaction: Reaction,
)
    requires
        takes_packet(before, phase, p, after, reaction),
    ensures
        after.session_id == before.session_id,
        after.last_retransmit_generation == generation_seen(
            before,
            p.retransmit_generation,
        ).last_retransmit_generation,
        p.eof_approaching.0 == INVALID_INDEX ==> reaction.request is None,
        reaction.request matches Some(r) ==> r@.retransmit_generation.0 == if
        after.last_retransmit_generation.0 == 0xffff {
            0int
        } else {
            after.last_retransmit_generation.0 + 1
        } && r@.session_id == before.session_id && r@.phase == phase,
{
}

/// A client that is told of the end of a burst asks for every packet that holds a byte that is
/// missing and not queued, up to the end of what it asks for; and only a full request leaves any of
/// those behind that end out.
pub proof fn law_early_request_is_complete(
    before: ClientProtocolHandler,
    phase: u16,
    p: messages::PayloadModel,
    after: ClientProtocolHandler,
    reaction: Reaction,
    x: int,
)
    requires
        after.inv(),
        phase < after.missing@.len(),
        takes_packet(before, phase, p, after, reaction),
        p.data.len() > 0,
        p.eof_approaching.0 != INVALID_INDEX,
        p.index.index_of() <= p.eof_approaching.index_of(),
        range_set::covered(after.missing_of(phase), x),
        !(first_byte(p) <= x < p.eof_approaching.index_of() * PAYLOAD_SIZE),
    ensures
        reaction.request matches Some(r) && (r@.sections.len() == MAX_SECTIONS_PER_REQUEST
            && r@.sections.last().1 <= x / (PAYLOAD_SIZE as int) || asked_for(
            r@.sections,
            x / (PAYLOAD_SIZE as int),
        )),
{
    let left = after.missing_of(phase);
    let start = first_byte(p);
    let queued = p.eof_approaching.index_of() * PAYLOAD_SIZE;
    let on_its_way = Some((start as u64, queued as u64));
    packet::law_packet_idx_parts(p.index);
    packet::law_packet_idx_parts(p.eof_approaching);
    assert(PAYLOAD_SIZE == 1369);
    assert(range_set::apart(range_set::range_list(after.missing@[phase as int])));
    assert(!range_set::covered(left, start));
    law_asked_up_to_the_last(left, on_its_way, x);
}

impl ClientProtocolHandler {
    /// Whether a message can be taken while `phase` is being received.
    pub fn is_takeable(&self, phase: u16, message: &Message) -> (r: bool)
        requires
            self.inv(),
            phase < self.missing@.len(),
        ensures
            r == can_take_message(*self, phase, message@),
    {
        let p: &Payload = match message {
            Message::Payload(p) => p,
            _ => return true,
        };
        if p.session_id != self.session_id || p.index.phase() != phase {
            return true;
        }
        let len: u64 = p.data.len() as u64;
        let start: PhaseOffset = calculate_phase_offset(p.index.index());
        if len > u64::MAX - start.0 {
            return false;
        }
        if !self.is_useful(phase, p.index.index(), len) {
            return true;
        }
        len > 0 && self.no_loss_counter < u32::MAX && (p.eof_approaching == PacketIdx::invalid()
            || p.eof_approaching.phase() == phase)
    }

    fn see_generation(&mut self, generation: RetransmitGeneration)
        requires
            old(self).inv(),
        ensures
            final(self).inv(),
            *final(self) == generation_seen(*old(self), generation),
    {
        let retransmit_gen_delta: u16 = generation.0.wrapping_sub(
            self.last_retransmit_generation.0,
        );
        if retransmit_gen_delta < u16::MAX - 100 || self.last_retransmit_generation_update_counter
            > 100 {
            self.last_retransmit_generation = generation;
        } else {
            self.last_retransmit_generation_update_counter =
            self.last_retransmit_generation_update_counter + 1;
        }
    }

    /// A packet has come, while `phase` is being received.
    pub fn on_payload(&mut self, phase: u16, p: Payload) -> (r: Reaction)
        requires
            old(self).inv(),
            phase < old(self).missing@.len(),
            p.index.phase_of() == phase ==> can_take(*old(self), phase, p@),
        ensures
            final(self).inv(),
            reacts_to_packet(*old(self), phase, p@, *final(self), r),
    {
        if p.index.phase() != phase {
            return Reaction { write: None, request: None, phase_done: false };
        }
        self.see_generation(p.retransmit_generation);
        let len: u64 = p.data.len() as u64;
        let start: PhaseOffset = calculate_phase_offset(p.index.index());
        let end: PhaseOffset = PhaseOffset(start.0 + len);
        if !self.is_useful(phase, p.index.index(), len) {
            return Reaction { write: None, request: None, phase_done: false };
        }
        let ghost before = self.missing@;
        assert(range_set::apart(range_set::range_list(before[phase as int])));
        let holes_before: usize = range_set::count(&self.missing[phase as usize]);
        range_set::remove(&mut self.missing[phase as usize], start.0, end.0);
        let holes_after: usize = range_set::count(&self.missing[phase as usize]);
        assert forall|i: int| 0 <= i < self.missing@.len() implies range_set::apart(
            range_set::range_list(#[trigger] self.missing@[i]),
        ) by {
            if i != phase {
                assert(self.missing@[i] == before[i]);
            }
        }
        if holes_after > holes_before {
            self.loss = LinkQualitySignal::LossDetected;
            self.no_loss_counter = 0;
        } else {
            self.no_loss_counter = self.no_loss_counter + 1;
            if self.no_loss_counter > 100 && self.loss == LinkQualitySignal::KeepGoing {
                self.loss = LinkQualitySignal::IncreaseWindow;
                self.no_loss_counter = 0;
            }
        }
        let completed_range = self.run_around(phase, start.0, end.0);
        let order = WriteOrder { dest: p.index, data: p.data, completed_range };
        let mut request: Option<Request> = None;
        if p.eof_approaching != PacketIdx::invalid() {
            let allowed_range_start: PhaseOffset = calculate_phase_offset(
                p.eof_approaching.index(),
            );
            let disallowed_range = Range { start, end: allowed_range_start };
            request = self.make_request(
                phase,
                self.last_retransmit_generation.next(),
                &Some(disallowed_range),
            );
            self.loss = LinkQualitySignal::KeepGoing;
        }
        let phase_done = range_set::is_empty(&self.missing[phase as usize]);
        Reaction { write: Some(order), request, phase_done }
    }

    /// A message has come, while `phase` is being received. Only packets of this session count.
    pub fn on_message(&mut self, phase: u16, message: Message) -> (r: Reaction)
        requires
            old(self).inv(),
            phase < old(self).missing@.len(),
            can_take_message(*old(self), phase, message@),
        ensures
            final(self).inv(),
            reacts(*old(self), phase, message@, *final(self), r),
    {
        if let Some(session_id) = message.session_id() {
            if session_id != self.session_id {
                // wrong session id
                return Reaction { write: None, request: None, phase_done: false };
            }
        }
        match message {
            Message::Payload(p) => self.on_payload(phase, p),
            _ => Reaction { write: None, request: None, phase_done: false },
        }
    }
}

/// The completed range of a write holds the bytes of the write (up to the largest offset), no byte
/// that is missing, and cannot be made any larger.
pub proof fn law_completed_range(left: Seq<(u64, u64)>, start: int, end: int)
    requires
        range_set::apart(left),
        0 <= start < end,
        start <= MAX_OFFSET,
        forall|x: int| start <= x < end ==> !#[trigger] range_set::covered(left, x),
    ensures
        run_start(left, start) <= start,
        run_end(left, end) <= MAX_OFFSET,
        end <= MAX_OFFSET ==> end <= run_end(left, end),
        forall|x: int|
            run_start(left, start) <= x < run_end(left, end) ==> !#[trigger] range_set::covered(
                left,
                x,
            ),
        run_start(left, start) > 0 ==> range_set::covered(left, run_start(left, start) - 1),
        run_end(left, end) < MAX_OFFSET ==> range_set::covered(left, run_end(left, end) as int),
{
    let max = MAX_OFFSET as int;
    assert forall|i: int| 0 <= i < left.len() implies (#[trigger] left[i]).1 <= start || end
        <= left[i].0 by {
        if start < left[i].1 && left[i].0 < end {
            let x = if left[i].0 < start {
                start
            } else {
                left[i].0 as int
            };
            assert(left[i].0 <= x < left[i].1);
            assert(range_set::covered(left, x));
        }
    }
    if range_set::any_hit(left, 0, start) {
        lemma_last_hit_exists(left, 0, start, left.len() as int);
        let at = choose|at: int| range_set::is_last_hit(left, 0, start, at);
        assert(left[at].1 <= start);
        assert(left[at].0 <= left[at].1 - 1 < left[at].1);
        assert(range_set::covered(left, left[at].1 - 1));
    }
    if range_set::any_hit(left, end, max) {
        lemma_first_hit_exists(left, end, max, 0);
        let at = choose|at: int| range_set::is_first_hit(left, end, max, at);
        assert(end <= left[at].0);
        assert(left[at].0 <= left[at].0 < left[at].1);
        assert(range_set::covered(left, left[at].0 as int));
    }
    assert forall|x: int| run_start(left, start) <= x < run_end(left, end) implies !#[trigger] range_set::covered(
        left,
        x,
    ) by {
        if range_set::covered(left, x) {
            let i = choose|i: int| 0 <= i < left.len() && (#[trigger] left[i]).0 <= x < left[i].1;
            if left[i].1 <= start {
                assert(range_set::hits(left[i], 0, start));
                let at = choose|at: int| range_set::is_last_hit(left, 0, start, at);
                assert(i <= at);
                if i < at {
                    assert(left[i].1 < left[at].0);
                }
            } else {
                assert(range_set::hits(left[i], end, max));
                let at = choose|at: int| range_set::is_first_hit(left, end, max, at);
                assert(at <= i);
                if at < i {
                    assert(left[at].1 < left[i].0);
                }
            }
        }
    }
}

proof fn lemma_last_hit_exists(list: Seq<(u64, u64)>, start: int, end: int, upto: int)
    requires
        0 <= upto <= list.len(),
        exists|i: int| 0 <= i < upto && range_set::hits(#[trigger] list[i], start, end),
        forall|i: int|
            upto <= i < list.len() ==> !range_set::hits(#[trigger] list[i], start, end),
    ensures
        exists|at: int| range_set::is_last_hit(list, start, end, at),
    decreases upto,
{
    if range_set::hits(list[upto - 1], start, end) {
        assert(range_set::is_last_hit(list, start, end, upto - 1));
    } else {
        lemma_last_hit_exists(list, start, end, upto - 1);
    }
}

proof fn lemma_first_hit_exists(list: Seq<(u64, u64)>, start: int, end: int, from: int)
    requires
        0 <= from <= list.len(),
        exists|i: int| from <= i < list.len() && range_set::hits(#[trigger] list[i], start, end),
        forall|i: int| 0 <= i < from ==> !range_set::hits(#[trigger] list[i], start, end),
    ensures
        exists|at: int| range_set::is_first_hit(list, start, end, at),
    decreases list.len() - from,
{
    if range_set::hits(list[from], start, end) {
        assert(range_set::is_first_hit(list, start, end, from));
    } else {
        lemma_first_hit_exists(list, start, end, from + 1);
    }
}

/// A phase is done when, and only when, no byte of it is missing.
pub proof fn law_phase_done(left: Seq<(u64, u64)>)
    requires
        range_set::apart(left),
    ensures
        left.len() == 0 <==> forall|x: int| !#[trigger] range_set::covered(left, x),
{
    if left.len() > 0 {
        assert(left[0].0 <= left[0].0 < left[0].1);
        assert(range_set::covered(left, left[0].0 as int));
    }
}

proof fn lemma_none_missing(phases: Seq<(u16, PhaseOffset)>)
    ensures
        forall|j: int|
            phase_slots(phases) <= j ==> #[trigger] all_missing(phases, j) =~= Seq::<
                (u64, u64),
            >::empty(),
    decreases phases.len(),
{
    if phases.len() > 0 {
        let init = phases.drop_last();
        lemma_none_missing(init);
        assert forall|j: int| phase_slots(phases) <= j implies #[trigger] all_missing(phases, j)
            =~= Seq::<(u64, u64)>::empty() by {
            assert(all_missing(init, j) =~= Seq::<(u64, u64)>::empty());
        }
    }
}

proof fn lemma_all_missing_apart(phases: Seq<(u16, PhaseOffset)>, phase: int)
    requires
        forall|i: int| 0 <= i < phases.len() ==> (#[trigger] phases[i]).1.0 > 0,
    ensures
        range_set::apart(all_missing(phases, phase)),
    decreases phases.len(),
{
    if phases.len() > 0 {
        assert(phases.last() == phases[phases.len() - 1]);
        assert forall|i: int| 0 <= i < phases.drop_last().len() implies (
        #[trigger] phases.drop_last()[i]).1.0 > 0 by {
            assert(phases.drop_last()[i] == phases[i]);
        }
        lemma_all_missing_apart(phases.drop_last(), phase);
    }
}

} // verus!
