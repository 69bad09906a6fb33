//! The bytes that the files of a phase make, checksums included, and how packets cut them.
use vstd::prelude::*;

use crate::messages::PayloadModel;
use crate::packet::{
    PacketIdx, RetransmitGeneration, SessionId, CHECKSUM_SIZE, INVALID_INDEX, PAYLOAD_SIZE,
    PRE_REQUEST_TIME,
};
use crate::packet;
use crate::tree::{Kind, SourceModel, TaskModel};

verus! {

/// The size of the source without the checksum.
pub open spec fn real_size(t: TaskModel) -> int {
    t.file_size - CHECKSUM_SIZE
}

/// How many bytes of the phase a task covers.
pub open spec fn full_size(t: TaskModel) -> int {
    t.end - t.start
}

/// How many of the bytes of a task come from the source itself.
pub open spec fn chunk_size(t: TaskModel) -> int {
    if t.offset >= real_size(t) {
        0
    } else if full_size(t) <= real_size(t) - t.offset {
        full_size(t)
    } else {
        real_size(t) - t.offset
    }
}

/// Whether a task reaches into the checksum.
pub open spec fn reaches_sum(t: TaskModel) -> bool {
    t.offset + full_size(t) > real_size(t)
}

/// Where the part of the checksum begins that a task covers.
pub open spec fn sum_start(t: TaskModel) -> int {
    if t.offset > real_size(t) {
        t.offset - real_size(t)
    } else {
        0
    }
}

/// Where the part of the checksum ends that a task covers.
pub open spec fn sum_end(t: TaskModel) -> int {
    t.offset + full_size(t) - real_size(t)
}

/// The bytes of a task: what was read of the source, then the part of the checksum.
pub open spec fn task_bytes(t: TaskModel, chunk: Seq<u8>, sum: Seq<u8>) -> Seq<u8> {
    if reaches_sum(t) {
        chunk + sum.subrange(sum_start(t), sum_end(t))
    } else {
        chunk
    }
}

/// The task covers bytes of its source, and says rightly what its source is. Only of a normal file
/// can a task begin within the checksum.
pub open spec fn task_ok(t: TaskModel) -> bool {
    &&& CHECKSUM_SIZE <= t.file_size <= u64::MAX
    &&& 0 <= t.offset
    &&& 0 <= t.start < t.end <= u64::MAX
    &&& t.offset + full_size(t) <= t.file_size
    &&& t.kind != Kind::Normal ==> t.offset <= real_size(t)
    &&& match t.source {
        SourceModel::Path(_) => t.kind != Kind::FileSet,
        SourceModel::FileSet(description) => t.kind == Kind::FileSet && description.len()
            + CHECKSUM_SIZE == t.file_size,
    }
}

/// How many packets `len` bytes fill. The rest of the bytes makes one more packet if these are the
/// `last` bytes.
pub open spec fn packet_count(len: int, last: bool) -> int {
    if last {
        (len + PAYLOAD_SIZE - 1) / (PAYLOAD_SIZE as int)
    } else {
        len / (PAYLOAD_SIZE as int)
    }
}

/// The bytes that stay behind when packets have been cut off.
pub open spec fn left_over(bytes: Seq<u8>) -> Seq<u8> {
    bytes.skip(packet_count(bytes.len() as int, false) * PAYLOAD_SIZE)
}

/// The packet at which clients are told that the burst up to `end` is coming to its end.
pub open spec fn near_end(end: PacketIdx) -> int {
    let index = if end.index_of() < PRE_REQUEST_TIME {
        0
    } else {
        end.index_of() - PRE_REQUEST_TIME
    };
    end.phase_of() * 0x1_0000_0000_0000 + index
}

/// What the packets of a burst have in common.
pub struct BurstModel {
    pub session_id: SessionId,
    pub retransmit_generation: RetransmitGeneration,
    /// The packet behind the burst.
    pub end: PacketIdx,
}

/// The packet at `index`, which holds `data`.
pub open spec fn packet_of(burst: BurstModel, index: int, data: Seq<u8>) -> PayloadModel {
    PayloadModel {
        session_id: burst.session_id,
        retransmit_generation: burst.retransmit_generation,
        index: PacketIdx(index as u64),
        eof_approaching: if index == near_end(burst.end) {
            burst.end
        } else {
            PacketIdx(INVALID_INDEX)
        },
        data,
    }
}

/// The bytes of the packet that comes `k` packets behind the first.
pub open spec fn packet_data(bytes: Seq<u8>, k: int) -> Seq<u8> {
    bytes.subrange(
        k * PAYLOAD_SIZE,
        if (k + 1) * PAYLOAD_SIZE <= bytes.len() {
            (k + 1) * PAYLOAD_SIZE
        } else {
            bytes.len() as int
        },
    )
}

/// The packets that `bytes` fill, from the packet `first` on.
pub open spec fn packets(burst: BurstModel, first: int, bytes: Seq<u8>, last: bool) -> Seq<
    PayloadModel,
> {
    Seq::new(
        packet_count(bytes.len() as int, last) as nat,
        |k: int| packet_of(burst, first + k, packet_data(bytes, k)),
    )
}

/// Cutting packets off as the bytes come gives the same packets as cutting them in one go.
pub proof fn lemma_packets_append(
    burst: BurstModel,
    first: int,
    a: Seq<u8>,
    b: Seq<u8>,
    last: bool,
)
    ensures
        packets(burst, first, a + b, last) == packets(burst, first, a, false) + packets(
            burst,
            first + packet_count(a.len() as int, false),
            left_over(a) + b,
            last,
        ),
        packet_count((a + b).len() as int, last) == packet_count(a.len() as int, false)
            + packet_count((left_over(a) + b).len() as int, last),
        left_over(a + b) == left_over(left_over(a) + b),
{
    let n = packet_count(a.len() as int, false);
    let rest = left_over(a) + b;
    let all = a + b;
    let taken = n * PAYLOAD_SIZE;
    assert(PAYLOAD_SIZE == 1369);
    assert(n == a.len() as int / 1369);
    assert(taken == n * 1369);
    assert(taken <= a.len());
    assert(rest =~= all.skip(taken));
    let m = packet_count(rest.len() as int, false);
    assert(packet_count(all.len() as int, false) == n + m);
    assert(rest.skip(m * 1369) =~= all.skip((n + m) * 1369));
    assert(left_over(all) =~= left_over(rest));
    let lhs = packets(burst, first, all, last);
    let rhs = packets(burst, first, a, false) + packets(burst, first + n, rest, last);
    assert(lhs.len() == rhs.len());
    assert forall|k: int| 0 <= k < lhs.len() implies lhs[k] == rhs[k] by {
        if k < n {
            assert(packet_data(all, k) =~= packet_data(a, k));
        } else {
            assert(packet_data(all, k) =~= packet_data(rest, k - n));
        }
    }
    assert(lhs =~= rhs);
}

/// The size of the last packet (only) can differ from the payload size, and is not larger.
pub proof fn law_only_last_packet_short(bytes: Seq<u8>, k: int)
    requires
        0 <= k < packet_count(bytes.len() as int, true),
    ensures
        packet_data(bytes, k).len() == PAYLOAD_SIZE || k == packet_count(bytes.len() as int, true)
            - 1,
        0 < packet_data(bytes, k).len() <= PAYLOAD_SIZE,
{
    let len = bytes.len() as int;
    assert(PAYLOAD_SIZE == 1369);
    assert(packet_count(len, true) == (len + 1368) / 1369);
    assert(k * PAYLOAD_SIZE == k * 1369);
    assert((k + 1) * PAYLOAD_SIZE == k * 1369 + 1369);
    assert(k * 1369 < len);
    if k < packet_count(len, true) - 1 {
        assert((k + 1) * 1369 < len);
    }
}

/// Every byte is in one packet, in its place.
pub proof fn law_every_byte_in_a_packet(bytes: Seq<u8>, x: int)
    requires
        0 <= x < bytes.len(),
    ensures
        0 <= x / (PAYLOAD_SIZE as int) < packet_count(bytes.len() as int, true),
        packet_data(bytes, x / (PAYLOAD_SIZE as int))[x % (PAYLOAD_SIZE as int)] == bytes[x],
{
    assert(PAYLOAD_SIZE == 1369);
    assert(packet_count(bytes.len() as int, true) == (bytes.len() + 1368) / 1369);
    let k = x / 1369;
    assert(k * PAYLOAD_SIZE == k * 1369);
    assert((k + 1) * PAYLOAD_SIZE == k * 1369 + 1369);
    assert(x == k * 1369 + x % 1369);
}

/// A burst of enough packets tells its end to the clients, once: with the packet that comes as
/// many packets before the end as clients need to ask again.
pub proof fn law_end_is_told_once(
    burst: BurstModel,
    first: PacketIdx,
    bytes: Seq<u8>,
    k: int,
)
    requires
        first.phase_of() == burst.end.phase_of(),
        first.index_of() + PRE_REQUEST_TIME <= burst.end.index_of(),
        first.index_of() + packet_count(bytes.len() as int, true) == burst.end.index_of(),
        0 <= k < packet_count(bytes.len() as int, true),
    ensures
        ({
            let p = packets(burst, first.0 as int, bytes, true)[k];
            &&& p.index.phase_of() == burst.end.phase_of()
            &&& p.index.index_of() == first.index_of() + k
            &&& p.eof_approaching == if p.index.index_of() + PRE_REQUEST_TIME
                == burst.end.index_of() {
                burst.end
            } else {
                PacketIdx(INVALID_INDEX)
            }
        }),
{
    packet::law_packet_idx_parts(first);
    packet::law_packet_idx_parts(burst.end);
}

/// A packet says which session and which burst it is of, where it belongs, and what it holds.
/// Clients are told of the end of the burst by the packet that comes fourteen packets before it in
/// its phase, or by the first packet of that phase where there are fewer, and by no other.
pub proof fn law_what_a_packet_says(burst: BurstModel, index: u64, data: Seq<u8>)
    requires
        burst.end.0 != INVALID_INDEX,
    ensures
        ({
            let p = packet_of(burst, index as int, data);
            &&& p.session_id == burst.session_id
            &&& p.retransmit_generation == burst.retransmit_generation
            &&& p.index.0 == index
            &&& p.data == data
            &&& p.eof_approaching == burst.end || p.eof_approaching.0 == INVALID_INDEX
            &&& p.eof_approaching == burst.end <==> p.index.phase_of() == burst.end.phase_of() && (
            p.index.index_of() + 14 == burst.end.index_of() || p.index.index_of() == 0
                && burst.end.index_of() < 14)
        }),
{
    packet::law_packet_idx_parts(PacketIdx(index));
    packet::law_packet_idx_parts(burst.end);
}

/// Bytes fill as many packets as it takes, and not one more. The rest of the bytes waits for others,
/// unless there are none to come.
pub proof fn law_packets_for_bytes(len: int)
    requires
        len >= 0,
    ensures
        packet_count(len, false) * 1369 <= len < packet_count(len, false) * 1369 + 1369,
        packet_count(len, true) * 1369 - 1369 < len <= packet_count(len, true) * 1369,
{
}

} // verus!
