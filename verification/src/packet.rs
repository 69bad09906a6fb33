//! Packets and where they lie: phases, indices within a phase, and byte offsets.
use std::ops::Range;

use vstd::prelude::*;
use vstd::std_specs::cmp::{PartialOrdIs, PartialOrdSpec};

use crate::{buffers, endian};

verus! {

/// Bytes of the checksum that follows each file.
pub const CHECKSUM_SIZE: usize = 16;

/// [`CHECKSUM_SIZE`] as a `u64`.
pub const CHECKSUM_SIZE_U64: u64 = 16;

/// How many packets prior to end of burst that clients should consider EOF
/// approaching and make new request
pub const PRE_REQUEST_TIME: usize = 14;

/// The smallest burst that a server sends.
pub const MIN_BURST_SIZE: usize = 15;

/// The largest burst that a server sends.
pub const MAX_BURST_SIZE: usize = 10000;

/// The most bytes that one datagram holds.
pub const MTU: u64 = 1400;

/// [`MTU`] as a `usize`.
pub const MTU_USIZE: usize = 1400;

/// Bytes of a payload message that are not payload.
pub const HEADER_SIZE: u64 = 31;

/// The most payload bytes that one packet holds.
pub const PAYLOAD_SIZE: u64 = MTU - HEADER_SIZE;

/// [`PAYLOAD_SIZE`] as a `usize`.
pub const PAYLOAD_SIZE_USIZE: usize = 1369;

/// [`PAYLOAD_SIZE_USIZE`] without room for a checksum.
pub const PAYLOAD_SIZE_USIZE_WITHOUT_HASH: usize = PAYLOAD_SIZE_USIZE - CHECKSUM_SIZE;

/// The last packet index that a phase can have.
pub const MAX_INDEX: u64 = 0xffff_ffff_ffff;

/// Where the last packet that a phase can have begins, in bytes.
pub const MAX_OFFSET: u64 = MAX_INDEX * PAYLOAD_SIZE;

/// A packet index that no packet has: it stands for the absence of one.
pub const INVALID_INDEX: u64 = 0xffff_ffff_ffff_ffff;

/// A byte position: a phase, and an offset within it.
pub struct Position {
    pub phase: u16,
    pub offset: u64,
}

/// `rand::random`: any number at all, so nothing is claimed of it.
#[verifier::external_body]
fn random_u32() -> (r: u32)
{
    rand::random()
}

/// Tells the sessions on one multicast group apart.
#[derive(Clone, Copy, PartialEq, Eq, Debug, Structural)]
pub struct SessionId(pub u32);

impl SessionId {
    /// A session id drawn at random: it may be any.
    pub fn make_random() -> SessionId {
        SessionId(random_u32())
    }
}

/// The bytes end before the value does.
#[derive(Clone, Copy, PartialEq, Eq, Debug, Structural)]
pub struct TooShort;

/// Counts the bursts of a server, and wraps around.
#[derive(Clone, Copy, PartialEq, Eq, Debug, Structural)]
pub struct RetransmitGeneration(pub u16);

impl RetransmitGeneration {
    /// The generation after this one; zero follows the last.
    pub open spec fn successor(self) -> RetransmitGeneration {
        RetransmitGeneration(((self.0 + 1) % 0x1_0000) as u16)
    }

    /// The generation after this one; zero follows the last.
    pub fn next(self) -> (r: RetransmitGeneration)
        ensures
            r == self.successor(),
    {
        RetransmitGeneration(self.0.wrapping_add(1))
    }
}

/// Phases are always split on packet boundaries.
///
/// This means all packets can be identified by a
/// phase + index. The size of the last packet (only) can differ
/// from MTU.
#[derive(Clone, Copy, PartialEq, Eq, Hash, Ord, Debug, Structural)]
pub struct PacketIdx(pub u64);

/// The index of a packet within a specific phase.
#[derive(Clone, Copy, PartialEq, Eq, Hash, Ord, Debug, Structural)]
pub struct IndexInPhase(pub u64);

/// Offset within a phase, in bytes
#[derive(Clone, Copy, PartialEq, Eq, Hash, Ord, Debug, Structural)]
pub struct PhaseOffset(pub u64);

/// How two numbers compare.
pub open spec fn order_of(a: u64, b: u64) -> Option<std::cmp::Ordering> {
    if a < b {
        Some(std::cmp::Ordering::Less)
    } else if a == b {
        Some(std::cmp::Ordering::Equal)
    } else {
        Some(std::cmp::Ordering::Greater)
    }
}

impl PartialOrd for PacketIdx {
    fn partial_cmp(&self, other: &Self) -> (r: Option<std::cmp::Ordering>) {
        self.0.partial_cmp(&other.0)
    }
}

impl vstd::std_specs::cmp::PartialOrdSpecImpl for PacketIdx {
    open spec fn obeys_partial_cmp_spec() -> bool {
        true
    }

    open spec fn partial_cmp_spec(&self, other: &Self) -> Option<std::cmp::Ordering> {
        order_of(self.0, other.0)
    }
}

impl PartialOrd for IndexInPhase {
    fn partial_cmp(&self, other: &Self) -> (r: Option<std::cmp::Ordering>) {
        self.0.partial_cmp(&other.0)
    }
}

impl vstd::std_specs::cmp::PartialOrdSpecImpl for IndexInPhase {
    open spec fn obeys_partial_cmp_spec() -> bool {
        true
    }

    open spec fn partial_cmp_spec(&self, other: &Self) -> Option<std::cmp::Ordering> {
        order_of(self.0, other.0)
    }
}

impl PartialOrd for PhaseOffset {
    fn partial_cmp(&self, other: &Self) -> (r: Option<std::cmp::Ordering>) {
        self.0.partial_cmp(&other.0)
    }
}

impl vstd::std_specs::cmp::PartialOrdSpecImpl for PhaseOffset {
    open spec fn obeys_partial_cmp_spec() -> bool {
        true
    }

    open spec fn partial_cmp_spec(&self, other: &Self) -> Option<std::cmp::Ordering> {
        order_of(self.0, other.0)
    }
}

impl vstd::std_specs::ops::AddSpecImpl<u64> for PhaseOffset {
    open spec fn obeys_add_spec() -> bool {
        true
    }

    open spec fn add_req(self, rhs: u64) -> bool {
        self.0 + rhs <= u64::MAX
    }

    open spec fn add_spec(self, rhs: u64) -> PhaseOffset {
        PhaseOffset((self.0 + rhs) as u64)
    }
}

impl std::ops::Add<u64> for PhaseOffset {
    type Output = PhaseOffset;

    fn add(self, rhs: u64) -> (r: PhaseOffset) {
        PhaseOffset(self.0 + rhs)
    }
}

impl vstd::std_specs::ops::SubSpecImpl<PhaseOffset> for PhaseOffset {
    open spec fn obeys_sub_spec() -> bool {
        true
    }

    open spec fn sub_req(self, rhs: PhaseOffset) -> bool {
        rhs.0 <= self.0
    }

    open spec fn sub_spec(self, rhs: PhaseOffset) -> u64 {
        (self.0 - rhs.0) as u64
    }
}

impl std::ops::Sub<PhaseOffset> for PhaseOffset {
    type Output = u64;

    fn sub(self, rhs: PhaseOffset) -> (r: u64) {
        self.0 - rhs.0
    }
}

impl PhaseOffset {
    /// The packet that holds the byte at this offset.
    pub fn floor_index(&self) -> (r: IndexInPhase)
        ensures
            r.0 == self.0 / PAYLOAD_SIZE,
    {
        IndexInPhase(self.0 / PAYLOAD_SIZE)
    }

    /// The first packet that begins at or after this offset.
    pub fn ceil_index(&self) -> (r: IndexInPhase)
        ensures
            r.0 as int == (self.0 + PAYLOAD_SIZE - 1) / (PAYLOAD_SIZE as int),
    {
        let whole: u64 = self.0 / PAYLOAD_SIZE;
        if self.0 % PAYLOAD_SIZE == 0 {
            IndexInPhase(whole)
        } else {
            IndexInPhase(whole + 1)
        }
    }
}

/// The part that `a` and `b` share, or `None` where one ends before the other begins.
pub fn overlaps<T: Ord>(a: Range<T>, b: Range<T>) -> (r: Option<Range<T>>)
    ensures
        T::obeys_partial_cmp_spec() ==> r == overlap_of(a, b),
{
    if a.end <= b.start || b.end <= a.start {
        return None;
    }
    let start: T = if b.start < a.start { a.start } else { b.start };
    let end: T = if a.end < b.end { a.end } else { b.end };
    Some(Range { start, end })
}

/// What [`overlaps`] returns.
pub open spec fn overlap_of<T: Ord>(a: Range<T>, b: Range<T>) -> Option<Range<T>> {
    if a.end.is_le(&b.start) || b.end.is_le(&a.start) {
        None
    } else {
        Some(
            Range {
                start: if b.start.is_lt(&a.start) {
                    a.start
                } else {
                    b.start
                },
                end: if a.end.is_lt(&b.end) {
                    a.end
                } else {
                    b.end
                },
            },
        )
    }
}

/// The same range.
pub(crate) fn copy_range<T: Copy>(range: &Range<T>) -> (r: Range<T>)
    ensures
        r == *range,
{
    Range { start: range.start, end: range.end }
}

/// Returns true if the range 'a' contains all of range 'b'.
///
/// Returns true if both are empty.
pub fn contains<T: Ord>(a: Range<T>, b: Range<T>) -> (r: bool)
    ensures
        T::obeys_partial_cmp_spec() ==> r == holds_all(a, b),
{
    b.end <= b.start || a.start <= b.start && a.end >= b.end
}

/// What [`contains`] returns.
pub open spec fn holds_all<T: Ord>(a: Range<T>, b: Range<T>) -> bool {
    b.end.is_le(&b.start) || a.start.is_le(&b.start) && a.end.is_ge(&b.end)
}

/// What two ranges of bytes share is what is in both of them.
pub proof fn law_overlap_is_in_both(a: Range<PhaseOffset>, b: Range<PhaseOffset>, x: int)
    ensures
        (overlap_of(a, b) matches Some(r) && r.start.0 <= x < r.end.0) <==> a.start.0 <= x < a.end.0
            && b.start.0 <= x < b.end.0,
        a.start.0 < a.end.0 && b.start.0 < b.end.0 ==> (overlap_of(a, b) matches Some(r)
            ==> r.start.0 < r.end.0),
{
}

/// What two ranges of packets share is what is in both of them.
pub proof fn law_packet_overlap_is_in_both(a: Range<PacketIdx>, b: Range<PacketIdx>, x: int)
    ensures
        (overlap_of(a, b) matches Some(r) && r.start.0 <= x < r.end.0) <==> a.start.0 <= x < a.end.0
            && b.start.0 <= x < b.end.0,
{
}

/// Whether a byte is in a range.
pub open spec fn is_within(x: int, range: Range<PhaseOffset>) -> bool {
    range.start.0 <= x < range.end.0
}

/// A range of bytes contains another if, and only if, every byte of the other is in it.
pub proof fn law_contains_every_byte(a: Range<PhaseOffset>, b: Range<PhaseOffset>)
    ensures
        holds_all(a, b) <==> (forall|x: int| #[trigger] is_within(x, b) ==> is_within(x, a)),
{
    assert(b.end.is_le(&b.start) <==> b.end.0 <= b.start.0);
    assert(a.start.is_le(&b.start) <==> a.start.0 <= b.start.0);
    assert(a.end.is_ge(&b.end) <==> a.end.0 >= b.end.0);
    if b.start.0 < b.end.0 && !holds_all(a, b) {
        let x = if b.start.0 < a.start.0 {
            b.start.0 as int
        } else {
            b.end.0 - 1
        };
        assert(is_within(x, b) && !is_within(x, a));
    }
}

/// The byte at which a packet begins.
pub fn calculate_phase_offset(index_in_phase: IndexInPhase) -> (r: PhaseOffset)
    requires
        index_in_phase.0 * PAYLOAD_SIZE <= u64::MAX,
    ensures
        r.0 == index_in_phase.0 * PAYLOAD_SIZE,
{
    PhaseOffset(index_in_phase.0 * PAYLOAD_SIZE)
}

/// The bytes that a range of packets covers.
pub fn byte_range(index_in_phase: Range<IndexInPhase>) -> (r: Range<PhaseOffset>)
    requires
        index_in_phase.start.0 * PAYLOAD_SIZE <= u64::MAX,
        index_in_phase.end.0 * PAYLOAD_SIZE <= u64::MAX,
    ensures
        are_bytes_of(r, index_in_phase),
        r.start.0 == index_in_phase.start.0 * PAYLOAD_SIZE,
        r.end.0 == index_in_phase.end.0 * PAYLOAD_SIZE,
{
    Range {
        start: PhaseOffset(index_in_phase.start.0 * PAYLOAD_SIZE),
        end: PhaseOffset(index_in_phase.end.0 * PAYLOAD_SIZE),
    }
}

/// Whether a range of bytes is that of a range of packets.
pub open spec fn are_bytes_of(bytes: Range<PhaseOffset>, packets: Range<IndexInPhase>) -> bool {
    &&& bytes.start.0 == packets.start.0 * PAYLOAD_SIZE
    &&& bytes.end.0 == packets.end.0 * PAYLOAD_SIZE
}

/// The bytes of a range of packets are those whose packet is in the range.
pub proof fn law_bytes_of_packets(bytes: Range<PhaseOffset>, packets: Range<IndexInPhase>, x: int)
    requires
        are_bytes_of(bytes, packets),
    ensures
        bytes.start.0 <= x < bytes.end.0 <==> packets.start.0 <= x / 1369 < packets.end.0,
{
    assert(PAYLOAD_SIZE == 1369);
}

/// Knows how many bytes each phase has.
pub trait PhaseSize {
    /// Whether the size of `phase` can be asked for.
    spec fn phase_known(&self, phase: u16) -> bool;

    /// The bytes of `phase`, `None` for an empty phase.
    spec fn phase_size(&self, phase: u16) -> Option<PhaseOffset>;

    /// Returns None if phase is empty
    fn max_offset_exclusive(&self, phase: u16) -> (r: Option<PhaseOffset>)
        requires
            self.phase_known(phase),
        ensures
            r == self.phase_size(phase),
    ;
}

/// The bytes of `phase` that the packets of `packets` cover, if there are any.
pub open spec fn bytes_in_phase<P: PhaseSize>(
    packets: Range<PacketIdx>,
    phase_size: &P,
    phase: u16,
) -> Option<Range<PhaseOffset>> {
    let start = if packets.start.phase_of() == phase {
        PhaseOffset((packets.start.index_of() * PAYLOAD_SIZE) as u64)
    } else {
        PhaseOffset(0)
    };
    let end = if packets.end.phase_of() == phase {
        Some(PhaseOffset((packets.end.index_of() * PAYLOAD_SIZE) as u64))
    } else {
        phase_size.phase_size(phase)
    };
    match end {
        Some(end) if start != end => Some(Range { start, end }),
        _ => None,
    }
}

/// The phases from `phase` to the last of `packets`, each with the bytes that `packets` covers,
/// without the phases of which it covers none.
pub open spec fn phases_from<P: PhaseSize>(
    packets: Range<PacketIdx>,
    phase_size: &P,
    phase: int,
) -> Seq<(u16, Range<PhaseOffset>)>
    decreases packets.end.phase_of() + 1 - phase,
{
    if phase > packets.end.phase_of() {
        Seq::empty()
    } else {
        let rest = phases_from(packets, phase_size, phase + 1);
        match bytes_in_phase(packets, phase_size, phase as u16) {
            Some(range) => seq![(phase as u16, range)] + rest,
            None => rest,
        }
    }
}

impl PacketIdx {
    /// The phase of this packet.
    pub open spec fn phase_of(self) -> u16 {
        (self.0 / 0x1_0000_0000_0000) as u16
    }

    /// The index of this packet within its phase.
    pub open spec fn index_of(self) -> u64 {
        self.0 % 0x1_0000_0000_0000
    }

    /// The index that stands for no packet.
    pub fn invalid() -> (r: PacketIdx)
        ensures
            r.0 == INVALID_INDEX,
    {
        PacketIdx(INVALID_INDEX)
    }

    /// Takes a packet index off the front of `data`, in big-endian order; fails where `data` is
    /// too short, and leaves it as it was.
    pub fn deserialize(data: &mut bytes::Bytes) -> (r: Result<PacketIdx, TooShort>)
        ensures
            r is Ok <==> buffers::bytes_of(*old(data)).len() >= 8,
            r matches Ok(idx) ==> idx.0 as nat == endian::be_value(
                buffers::bytes_of(*old(data)).take(8),
            ) && buffers::bytes_of(*final(data)) == buffers::bytes_of(*old(data)).skip(8),
            r is Err ==> buffers::bytes_of(*final(data)) == buffers::bytes_of(*old(data)),
    {
        match buffers::try_get_u64(data) {
            Ok(n) => Ok(PacketIdx(n)),
            Err(_) => Err(TooShort),
        }
    }

    /// Appends this packet index to `data`, in big-endian order.
    pub fn serialize(&self, data: &mut bytes::BytesMut)
        ensures
            buffers::buf_of(*final(data)) == buffers::buf_of(*old(data)) + endian::be_bytes(
                self.0 as nat,
                8,
            ),
    {
        buffers::put_u64(data, self.0);
    }

    /// The packet at `index` of `phase`.
    pub fn new(phase: u16, index: IndexInPhase) -> (r: Self)
        requires
            index.0 <= MAX_INDEX,
        ensures
            r.0 == phase * 0x1_0000_0000_0000 + index.0,
            r.phase_of() == phase,
            r.index_of() == index.0,
    {
        let wide: u64 = phase as u64;
        let low: u64 = index.0;
        assert(wide << 48 | low == wide * 0x1_0000_0000_0000 + low) by (bit_vector)
            requires
                wide <= 0xffff,
                low <= 0xffff_ffff_ffff,
        ;
        PacketIdx(wide << 48 | low)
    }

    /// The phase of this packet.
    pub fn phase(self) -> (r: u16)
        ensures
            r == self.phase_of(),
    {
        let n: u64 = self.0;
        assert(n >> 48 == n / 0x1_0000_0000_0000) by (bit_vector);
        (n >> 48) as u16
    }

    /// The index of this packet within its phase.
    pub fn index(self) -> (r: IndexInPhase)
        ensures
            r.0 == self.index_of(),
            r.0 <= MAX_INDEX,
    {
        let n: u64 = self.0;
        assert(n & 0xffff_ffff_ffff == n % 0x1_0000_0000_0000) by (bit_vector);
        IndexInPhase(n & 0xffff_ffff_ffff)
    }

    /// The packet `index` places earlier in the same phase, or the first of the phase.
    pub fn saturating_sub(&self, index: IndexInPhase) -> (r: PacketIdx)
        ensures
            r.phase_of() == self.phase_of(),
            r.index_of() == if self.index_of() < index.0 {
                0
            } else {
                self.index_of() - index.0
            },
    {
        let new_index: u64 = self.index().0.saturating_sub(index.0);
        PacketIdx::new(self.phase(), IndexInPhase(new_index))
    }

    /// Splits a range of packets by phase: each phase it touches, in order, with the bytes of that
    /// phase it covers.
    pub fn phases<P: PhaseSize>(packets: Range<PacketIdx>, phase_size: &P) -> (r: Vec<
        (u16, Range<PhaseOffset>),
    >)
        requires
            forall|phase: u16|
                packets.start.phase_of() <= phase < packets.end.phase_of()
                    ==> #[trigger] phase_size.phase_known(phase),
        ensures
            r@ == phases_from(packets, phase_size, packets.start.phase_of() as int),
    {
        let first: u16 = packets.start.phase();
        let last: u16 = packets.end.phase();
        let mut out: Vec<(u16, Range<PhaseOffset>)> = Vec::new();
        let mut next: u32 = first as u32;
        while next <= last as u32
            invariant
                first == packets.start.phase_of(),
                last == packets.end.phase_of(),
                first <= next,
                next <= last + 1 || first > last,
                forall|phase: u16|
                    packets.start.phase_of() <= phase < packets.end.phase_of()
                        ==> #[trigger] phase_size.phase_known(phase),
                phases_from(packets, phase_size, first as int) =~= out@ + phases_from(
                    packets,
                    phase_size,
                    next as int,
                ),
            decreases last + 1 - next,
        {
            let phase: u16 = next as u16;
            let start: PhaseOffset = if first == phase {
                calculate_phase_offset(packets.start.index())
            } else {
                PhaseOffset(0)
            };
            let end: Option<PhaseOffset> = if last == phase {
                Some(calculate_phase_offset(packets.end.index()))
            } else {
                phase_size.max_offset_exclusive(phase)
            };
            if let Some(end) = end {
                if start != end {
                    out.push((phase, Range { start, end }));
                }
            }
            next = next + 1;
        }
        out
    }
}

/// A number in decimal digits.
pub open spec fn decimal(n: nat) -> Seq<char>
    decreases n,
{
    if n < 10 {
        seq![(n + 48) as char]
    } else {
        decimal(n / 10).push((n % 10 + 48) as char)
    }
}

/// One decimal digit.
fn digit(n: u64) -> (r: &'static str)
    requires
        n < 10,
    ensures
        r@ == seq![(n + 48) as char],
{
    proof {
        reveal_strlit("0");
        reveal_strlit("1");
        reveal_strlit("2");
        reveal_strlit("3");
        reveal_strlit("4");
        reveal_strlit("5");
        reveal_strlit("6");
        reveal_strlit("7");
        reveal_strlit("8");
        reveal_strlit("9");
    }
    match n {
        0 => "0",
        1 => "1",
        2 => "2",
        3 => "3",
        4 => "4",
        5 => "5",
        6 => "6",
        7 => "7",
        8 => "8",
        _ => "9",
    }
}

/// Appends a number in decimal digits.
fn append_decimal(text: &mut String, n: u64)
    ensures
        final(text)@ == old(text)@ + decimal(n as nat),
    decreases n,
{
    if n >= 10 {
        append_decimal(text, n / 10);
    }
    text.append(digit(n % 10));
}

impl PacketIdx {
    /// This packet index for people: the phase and the index.
    pub fn label(self) -> (r: String)
        ensures
            r@ == seq!['#'] + decimal(self.phase_of() as nat) + seq!['.'] + decimal(
                self.index_of() as nat,
            ),
    {
        proof {
            reveal_strlit("#");
            reveal_strlit(".");
        }
        let mut text: String = String::new();
        text.append("#");
        append_decimal(&mut text, self.phase() as u64);
        text.append(".");
        append_decimal(&mut text, self.index().0);
        text
    }
}

/// Whether one of the parts of a range of packets holds the byte `x` of `phase`.
pub open spec fn in_parts(parts: Seq<(u16, Range<PhaseOffset>)>, phase: u16, x: int) -> bool {
    exists|k: int|
        0 <= k < parts.len() && (#[trigger] parts[k]).0 == phase && parts[k].1.start.0 <= x
            < parts[k].1.end.0
}

/// Splitting a range of packets by phase leaves no byte out and adds none: the parts hold a byte if,
/// and only if, its phase is not before the first packet nor behind the last, it does not come
/// before the first packet, and it comes before the packet behind the last, or, in a phase before
/// that one, is a byte of its phase. No phase has two parts, and they come in order.
pub proof fn law_parts_hold_all_bytes<P: PhaseSize>(
    packets: Range<PacketIdx>,
    phase_size: &P,
    phase: u16,
    x: int,
)
    ensures
        ({
            let parts = phases_from(packets, phase_size, packets.start.phase_of() as int);
            let first = packets.start.phase_of();
            let last = packets.end.phase_of();
            &&& in_parts(parts, phase, x) <==> {
                &&& first <= phase <= last
                &&& x >= 0
                &&& phase == first ==> x >= packets.start.index_of() * PAYLOAD_SIZE
                &&& phase == last ==> x < packets.end.index_of() * PAYLOAD_SIZE
                &&& phase != last ==> (phase_size.phase_size(phase) matches Some(size) && x
                    < size.0)
            }
            &&& forall|i: int, j: int|
                0 <= i < j < parts.len() ==> (#[trigger] parts[i]).0 < (#[trigger] parts[j]).0
        }),
{
    lemma_parts_from(packets, phase_size, packets.start.phase_of() as int, phase, x);
}

proof fn lemma_parts_from<P: PhaseSize>(
    packets: Range<PacketIdx>,
    phase_size: &P,
    from: int,
    phase: u16,
    x: int,
)
    requires
        packets.start.phase_of() <= from,
    ensures
        ({
            let parts = phases_from(packets, phase_size, from);
            let first = packets.start.phase_of();
            let last = packets.end.phase_of();
            &&& in_parts(parts, phase, x) <==> {
                &&& from <= phase <= last
                &&& x >= 0
                &&& phase == first ==> x >= packets.start.index_of() * PAYLOAD_SIZE
                &&& phase == last ==> x < packets.end.index_of() * PAYLOAD_SIZE
                &&& phase != last ==> (phase_size.phase_size(phase) matches Some(size) && x
                    < size.0)
            }
            &&& forall|i: int| 0 <= i < parts.len() ==> from <= (#[trigger] parts[i]).0
            &&& forall|i: int, j: int|
                0 <= i < j < parts.len() ==> (#[trigger] parts[i]).0 < (#[trigger] parts[j]).0
        }),
    decreases packets.end.phase_of() + 1 - from,
{
    if from <= packets.end.phase_of() {
        lemma_parts_from(packets, phase_size, from + 1, phase, x);
        let parts = phases_from(packets, phase_size, from);
        let rest = phases_from(packets, phase_size, from + 1);
        assert(PAYLOAD_SIZE == 1369);
        assert(packets.start.index_of() < 0x1_0000_0000_0000);
        assert(packets.end.index_of() < 0x1_0000_0000_0000);
        if let Some(range) = bytes_in_phase(packets, phase_size, from as u16) {
            assert(parts == seq![(from as u16, range)] + rest);
            assert forall|i: int| 0 < i < parts.len() implies #[trigger] parts[i] == rest[i - 1] by {}
            if in_parts(rest, phase, x) {
                let k = choose|k: int|
                    0 <= k < rest.len() && (#[trigger] rest[k]).0 == phase && rest[k].1.start.0 <= x
                        < rest[k].1.end.0;
                assert(parts[k + 1] == rest[k]);
                assert(in_parts(parts, phase, x));
            }
            if phase == from && range.start.0 <= x < range.end.0 {
                assert(parts[0] == (from as u16, range));
                assert(in_parts(parts, phase, x));
            }
            if in_parts(parts, phase, x) {
                let k = choose|k: int|
                    0 <= k < parts.len() && (#[trigger] parts[k]).0 == phase && parts[k].1.start.0
                        <= x < parts[k].1.end.0;
                if k > 0 {
                    assert(rest[k - 1] == parts[k]);
                    assert(in_parts(rest, phase, x));
                }
            }
        } else {
            assert(parts == rest);
        }
    }
}

/// The number that decimal digits spell.
pub open spec fn decimal_value(digits: Seq<char>) -> int
    decreases digits.len(),
{
    if digits.len() == 0 {
        0
    } else {
        10 * decimal_value(digits.drop_last()) + (digits.last() as int - 48)
    }
}

/// The digits of a number spell that number, and do not begin with a zero, unless it is zero.
pub proof fn law_digits_spell_the_number(n: nat)
    ensures
        decimal_value(decimal(n)) == n,
        decimal(n).len() > 0,
        n > 0 ==> decimal(n)[0] != '0',
        forall|i: int| 0 <= i < decimal(n).len() ==> '0' <= #[trigger] decimal(n)[i] <= '9',
    decreases n,
{
    if n >= 10 {
        law_digits_spell_the_number(n / 10);
        assert(decimal(n).drop_last() =~= decimal(n / 10));
    } else {
        reveal_with_fuel(decimal_value, 2);
        assert(decimal(n).drop_last() =~= Seq::empty());
    }
}

/// Taking a packet index apart and putting it together again gives the same packet index.
pub proof fn law_packet_idx_parts(idx: PacketIdx)
    ensures
        idx.index_of() <= MAX_INDEX,
        idx.0 == idx.phase_of() * 0x1_0000_0000_0000 + idx.index_of(),
{
}

/// Packet indices are ordered by phase first, and by index within a phase.
pub proof fn law_packet_idx_order(a: PacketIdx, b: PacketIdx)
    ensures
        a.0 < b.0 <==> a.phase_of() < b.phase_of() || (a.phase_of() == b.phase_of()
            && a.index_of() < b.index_of()),
{
}

/// A packet index read back from the bytes that were written for it is the same packet index.
pub proof fn law_packet_idx_roundtrip(idx: PacketIdx)
    ensures
        endian::be_bytes(idx.0 as nat, 8).len() == 8,
        endian::be_value(endian::be_bytes(idx.0 as nat, 8)) == idx.0,
{
    endian::lemma_pow256_widths();
    endian::lemma_be_bytes_value(idx.0 as nat, 8);
}

/// The byte ranges of two successive packet ranges meet without a gap and without an overlap.
pub proof fn law_byte_ranges_meet(a: IndexInPhase, b: IndexInPhase, offset: int)
    requires
        a.0 <= b.0,
    ensures
        a.0 * PAYLOAD_SIZE <= offset < b.0 * PAYLOAD_SIZE <==> a.0 <= offset / (PAYLOAD_SIZE as int)
            < b.0,
{
}

} // verus!
