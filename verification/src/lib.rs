//! Multicast file distribution: the packet arithmetic, wire formats and state machines.
pub mod packet;
pub mod buffers;
pub mod checksum;
pub mod client;
pub mod client_state;
pub mod cursor;
pub mod delivery;
pub mod disk_read_engine;
pub mod disk_writer;
pub mod endian;
pub mod file_set;
pub mod file_set_wire;
pub mod messages;
pub mod meta;
pub mod peer;
pub mod range_set;
pub mod read_check;
pub mod sections;
pub mod send_queue;
pub mod server;
pub mod stream;
pub mod sync;
pub mod tree;
pub mod util;
pub mod wire;

pub use crate::packet::{
    byte_range, calculate_phase_offset, contains, overlaps, IndexInPhase, PacketIdx, PhaseOffset,
    PhaseSize, Position, RetransmitGeneration, SessionId, CHECKSUM_SIZE, CHECKSUM_SIZE_U64,
    HEADER_SIZE, MAX_BURST_SIZE, MIN_BURST_SIZE, MTU, MTU_USIZE, PAYLOAD_SIZE, PAYLOAD_SIZE_USIZE,
    PAYLOAD_SIZE_USIZE_WITHOUT_HASH, PRE_REQUEST_TIME,
};
