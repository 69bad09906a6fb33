//! The states of a client: from looking for a server, over the file set, to the files.
use vstd::array::array_as_slice;
use vstd::prelude::*;
use vstd::slice::slice_subrange;

use crate::checksum::calculate_checksum;
use crate::file_set::{same_bytes, FileSet};
use crate::file_set_wire::DescriptionError;
use crate::messages::{Announce, Message};
use crate::packet::{
    calculate_phase_offset, PacketIdx, PhaseOffset, SessionId, CHECKSUM_SIZE, PAYLOAD_SIZE,
};
use crate::peer::PeerAddrV4;
use crate::{checksum, file_set, file_set_wire, tree};

verus! {

/// How far a client has come.
#[allow(inconsistent_fields)]
pub enum ClientStateEnum {
    /// No server has been found yet.
    Initializing,
    /// The description of the file set is being received.
    AwaitingFileSet { session_id: SessionId, phases: u16, server: PeerAddrV4, buf: Vec<u8> },
    /// The files are being received.
    Receiving {
        /// The phases, each with its size.
        phases: Vec<(u16, PhaseOffset)>,
        fileset: FileSet,
        session_id: SessionId,
        server: PeerAddrV4,
    },
    Invalid,
}

/// Why a client gives up.
#[derive(Debug)]
pub enum ClientError {
    /// There is not one path for each phase that has files.
    WrongNumberOfPaths { phases: u16, paths: usize },
    /// The description of the file set is damaged.
    ChecksumMismatch { calculated: [u8; CHECKSUM_SIZE], received: [u8; CHECKSUM_SIZE] },
    /// The description of the file set makes no sense.
    Description(DescriptionError),
    /// The file set has another number of phases than there are paths for.
    PhasesWithoutPaths,
    /// Only the first phase can be received without a file set.
    WrongPhase,
}

/// The announcement in a message, if it is one.
pub fn announcement(message: Message) -> (r: Option<Announce>)
    ensures
        r == match message {
            Message::Announce(a) => Some(a),
            _ => None,
        },
{
    match message {
        Message::Announce(a) => Some(a),
        _ => None,
    }
}

/// What becomes of an announcement: there has to be a path for each phase but the first. Then the
/// description of the file set is awaited, and its checksum behind it.
pub open spec fn answers_announcement(
    paths: usize,
    announce: Announce,
    server: PeerAddrV4,
    r: Result<ClientStateEnum, ClientError>,
) -> bool {
    if announce.phases != paths + 1 {
        r == Err::<ClientStateEnum, ClientError>(
            ClientError::WrongNumberOfPaths { phases: announce.phases, paths },
        )
    } else {
        r matches Ok(ClientStateEnum::AwaitingFileSet { session_id, phases, server: s, buf })
            && session_id == announce.session_id && phases == announce.phases && s == server
            && buf@ == Seq::new((announce.fileset_size + CHECKSUM_SIZE) as nat, |i: int| 0u8)
    }
}

impl ClientStateEnum {
    /// A server has announced its file set. There has to be a path for each phase but the first.
    pub fn on_announce(paths: usize, announce: Announce, server: PeerAddrV4) -> (r: Result<
        ClientStateEnum,
        ClientError,
    >)
        requires
            paths < usize::MAX,
            announce.phases == paths + 1 ==> announce.fileset_size + CHECKSUM_SIZE <= isize::MAX,
        ensures
            answers_announcement(paths, announce, server, r),
    {
        if announce.phases as usize != paths + 1 {
            return Err(ClientError::WrongNumberOfPaths { phases: announce.phases, paths });
        }
        let size: usize = announce.fileset_size as usize + CHECKSUM_SIZE;
        let buf: Vec<u8> = vec![0u8; size];
        assert(buf@ =~= Seq::new((announce.fileset_size + CHECKSUM_SIZE) as nat, |i: int| 0u8));
        Ok(
            ClientStateEnum::AwaitingFileSet {
                session_id: announce.session_id,
                phases: announce.phases,
                server,
                buf,
            },
        )
    }
}

/// The file set with the given paths for all phases but the first.
pub open spec fn with_paths(set: Seq<file_set::PhaseModel>, paths: Seq<Seq<u8>>) -> Seq<
    file_set::PhaseModel,
> {
    set.map(
        |i: int, phase: file_set::PhaseModel|
            file_set::PhaseModel {
                path: if i == 0 {
                    phase.path
                } else {
                    paths[i - 1]
                },
                tree: phase.tree,
            },
    )
}

/// Giving a file set its paths changes nothing else: each phase but the first gets the path in its
/// place, and keeps its files.
pub proof fn law_paths_are_set(set: Seq<file_set::PhaseModel>, paths: Seq<Seq<u8>>, i: int)
    requires
        0 <= i < set.len(),
    ensures
        with_paths(set, paths).len() == set.len(),
        with_paths(set, paths)[i].tree == set[i].tree,
        i > 0 ==> with_paths(set, paths)[i].path == paths[i - 1],
        i == 0 ==> with_paths(set, paths)[i].path == set[i].path,
{
}

fn last_sum(buf: &Vec<u8>) -> (r: [u8; CHECKSUM_SIZE])
    requires
        buf@.len() >= CHECKSUM_SIZE,
    ensures
        r@ == buf@.skip(buf@.len() - CHECKSUM_SIZE),
{
    let mut r: [u8; CHECKSUM_SIZE] = [0; CHECKSUM_SIZE];
    let len: usize = buf.len();
    let start: usize = len - CHECKSUM_SIZE;
    let mut i: usize = 0;
    while i < CHECKSUM_SIZE
        invariant
            i <= CHECKSUM_SIZE,
            buf@.len() == len,
            start + CHECKSUM_SIZE == len,
            forall|j: int| 0 <= j < i ==> r@[j] == buf@[start + j],
        decreases CHECKSUM_SIZE - i,
    {
        r[i] = buf[start + i];
        i = i + 1;
    }
    assert(r@ =~= buf@.skip(start as int));
    r
}

/// What the bytes of the first phase give: the file set with the given paths, if their checksum is
/// right, they describe a file set, and there is a path for each phase but the first.
pub open spec fn gives_file_set(
    buf: Seq<u8>,
    paths: Seq<Seq<u8>>,
    r: Result<FileSet, ClientError>,
) -> bool {
    let content = buf.take(buf.len() - CHECKSUM_SIZE);
    let received = buf.skip(buf.len() - CHECKSUM_SIZE);
    if checksum::checksum_of(content) != received {
        r matches Err(ClientError::ChecksumMismatch { calculated, received: got }) && calculated@
            == checksum::checksum_of(content) && got@ == received
    } else {
        match file_set_wire::decode_file_set(buf) {
            Err(e) => r == Err::<FileSet, ClientError>(ClientError::Description(e)),
            Ok(set) => if set.len() != paths.len() + 1 {
                r == Err::<FileSet, ClientError>(ClientError::PhasesWithoutPaths)
            } else {
                r is Ok && r->Ok_0@ == with_paths(set, paths)
            },
        }
    }
}

/// Bytes whose checksum is wrong give no file set.
pub proof fn law_damaged_description_is_refused(
    content: Seq<u8>,
    sum: Seq<u8>,
    paths: Seq<Seq<u8>>,
    r: Result<FileSet, ClientError>,
)
    requires
        sum.len() == CHECKSUM_SIZE,
        sum != checksum::checksum_of(content),
        gives_file_set(content + sum, paths, r),
    ensures
        r is Err,
        r->Err_0 is ChecksumMismatch,
{
    assert((content + sum).take(content.len() as int) =~= content);
    assert((content + sum).skip(content.len() as int) =~= sum);
}

/// Reads the file set out of the bytes of the first phase, which end with a checksum, and sets
/// where the files go.
pub fn load_file_set(buf: &Vec<u8>, paths: &Vec<Vec<u8>>) -> (r: Result<FileSet, ClientError>)
    requires
        buf@.len() >= CHECKSUM_SIZE,
        paths@.len() < usize::MAX,
    ensures
        gives_file_set(buf@, file_set::names_of(paths@), r),
{
    let content: &[u8] = slice_subrange(buf.as_slice(), 0, buf.len() - CHECKSUM_SIZE);
    assert(content@ =~= buf@.take(buf@.len() - CHECKSUM_SIZE));
    let calculated = calculate_checksum(content);
    let received = last_sum(buf);
    if !same_bytes(array_as_slice(&calculated), array_as_slice(&received)) {
        return Err(ClientError::ChecksumMismatch { calculated, received });
    }
    let mut fileset: FileSet = match file_set_wire::parse(buf.as_slice()) {
        Ok(fileset) => fileset,
        Err(e) => return Err(ClientError::Description(e)),
    };
    let ghost set = fileset@;
    match fileset.replace_phase_paths(paths) {
        Ok(()) => {
            assert(fileset@ =~= with_paths(set, file_set::names_of(paths@)));
            Ok(fileset)
        },
        Err(_) => Err(ClientError::PhasesWithoutPaths),
    }
}

/// The phases that a client receives when it has the file set, each with its size: all but the
/// first.
pub open spec fn to_receive(set: Seq<file_set::PhaseModel>) -> Seq<(u16, PhaseOffset)> {
    Seq::new(
        if set.len() == 0 {
            0
        } else {
            (set.len() - 1) as nat
        },
        |i: int|
            (((i + 1) % 0x1_0000) as u16, PhaseOffset(tree::file_bytes(set[i + 1].tree) as u64)),
    )
}

/// Every phase but the first is to be received, once, up to the end of its last file.
pub proof fn law_all_phases_are_received(set: Seq<file_set::PhaseModel>, i: int)
    requires
        1 <= i < set.len() <= 0x1_0000,
        tree::placed(set[i].tree, 0),
    ensures
        to_receive(set).len() == set.len() - 1,
        to_receive(set)[i - 1].0 == i,
        tree::end_of(set[i].tree) == Some(to_receive(set)[i - 1].1.0 as int),
        tree::extent(set[i].tree) == to_receive(set)[i - 1].1.0,
        forall|j: int|
            0 <= j < to_receive(set).len() && j != i - 1 ==> (#[trigger] to_receive(set)[j]).0 != i,
{
    tree::lemma_placed_bounds(set[i].tree, 0);
}

impl ClientStateEnum {
    /// The file set is there: the files can be received.
    pub fn on_file_set(fileset: FileSet, session_id: SessionId, server: PeerAddrV4) -> (r:
        ClientStateEnum)
        requires
            forall|i: int| 1 <= i < fileset@.len() ==> tree::placed((#[trigger] fileset@[i]).tree, 0),
        ensures
            r matches ClientStateEnum::Receiving {
                phases,
                fileset: f,
                session_id: id,
                server: s,
            } && f == fileset && id == session_id && s == server && phases@ == to_receive(
                fileset@,
            ),
    {
        proof {
            assert forall|i: int| 1 <= i < fileset@.len() implies tree::end_of(
                (#[trigger] fileset@[i]).tree,
            ) == Some(tree::file_bytes(fileset@[i].tree) as int) && tree::file_bytes(
                fileset@[i].tree,
            ) <= u64::MAX by {
                tree::lemma_placed_bounds(fileset@[i].tree, 0);
            }
        }
        let phases = fileset.get_phases_excluding_first_phase();
        assert(phases@ =~= to_receive(fileset@));
        ClientStateEnum::Receiving { phases, fileset, session_id, server }
    }
}

/// `after` is what the bytes of the first phase are, and `r` what is said of it, when the packet
/// `dest` with `data` has been put into them.
pub open spec fn puts_packet(
    before: Seq<u8>,
    dest: PacketIdx,
    data: Seq<u8>,
    after: Seq<u8>,
    r: Result<bool, ClientError>,
) -> bool {
    if dest.phase_of() != 0 {
        r == Err::<bool, ClientError>(ClientError::WrongPhase) && after == before
    } else {
        r == Ok::<bool, ClientError>(true) && after == written(
            before,
            dest.index_of() * PAYLOAD_SIZE,
            data,
        )
    }
}

/// A packet of the first phase is put in its place, whole, and changes nothing else. A packet of
/// another phase is refused, and changes nothing.
pub proof fn law_packet_is_put_in_its_place(
    before: Seq<u8>,
    dest: PacketIdx,
    data: Seq<u8>,
    after: Seq<u8>,
    r: Result<bool, ClientError>,
    x: int,
)
    requires
        dest.phase_of() == 0 ==> dest.index_of() * PAYLOAD_SIZE + data.len() <= before.len(),
        puts_packet(before, dest, data, after, r),
        0 <= x < before.len(),
    ensures
        after.len() == before.len(),
        dest.phase_of() == 0 ==> {
            let start = dest.index_of() * 1369;
            &&& r is Ok
            &&& after.subrange(start, start + data.len()) == data
            &&& x < start || start + data.len() <= x ==> after[x] == before[x]
        },
        dest.phase_of() != 0 ==> r is Err && after[x] == before[x],
{
    assert(PAYLOAD_SIZE == 1369);
    if dest.phase_of() == 0 {
        let start = dest.index_of() * 1369;
        assert(after.subrange(start, start + data.len()) =~= data);
    }
}

/// Puts a packet of the first phase into the bytes of that phase.
pub fn try_write(buf: &mut Vec<u8>, dest: PacketIdx, data: &[u8]) -> (r: Result<bool, ClientError>)
    requires
        dest.phase_of() == 0 ==> dest.index_of() * PAYLOAD_SIZE + data@.len() <= old(buf)@.len(),
    ensures
        puts_packet(old(buf)@, dest, data@, final(buf)@, r),
{
    if dest.phase() != 0 {
        return Err(ClientError::WrongPhase);
    }
    let offset: PhaseOffset = calculate_phase_offset(dest.index());
    let total: usize = buf.len();
    let start: usize = offset.0 as usize;
    let ghost before = buf@;
    let mut i: usize = 0;
    while i < data.len()
        invariant
            i <= data@.len(),
            start + data@.len() <= total,
            buf@.len() == total == before.len(),
            forall|j: int|
                0 <= j < buf@.len() ==> #[trigger] buf@[j] == if start <= j < start + i {
                    data@[j - start]
                } else {
                    before[j]
                },
        decreases data.len() - i,
    {
        buf.set(start + i, data[i]);
        i = i + 1;
    }
    assert(buf@ =~= written(before, start as int, data@));
    Ok(true)
}

/// Bytes with `data` put in from `start` on.
pub open spec fn written(bytes: Seq<u8>, start: int, data: Seq<u8>) -> Seq<u8> {
    Seq::new(
        bytes.len(),
        |i: int|
            if start <= i < start + data.len() {
                data[i - start]
            } else {
                bytes[i]
            },
    )
}

/// The most datagrams that one receive call takes.
pub const TOTAL_BATCH_SIZE: usize = 64;

/// How many buffers of `gro` datagrams a receive call is given.
pub open spec fn buffer_count(gro: int) -> int {
    if (TOTAL_BATCH_SIZE + gro - 1) / gro < 2 {
        2
    } else {
        (TOTAL_BATCH_SIZE + gro - 1) / gro
    }
}

/// The buffers of a receive call hold a full batch, there are at least two of them, and no more than
/// that takes.
pub proof fn law_buffers_hold_a_batch(gro: int)
    requires
        gro > 0,
    ensures
        buffer_count(gro) >= 2,
        buffer_count(gro) * gro >= 64,
        buffer_count(gro) > 2 ==> (buffer_count(gro) - 1) * gro < 64,
{
    let n = (TOTAL_BATCH_SIZE + gro - 1) / gro;
    let m = (TOTAL_BATCH_SIZE + gro - 1) % gro;
    vstd::arithmetic::div_mod::lemma_fundamental_div_mod(TOTAL_BATCH_SIZE + gro - 1, gro);
    vstd::arithmetic::div_mod::lemma_mod_bound(TOTAL_BATCH_SIZE + gro - 1, gro);
    assert(n * gro == 64 + gro - 1 - m) by (nonlinear_arith)
        requires
            64 + gro - 1 == gro * n + m,
    ;
    assert((n - 1) * gro == n * gro - gro) by (nonlinear_arith);
    assert(n < 2 ==> 2 * gro >= n * gro) by (nonlinear_arith)
        requires
            gro > 0,
    ;
}

/// How many buffers a receive call is given, if each holds `gro` datagrams: enough for a full
/// batch, and at least two.
pub fn recv_batch_size(gro: usize) -> (r: usize)
    requires
        gro > 0,
    ensures
        r == buffer_count(gro as int),
{
    let whole: usize = TOTAL_BATCH_SIZE / gro;
    let count: usize = if TOTAL_BATCH_SIZE % gro == 0 {
        whole
    } else {
        whole + 1
    };
    proof {
        lemma_div_ceil(TOTAL_BATCH_SIZE as int, gro as int);
    }
    if count < 2 {
        2
    } else {
        count
    }
}

proof fn lemma_div_ceil(a: int, b: int)
    requires
        0 <= a,
        0 < b,
    ensures
        (a + b - 1) / b == if a % b == 0 {
            a / b
        } else {
            a / b + 1
        },
{
    let q = a / b;
    let m = a % b;
    vstd::arithmetic::div_mod::lemma_fundamental_div_mod(a, b);
    if m == 0 {
        assert(a + b - 1 == q * b + (b - 1)) by (nonlinear_arith)
            requires
                a == b * q,
        ;
        vstd::arithmetic::div_mod::lemma_fundamental_div_mod_converse(a + b - 1, b, q, b - 1);
    } else {
        assert(a + b - 1 == (q + 1) * b + (m - 1)) by (nonlinear_arith)
            requires
                a == b * q + m,
        ;
        vstd::arithmetic::div_mod::lemma_fundamental_div_mod_converse(a + b - 1, b, q + 1, m - 1);
    }
}

} // verus!
