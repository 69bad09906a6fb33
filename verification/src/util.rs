//! Small helpers: a quick hash, waiting for a socket, and what the command line asks for.
use vstd::prelude::*;
use vstd::slice::slice_subrange;

use crate::endian;

verus! {

/// What [`fast_hash`] multiplies with: odd, well-mixed constant
pub const HASH_FACTOR: u64 = 0x517c_c1b7_2722_0a95;

/// A product without what does not fit 64 bits.
pub open spec fn times_factor(n: u64) -> u64 {
    ((n * HASH_FACTOR) % 0x1_0000_0000_0000_0000) as u64
}

/// The bits turned five places to the left.
pub open spec fn turned(n: u64) -> u64 {
    (n << 5u64) | (n >> 59u64)
}

/// The hash with one more word mixed in.
pub open spec fn mixed(hash: u64, word: u64) -> u64 {
    times_factor(turned(hash) ^ word)
}

/// The hash of bytes before the last step: eight bytes at a time, and the rest in the end.
pub open spec fn folded(bytes: Seq<u8>) -> u64
    decreases bytes.len(),
{
    if bytes.len() == 0 {
        0
    } else {
        let tail = if bytes.len() % 8 == 0 {
            8
        } else {
            (bytes.len() % 8) as int
        };
        let at = bytes.len() - tail;
        mixed(folded(bytes.take(at)), endian::le_value(bytes.skip(at)) as u64)
    }
}

/// The last step of the hash.
pub open spec fn avalanched(hash: u64) -> u64 {
    let once = times_factor(hash ^ (hash >> 32u64));
    once ^ (once >> 32u64)
}

fn mix(hash: u64, word: u64) -> (r: u64)
    ensures
        r == mixed(hash, word),
{
    let rotated: u64 = (hash << 5u64) | (hash >> 59u64);
    (rotated ^ word).wrapping_mul(HASH_FACTOR)
}

/// The number that up to eight bytes spell, least significant byte first.
fn read_word(bytes: &[u8]) -> (r: u64)
    requires
        bytes@.len() <= 8,
    ensures
        r == endian::le_value(bytes@),
{
    let mut word: u64 = 0;
    let mut i: usize = bytes.len();
    assert(bytes@.skip(i as int) =~= Seq::empty());
    while i > 0
        invariant
            i <= bytes@.len() <= 8,
            word == endian::le_value(bytes@.skip(i as int)),
        decreases i,
    {
        i = i - 1;
        proof {
            let rest = bytes@.skip(i as int);
            assert(rest.skip(1) =~= bytes@.skip(i + 1));
            endian::lemma_le_value_bytes(rest);
            endian::lemma_pow256_grows(rest.len(), 8);
            endian::lemma_pow256_widths();
        }
        word = bytes[i] as u64 + 256 * word;
    }
    assert(bytes@.skip(0) =~= bytes@);
    word
}

/// A quick hash of some bytes.
pub fn fast_hash(bytes: &[u8]) -> (r: u64)
    ensures
        r == avalanched(folded(bytes@)),
{
    let mut hash: u64 = 0;
    let mut at: usize = 0;
    assert(bytes@.take(0) =~= Seq::empty());
    while bytes.len() - at >= 8
        invariant
            at <= bytes@.len(),
            at % 8 == 0,
            hash == folded(bytes@.take(at as int)),
        decreases bytes.len() - at,
    {
        let chunk: &[u8] = slice_subrange(bytes, at, at + 8);
        let word: u64 = read_word(chunk);
        proof {
            let next = bytes@.take(at + 8);
            assert(next.take(at as int) =~= bytes@.take(at as int));
            assert(next.skip(at as int) =~= chunk@);
        }
        hash = mix(hash, word);
        at = at + 8;
    }
    // Fold in the remaining 1..=7 tail bytes.
    if at < bytes.len() {
        let rem: &[u8] = slice_subrange(bytes, at, bytes.len());
        let word: u64 = read_word(rem);
        assert(bytes@.skip(at as int) =~= rem@);
        hash = mix(hash, word);
    } else {
        assert(bytes@.take(at as int) =~= bytes@);
    }
    // Final avalanche so all bits are well mixed.
    hash = hash ^ (hash >> 32u64);
    hash = hash.wrapping_mul(HASH_FACTOR);
    hash ^ (hash >> 32u64)
}

/// What undoes a multiplication with [`HASH_FACTOR`].
const HASH_FACTOR_INVERSE: u64 = 0x2040_003d_7809_70bd;

/// Different numbers have different products.
proof fn lemma_times_factor(a: u64, b: u64)
    requires
        times_factor(a) == times_factor(b),
    ensures
        a == b,
{
    lemma_factor_undone(a);
    lemma_factor_undone(b);
}

proof fn lemma_factor_undone(n: u64)
    ensures
        (times_factor(n) * HASH_FACTOR_INVERSE) % 0x1_0000_0000_0000_0000 == n,
{
    let m: int = 0x1_0000_0000_0000_0000;
    let f = HASH_FACTOR as int;
    let g = HASH_FACTOR_INVERSE as int;
    let c: int = 0xa43_f77a_e39d_ae8d;
    let product = n * f;
    let q = product / m;
    let x = product % m;
    assert(f * g == 1 + c * m);
    assert(x * g == (n * c - q * g) * m + n) by (nonlinear_arith)
        requires
            product == n * f,
            product == q * m + x,
            f * g == 1 + c * m,
    ;
    vstd::arithmetic::div_mod::lemma_fundamental_div_mod_converse(
        x * g,
        m,
        n * c - q * g,
        n as int,
    );
    assert(times_factor(n) == x);
}

/// One more word makes different hashes of different words, and of different hashes before.
proof fn lemma_mixed(hash: u64, word: u64, other_hash: u64, other_word: u64)
    requires
        hash == other_hash && word != other_word || hash != other_hash && word == other_word,
    ensures
        mixed(hash, word) != mixed(other_hash, other_word),
{
    if mixed(hash, word) == mixed(other_hash, other_word) {
        lemma_times_factor(turned(hash) ^ word, turned(other_hash) ^ other_word);
        assert(!(((hash << 5u64) | (hash >> 59u64)) ^ word == ((other_hash << 5u64) | (other_hash
            >> 59u64)) ^ other_word)) by (bit_vector)
            requires
                hash == other_hash && word != other_word || hash != other_hash && word
                    == other_word,
        ;
    }
}

/// Every byte counts for the hash: where bytes are changed within one word of eight, the hash is
/// another.
pub proof fn law_every_word_counts(a: Seq<u8>, b: Seq<u8>, k: int)
    requires
        a.len() == b.len(),
        a != b,
        forall|i: int| 0 <= i < a.len() && i / 8 != k ==> #[trigger] a[i] == b[i],
    ensures
        avalanched(folded(a)) != avalanched(folded(b)),
{
    lemma_folded_apart(a, b, k);
    let x = folded(a);
    let y = folded(b);
    if avalanched(x) == avalanched(y) {
        let once = times_factor(x ^ (x >> 32u64));
        let other = times_factor(y ^ (y >> 32u64));
        assert(once == other) by (bit_vector)
            requires
                once ^ (once >> 32u64) == other ^ (other >> 32u64),
        ;
        lemma_times_factor(x ^ (x >> 32u64), y ^ (y >> 32u64));
        assert(x == y) by (bit_vector)
            requires
                x ^ (x >> 32u64) == y ^ (y >> 32u64),
        ;
    }
}

proof fn lemma_folded_apart(a: Seq<u8>, b: Seq<u8>, k: int)
    requires
        a.len() == b.len(),
        a != b,
        forall|i: int| 0 <= i < a.len() && i / 8 != k ==> #[trigger] a[i] == b[i],
    ensures
        folded(a) != folded(b),
    decreases a.len(),
{
    if a.len() == 0 {
        assert(a =~= b);
    } else {
        let tail = if a.len() % 8 == 0 {
            8
        } else {
            (a.len() % 8) as int
        };
        let at = a.len() - tail;
        assert(at % 8 == 0 && 0 < tail <= 8);
        let word = endian::le_value(a.skip(at));
        let other = endian::le_value(b.skip(at));
        endian::lemma_le_value_bytes(a.skip(at));
        endian::lemma_le_value_bytes(b.skip(at));
        endian::lemma_pow256_grows(tail as nat, 8);
        endian::lemma_pow256_widths();
        if k == at / 8 {
            assert(a.take(at) =~= b.take(at)) by {
                assert forall|i: int| 0 <= i < at implies #[trigger] a.take(at)[i] == b.take(
                    at,
                )[i] by {
                    assert(i / 8 != k);
                    assert(a[i] == b[i]);
                }
            }
            if word == other {
                assert(a.skip(at) == b.skip(at));
                assert(a =~= a.take(at) + a.skip(at));
                assert(b =~= b.take(at) + b.skip(at));
            }
        } else {
            assert(a.skip(at) =~= b.skip(at)) by {
                assert forall|i: int| 0 <= i < tail implies #[trigger] a.skip(at)[i] == b.skip(
                    at,
                )[i] by {
                    assert((at + i) / 8 == at / 8);
                    assert(a[at + i] == b[at + i]);
                }
            }
            if a.take(at) == b.take(at) {
                assert(a =~= a.take(at) + a.skip(at));
                assert(b =~= b.take(at) + b.skip(at));
            }
            assert forall|i: int| 0 <= i < at && i / 8 != k implies #[trigger] a.take(at)[i]
                == b.take(at)[i] by {
                assert(a[i] == b[i]);
            }
            lemma_folded_apart(a.take(at), b.take(at), k);
        }
        lemma_mixed(folded(a.take(at)), word as u64, folded(b.take(at)), other as u64);
    }
}

/// The longest wait for a socket, in nanoseconds.
pub const MAX_BACKOFF_NANOS: u64 = 10_000_000;

/// How to wait until a socket may take more.
#[derive(Clone, Copy, PartialEq, Eq, Debug, Structural)]
pub enum Wait {
    /// Let others run.
    Yield,
    /// Sleep for some nanoseconds.
    Sleep(u64),
}

/// What is handed in the next time, and how to wait.
pub open spec fn backoff_after(backoff: u64) -> (u64, Wait) {
    let next = if backoff * 2 > MAX_BACKOFF_NANOS {
        MAX_BACKOFF_NANOS
    } else {
        (backoff * 2) as u64
    };
    if backoff == 0 {
        (1, Wait::Yield)
    } else {
        (next, Wait::Sleep(next))
    }
}

/// Waiting begins with letting others run. From then on each wait is a sleep, twice as long as the
/// one before, until a hundredth of a second is reached; it stays there.
pub proof fn law_waits_grow(backoff: u64)
    requires
        backoff <= 10_000_000,
    ensures
        ({
            let (next, wait) = backoff_after(backoff);
            &&& wait == Wait::Yield <==> backoff == 0
            &&& backoff > 0 ==> wait == Wait::Sleep(next)
            &&& 0 < next <= 10_000_000
            &&& 0 < backoff <= 5_000_000 ==> next == backoff + backoff
            &&& backoff > 5_000_000 ==> next == 10_000_000
        }),
{
}

/// How to wait when a socket takes nothing, given how long the last wait was. The result is also
/// to be handed in the next time.
pub fn next_backoff(backoff: u64) -> (r: (u64, Wait))
    requires
        backoff * 2 <= u64::MAX,
    ensures
        r == backoff_after(backoff),
        backoff == 0 ==> r == (1u64, Wait::Yield),
        backoff > 0 && backoff * 2 <= MAX_BACKOFF_NANOS ==> r == (
            (backoff * 2) as u64,
            Wait::Sleep((backoff * 2) as u64),
        ),
        backoff * 2 > MAX_BACKOFF_NANOS ==> r == (MAX_BACKOFF_NANOS, Wait::Sleep(MAX_BACKOFF_NANOS)),
        backoff <= MAX_BACKOFF_NANOS ==> backoff <= r.0 <= MAX_BACKOFF_NANOS,
{
    if backoff == 0 {
        return (1, Wait::Yield);
    }
    let mut next: u64 = backoff * 2;
    if next > MAX_BACKOFF_NANOS {
        next = MAX_BACKOFF_NANOS;
    }
    (next, Wait::Sleep(next))
}

/// What the program is to do.
#[derive(Clone, Copy, PartialEq, Eq, Debug, Structural)]
pub enum Mode {
    Send,
    Receive,
}

/// Why the command line makes no sense.
#[derive(Clone, Copy, PartialEq, Eq, Debug, Structural)]
pub enum ModeError {
    /// There are paths to send and paths to receive to.
    Both,
    /// There are no paths at all.
    Neither,
}

/// What to do, given how many paths there are to send and to receive to.
pub open spec fn mode_for(send: int, recv: int) -> Result<Mode, ModeError> {
    if send > 0 && recv > 0 {
        Err(ModeError::Both)
    } else if send == 0 && recv == 0 {
        Err(ModeError::Neither)
    } else if send > 0 {
        Ok(Mode::Send)
    } else {
        Ok(Mode::Receive)
    }
}

/// There are paths of one kind whenever there is something to do, and that kind says what; paths of
/// both kinds or of none make no sense.
pub proof fn law_paths_say_what_to_do(send: int, recv: int)
    requires
        send >= 0,
        recv >= 0,
    ensures
        mode_for(send, recv) == Ok::<Mode, ModeError>(Mode::Send) <==> send > 0 && recv == 0,
        mode_for(send, recv) == Ok::<Mode, ModeError>(Mode::Receive) <==> recv > 0 && send == 0,
        mode_for(send, recv) == Err::<Mode, ModeError>(ModeError::Both) <==> send > 0 && recv > 0,
        mode_for(send, recv) == Err::<Mode, ModeError>(ModeError::Neither) <==> send + recv == 0,
{
}

/// What to do, given how many paths there are to send and to receive to.
pub fn choose_mode(send: usize, recv: usize) -> (r: Result<Mode, ModeError>)
    ensures
        r == mode_for(send as int, recv as int),
{
    if send > 0 && recv > 0 {
        Err(ModeError::Both)
    } else if send == 0 && recv == 0 {
        Err(ModeError::Neither)
    } else if send > 0 {
        Ok(Mode::Send)
    } else {
        Ok(Mode::Receive)
    }
}

/// What becomes of something that was found in a directory.
#[derive(Clone, Copy, PartialEq, Eq, Debug, Structural)]
pub enum ScanStep {
    /// It is offered as a file.
    File,
    /// It is scanned, too.
    Directory,
    /// It is left out.
    Skip,
}

/// What becomes of something that was found in a directory, by its type.
pub open spec fn step_for(is_file: bool, is_symlink: bool, is_dir: bool) -> ScanStep {
    if is_file || is_symlink {
        ScanStep::File
    } else if is_dir {
        ScanStep::Directory
    } else {
        ScanStep::Skip
    }
}

/// No file, no symbolic link and no directory is left out, and nothing else is taken. Symbolic links
/// are offered as they are, also those to directories.
pub proof fn law_what_is_scanned(is_file: bool, is_symlink: bool, is_dir: bool)
    ensures
        step_for(is_file, is_symlink, is_dir) == ScanStep::Skip <==> !is_file && !is_symlink
            && !is_dir,
        is_symlink ==> step_for(is_file, is_symlink, is_dir) == ScanStep::File,
        is_file ==> step_for(is_file, is_symlink, is_dir) == ScanStep::File,
        step_for(is_file, is_symlink, is_dir) == ScanStep::Directory <==> is_dir && !is_file
            && !is_symlink,
{
}

/// What becomes of something that was found in a directory, by its type.
pub fn scan_step(is_file: bool, is_symlink: bool, is_dir: bool) -> (r: ScanStep)
    ensures
        r == step_for(is_file, is_symlink, is_dir),
{
    if is_file || is_symlink {
        ScanStep::File
    } else if is_dir {
        ScanStep::Directory
    } else {
        ScanStep::Skip
    }
}

} // verus!
