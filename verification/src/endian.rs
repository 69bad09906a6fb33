//! Fixed-width integers as bytes: what little- and big-endian mean.
use vstd::prelude::*;

verus! {

/// 256 to the power `width`: how many values `width` bytes can hold.
pub open spec fn pow256(width: nat) -> nat
    decreases width,
{
    if width == 0 {
        1
    } else {
        256 * pow256((width - 1) as nat)
    }
}

/// The lowest `width` bytes of `n`, least significant first.
pub open spec fn le_bytes(n: nat, width: nat) -> Seq<u8>
    decreases width,
{
    if width == 0 {
        Seq::empty()
    } else {
        seq![(n % 256) as u8] + le_bytes(n / 256, (width - 1) as nat)
    }
}

/// The number that `bytes` spell, least significant byte first.
pub open spec fn le_value(bytes: Seq<u8>) -> nat
    decreases bytes.len(),
{
    if bytes.len() == 0 {
        0
    } else {
        bytes[0] as nat + 256 * le_value(bytes.skip(1))
    }
}

/// The lowest `width` bytes of `n`, most significant first.
pub open spec fn be_bytes(n: nat, width: nat) -> Seq<u8> {
    le_bytes(n, width).reverse()
}

/// The number that `bytes` spell, most significant byte first.
pub open spec fn be_value(bytes: Seq<u8>) -> nat {
    le_value(bytes.reverse())
}

/// The widths that the wire formats use.
pub proof fn lemma_pow256_widths()
    ensures
        pow256(1) == 0x100,
        pow256(2) == 0x1_0000,
        pow256(4) == 0x1_0000_0000,
        pow256(8) == 0x1_0000_0000_0000_0000,
{
    reveal_with_fuel(pow256, 9);
}

/// More bytes hold more values.
pub proof fn lemma_pow256_grows(a: nat, b: nat)
    requires
        a <= b,
    ensures
        0 < pow256(a) <= pow256(b),
    decreases b,
{
    if a < b {
        lemma_pow256_grows(a, (b - 1) as nat);
    } else if a > 0 {
        lemma_pow256_grows((a - 1) as nat, (b - 1) as nat);
    }
}

/// Reading back a written number gives the number, if the width holds it.
pub proof fn lemma_le_bytes_value(n: nat, width: nat)
    requires
        n < pow256(width),
    ensures
        le_bytes(n, width).len() == width,
        le_value(le_bytes(n, width)) == n,
    decreases width,
{
    if width > 0 {
        let rest = (width - 1) as nat;
        assert(n / 256 < pow256(rest)) by (nonlinear_arith)
            requires
                n < 256 * pow256(rest),
        ;
        lemma_le_bytes_value(n / 256, rest);
        assert(le_bytes(n, width).skip(1) =~= le_bytes(n / 256, rest));
    }
}

/// Writing back a read number gives the bytes that were read.
pub proof fn lemma_le_value_bytes(bytes: Seq<u8>)
    ensures
        le_value(bytes) < pow256(bytes.len()),
        le_bytes(le_value(bytes), bytes.len()) == bytes,
    decreases bytes.len(),
{
    if bytes.len() > 0 {
        let rest = bytes.skip(1);
        lemma_le_value_bytes(rest);
        let n = le_value(bytes);
        assert(n % 256 == bytes[0] as nat && n / 256 == le_value(rest));
        assert(seq![bytes[0]] + rest =~= bytes);
    }
}

/// Each byte holds its share of the number. In little-endian order the first holds the units, the
/// next the multiples of 256, and so on; in big-endian order the last holds the units.
pub proof fn law_place_of_each_byte(n: nat, width: nat, i: nat)
    requires
        i < width,
    ensures
        le_bytes(n, width).len() == width,
        le_bytes(n, width)[i as int] == (n / pow256(i)) % 256,
        be_bytes(n, width)[width - 1 - i] == (n / pow256(i)) % 256,
    decreases width,
{
    lemma_le_bytes_len(n, width);
    if i > 0 {
        law_place_of_each_byte(n / 256, (width - 1) as nat, (i - 1) as nat);
        lemma_pow256_grows(0, (i - 1) as nat);
        vstd::arithmetic::div_mod::lemma_div_denominator(
            n as int,
            256,
            pow256((i - 1) as nat) as int,
        );
    } else {
        assert(pow256(0) == 1);
    }
}

proof fn lemma_le_bytes_len(n: nat, width: nat)
    ensures
        le_bytes(n, width).len() == width,
    decreases width,
{
    if width > 0 {
        lemma_le_bytes_len(n / 256, (width - 1) as nat);
    }
}

/// Reading back a number written in big-endian order gives the number.
pub proof fn lemma_be_bytes_value(n: nat, width: nat)
    requires
        n < pow256(width),
    ensures
        be_bytes(n, width).len() == width,
        be_value(be_bytes(n, width)) == n,
{
    lemma_le_bytes_value(n, width);
    assert(le_bytes(n, width).reverse().reverse() =~= le_bytes(n, width));
}

} // verus!
