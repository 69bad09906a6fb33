//! The primitives of the savefile format: fixed-width little-endian integers and raw bytes.
use bytes::{Buf, BufMut};
use vstd::prelude::*;

use crate::{buffers, endian};

verus! {

/// `savefile::SavefileError`, which reading past the end gives.
#[verifier::external_type_specification]
#[verifier::external_body]
pub struct ExSavefileError(savefile::SavefileError);

/// `savefile::Serializer::write_u8` appends the byte.
#[verifier::external_body]
pub(crate) fn write_u8(output: &mut bytes::BytesMut, n: u8)
    ensures
        buffers::buf_of(*final(output)) == buffers::buf_of(*old(output)) + endian::le_bytes(
            n as nat,
            1,
        ),
{
    let mut writer = output.writer();
    savefile::Serializer { writer: &mut writer, file_version: 0 }.write_u8(n).unwrap()
}

/// `savefile::Serializer::write_u16` appends the number in little-endian order.
#[verifier::external_body]
pub(crate) fn write_u16(output: &mut bytes::BytesMut, n: u16)
    ensures
        buffers::buf_of(*final(output)) == buffers::buf_of(*old(output)) + endian::le_bytes(
            n as nat,
            2,
        ),
{
    let mut writer = output.writer();
    savefile::Serializer { writer: &mut writer, file_version: 0 }.write_u16(n).unwrap()
}

/// `savefile::Serializer::write_u32` appends the number in little-endian order.
#[verifier::external_body]
pub(crate) fn write_u32(output: &mut bytes::BytesMut, n: u32)
    ensures
        buffers::buf_of(*final(output)) == buffers::buf_of(*old(output)) + endian::le_bytes(
            n as nat,
            4,
        ),
{
    let mut writer = output.writer();
    savefile::Serializer { writer: &mut writer, file_version: 0 }.write_u32(n).unwrap()
}

/// `savefile::Serializer::write_u64` appends the number in little-endian order.
#[verifier::external_body]
pub(crate) fn write_u64(output: &mut bytes::BytesMut, n: u64)
    ensures
        buffers::buf_of(*final(output)) == buffers::buf_of(*old(output)) + endian::le_bytes(
            n as nat,
            8,
        ),
{
    let mut writer = output.writer();
    savefile::Serializer { writer: &mut writer, file_version: 0 }.write_u64(n).unwrap()
}

/// `savefile::Serializer::write_bytes` appends the bytes as they are.
#[verifier::external_body]
pub(crate) fn write_bytes(output: &mut bytes::BytesMut, data: &[u8])
    ensures
        buffers::buf_of(*final(output)) == buffers::buf_of(*old(output)) + data@,
{
    let mut writer = output.writer();
    savefile::Serializer { writer: &mut writer, file_version: 0 }.write_bytes(data).unwrap()
}

/// What reading a `width`-byte integer off the front of `input` gives: the number and the rest.
pub open spec fn take_le(input: Seq<u8>, width: nat) -> Option<(nat, Seq<u8>)> {
    if input.len() < width {
        None
    } else {
        Some((endian::le_value(input.take(width as int)), input.skip(width as int)))
    }
}

/// `savefile::Deserializer::read_u8` takes the first byte, and fails where there is none.
#[verifier::external_body]
pub(crate) fn read_u8(input: &mut bytes::Bytes) -> (r: Result<u8, savefile::SavefileError>)
    ensures
        match take_le(buffers::bytes_of(*old(input)), 1) {
            Some((n, rest)) => r is Ok && r->Ok_0 == n && buffers::bytes_of(*final(input)) == rest,
            None => r is Err,
        },
{
    let mut reader = input.reader();
    let ephemeral_state = std::collections::HashMap::new();
    savefile::Deserializer { reader: &mut reader, file_version: 0, ephemeral_state }.read_u8()
}

/// `savefile::Deserializer::read_u16` takes two bytes and reads them in little-endian order, and
/// fails where there are fewer.
#[verifier::external_body]
pub(crate) fn read_u16(input: &mut bytes::Bytes) -> (r: Result<u16, savefile::SavefileError>)
    ensures
        match take_le(buffers::bytes_of(*old(input)), 2) {
            Some((n, rest)) => r is Ok && r->Ok_0 == n && buffers::bytes_of(*final(input)) == rest,
            None => r is Err,
        },
{
    let mut reader = input.reader();
    let ephemeral_state = std::collections::HashMap::new();
    savefile::Deserializer { reader: &mut reader, file_version: 0, ephemeral_state }.read_u16()
}

/// `savefile::Deserializer::read_u32` takes four bytes and reads them in little-endian order, and
/// fails where there are fewer.
#[verifier::external_body]
pub(crate) fn read_u32(input: &mut bytes::Bytes) -> (r: Result<u32, savefile::SavefileError>)
    ensures
        match take_le(buffers::bytes_of(*old(input)), 4) {
            Some((n, rest)) => r is Ok && r->Ok_0 == n && buffers::bytes_of(*final(input)) == rest,
            None => r is Err,
        },
{
    let mut reader = input.reader();
    let ephemeral_state = std::collections::HashMap::new();
    savefile::Deserializer { reader: &mut reader, file_version: 0, ephemeral_state }.read_u32()
}

/// `savefile::Deserializer::read_u64` takes eight bytes and reads them in little-endian order, and
/// fails where there are fewer.
#[verifier::external_body]
pub(crate) fn read_u64(input: &mut bytes::Bytes) -> (r: Result<u64, savefile::SavefileError>)
    ensures
        match take_le(buffers::bytes_of(*old(input)), 8) {
            Some((n, rest)) => r is Ok && r->Ok_0 == n && buffers::bytes_of(*final(input)) == rest,
            None => r is Err,
        },
{
    let mut reader = input.reader();
    let ephemeral_state = std::collections::HashMap::new();
    savefile::Deserializer { reader: &mut reader, file_version: 0, ephemeral_state }.read_u64()
}

/// A number written in front of `rest` is read back, and leaves `rest`.
pub proof fn lemma_take_le(n: nat, width: nat, rest: Seq<u8>)
    requires
        n < endian::pow256(width),
    ensures
        endian::le_bytes(n, width).len() == width,
        take_le(endian::le_bytes(n, width) + rest, width) == Some((n, rest)),
{
    endian::lemma_le_bytes_value(n, width);
    let all = endian::le_bytes(n, width) + rest;
    assert(all.take(width as int) =~= endian::le_bytes(n, width));
    assert(all.skip(width as int) =~= rest);
}

/// What was read is what stands at the front.
pub proof fn lemma_take_le_front(input: Seq<u8>, width: nat)
    requires
        input.len() >= width,
    ensures
        ({
            let n = endian::le_value(input.take(width as int));
            let rest = input.skip(width as int);
            &&& take_le(input, width) == Some((n, rest))
            &&& n < endian::pow256(width)
            &&& input == endian::le_bytes(n, width) + rest
            &&& endian::le_bytes(n, width).len() == width
        }),
{
    endian::lemma_le_value_bytes(input.take(width as int));
    assert(input =~= input.take(width as int) + input.skip(width as int));
}

} // verus!
