use std::convert::TryFrom;
use vstd::prelude::*;
use vstd::utf8::{decode_utf8, encode_utf8, valid_utf8};

use crate::buffers::byte_views;

verus! {

/// A failure to decode a message.
#[verifier::external_type_specification]
#[verifier::external_body]
pub struct ExDecodeError(prost::DecodeError);

/// A failure to encode a message.
#[verifier::external_type_specification]
#[verifier::external_body]
pub struct ExEncodeError(prost::EncodeError);

/// The least and the greatest field tag.
pub const MIN_TAG: u32 = 1;
pub const MAX_TAG: u32 = 0x1fff_ffff;

/// The LEB128 bytes of `v`: seven bits a byte, least significant first, the
/// high bit set on every byte but the last.
pub open spec fn varint(v: u64) -> Seq<u8>
    decreases v,
{
    if v < 128 {
        seq![v as u8]
    } else {
        seq![(v % 128 + 128) as u8] + varint(v / 128)
    }
}

/// The key of field `tag` of wire type `wt`.
pub open spec fn key(tag: u32, wt: u8) -> Seq<u8> {
    varint((tag * 8 + wt) as u64)
}

/// Field `tag` holding the number `v`.
pub open spec fn varint_field(tag: u32, v: u64) -> Seq<u8> {
    key(tag, 0) + varint(v)
}

/// Field `tag` holding the bytes `b`, prefixed by their length.
pub open spec fn delimited_field(tag: u32, b: Seq<u8>) -> Seq<u8> {
    key(tag, 2) + varint(b.len() as u64) + b
}

/// One field `tag` for each of the byte strings `bs`, in order.
pub open spec fn delimited_fields(tag: u32, bs: Seq<Seq<u8>>) -> Seq<u8> {
    delimited_pieces(tag, bs).flatten()
}

/// The fields `tag` of the byte strings `bs`, one by one.
pub open spec fn delimited_pieces(tag: u32, bs: Seq<Seq<u8>>) -> Seq<Seq<u8>> {
    bs.map_values(|b: Seq<u8>| delimited_field(tag, b))
}


/// Appends field `tag` holding `value`, sign-extended to 64 bits
/// (`prost::encoding::int32::encode`): its key, then the number.
#[verifier::external_body]
pub(crate) fn int32_encode(tag: u32, value: i32, buf: &mut Vec<u8>)
    requires
        MIN_TAG <= tag <= MAX_TAG,
    ensures
        final(buf)@ == old(buf)@ + varint_field(tag, value as u64),
{
    prost::encoding::int32::encode(tag, &value, buf)
}

/// Appends field `tag` holding `value` (`prost::encoding::uint64::encode`).
#[verifier::external_body]
pub(crate) fn uint64_encode(tag: u32, value: u64, buf: &mut Vec<u8>)
    requires
        MIN_TAG <= tag <= MAX_TAG,
    ensures
        final(buf)@ == old(buf)@ + varint_field(tag, value),
{
    prost::encoding::uint64::encode(tag, &value, buf)
}

/// Appends field `tag` holding the UTF-8 bytes of `value`
/// (`prost::encoding::string::encode`).
#[verifier::external_body]
pub(crate) fn string_encode(tag: u32, value: &String, buf: &mut Vec<u8>)
    requires
        MIN_TAG <= tag <= MAX_TAG,
    ensures
        final(buf)@ == old(buf)@ + delimited_field(tag, encode_utf8(value@)),
{
    prost::encoding::string::encode(tag, value, buf)
}

/// Appends one field `tag` for each byte string of `values`, in order
/// (`prost::encoding::bytes::encode_repeated`).
#[verifier::external_body]
pub(crate) fn bytes_encode_repeated(tag: u32, values: &Vec<Vec<u8>>, buf: &mut Vec<u8>)
    requires
        MIN_TAG <= tag <= MAX_TAG,
    ensures
        final(buf)@ == old(buf)@ + delimited_fields(tag, byte_views(values@)),
{
    prost::encoding::bytes::encode_repeated(tag, values, buf)
}

/// The length of field `tag` holding `value` (`prost::encoding::int32::encoded_len`).
#[verifier::external_body]
pub(crate) fn int32_encoded_len(tag: u32, value: i32) -> (r: usize)
    requires
        MIN_TAG <= tag <= MAX_TAG,
    ensures
        r == varint_field(tag, value as u64).len(),
{
    prost::encoding::int32::encoded_len(tag, &value)
}

/// The length of field `tag` holding `value` (`prost::encoding::uint64::encoded_len`).
#[verifier::external_body]
pub(crate) fn uint64_encoded_len(tag: u32, value: u64) -> (r: usize)
    requires
        MIN_TAG <= tag <= MAX_TAG,
    ensures
        r == varint_field(tag, value).len(),
{
    prost::encoding::uint64::encoded_len(tag, &value)
}

/// The length of field `tag` holding `value` (`prost::encoding::string::encoded_len`).
#[verifier::external_body]
pub(crate) fn string_encoded_len(tag: u32, value: &String) -> (r: usize)
    requires
        MIN_TAG <= tag <= MAX_TAG,
        delimited_field(tag, encode_utf8(value@)).len() <= usize::MAX,
    ensures
        r == delimited_field(tag, encode_utf8(value@)).len(),
{
    prost::encoding::string::encoded_len(tag, value)
}

/// The length of the fields `tag` holding `values`
/// (`prost::encoding::bytes::encoded_len_repeated`).
#[verifier::external_body]
pub(crate) fn bytes_encoded_len_repeated(tag: u32, values: &Vec<Vec<u8>>) -> (r: usize)
    requires
        MIN_TAG <= tag <= MAX_TAG,
        delimited_fields(tag, byte_views(values@)).len() <= usize::MAX,
    ensures
        r == delimited_fields(tag, byte_views(values@)).len(),
{
    prost::encoding::bytes::encoded_len_repeated(tag, values)
}

/// What `prost::encoding::decode_key` reads at the start of `buf`: the tag,
/// the wire type, and how many bytes the key took.
pub uninterp spec fn key_read(buf: Seq<u8>) -> Option<(u32, u8, nat)>;

/// What `prost::encoding::int32::merge` reads at the start of `buf` for a
/// field of wire type `wt`: the number and how many bytes it took.
pub uninterp spec fn int32_read(wt: u8, buf: Seq<u8>) -> Option<(i32, nat)>;

/// What `prost::encoding::uint64::merge` reads at the start of `buf` for a
/// field of wire type `wt`.
pub uninterp spec fn uint64_read(wt: u8, buf: Seq<u8>) -> Option<(u64, nat)>;

/// What `prost::encoding::string::merge` reads at the start of `buf` for a
/// field of wire type `wt`: the characters and how many bytes they took.
pub uninterp spec fn string_read(wt: u8, buf: Seq<u8>) -> Option<(Seq<char>, nat)>;

/// What `prost::encoding::bytes::merge_repeated` reads at the start of
/// `buf` for a field of wire type `wt`: one byte string and how many bytes
/// it took.
pub uninterp spec fn bytes_read(wt: u8, buf: Seq<u8>) -> Option<(Seq<u8>, nat)>;

/// How many bytes `prost::encoding::skip_field` skips at the start of
/// `buf` for an unknown field `tag` of wire type `wt`.
pub uninterp spec fn skip_read(wt: u8, tag: u32, buf: Seq<u8>) -> Option<nat>;

/// `rest` is what remains of `buf` after its first `n` bytes.
pub open spec fn remains(buf: Seq<u8>, rest: Seq<u8>, n: nat) -> bool {
    n == buf.len() - rest.len() && rest.len() < buf.len() && rest == buf.skip(n as int)
}

/// A key written for a valid tag and wire type at the start of `buf` reads
/// back as `r`, with what follows it.
pub open spec fn key_reads_back(buf: Seq<u8>, r: Result<(u32, u8, &[u8]), prost::DecodeError>) -> bool {
    forall|tag: u32, wt: u8, tail: Seq<u8>|
        MIN_TAG <= tag <= MAX_TAG && wt <= 5 && #[trigger] (key(tag, wt) + tail) == buf
        ==> (r matches Ok((t, w, rest)) && t == tag && w == wt && rest@ == tail)
}

/// A number written as a varint at the start of `buf`, for wire type `wt`
/// of varints, reads back as `r`, truncated to 32 bits.
pub open spec fn int32_reads_back(wt: u8, buf: Seq<u8>, r: Result<(i32, &[u8]), prost::DecodeError>) -> bool {
    forall|u: u64, tail: Seq<u8>| wt == 0 && #[trigger] (varint(u) + tail) == buf
        ==> (r matches Ok((v, rest)) && v == u as i32 && rest@ == tail)
}

/// A number written as a varint at the start of `buf`, for wire type `wt`
/// of varints, reads back as `r`.
pub open spec fn uint64_reads_back(wt: u8, buf: Seq<u8>, r: Result<(u64, &[u8]), prost::DecodeError>) -> bool {
    forall|u: u64, tail: Seq<u8>| wt == 0 && #[trigger] (varint(u) + tail) == buf
        ==> (r matches Ok((v, rest)) && v == u && rest@ == tail)
}

/// Valid UTF-8 written with its length at the start of `buf`, for wire
/// type `wt` of length-delimited fields, reads back as `r`.
pub open spec fn string_reads_back(wt: u8, buf: Seq<u8>, r: Result<(String, &[u8]), prost::DecodeError>) -> bool {
    forall|b: Seq<u8>, tail: Seq<u8>| wt == 2 && valid_utf8(b) && #[trigger] (varint(b.len() as u64) + b + tail) == buf
        ==> (r matches Ok((s, rest)) && s@ == decode_utf8(b) && rest@ == tail)
}

/// Bytes written with their length at the start of `buf`, for wire type
/// `wt` of length-delimited fields, read back as `r`.
pub open spec fn bytes_reads_back(wt: u8, buf: Seq<u8>, r: Result<(Vec<Vec<u8>>, &[u8]), prost::DecodeError>) -> bool {
    forall|b: Seq<u8>, tail: Seq<u8>| wt == 2 && #[trigger] (varint(b.len() as u64) + b + tail) == buf
        ==> (r matches Ok((vs, rest)) && vs@.len() == 1 && vs@[0]@ == b && rest@ == tail)
}

/// Reads a field key at the start of `buf` (`prost::encoding::decode_key`),
/// returning its tag, its wire type and what follows it. A key written for
/// a valid tag and wire type reads back.
#[verifier::external_body]
pub(crate) fn decode_key(buf: &[u8]) -> (r: Result<(u32, u8, &[u8]), prost::DecodeError>)
    ensures
        match r {
            Ok((tag, wt, rest)) => key_read(buf@) == Some((tag, wt, (buf@.len() - rest@.len()) as nat))
                && remains(buf@, rest@, (buf@.len() - rest@.len()) as nat) && wt <= 5,
            Err(_) => key_read(buf@) is None,
        },
        key_reads_back(buf@, r),
{
    let mut b = buf;
    let (tag, wire_type) = prost::encoding::decode_key(&mut b)?;
    Ok((tag, wire_type as u8, b))
}

/// Reads a number field at the start of `buf`
/// (`prost::encoding::int32::merge`): a varint, truncated to 32 bits. A
/// number written as a varint field reads back.
#[verifier::external_body]
pub(crate) fn int32_merge(wt: u8, buf: &[u8]) -> (r: Result<(i32, &[u8]), prost::DecodeError>)
    requires
        wt <= 5,
    ensures
        match r {
            Ok((v, rest)) => int32_read(wt, buf@) == Some((v, (buf@.len() - rest@.len()) as nat))
                && remains(buf@, rest@, (buf@.len() - rest@.len()) as nat),
            Err(_) => int32_read(wt, buf@) is None,
        },
        int32_reads_back(wt, buf@, r),
{
    let mut b = buf;
    let mut value = 0i32;
    let wire_type = prost::encoding::WireType::try_from(u64::from(wt)).expect("wire type");
    prost::encoding::int32::merge(wire_type, &mut value, &mut b, prost::encoding::DecodeContext::default())?;
    Ok((value, b))
}

/// Reads a number field at the start of `buf`
/// (`prost::encoding::uint64::merge`). A number written as a varint field
/// reads back.
#[verifier::external_body]
pub(crate) fn uint64_merge(wt: u8, buf: &[u8]) -> (r: Result<(u64, &[u8]), prost::DecodeError>)
    requires
        wt <= 5,
    ensures
        match r {
            Ok((v, rest)) => uint64_read(wt, buf@) == Some((v, (buf@.len() - rest@.len()) as nat))
                && remains(buf@, rest@, (buf@.len() - rest@.len()) as nat),
            Err(_) => uint64_read(wt, buf@) is None,
        },
        uint64_reads_back(wt, buf@, r),
{
    let mut b = buf;
    let mut value = 0u64;
    let wire_type = prost::encoding::WireType::try_from(u64::from(wt)).expect("wire type");
    prost::encoding::uint64::merge(wire_type, &mut value, &mut b, prost::encoding::DecodeContext::default())?;
    Ok((value, b))
}

/// Reads a string field at the start of `buf`
/// (`prost::encoding::string::merge`): a length, then that many bytes of
/// UTF-8. Valid UTF-8 written as a length-delimited field reads back.
#[verifier::external_body]
pub(crate) fn string_merge(wt: u8, buf: &[u8]) -> (r: Result<(String, &[u8]), prost::DecodeError>)
    requires
        wt <= 5,
    ensures
        match r {
            Ok((s, rest)) => string_read(wt, buf@) == Some((s@, (buf@.len() - rest@.len()) as nat))
                && remains(buf@, rest@, (buf@.len() - rest@.len()) as nat),
            Err(_) => string_read(wt, buf@) is None,
        },
        string_reads_back(wt, buf@, r),
{
    let mut b = buf;
    let mut value = String::new();
    let wire_type = prost::encoding::WireType::try_from(u64::from(wt)).expect("wire type");
    prost::encoding::string::merge(wire_type, &mut value, &mut b, prost::encoding::DecodeContext::default())?;
    Ok((value, b))
}

/// Reads one byte string of a repeated field at the start of `buf`
/// (`prost::encoding::bytes::merge_repeated` into an empty list): a
/// length, then that many bytes. Bytes written as a length-delimited field
/// read back.
#[verifier::external_body]
pub(crate) fn bytes_merge_repeated(wt: u8, buf: &[u8]) -> (r: Result<(Vec<Vec<u8>>, &[u8]), prost::DecodeError>)
    requires
        wt <= 5,
    ensures
        match r {
            Ok((vs, rest)) => vs@.len() == 1 && bytes_read(wt, buf@) == Some((vs@[0]@, (buf@.len() - rest@.len()) as nat))
                && remains(buf@, rest@, (buf@.len() - rest@.len()) as nat),
            Err(_) => bytes_read(wt, buf@) is None,
        },
        bytes_reads_back(wt, buf@, r),
{
    let mut b = buf;
    let mut values: Vec<Vec<u8>> = Vec::new();
    let wire_type = prost::encoding::WireType::try_from(u64::from(wt)).expect("wire type");
    prost::encoding::bytes::merge_repeated(wire_type, &mut values, &mut b, prost::encoding::DecodeContext::default())?;
    Ok((values, b))
}

/// Skips an unknown field `tag` of wire type `wt` at the start of `buf`
/// (`prost::encoding::skip_field`), returning what follows it.
#[verifier::external_body]
pub(crate) fn skip_field(wt: u8, tag: u32, buf: &[u8]) -> (r: Result<&[u8], prost::DecodeError>)
    requires
        wt <= 5,
    ensures
        match r {
            Ok(rest) => skip_read(wt, tag, buf@) == Some((buf@.len() - rest@.len()) as nat)
                && rest@.len() <= buf@.len() && rest@ == buf@.skip(buf@.len() - rest@.len()),
            Err(_) => skip_read(wt, tag, buf@) is None,
        },
{
    let mut b = buf;
    let wire_type = prost::encoding::WireType::try_from(u64::from(wt)).expect("wire type");
    prost::encoding::skip_field(wire_type, tag, &mut b, prost::encoding::DecodeContext::default())?;
    Ok(b)
}

} // verus!
