//! Protocol-buffer wire primitives: varints, field keys and length-delimited
//! fields, each with the bytes it appends stated as a specification.

use vstd::prelude::*;

verus! {

/// Wire type of a varint field.
pub const WIRE_VARINT: u8 = 0;

/// Wire type of a 64-bit little-endian field.
pub const WIRE_FIXED64: u8 = 1;

/// Wire type of a length-delimited field.
pub const WIRE_LEN: u8 = 2;

/// The LEB128 bytes of `v`: seven bits per byte, least significant group first,
/// the top bit set on every byte but the last.
pub open spec fn varint_bytes(v: nat) -> Seq<u8>
    decreases v,
{
    if v < 128 {
        seq![v as u8]
    } else {
        seq![((v % 128) + 128) as u8] + varint_bytes(v / 128)
    }
}

/// The `n` low bytes of `v`, least significant first.
pub open spec fn le_bytes(v: nat, n: nat) -> Seq<u8>
    decreases n,
{
    if n == 0 {
        Seq::<u8>::empty()
    } else {
        seq![(v % 256) as u8] + le_bytes(v / 256, (n - 1) as nat)
    }
}

/// Zig-zag code of a signed number: `0, -1, 1, -2, ..` become `0, 1, 2, 3, ..`.
pub open spec fn zigzag(n: int) -> int {
    if n >= 0 {
        2 * n
    } else {
        -2 * n - 1
    }
}

/// The signed number that a zig-zag code stands for.
pub open spec fn zigzag_decode(u: int) -> int {
    if u % 2 == 0 {
        u / 2
    } else {
        -(u / 2) - 1
    }
}

/// A signed 32-bit number as the unsigned number with the same bits.
pub open spec fn twos_complement32(i: i32) -> nat {
    if i >= 0 {
        i as nat
    } else {
        (i + 0x1_0000_0000) as nat
    }
}

/// The key that opens a field: its number and wire type in one varint.
pub open spec fn key_bytes(tag: nat, wire_type: nat) -> Seq<u8> {
    varint_bytes(tag * 8 + wire_type)
}

/// A varint field.
pub open spec fn varint_field(tag: nat, v: nat) -> Seq<u8> {
    key_bytes(tag, WIRE_VARINT as nat) + varint_bytes(v)
}

/// A 64-bit field holding `bits` in little-endian order.
pub open spec fn fixed64_field(tag: nat, bits: u64) -> Seq<u8> {
    key_bytes(tag, WIRE_FIXED64 as nat) + le_bytes(bits as nat, 8)
}

/// A length-delimited field: key, byte count, then the body.
pub open spec fn len_field(tag: nat, body: Seq<u8>) -> Seq<u8> {
    key_bytes(tag, WIRE_LEN as nat) + varint_bytes(body.len()) + body
}

/// The varints of `vals`, one after the other.
pub open spec fn varints(vals: Seq<u32>) -> Seq<u8>
    decreases vals.len(),
{
    if vals.len() == 0 {
        Seq::<u8>::empty()
    } else {
        varints(vals.drop_last()) + varint_bytes(vals.last() as nat)
    }
}

/// A packed repeated `uint32` field; an empty list leaves no bytes.
pub open spec fn packed_field(tag: nat, vals: Seq<u32>) -> Seq<u8> {
    if vals.len() == 0 {
        Seq::<u8>::empty()
    } else {
        len_field(tag, varints(vals))
    }
}

/// Appends `value` as a varint by calling `prost::encoding::encode_varint`,
/// which writes seven bits per byte, low group first, and sets the top bit of
/// every byte that another follows; a `Vec<u8>` grows as bytes are put.
#[verifier::external_body]
pub(crate) fn put_varint(buf: &mut Vec<u8>, value: u64)
    ensures
        final(buf)@ == old(buf)@ + varint_bytes(value as nat),
{
    prost::encoding::encode_varint(value, buf)
}

/// The eight bytes of `bits`, low byte first, as
/// `byteorder::ByteOrder::write_u64` of `LittleEndian` lays them out in a
/// buffer of eight bytes.
#[verifier::external_body]
pub(crate) fn u64_le(bits: u64) -> (r: [u8; 8])
    ensures
        r@ == le_bytes(bits as nat, 8),
{
    let mut bytes = [0u8; 8];
    <byteorder::LittleEndian as byteorder::ByteOrder>::write_u64(&mut bytes, bits);
    bytes
}

/// The four bytes of `v` in two's complement, low byte first, as
/// `byteorder::ByteOrder::write_i32` of `LittleEndian` lays them out in a
/// buffer of four bytes.
#[verifier::external_body]
pub(crate) fn i32_le(v: i32) -> (r: [u8; 4])
    ensures
        r@ == le_bytes(twos_complement32(v), 4),
{
    let mut bytes = [0u8; 4];
    <byteorder::LittleEndian as byteorder::ByteOrder>::write_i32(&mut bytes, v);
    bytes
}

/// Appends `bytes` to `buf`.
pub fn put_bytes(buf: &mut Vec<u8>, bytes: &[u8])
    ensures
        final(buf)@ == old(buf)@ + bytes@,
{
    let mut i: usize = 0;
    while i < bytes.len()
        invariant
            i <= bytes.len(),
            buf@ == old(buf)@ + bytes@.take(i as int),
        decreases bytes.len() - i,
    {
        buf.push(bytes[i]);
        assert(bytes@.take(i + 1) == bytes@.take(i as int).push(bytes@[i as int]));
        i += 1;
    }
    assert(bytes@.take(i as int) == bytes@);
}

/// Appends the key of field `tag` with the given wire type.
pub fn put_key(buf: &mut Vec<u8>, tag: u32, wire_type: u8)
    requires
        wire_type < 8,
    ensures
        final(buf)@ == old(buf)@ + key_bytes(tag as nat, wire_type as nat),
{
    let key: u64 = (tag as u64) * 8 + (wire_type as u64);
    put_varint(buf, key);
}

/// Appends a varint field.
pub fn put_varint_field(buf: &mut Vec<u8>, tag: u32, value: u64)
    ensures
        final(buf)@ == old(buf)@ + varint_field(tag as nat, value as nat),
{
    put_key(buf, tag, WIRE_VARINT);
    put_varint(buf, value);
}

/// Appends a length-delimited field with the given body.
pub fn put_len_field(buf: &mut Vec<u8>, tag: u32, body: &[u8])
    ensures
        final(buf)@ == old(buf)@ + len_field(tag as nat, body@),
{
    put_key(buf, tag, WIRE_LEN);
    put_varint(buf, body.len() as u64);
    put_bytes(buf, body);
}

/// Appends a packed repeated `uint32` field.
pub fn put_packed_field(buf: &mut Vec<u8>, tag: u32, vals: &Vec<u32>)
    ensures
        final(buf)@ == old(buf)@ + packed_field(tag as nat, vals@),
{
    if vals.len() == 0 {
        assert(buf@ == old(buf)@ + Seq::<u8>::empty());
        return ;
    }
    let mut body: Vec<u8> = Vec::new();
    let mut i: usize = 0;
    while i < vals.len()
        invariant
            i <= vals.len(),
            body@ == varints(vals@.take(i as int)),
        decreases vals.len() - i,
    {
        put_varint(&mut body, vals[i] as u64);
        assert(vals@.take(i + 1).drop_last() == vals@.take(i as int));
        i += 1;
    }
    assert(vals@.take(i as int) == vals@);
    put_len_field(buf, tag, body.as_slice());
}

} // verus!
