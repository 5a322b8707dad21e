//! Reading protocol-buffer bytes back: varints, fields and packed lists as
//! specifications, with the proofs that reading undoes writing.

use vstd::prelude::*;
use crate::wire::{
    fixed64_field, key_bytes, le_bytes, len_field, varint_bytes, varint_field, varints,
};

verus! {

/// The number that the varint at the start of `b` holds, with the count of
/// its bytes; `None` if `b` ends inside it.
pub open spec fn read_varint(b: Seq<u8>) -> Option<(nat, int)>
    decreases b.len(),
{
    if b.len() == 0 {
        None
    } else if b[0] < 128 {
        Some((b[0] as nat, 1))
    } else {
        match read_varint(b.skip(1)) {
            Some(r) => Some(((b[0] - 128 + 128 * r.0) as nat, r.1 + 1)),
            None => None,
        }
    }
}

/// Reading a written varint gives its number and length, whatever follows.
pub proof fn lemma_read_varint(v: nat, rest: Seq<u8>)
    ensures
        read_varint(varint_bytes(v) + rest) == Some((v, varint_bytes(v).len() as int)),
        varint_bytes(v).len() >= 1,
    decreases v,
{
    let b = varint_bytes(v) + rest;
    if v < 128 {
        assert(b[0] == v as u8);
    } else {
        lemma_read_varint(v / 128, rest);
        assert(b[0] == ((v % 128) + 128) as u8);
        assert(b.skip(1) =~= varint_bytes(v / 128) + rest);
    }
}

/// The number that little-endian bytes hold.
pub open spec fn le_value(b: Seq<u8>) -> nat
    decreases b.len(),
{
    if b.len() == 0 {
        0
    } else {
        b[0] as nat + 256 * le_value(b.skip(1))
    }
}

/// The little-endian bytes of a number that fits them hold that number.
pub proof fn lemma_le_value(v: nat, n: nat)
    requires
        v < vstd::arithmetic::power::pow(256, n),
    ensures
        le_bytes(v, n).len() == n,
        le_value(le_bytes(v, n)) == v,
    decreases n,
{
    vstd::arithmetic::power::lemma_pow0(256);
    if n > 0 {
        assert(vstd::arithmetic::power::pow(256, n) == 256 * vstd::arithmetic::power::pow(
            256,
            (n - 1) as nat,
        )) by {
            vstd::arithmetic::power::lemma_pow1(256);
            vstd::arithmetic::power::lemma_pow_adds(256, 1, (n - 1) as nat);
        }
        lemma_le_value(v / 256, (n - 1) as nat);
        assert(le_bytes(v, n).skip(1) =~= le_bytes(v / 256, (n - 1) as nat));
    }
}

/// One field of a message: its number with a varint, with 64 bits, or with
/// a body of bytes.
pub enum Field {
    Varint { tag: nat, value: nat },
    Fixed64 { tag: nat, bits: u64 },
    Len { tag: nat, body: Seq<u8> },
}

/// The bytes of a field.
pub open spec fn field_bytes(f: Field) -> Seq<u8> {
    match f {
        Field::Varint { tag, value } => varint_field(tag, value),
        Field::Fixed64 { tag, bits } => fixed64_field(tag, bits),
        Field::Len { tag, body } => len_field(tag, body),
    }
}

/// The field at the start of `b`, with the count of its bytes; `None` if `b`
/// ends inside it or its wire type is none of the three.
pub open spec fn read_field(b: Seq<u8>) -> Option<(Field, int)> {
    match read_varint(b) {
        None => None,
        Some(key) => {
            let tag = key.0 / 8;
            let rest = b.skip(key.1);
            if key.0 % 8 == 0 {
                match read_varint(rest) {
                    Some(v) => Some((Field::Varint { tag: tag, value: v.0 }, key.1 + v.1)),
                    None => None,
                }
            } else if key.0 % 8 == 1 {
                if rest.len() >= 8 {
                    Some((Field::Fixed64 { tag: tag, bits: le_value(rest.take(8)) as u64 }, key.1 + 8))
                } else {
                    None
                }
            } else if key.0 % 8 == 2 {
                match read_varint(rest) {
                    Some(n) => if rest.len() - n.1 >= n.0 {
                        Some(
                            (
                                Field::Len { tag: tag, body: rest.subrange(n.1, n.1 + n.0) },
                                key.1 + n.1 + n.0,
                            ),
                        )
                    } else {
                        None
                    },
                    None => None,
                }
            } else {
                None
            }
        },
    }
}

/// Reading a written field gives the field and its length, whatever follows.
pub proof fn lemma_read_field(f: Field, rest: Seq<u8>)
    ensures
        read_field(field_bytes(f) + rest) == Some((f, field_bytes(f).len() as int)),
        field_bytes(f).len() >= 1,
{
    let b = field_bytes(f) + rest;
    match f {
        Field::Varint { tag, value } => {
            let k = key_bytes(tag, 0);
            let v = varint_bytes(value);
            assert(b =~= k + (v + rest));
            lemma_read_varint(tag * 8, v + rest);
            assert(b.skip(k.len() as int) =~= v + rest);
            lemma_read_varint(value, rest);
        },
        Field::Fixed64 { tag, bits } => {
            let k = key_bytes(tag, 1);
            let v = le_bytes(bits as nat, 8);
            assert(b =~= k + (v + rest));
            lemma_read_varint(tag * 8 + 1, v + rest);
            assert(b.skip(k.len() as int) =~= v + rest);
            assert(vstd::arithmetic::power::pow(256, 8) == 0x1_0000_0000_0000_0000) by {
                lemma_pow256_8();
            }
            lemma_le_value(bits as nat, 8);
            assert((v + rest).take(8) =~= v);
        },
        Field::Len { tag, body } => {
            let k = key_bytes(tag, 2);
            let n = varint_bytes(body.len());
            assert(b =~= k + (n + (body + rest)));
            lemma_read_varint(tag * 8 + 2, n + (body + rest));
            assert(b.skip(k.len() as int) =~= n + (body + rest));
            lemma_read_varint(body.len(), body + rest);
            assert((n + (body + rest)).subrange(n.len() as int, (n.len() + body.len()) as int) =~= body);
            assert(field_bytes(f) =~= k + n + body);
        },
    }
}

/// `256^8` is `2^64`.
proof fn lemma_pow256_8()
    ensures
        vstd::arithmetic::power::pow(256, 8) == 0x1_0000_0000_0000_0000,
{
    reveal_with_fuel(vstd::arithmetic::power::pow, 9);
}

/// The bytes of fields, one after the other.
pub open spec fn fields_bytes(fs: Seq<Field>) -> Seq<u8>
    decreases fs.len(),
{
    if fs.len() == 0 {
        Seq::<u8>::empty()
    } else {
        field_bytes(fs[0]) + fields_bytes(fs.drop_first())
    }
}

/// The fields that `b` consists of; `None` if `b` is no list of fields.
pub open spec fn read_fields(b: Seq<u8>) -> Option<Seq<Field>>
    decreases b.len(),
{
    if b.len() == 0 {
        Some(Seq::<Field>::empty())
    } else {
        match read_field(b) {
            Some(f) => if 0 < f.1 <= b.len() {
                match read_fields(b.skip(f.1)) {
                    Some(fs) => Some(seq![f.0] + fs),
                    None => None,
                }
            } else {
                None
            },
            None => None,
        }
    }
}

/// Reading written fields gives the fields.
pub proof fn lemma_read_fields(fs: Seq<Field>)
    ensures
        read_fields(fields_bytes(fs)) == Some(fs),
    decreases fs.len(),
{
    if fs.len() > 0 {
        let b = fields_bytes(fs);
        let tail = fields_bytes(fs.drop_first());
        lemma_read_field(fs[0], tail);
        lemma_read_fields(fs.drop_first());
        assert(b.skip(field_bytes(fs[0]).len() as int) =~= tail);
        assert(seq![fs[0]] + fs.drop_first() =~= fs);
    } else {
        assert(fs =~= Seq::<Field>::empty());
    }
}

/// The bytes of two lists of fields are the bytes of the lists joined.
pub proof fn lemma_fields_bytes_add(a: Seq<Field>, b: Seq<Field>)
    ensures
        fields_bytes(a + b) == fields_bytes(a) + fields_bytes(b),
    decreases a.len(),
{
    if a.len() == 0 {
        assert(a + b =~= b);
        assert(fields_bytes(a) + fields_bytes(b) =~= fields_bytes(b));
    } else {
        lemma_fields_bytes_add(a.drop_first(), b);
        assert((a + b).drop_first() =~= a.drop_first() + b);
        assert((a + b)[0] == a[0]);
        assert(fields_bytes(a + b) =~= fields_bytes(a) + fields_bytes(b));
    }
}

/// The 32-bit numbers that the varints of `b` hold; `None` if `b` is no list
/// of varints or one of them does not fit.
pub open spec fn read_packed(b: Seq<u8>) -> Option<Seq<u32>>
    decreases b.len(),
{
    if b.len() == 0 {
        Some(Seq::<u32>::empty())
    } else {
        match read_varint(b) {
            Some(v) => if 0 < v.1 <= b.len() && v.0 <= u32::MAX {
                match read_packed(b.skip(v.1)) {
                    Some(vs) => Some(seq![v.0 as u32] + vs),
                    None => None,
                }
            } else {
                None
            },
            None => None,
        }
    }
}

/// The varints of a list are those of its first number, then the others'.
proof fn lemma_varints_front(vals: Seq<u32>)
    requires
        vals.len() > 0,
    ensures
        varints(vals) == varint_bytes(vals[0] as nat) + varints(vals.drop_first()),
    decreases vals.len(),
{
    if vals.len() == 1 {
        assert(vals.drop_last() =~= Seq::<u32>::empty());
        assert(vals.drop_first() =~= Seq::<u32>::empty());
        assert(varints(vals) =~= varint_bytes(vals[0] as nat) + varints(vals.drop_first()));
    } else {
        lemma_varints_front(vals.drop_last());
        assert(vals.drop_last().drop_first() =~= vals.drop_first().drop_last());
        assert(vals.drop_first().last() == vals.last());
        assert(vals.drop_last()[0] == vals[0]);
        assert(varints(vals) =~= varint_bytes(vals[0] as nat) + varints(vals.drop_first()));
    }
}

/// Reading written varints gives their numbers.
pub proof fn lemma_read_packed(vals: Seq<u32>)
    ensures
        read_packed(varints(vals)) == Some(vals),
    decreases vals.len(),
{
    if vals.len() > 0 {
        let tail = varints(vals.drop_first());
        lemma_varints_front(vals);
        lemma_read_varint(vals[0] as nat, tail);
        lemma_read_packed(vals.drop_first());
        assert(varints(vals).skip(varint_bytes(vals[0] as nat).len() as int) =~= tail);
        assert(seq![vals[0]] + vals.drop_first() =~= vals);
    } else {
        assert(vals =~= Seq::<u32>::empty());
    }
}

} // verus!
