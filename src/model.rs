//! The mathematical model of packing: field types and values as plain
//! values (a nested record is the sequence of its fields), and what size,
//! pack and unpack compute on them.

use vstd::prelude::*;
use crate::bytes::{
    lemma_le_value_bound, lemma_uint_bytes_len, lemma_uint_bytes_of_value,
    lemma_uint_value_of_bytes, pow256, uint_bytes, uint_value,
};
use crate::field::PackableError;

verus! {

/// A field type: a scalar, or a record made of fields of the given types.
pub enum Kind {
    U8,
    U16,
    U32,
    U64,
    Bool,
    Record(Seq<Kind>),
}

/// A field value: a scalar, or a record with the given field values.
pub enum Value {
    U8(u8),
    U16(u16),
    U32(u32),
    U64(u64),
    Bool(bool),
    Record(Seq<Value>),
}

impl Value {
    /// The number that a scalar's bytes encode (a boolean is 0 or 1).
    pub open spec fn number(self) -> nat {
        match self {
            Value::U8(v) => v as nat,
            Value::U16(v) => v as nat,
            Value::U32(v) => v as nat,
            Value::U64(v) => v as nat,
            Value::Bool(b) => if b {
                1
            } else {
                0
            },
            Value::Record(_) => 0,
        }
    }

    /// The number of bytes of a scalar.
    pub open spec fn width(self) -> nat {
        match self {
            Value::U8(_) => 1,
            Value::U16(_) => 2,
            Value::U32(_) => 4,
            Value::U64(_) => 8,
            Value::Bool(_) => 1,
            Value::Record(_) => 0,
        }
    }

    /// The scalar of this one's type that the number `n` stands for, where
    /// one does.
    pub open spec fn with_number(self, n: nat) -> Option<Value> {
        match self {
            Value::U8(_) => Some(Value::U8(n as u8)),
            Value::U16(_) => Some(Value::U16(n as u16)),
            Value::U32(_) => Some(Value::U32(n as u32)),
            Value::U64(_) => Some(Value::U64(n as u64)),
            Value::Bool(_) => if n == 0 {
                Some(Value::Bool(false))
            } else if n == 1 {
                Some(Value::Bool(true))
            } else {
                None
            },
            Value::Record(_) => None,
        }
    }
}

pub open spec fn kind_of(v: Value) -> Kind
    decreases v,
{
    match v {
        Value::U8(_) => Kind::U8,
        Value::U16(_) => Kind::U16,
        Value::U32(_) => Kind::U32,
        Value::U64(_) => Kind::U64,
        Value::Bool(_) => Kind::Bool,
        Value::Record(vs) => Kind::Record(kinds_of(vs)),
    }
}

/// The field types of a record, in order.
pub open spec fn kinds_of(vs: Seq<Value>) -> Seq<Kind>
    decreases vs,
{
    if vs.len() == 0 {
        seq![]
    } else {
        seq![kind_of(vs[0])] + kinds_of(vs.drop_first())
    }
}

/// The zero value of a type: zero numbers, false, and records of zeros.
pub open spec fn zero_of(k: Kind) -> Value
    decreases k,
{
    match k {
        Kind::U8 => Value::U8(0),
        Kind::U16 => Value::U16(0),
        Kind::U32 => Value::U32(0),
        Kind::U64 => Value::U64(0),
        Kind::Bool => Value::Bool(false),
        Kind::Record(ks) => Value::Record(zeroed(ks)),
    }
}

/// A fresh record of the given field types with every field zero.
pub open spec fn zeroed(ks: Seq<Kind>) -> Seq<Value>
    decreases ks,
{
    if ks.len() == 0 {
        seq![]
    } else {
        seq![zero_of(ks[0])] + zeroed(ks.drop_first())
    }
}

/// How many bytes a value packs to.
pub open spec fn value_size(v: Value) -> nat
    decreases v,
{
    match v {
        Value::Record(vs) => size_of(vs),
        _ => v.width(),
    }
}

/// The sum of the fields' sizes.
pub open spec fn size_of(vs: Seq<Value>) -> nat
    decreases vs,
{
    if vs.len() == 0 {
        0
    } else {
        value_size(vs[0]) + size_of(vs.drop_first())
    }
}

/// A value's bytes: a scalar's number on its width in the selected byte
/// order, a record's fields' bytes one after the other.
pub open spec fn value_pack(v: Value, little_endian: bool) -> Seq<u8>
    decreases v,
{
    match v {
        Value::Record(vs) => pack_of(vs, little_endian),
        _ => uint_bytes(v.number(), v.width(), little_endian),
    }
}

/// The fields' bytes, concatenated in declaration order, each under the
/// same byte order.
pub open spec fn pack_of(vs: Seq<Value>, little_endian: bool) -> Seq<u8>
    decreases vs,
{
    if vs.len() == 0 {
        seq![]
    } else {
        value_pack(vs[0], little_endian) + pack_of(vs.drop_first(), little_endian)
    }
}

/// Unpacking a scalar from the front of `data`: the new value, the bytes
/// left and the outcome. On failure the value and the bytes stay.
pub open spec fn scalar_unpack(v: Value, data: Seq<u8>, little_endian: bool) -> (
    Value,
    Seq<u8>,
    Result<(), PackableError>,
) {
    let w = v.width();
    if data.len() < w {
        (
            v,
            data,
            Err(PackableError::NotEnoughData { needed: w as usize, available: data.len() as usize }),
        )
    } else {
        match v.with_number(uint_value(data.take(w as int), little_endian)) {
            Some(g) => (g, data.skip(w as int), Ok(())),
            None => (v, data, Err(PackableError::InvalidBool { byte: data[0] })),
        }
    }
}

/// Unpacking into the value `v` from the front of `data`: the value
/// afterwards, the bytes left and the outcome.
pub open spec fn value_unpack(v: Value, data: Seq<u8>, little_endian: bool) -> (
    Value,
    Seq<u8>,
    Result<(), PackableError>,
)
    decreases v,
{
    match v {
        Value::Record(vs) => {
            let (ws, left, r) = unpack_of(vs, data, little_endian);
            (Value::Record(ws), left, r)
        },
        _ => scalar_unpack(v, data, little_endian),
    }
}

/// Unpacks the fields in declaration order from the front of `data`, each
/// taking the bytes it claims, and stops at the first field that fails,
/// passing its error on. Gives the fields afterwards, the bytes left and the
/// outcome: the fields before the failing one hold their new values, the
/// ones after it their old ones.
pub open spec fn unpack_of(vs: Seq<Value>, data: Seq<u8>, little_endian: bool) -> (
    Seq<Value>,
    Seq<u8>,
    Result<(), PackableError>,
)
    decreases vs,
{
    if vs.len() == 0 {
        (vs, data, Ok(()))
    } else {
        let (w, mid, r0) = value_unpack(vs[0], data, little_endian);
        if r0 is Err {
            (seq![w] + vs.drop_first(), mid, r0)
        } else {
            let (tail, left, r) = unpack_of(vs.drop_first(), mid, little_endian);
            (seq![w] + tail, left, r)
        }
    }
}

/// Where the bytes of field `i` begin in the packed record.
pub open spec fn offset_of(vs: Seq<Value>, i: int) -> nat {
    size_of(vs.take(i))
}

pub proof fn lemma_kinds_index(vs: Seq<Value>)
    ensures
        kinds_of(vs).len() == vs.len(),
        forall|i: int| 0 <= i < vs.len() ==> #[trigger] kinds_of(vs)[i] == kind_of(vs[i]),
    decreases vs.len(),
{
    if vs.len() > 0 {
        lemma_kinds_index(vs.drop_first());
        assert forall|i: int| 0 <= i < vs.len() implies #[trigger] kinds_of(vs)[i] == kind_of(
            vs[i],
        ) by {
            if i > 0 {
                assert(kinds_of(vs.drop_first())[i - 1] == kind_of(vs.drop_first()[i - 1]));
            }
        }
    }
}

pub proof fn lemma_zeroed_index(ks: Seq<Kind>)
    ensures
        zeroed(ks).len() == ks.len(),
        forall|i: int| 0 <= i < ks.len() ==> #[trigger] zeroed(ks)[i] == zero_of(ks[i]),
    decreases ks.len(),
{
    if ks.len() > 0 {
        lemma_zeroed_index(ks.drop_first());
        assert forall|i: int| 0 <= i < ks.len() implies #[trigger] zeroed(ks)[i] == zero_of(ks[i]) by {
            if i > 0 {
                assert(zeroed(ks.drop_first())[i - 1] == zero_of(ks.drop_first()[i - 1]));
            }
        }
    }
}

pub proof fn lemma_kind_of_zero(k: Kind)
    ensures
        kind_of(zero_of(k)) == k,
    decreases k,
{
    if let Kind::Record(ks) = k {
        lemma_kinds_of_zeroed(ks);
    }
}

pub proof fn lemma_kinds_of_zeroed(ks: Seq<Kind>)
    ensures
        kinds_of(zeroed(ks)) == ks,
    decreases ks,
{
    if ks.len() > 0 {
        lemma_kind_of_zero(ks[0]);
        lemma_kinds_of_zeroed(ks.drop_first());
        let z = zeroed(ks);
        assert(z.drop_first() =~= zeroed(ks.drop_first()));
        assert(kinds_of(z) =~= ks);
    } else {
        assert(kinds_of(zeroed(ks)) =~= ks);
    }
}

pub proof fn lemma_value_pack_len(v: Value, little_endian: bool)
    ensures
        value_pack(v, little_endian).len() == value_size(v),
    decreases v,
{
    match v {
        Value::Record(vs) => lemma_size_matches_pack(vs, little_endian),
        _ => lemma_uint_bytes_len(v.number(), v.width(), little_endian),
    }
}

/// A record's size is the length of its packed bytes, in either byte order,
/// nested records included.
pub proof fn lemma_size_matches_pack(vs: Seq<Value>, little_endian: bool)
    ensures
        pack_of(vs, little_endian).len() == size_of(vs),
    decreases vs,
{
    if vs.len() > 0 {
        lemma_value_pack_len(vs[0], little_endian);
        lemma_size_matches_pack(vs.drop_first(), little_endian);
    }
}

pub proof fn lemma_concat(a: Seq<Value>, b: Seq<Value>, little_endian: bool)
    ensures
        size_of(a + b) == size_of(a) + size_of(b),
        pack_of(a + b, little_endian) == pack_of(a, little_endian) + pack_of(b, little_endian),
    decreases a.len(),
{
    if a.len() == 0 {
        assert(a + b =~= b);
    } else {
        lemma_concat(a.drop_first(), b, little_endian);
        assert((a + b).drop_first() =~= a.drop_first() + b);
        assert(pack_of(a + b, little_endian) =~= pack_of(a, little_endian) + pack_of(
            b,
            little_endian,
        ));
    }
}

pub proof fn lemma_split_at(vs: Seq<Value>, i: int, little_endian: bool)
    requires
        0 <= i <= vs.len(),
    ensures
        size_of(vs) == size_of(vs.take(i)) + size_of(vs.skip(i)),
        pack_of(vs, little_endian) == pack_of(vs.take(i), little_endian) + pack_of(
            vs.skip(i),
            little_endian,
        ),
{
    assert(vs.take(i) + vs.skip(i) =~= vs);
    lemma_concat(vs.take(i), vs.skip(i), little_endian);
}

pub proof fn lemma_one(v: Value, little_endian: bool)
    ensures
        size_of(seq![v]) == value_size(v),
        pack_of(seq![v], little_endian) == value_pack(v, little_endian),
{
    let e = seq![v].drop_first();
    assert(e =~= Seq::<Value>::empty());
    assert(size_of(e) == 0);
    assert(pack_of(e, little_endian) =~= Seq::<u8>::empty());
    assert(pack_of(seq![v], little_endian) =~= value_pack(v, little_endian));
}

pub proof fn lemma_take_next(vs: Seq<Value>, i: int, little_endian: bool)
    requires
        0 <= i < vs.len(),
    ensures
        size_of(vs.take(i + 1)) == size_of(vs.take(i)) + value_size(vs[i]),
        pack_of(vs.take(i + 1), little_endian) == pack_of(vs.take(i), little_endian) + value_pack(
            vs[i],
            little_endian,
        ),
{
    assert(vs.take(i + 1) =~= vs.take(i) + seq![vs[i]]);
    lemma_concat(vs.take(i), seq![vs[i]], little_endian);
    lemma_one(vs[i], little_endian);
}

proof fn lemma_number_fits(v: Value)
    ensures
        v.number() < pow256(v.width()) || v is Record,
{
    reveal_with_fuel(pow256, 9);
}

/// Unpacking a value's own bytes, followed by anything, into a value of the
/// same type gives the value back and leaves what followed.
pub proof fn lemma_value_round_trip(v: Value, g: Value, extra: Seq<u8>, little_endian: bool)
    requires
        kind_of(g) == kind_of(v),
    ensures
        value_unpack(g, value_pack(v, little_endian) + extra, little_endian) == (
            v,
            extra,
            Ok::<(), PackableError>(()),
        ),
    decreases v,
{
    match v {
        Value::Record(vs) => {
            let gs = g->Record_0;
            lemma_round_trip_with_rest(vs, gs, extra, little_endian);
        },
        _ => {
            let w = v.width();
            let bytes = value_pack(v, little_endian);
            lemma_uint_bytes_len(v.number(), w, little_endian);
            lemma_number_fits(v);
            lemma_uint_value_of_bytes(v.number(), w, little_endian);
            assert((bytes + extra).take(w as int) =~= bytes);
            assert((bytes + extra).skip(w as int) =~= extra);
        },
    }
}

/// Unpacking a record's packed bytes, followed by anything, under the same
/// byte order into a record of the same field types succeeds, gives the
/// record back and leaves what followed.
pub proof fn lemma_round_trip_with_rest(
    vs: Seq<Value>,
    gs: Seq<Value>,
    extra: Seq<u8>,
    little_endian: bool,
)
    requires
        kinds_of(gs) == kinds_of(vs),
    ensures
        unpack_of(gs, pack_of(vs, little_endian) + extra, little_endian) == (
            vs,
            extra,
            Ok::<(), PackableError>(()),
        ),
    decreases vs,
{
    lemma_kinds_index(vs);
    lemma_kinds_index(gs);
    if vs.len() == 0 {
        assert(gs =~= vs);
        assert(pack_of(vs, little_endian) + extra =~= extra);
    } else {
        assert(kinds_of(gs)[0] == kinds_of(vs)[0]);
        assert(kinds_of(gs)[0] == kind_of(gs[0]));
        assert(kinds_of(vs)[0] == kind_of(vs[0]));
        let rest = pack_of(vs.drop_first(), little_endian) + extra;
        assert(pack_of(vs, little_endian) + extra =~= value_pack(vs[0], little_endian) + rest);
        lemma_value_round_trip(vs[0], gs[0], rest, little_endian);
        assert(kinds_of(gs).drop_first() =~= kinds_of(gs.drop_first()));
        assert(kinds_of(vs).drop_first() =~= kinds_of(vs.drop_first()));
        lemma_round_trip_with_rest(vs.drop_first(), gs.drop_first(), extra, little_endian);
        assert(seq![vs[0]] + vs.drop_first() =~= vs);
    }
}

/// Unpacking a record's packed bytes, under the same byte order, into a
/// fresh record of the same field types with every field zero succeeds,
/// gives the record back and consumes every byte.
pub proof fn lemma_round_trip(vs: Seq<Value>, little_endian: bool)
    ensures
        unpack_of(zeroed(kinds_of(vs)), pack_of(vs, little_endian), little_endian) == (
            vs,
            Seq::<u8>::empty(),
            Ok::<(), PackableError>(()),
        ),
{
    lemma_kinds_of_zeroed(kinds_of(vs));
    assert(pack_of(vs, little_endian) + Seq::<u8>::empty() =~= pack_of(vs, little_endian));
    lemma_round_trip_with_rest(vs, zeroed(kinds_of(vs)), Seq::<u8>::empty(), little_endian);
}

/// A record is itself a packable field: as a field of another record, its
/// size is the length of its bytes and it unpacks from them into a zero
/// value of its type, so both laws carry over to nested records.
pub proof fn lemma_record_as_field(vs: Seq<Value>, little_endian: bool)
    ensures
        value_pack(Value::Record(vs), little_endian).len() == value_size(Value::Record(vs)),
        value_unpack(
            zero_of(kind_of(Value::Record(vs))),
            value_pack(Value::Record(vs), little_endian),
            little_endian,
        ) == (Value::Record(vs), Seq::<u8>::empty(), Ok::<(), PackableError>(())),
{
    lemma_size_matches_pack(vs, little_endian);
    lemma_round_trip(vs, little_endian);
}

proof fn lemma_scalar_unpack_consumes(v: Value, data: Seq<u8>, little_endian: bool)
    requires
        !(v is Record),
        scalar_unpack(v, data, little_endian).2 is Ok,
    ensures
        ({
            let (w, rest, _r) = scalar_unpack(v, data, little_endian);
            &&& kind_of(w) == kind_of(v)
            &&& value_size(w) == value_size(v)
            &&& data == value_pack(w, little_endian) + rest
        }),
{
    let n = v.width();
    let head = data.take(n as int);
    lemma_uint_bytes_of_value(head, little_endian);
    reveal_with_fuel(pow256, 9);
    lemma_le_value_bound(head);
    lemma_le_value_bound(head.reverse());
    let (w, rest, _r) = scalar_unpack(v, data, little_endian);
    assert(w.number() == uint_value(head, little_endian));
    assert(data =~= head + rest);
}

/// What a successful unpack into a value consumed is exactly the bytes of
/// the new value, which has the same type and size.
pub proof fn lemma_value_unpack_consumes(v: Value, data: Seq<u8>, little_endian: bool)
    requires
        value_unpack(v, data, little_endian).2 is Ok,
    ensures
        ({
            let (w, rest, _r) = value_unpack(v, data, little_endian);
            &&& kind_of(w) == kind_of(v)
            &&& value_size(w) == value_size(v)
            &&& rest.len() + value_size(v) == data.len()
            &&& data == value_pack(w, little_endian) + rest
        }),
    decreases v,
{
    let (w, rest, _r) = value_unpack(v, data, little_endian);
    match v {
        Value::Record(vs) => lemma_unpack_consumes_size(vs, data, little_endian),
        _ => lemma_scalar_unpack_consumes(v, data, little_endian),
    }
    lemma_value_pack_len(w, little_endian);
}

/// After a successful unpack the buffer has lost exactly the record's size
/// from its front, the field types are unchanged, and the bytes consumed are
/// those that the new field values pack to.
pub proof fn lemma_unpack_consumes_size(vs: Seq<Value>, data: Seq<u8>, little_endian: bool)
    requires
        unpack_of(vs, data, little_endian).2 is Ok,
    ensures
        ({
            let (ws, rest, _r) = unpack_of(vs, data, little_endian);
            &&& kinds_of(ws) == kinds_of(vs)
            &&& size_of(ws) == size_of(vs)
            &&& rest.len() + size_of(vs) == data.len()
            &&& data == pack_of(ws, little_endian) + rest
        }),
    decreases vs,
{
    if vs.len() == 0 {
        assert(pack_of(vs, little_endian) + data =~= data);
    } else {
        let (w, mid, r0) = value_unpack(vs[0], data, little_endian);
        lemma_value_unpack_consumes(vs[0], data, little_endian);
        lemma_unpack_consumes_size(vs.drop_first(), mid, little_endian);
        let (ws, rest, _r) = unpack_of(vs, data, little_endian);
        let (tail, left, _r2) = unpack_of(vs.drop_first(), mid, little_endian);
        assert(ws == seq![w] + tail);
        assert(ws.drop_first() =~= tail);
        assert(kinds_of(ws) =~= kinds_of(vs));
        assert(data =~= pack_of(ws, little_endian) + rest);
    }
}

/// Field `i`'s bytes sit between its offset and the next one, packed under
/// the record's byte order. A scalar's big-endian bytes are the reverse of
/// its little-endian ones, so a one-byte scalar packs alike under both.
pub proof fn lemma_endianness(vs: Seq<Value>, i: int)
    requires
        0 <= i < vs.len(),
    ensures
        ({
            let a = offset_of(vs, i) as int;
            let b = offset_of(vs, i + 1) as int;
            &&& b == a + value_size(vs[i])
            &&& pack_of(vs, true).subrange(a, b) == value_pack(vs[i], true)
            &&& pack_of(vs, false).subrange(a, b) == value_pack(vs[i], false)
            &&& !(vs[i] is Record) ==> value_pack(vs[i], false) == value_pack(vs[i], true).reverse()
            &&& !(vs[i] is Record) && value_size(vs[i]) == 1 ==> pack_of(vs, false).subrange(a, b)
                == pack_of(vs, true).subrange(a, b)
        }),
{
    lemma_take_next(vs, i, true);
    lemma_take_next(vs, i, false);
    lemma_split_at(vs, i + 1, true);
    lemma_split_at(vs, i + 1, false);
    lemma_size_matches_pack(vs.take(i), true);
    lemma_size_matches_pack(vs.take(i), false);
    lemma_value_pack_len(vs[i], true);
    lemma_value_pack_len(vs[i], false);
    let a = offset_of(vs, i) as int;
    let b = offset_of(vs, i + 1) as int;
    assert(pack_of(vs, true).subrange(a, b) =~= value_pack(vs[i], true));
    assert(pack_of(vs, false).subrange(a, b) =~= value_pack(vs[i], false));
    if !(vs[i] is Record) && value_size(vs[i]) == 1 {
        assert(value_pack(vs[i], true).reverse() =~= value_pack(vs[i], true));
    }
}

/// Swapping two neighbouring fields keeps the size but moves their bytes:
/// in one order `a`'s bytes come first, in the other they follow `b`'s.
pub proof fn lemma_swap_moves_fields(
    pre: Seq<Value>,
    a: Value,
    b: Value,
    post: Seq<Value>,
    little_endian: bool,
)
    ensures
        ({
            let p = size_of(pre) as int;
            let sa = value_size(a) as int;
            let sb = value_size(b) as int;
            let ab = pack_of(pre + seq![a, b] + post, little_endian);
            let ba = pack_of(pre + seq![b, a] + post, little_endian);
            &&& size_of(pre + seq![a, b] + post) == size_of(pre + seq![b, a] + post)
            &&& ab.subrange(p, p + sa) == value_pack(a, little_endian)
            &&& ab.subrange(p + sa, p + sa + sb) == value_pack(b, little_endian)
            &&& ba.subrange(p, p + sb) == value_pack(b, little_endian)
            &&& ba.subrange(p + sb, p + sb + sa) == value_pack(a, little_endian)
        }),
{
    assert(seq![a, b] =~= seq![a] + seq![b]);
    assert(seq![b, a] =~= seq![b] + seq![a]);
    lemma_one(a, little_endian);
    lemma_one(b, little_endian);
    lemma_value_pack_len(a, little_endian);
    lemma_value_pack_len(b, little_endian);
    lemma_size_matches_pack(pre, little_endian);
    lemma_concat(seq![a], seq![b], little_endian);
    lemma_concat(seq![b], seq![a], little_endian);
    lemma_concat(pre, seq![a, b], little_endian);
    lemma_concat(pre, seq![b, a], little_endian);
    lemma_concat(pre + seq![a, b], post, little_endian);
    lemma_concat(pre + seq![b, a], post, little_endian);
    let p = size_of(pre) as int;
    let sa = value_size(a) as int;
    let sb = value_size(b) as int;
    let ab = pack_of(pre + seq![a, b] + post, little_endian);
    let ba = pack_of(pre + seq![b, a] + post, little_endian);
    assert(ab.subrange(p, p + sa) =~= value_pack(a, little_endian));
    assert(ab.subrange(p + sa, p + sa + sb) =~= value_pack(b, little_endian));
    assert(ba.subrange(p, p + sb) =~= value_pack(b, little_endian));
    assert(ba.subrange(p + sb, p + sb + sa) =~= value_pack(a, little_endian));
}

} // verus!
