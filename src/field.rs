//! Fields: scalars and nested records, each with its own size, pack and
//! unpack, and the error that an unpack reports.

use vstd::prelude::*;
use crate::bytes::{decode_uint, encode_uint};
use crate::model::{
    lemma_zeroed_index, scalar_unpack, value_pack, value_size, value_unpack, zero_of, zeroed, Kind,
    Value,
};
use crate::record::Record;

verus! {

/// The declared type of a field.
#[derive(Debug, PartialEq, Eq)]
pub enum FieldKind {
    U8,
    U16,
    U32,
    U64,
    Bool,
    /// A record whose fields have these types, in order.
    Record(Vec<FieldKind>),
}

/// The value of one field, tagged with its type.
#[derive(Debug, PartialEq, Eq)]
pub enum Field {
    U8(u8),
    U16(u16),
    U32(u32),
    U64(u64),
    Bool(bool),
    Record(Record),
}

/// Why an unpack could not complete.
#[derive(Clone, Copy, Debug, PartialEq, Eq, Structural)]
pub enum PackableError {
    /// The buffer held `available` bytes where the field needs `needed`.
    NotEnoughData { needed: usize, available: usize },
    /// A boolean field was encoded by a byte other than 0 or 1.
    InvalidBool { byte: u8 },
}

pub open spec fn kind_view(k: FieldKind) -> Kind
    decreases k,
{
    match k {
        FieldKind::U8 => Kind::U8,
        FieldKind::U16 => Kind::U16,
        FieldKind::U32 => Kind::U32,
        FieldKind::U64 => Kind::U64,
        FieldKind::Bool => Kind::Bool,
        FieldKind::Record(ks) => Kind::Record(kinds_view(ks@)),
    }
}

pub open spec fn kinds_view(ks: Seq<FieldKind>) -> Seq<Kind>
    decreases ks,
{
    if ks.len() == 0 {
        seq![]
    } else {
        seq![kind_view(ks[0])] + kinds_view(ks.drop_first())
    }
}

pub open spec fn field_view(f: Field) -> Value
    decreases f,
{
    match f {
        Field::U8(v) => Value::U8(v),
        Field::U16(v) => Value::U16(v),
        Field::U32(v) => Value::U32(v),
        Field::U64(v) => Value::U64(v),
        Field::Bool(b) => Value::Bool(b),
        Field::Record(r) => Value::Record(fields_view(r.fields@)),
    }
}

pub open spec fn fields_view(fs: Seq<Field>) -> Seq<Value>
    decreases fs,
{
    if fs.len() == 0 {
        seq![]
    } else {
        seq![field_view(fs[0])] + fields_view(fs.drop_first())
    }
}

pub proof fn lemma_kinds_view_index(ks: Seq<FieldKind>)
    ensures
        kinds_view(ks).len() == ks.len(),
        forall|i: int| 0 <= i < ks.len() ==> #[trigger] kinds_view(ks)[i] == kind_view(ks[i]),
    decreases ks.len(),
{
    if ks.len() > 0 {
        lemma_kinds_view_index(ks.drop_first());
        assert forall|i: int| 0 <= i < ks.len() implies #[trigger] kinds_view(ks)[i] == kind_view(
            ks[i],
        ) by {
            if i > 0 {
                assert(kinds_view(ks.drop_first())[i - 1] == kind_view(ks.drop_first()[i - 1]));
            }
        }
    }
}

pub proof fn lemma_fields_view_index(fs: Seq<Field>)
    ensures
        fields_view(fs).len() == fs.len(),
        forall|i: int| 0 <= i < fs.len() ==> #[trigger] fields_view(fs)[i] == field_view(fs[i]),
    decreases fs.len(),
{
    if fs.len() > 0 {
        lemma_fields_view_index(fs.drop_first());
        assert forall|i: int| 0 <= i < fs.len() implies #[trigger] fields_view(fs)[i] == field_view(
            fs[i],
        ) by {
            if i > 0 {
                assert(fields_view(fs.drop_first())[i - 1] == field_view(fs.drop_first()[i - 1]));
            }
        }
    }
}

impl View for FieldKind {
    type V = Kind;

    open spec fn view(&self) -> Kind {
        kind_view(*self)
    }
}

impl View for Field {
    type V = Value;

    open spec fn view(&self) -> Value {
        field_view(*self)
    }
}

impl FieldKind {
    /// The zero value of this type: zero numbers, false, records of zeros.
    pub fn zero(&self) -> (r: Field)
        ensures
            r@ == zero_of(self@),
        decreases self,
    {
        match self {
            FieldKind::U8 => Field::U8(0),
            FieldKind::U16 => Field::U16(0),
            FieldKind::U32 => Field::U32(0),
            FieldKind::U64 => Field::U64(0),
            FieldKind::Bool => Field::Bool(false),
            FieldKind::Record(ks) => Field::Record(Record { fields: zeros(ks) }),
        }
    }
}

/// A zero field of each of the given types, in order.
fn zeros(ks: &Vec<FieldKind>) -> (r: Vec<Field>)
    ensures
        fields_view(r@) == zeroed(kinds_view(ks@)),
    decreases ks,
{
    let mut out: Vec<Field> = Vec::new();
    let mut i: usize = 0;
    while i < ks.len()
        invariant
            i <= ks@.len(),
            out@.len() == i,
            forall|j: int| 0 <= j < i ==> #[trigger] field_view(out@[j]) == zero_of(kind_view(ks@[j])),
        decreases ks@.len() - i,
    {
        let z = ks[i].zero();
        out.push(z);
        i = i + 1;
    }
    proof {
        lemma_fields_view_index(out@);
        lemma_kinds_view_index(ks@);
        lemma_zeroed_index(kinds_view(ks@));
        assert(fields_view(out@) =~= zeroed(kinds_view(ks@)));
    }
    out
}

impl Field {
    /// The width of a scalar; 0 for a record.
    fn scalar_width(&self) -> (r: usize)
        ensures
            r as nat == self@.width(),
    {
        match self {
            Field::U8(_) => 1,
            Field::U16(_) => 2,
            Field::U32(_) => 4,
            Field::U64(_) => 8,
            Field::Bool(_) => 1,
            Field::Record(_) => 0,
        }
    }

    pub fn size(&self) -> (r: usize)
        requires
            value_size(self@) <= usize::MAX,
        ensures
            r as nat == value_size(self@),
        decreases self,
    {
        match self {
            Field::Record(rec) => rec.size(),
            _ => self.scalar_width(),
        }
    }

    pub fn pack(&self, little_endian: bool) -> (r: Vec<u8>)
        ensures
            r@ == value_pack(self@, little_endian),
        decreases self,
    {
        let v: u64 = match self {
            Field::U8(v) => *v as u64,
            Field::U16(v) => *v as u64,
            Field::U32(v) => *v as u64,
            Field::U64(v) => *v,
            Field::Bool(b) => if *b {
                1
            } else {
                0
            },
            Field::Record(rec) => {
                return rec.pack(little_endian);
            },
        };
        encode_uint(v, self.scalar_width(), little_endian)
    }

    /// Replaces this field's value by the one encoded at the front of `data`,
    /// and removes those bytes from `data`. A scalar that fails leaves both
    /// as they were; a record stops at its first failing field.
    pub fn unpack(&mut self, data: &mut Vec<u8>, little_endian: bool) -> (r: Result<
        (),
        PackableError,
    >)
        ensures
            value_unpack(old(self)@, old(data)@, little_endian) == (final(self)@, final(data)@, r),
        decreases *old(self),
    {
        match self {
            Field::Record(rec) => rec.unpack(data, little_endian),
            _ => self.unpack_scalar(data, little_endian),
        }
    }

    fn unpack_scalar(&mut self, data: &mut Vec<u8>, little_endian: bool) -> (r: Result<
        (),
        PackableError,
    >)
        requires
            !(old(self)@ is Record),
        ensures
            scalar_unpack(old(self)@, old(data)@, little_endian) == (final(self)@, final(data)@, r),
    {
        let w = self.scalar_width();
        if data.len() < w {
            return Err(PackableError::NotEnoughData { needed: w, available: data.len() });
        }
        let v = decode_uint(data, w, little_endian);
        let f = match self {
            Field::U8(_) => Field::U8(v as u8),
            Field::U16(_) => Field::U16(v as u16),
            Field::U32(_) => Field::U32(v as u32),
            Field::U64(_) => Field::U64(v),
            Field::Bool(_) => {
                if v == 0 {
                    Field::Bool(false)
                } else if v == 1 {
                    Field::Bool(true)
                } else {
                    return Err(PackableError::InvalidBool { byte: data[0] });
                }
            },
            // excluded by the precondition
            Field::Record(_) => {
                return Ok(());
            },
        };
        let rest = data.split_off(w);
        *data = rest;
        *self = f;
        Ok(())
    }
}

} // verus!
