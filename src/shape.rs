//! What a record type looks like, and the field list that its packable
//! contract is derived from.

use vstd::prelude::*;
use crate::field::{field_view, kind_view, lemma_fields_view_index, Field, FieldKind};
use crate::model::{lemma_zeroed_index, zero_of, zeroed, Kind};
use crate::record::Record;

verus! {

/// A named field as declared: its name, the name of its type, and that type
/// where the library models it (`None` for a type with a packable contract
/// of its own that the library does not model).
#[derive(Debug, PartialEq, Eq)]
pub struct FieldDecl {
    pub name: String,
    pub ty: String,
    pub kind: Option<FieldKind>,
}

/// The shape of a type definition, with its fields in declaration order.
#[derive(Debug, PartialEq, Eq)]
pub enum Shape {
    /// A struct whose fields all have names.
    Named(Vec<FieldDecl>),
    /// A struct whose fields are positional, with their type names.
    Unnamed(Vec<String>),
    /// A struct without fields.
    Unit,
    Enum,
    Union,
}

/// A shape that no packable contract is derived for.
#[derive(Clone, Copy, Debug, PartialEq, Eq, Structural)]
pub enum UnsupportedShape {
    Enum,
    Union,
}

/// The derived contract of a record type: the fields that size, pack and
/// unpack visit, in the one order that all three share.
#[derive(Debug, PartialEq, Eq)]
pub struct Layout {
    pub fields: Vec<FieldDecl>,
    /// False for the fallback that positional and unit structs get: it
    /// visits no field, so their values do not survive a pack and unpack.
    /// A struct with named fields is visited in full, so it is true there
    /// even with no field at all: such a record has nothing to lose.
    pub round_trip_safe: bool,
}

/// Every field's type is one the library models.
pub open spec fn all_modelled(ds: Seq<FieldDecl>) -> bool {
    forall|i: int| 0 <= i < ds.len() ==> (#[trigger] ds[i]).kind is Some
}

/// The modelled types of the fields, in order.
pub open spec fn decl_kinds(ds: Seq<FieldDecl>) -> Seq<Kind> {
    Seq::new(ds.len(), |i: int| kind_view(ds[i].kind->Some_0))
}

/// Derives the packable contract of a type from its shape. A struct with
/// named fields visits every field in declaration order, whatever its type;
/// a positional or unit struct falls back to visiting none (size 0, empty
/// pack, unpack that consumes nothing), marked as not round-trip safe.
/// Enums and unions are refused.
pub fn derive_packable(shape: Shape) -> (r: Result<Layout, UnsupportedShape>)
    ensures
        match shape {
            Shape::Named(fs) => r == Ok::<Layout, UnsupportedShape>(
                (Layout { fields: fs, round_trip_safe: true }),
            ),
            Shape::Unnamed(_) | Shape::Unit => r matches Ok(l) && l.fields@.len() == 0
                && !l.round_trip_safe,
            Shape::Enum => r == Err::<Layout, UnsupportedShape>(UnsupportedShape::Enum),
            Shape::Union => r == Err::<Layout, UnsupportedShape>(UnsupportedShape::Union),
        },
{
    match shape {
        Shape::Named(fs) => Ok(Layout { fields: fs, round_trip_safe: true }),
        Shape::Unnamed(_) | Shape::Unit => Ok(Layout { fields: Vec::new(), round_trip_safe: false }),
        Shape::Enum => Err(UnsupportedShape::Enum),
        Shape::Union => Err(UnsupportedShape::Union),
    }
}

impl Layout {
    /// A fresh record of this layout with every field zero, where every
    /// field's type is modelled.
    pub fn zeroed(&self) -> (r: Option<Record>)
        ensures
            r is Some <==> all_modelled(self.fields@),
            r matches Some(rec) ==> rec@ == zeroed(decl_kinds(self.fields@)),
    {
        let mut out: Vec<Field> = Vec::new();
        let mut i: usize = 0;
        while i < self.fields.len()
            invariant
                i <= self.fields@.len(),
                out@.len() == i,
                forall|j: int| 0 <= j < i ==> (#[trigger] self.fields@[j]).kind is Some,
                forall|j: int|
                    0 <= j < i ==> #[trigger] field_view(out@[j]) == zero_of(
                        kind_view(self.fields@[j].kind->Some_0),
                    ),
            decreases self.fields@.len() - i,
        {
            match &self.fields[i].kind {
                Some(k) => {
                    out.push(k.zero());
                },
                None => {
                    return None;
                },
            }
            i = i + 1;
        }
        proof {
            lemma_fields_view_index(out@);
            lemma_zeroed_index(decl_kinds(self.fields@));
        }
        let rec = Record { fields: out };
        assert(rec@ =~= zeroed(decl_kinds(self.fields@)));
        Some(rec)
    }
}

} // verus!
