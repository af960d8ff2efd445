//! Mechanical derivation of a binary serialization contract (size, pack,
//! unpack) for records made of named fields, nested records included, with
//! the contract of every composite operation stated and proved over the
//! contracts of its fields.

pub mod bytes;
pub mod field;
pub mod model;
pub mod packable;
pub mod record;
pub mod shape;

pub use bytes::{decode_uint, encode_uint};
pub use field::{Field, FieldKind, PackableError};
pub use packable::Packable;
pub use record::Record;
pub use shape::{derive_packable, FieldDecl, Layout, Shape, UnsupportedShape};
