//! The packable capability that fields and records share.

use vstd::prelude::*;
use crate::field::{Field, PackableError};
use crate::model::{pack_of, size_of, unpack_of, value_pack, value_size, value_unpack};
use crate::record::Record;

verus! {

/// A value with a packed size, a byte encoding under either byte order, and
/// an unpack that reads such an encoding in place from the front of a buffer.
pub trait Packable: Sized {
    spec fn packed_size(&self) -> nat;

    spec fn packed(&self, little_endian: bool) -> Seq<u8>;

    /// Unpacking `self` from `data` leaves the value `after`, the bytes
    /// `left`, and the outcome `r`.
    spec fn unpacks_to(
        &self,
        data: Seq<u8>,
        little_endian: bool,
        after: Self,
        left: Seq<u8>,
        r: Result<(), PackableError>,
    ) -> bool;

    fn size(&self) -> (r: usize)
        requires
            self.packed_size() <= usize::MAX,
        ensures
            r as nat == self.packed_size(),
    ;

    fn pack(&self, little_endian: bool) -> (r: Vec<u8>)
        ensures
            r@ == self.packed(little_endian),
    ;

    fn unpack(&mut self, data: &mut Vec<u8>, little_endian: bool) -> (r: Result<
        (),
        PackableError,
    >)
        ensures
            old(self).unpacks_to(old(data)@, little_endian, *final(self), final(data)@, r),
    ;
}

impl Packable for Field {
    open spec fn packed_size(&self) -> nat {
        value_size(self@)
    }

    open spec fn packed(&self, little_endian: bool) -> Seq<u8> {
        value_pack(self@, little_endian)
    }

    open spec fn unpacks_to(
        &self,
        data: Seq<u8>,
        little_endian: bool,
        after: Self,
        left: Seq<u8>,
        r: Result<(), PackableError>,
    ) -> bool {
        value_unpack(self@, data, little_endian) == (after@, left, r)
    }

    fn size(&self) -> (r: usize) {
        Field::size(self)
    }

    fn pack(&self, little_endian: bool) -> (r: Vec<u8>) {
        Field::pack(self, little_endian)
    }

    fn unpack(&mut self, data: &mut Vec<u8>, little_endian: bool) -> (r: Result<
        (),
        PackableError,
    >) {
        Field::unpack(self, data, little_endian)
    }
}

impl Packable for Record {
    open spec fn packed_size(&self) -> nat {
        size_of(self@)
    }

    open spec fn packed(&self, little_endian: bool) -> Seq<u8> {
        pack_of(self@, little_endian)
    }

    open spec fn unpacks_to(
        &self,
        data: Seq<u8>,
        little_endian: bool,
        after: Self,
        left: Seq<u8>,
        r: Result<(), PackableError>,
    ) -> bool {
        unpack_of(self@, data, little_endian) == (after@, left, r)
    }

    fn size(&self) -> (r: usize) {
        Record::size(self)
    }

    fn pack(&self, little_endian: bool) -> (r: Vec<u8>) {
        Record::pack(self, little_endian)
    }

    fn unpack(&mut self, data: &mut Vec<u8>, little_endian: bool) -> (r: Result<
        (),
        PackableError,
    >) {
        Record::unpack(self, data, little_endian)
    }
}

} // verus!
