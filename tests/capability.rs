use packable_derive::{Field, Packable, PackableError, Record};

fn packed_through<P: Packable>(p: &P, little_endian: bool) -> (usize, Vec<u8>) {
    (Packable::size(p), Packable::pack(p, little_endian))
}

fn unpack_through<P: Packable>(p: &mut P, data: &mut Vec<u8>, little_endian: bool) -> Result<(), PackableError> {
    Packable::unpack(p, data, little_endian)
}

#[test]
fn field_and_record_share_the_capability() {
    let f = Field::U32(0x0a0b_0c0d);
    let r = Record { fields: vec![Field::U32(0x0a0b_0c0d)] };
    assert_eq!(packed_through(&f, false), (4, vec![0x0a, 0x0b, 0x0c, 0x0d]));
    assert_eq!(packed_through(&r, false), packed_through(&f, false));
}

#[test]
fn unpack_through_the_capability() {
    let mut g = Field::U8(0);
    let mut data = vec![42, 43];
    assert_eq!(unpack_through(&mut g, &mut data, true), Ok(()));
    assert_eq!(g, Field::U8(42));
    let mut r = Record { fields: vec![Field::U8(0), Field::U16(0)] };
    assert_eq!(
        unpack_through(&mut r, &mut data, true),
        Err(PackableError::NotEnoughData { needed: 2, available: 0 })
    );
    assert_eq!(r.fields, vec![Field::U8(43), Field::U16(0)]);
    assert!(data.is_empty());
}
