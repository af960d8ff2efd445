use packable_derive::{
    decode_uint, derive_packable, encode_uint, Field, FieldDecl, FieldKind, Layout, PackableError,
    Record, Shape, UnsupportedShape,
};

fn decl(name: &str, kind: FieldKind) -> FieldDecl {
    FieldDecl { name: name.to_string(), ty: format!("{:?}", kind).to_lowercase(), kind: Some(kind) }
}

fn mixed() -> Record {
    Record {
        fields: vec![
            Field::U8(1),
            Field::U16(0x0203),
            Field::U32(0x0405_0607),
            Field::Bool(true),
            Field::U64(0x0809_0a0b_0c0d_0e0f),
        ],
    }
}

fn mixed_layout() -> Layout {
    derive_packable(Shape::Named(vec![
        decl("a", FieldKind::U8),
        decl("b", FieldKind::U16),
        decl("c", FieldKind::U32),
        decl("d", FieldKind::Bool),
        decl("e", FieldKind::U64),
    ]))
    .unwrap()
}

#[test]
fn size_equals_pack_length_both_orders() {
    let r = mixed();
    assert_eq!(r.size(), 16);
    assert_eq!(r.pack(true).len(), 16);
    assert_eq!(r.pack(false).len(), 16);
}

#[test]
fn pack_little_endian_bytes() {
    assert_eq!(
        mixed().pack(true),
        vec![1, 3, 2, 7, 6, 5, 4, 1, 0x0f, 0x0e, 0x0d, 0x0c, 0x0b, 0x0a, 9, 8]
    );
}

#[test]
fn pack_big_endian_bytes() {
    assert_eq!(
        mixed().pack(false),
        vec![1, 2, 3, 4, 5, 6, 7, 1, 8, 9, 0x0a, 0x0b, 0x0c, 0x0d, 0x0e, 0x0f]
    );
}

#[test]
fn round_trip_into_zeroed_record() {
    for le in [true, false] {
        let r = mixed();
        let mut data = r.pack(le);
        let mut fresh = mixed_layout().zeroed().unwrap();
        assert_eq!(fresh.fields[1], Field::U16(0));
        assert_eq!(fresh.unpack(&mut data, le), Ok(()));
        assert_eq!(fresh, r);
        assert!(data.is_empty());
    }
}

#[test]
fn round_trip_largest_values() {
    let r = Record {
        fields: vec![
            Field::U8(u8::MAX),
            Field::U16(u16::MAX),
            Field::U32(u32::MAX),
            Field::U64(u64::MAX),
            Field::Bool(false),
        ],
    };
    for le in [true, false] {
        let mut data = r.pack(le);
        let mut fresh = Record {
            fields: vec![Field::U8(0), Field::U16(0), Field::U32(0), Field::U64(0), Field::Bool(true)],
        };
        assert_eq!(fresh.unpack(&mut data, le), Ok(()));
        assert_eq!(fresh, r);
    }
}

#[test]
fn swapping_fields_changes_layout() {
    let ab = Record { fields: vec![Field::U8(1), Field::U16(0x0203)] };
    let ba = Record { fields: vec![Field::U16(0x0203), Field::U8(1)] };
    assert_eq!(ab.size(), ba.size());
    assert_eq!(ab.pack(true), vec![1, 3, 2]);
    assert_eq!(ba.pack(true), vec![3, 2, 1]);
    assert_ne!(ab.pack(true), ba.pack(true));
}

#[test]
fn unpack_consumes_exactly_the_size() {
    let r = mixed();
    let mut data = r.pack(true);
    data.extend_from_slice(&[0xaa, 0xbb, 0xcc]);
    let before = data.len();
    let mut fresh = mixed_layout().zeroed().unwrap();
    assert_eq!(fresh.unpack(&mut data, true), Ok(()));
    assert_eq!(before - data.len(), r.size());
    assert_eq!(data, vec![0xaa, 0xbb, 0xcc]);
}

#[test]
fn first_failure_stops_the_unpack() {
    let mut rec = Record { fields: vec![Field::U16(7), Field::U32(8), Field::U8(9)] };
    // the first field's two bytes, then one byte short of the second's four
    let mut data = vec![0x34, 0x12, 1, 2, 3];
    let r = rec.unpack(&mut data, true);
    assert_eq!(r, Err(PackableError::NotEnoughData { needed: 4, available: 3 }));
    assert_eq!(rec.fields[0], Field::U16(0x1234));
    assert_eq!(rec.fields[1], Field::U32(8));
    assert_eq!(rec.fields[2], Field::U8(9));
    assert_eq!(data, vec![1, 2, 3]);
}

#[test]
fn endianness_reverses_multibyte_fields_only() {
    let r = Record { fields: vec![Field::U8(0x11), Field::U32(0x0102_0304), Field::Bool(true)] };
    let le = r.pack(true);
    let be = r.pack(false);
    assert_eq!(le, vec![0x11, 4, 3, 2, 1, 1]);
    assert_eq!(be, vec![0x11, 1, 2, 3, 4, 1]);
    let mut middle = le[1..5].to_vec();
    middle.reverse();
    assert_eq!(middle, be[1..5].to_vec());
    assert_eq!(le[0], be[0]);
    assert_eq!(le[5], be[5]);
}

#[test]
fn invalid_bool_byte_is_rejected() {
    let mut rec = Record { fields: vec![Field::Bool(false)] };
    let mut data = vec![2, 5];
    assert_eq!(rec.unpack(&mut data, true), Err(PackableError::InvalidBool { byte: 2 }));
    assert_eq!(rec.fields[0], Field::Bool(false));
    assert_eq!(data, vec![2, 5]);
}

#[test]
fn empty_buffer_reports_missing_bytes() {
    let mut rec = Record { fields: vec![Field::U64(3)] };
    let mut data: Vec<u8> = Vec::new();
    assert_eq!(
        rec.unpack(&mut data, false),
        Err(PackableError::NotEnoughData { needed: 8, available: 0 })
    );
    assert_eq!(rec.fields[0], Field::U64(3));
}

#[test]
fn record_without_fields() {
    let mut rec = Record { fields: Vec::new() };
    assert_eq!(rec.size(), 0);
    assert!(rec.pack(true).is_empty());
    let mut data = vec![1, 2];
    assert_eq!(rec.unpack(&mut data, true), Ok(()));
    assert_eq!(data, vec![1, 2]);
}

#[test]
fn derive_named_keeps_declaration_order() {
    let l = mixed_layout();
    assert!(l.round_trip_safe);
    let names: Vec<&str> = l.fields.iter().map(|d| d.name.as_str()).collect();
    assert_eq!(names, vec!["a", "b", "c", "d", "e"]);
    let z = l.zeroed().unwrap();
    assert_eq!(
        z.fields,
        vec![Field::U8(0), Field::U16(0), Field::U32(0), Field::Bool(false), Field::U64(0)]
    );
    assert_eq!(z.size(), 16);
}

#[test]
fn derive_positional_falls_back_to_no_fields() {
    let l = derive_packable(Shape::Unnamed(vec!["u32".to_string(), "u8".to_string()])).unwrap();
    assert!(!l.round_trip_safe);
    assert!(l.fields.is_empty());
    let mut z = l.zeroed().unwrap();
    assert_eq!(z.size(), 0);
    assert!(z.pack(false).is_empty());
    let mut data = vec![1, 2, 3, 4, 5];
    assert_eq!(z.unpack(&mut data, false), Ok(()));
    assert_eq!(data.len(), 5);
}

#[test]
fn derive_unit_falls_back_to_no_fields() {
    let l = derive_packable(Shape::Unit).unwrap();
    assert!(!l.round_trip_safe);
    assert!(l.fields.is_empty());
}

#[test]
fn derive_refuses_enum_and_union() {
    assert_eq!(derive_packable(Shape::Enum), Err(UnsupportedShape::Enum));
    assert_eq!(derive_packable(Shape::Union), Err(UnsupportedShape::Union));
}

#[test]
fn field_level_operations() {
    let f = Field::U16(0xbeef);
    assert_eq!(f.size(), 2);
    assert_eq!(f.pack(true), vec![0xef, 0xbe]);
    assert_eq!(f.pack(false), vec![0xbe, 0xef]);
    let mut g = Field::U16(0);
    let mut data = vec![0xbe, 0xef, 7];
    assert_eq!(g.unpack(&mut data, false), Ok(()));
    assert_eq!(g, f);
    assert_eq!(data, vec![7]);
    assert_eq!(FieldKind::Bool.zero(), Field::Bool(false));
}

#[test]
fn uint_codec_exact_values() {
    assert_eq!(encode_uint(0x0102_0304, 4, true), vec![4, 3, 2, 1]);
    assert_eq!(encode_uint(0x0102_0304, 4, false), vec![1, 2, 3, 4]);
    assert_eq!(encode_uint(0x1ff, 1, true), vec![0xff]);
    assert!(encode_uint(5, 0, true).is_empty());
    let data = vec![4, 3, 2, 1, 99];
    assert_eq!(decode_uint(&data, 4, true), 0x0102_0304);
    assert_eq!(decode_uint(&data, 4, false), 0x0403_0201);
    assert_eq!(decode_uint(&data, 0, false), 0);
    let max = vec![0xff; 8];
    assert_eq!(decode_uint(&max, 8, true), u64::MAX);
}

fn inner() -> Record {
    Record { fields: vec![Field::U16(0x0102), Field::Bool(true)] }
}

fn outer() -> Record {
    Record { fields: vec![Field::U8(9), Field::Record(inner()), Field::U32(0x0a0b_0c0d)] }
}

fn outer_kind() -> FieldKind {
    FieldKind::Record(vec![
        FieldKind::U8,
        FieldKind::Record(vec![FieldKind::U16, FieldKind::Bool]),
        FieldKind::U32,
    ])
}

#[test]
fn nested_record_size_and_bytes() {
    let r = outer();
    assert_eq!(r.size(), 8);
    assert_eq!(r.pack(true), vec![9, 2, 1, 1, 0x0d, 0x0c, 0x0b, 0x0a]);
    assert_eq!(r.pack(false), vec![9, 1, 2, 1, 0x0a, 0x0b, 0x0c, 0x0d]);
    assert_eq!(Field::Record(inner()).size(), 3);
}

#[test]
fn nested_record_round_trip() {
    for le in [true, false] {
        let mut data = outer().pack(le);
        data.push(0x77);
        let mut fresh = match outer_kind().zero() {
            Field::Record(r) => r,
            _ => panic!("a record kind has a record zero"),
        };
        assert_eq!(fresh.fields[1], Field::Record(Record { fields: vec![Field::U16(0), Field::Bool(false)] }));
        assert_eq!(fresh.unpack(&mut data, le), Ok(()));
        assert_eq!(fresh, outer());
        assert_eq!(data, vec![0x77]);
    }
}

#[test]
fn nested_record_as_a_field() {
    let f = Field::Record(outer());
    let mut data = f.pack(true);
    let mut g = outer_kind().zero();
    assert_eq!(g.unpack(&mut data, true), Ok(()));
    assert_eq!(g, f);
    assert!(data.is_empty());
}

#[test]
fn nested_failure_keeps_partial_values() {
    let mut r = Record { fields: vec![Field::U8(0), Field::Record(Record { fields: vec![Field::U8(0), Field::U16(0)] }), Field::U8(5)] };
    let mut data = vec![1, 2, 3];
    assert_eq!(
        r.unpack(&mut data, true),
        Err(PackableError::NotEnoughData { needed: 2, available: 1 })
    );
    assert_eq!(r.fields[0], Field::U8(1));
    assert_eq!(r.fields[1], Field::Record(Record { fields: vec![Field::U8(2), Field::U16(0)] }));
    assert_eq!(r.fields[2], Field::U8(5));
    assert_eq!(data, vec![3]);
}

#[test]
fn derive_keeps_unmodelled_field_types_in_order() {
    let l = derive_packable(Shape::Named(vec![
        decl("a", FieldKind::U8),
        FieldDecl { name: "when".to_string(), ty: "Timestamp".to_string(), kind: None },
        decl("c", FieldKind::U16),
    ]))
    .unwrap();
    assert!(l.round_trip_safe);
    let names: Vec<&str> = l.fields.iter().map(|d| d.name.as_str()).collect();
    assert_eq!(names, vec!["a", "when", "c"]);
    assert_eq!(l.fields[1].ty, "Timestamp");
    assert!(l.zeroed().is_none());
}

#[test]
fn derive_named_without_fields() {
    let l = derive_packable(Shape::Named(Vec::new())).unwrap();
    assert!(l.round_trip_safe);
    let z = l.zeroed().unwrap();
    assert_eq!(z.size(), 0);
    assert!(z.pack(true).is_empty());
}
