use zvariant::buffer::SharedData;
use zvariant::codec::{ensure_sufficient_bytes, Decode, Encode, SimpleDecode};
use zvariant::engine::{padding_for_signature, slice_data, slice_signature};
use zvariant::padding_for_n_bytes;
use zvariant::signature::Signature;
use zvariant::value::Value;
use zvariant::EncodingFormat;
use zvariant::VariantError;

const LE: EncodingFormat = EncodingFormat::DBusLittleEndian;
const BE: EncodingFormat = EncodingFormat::DBusBigEndian;

// Ensure Encode can be used as Boxed type
#[test]
fn trait_object() {
    let boxed = Box::new(42u8);

    let format = EncodingFormat::default();
    let encoded = SharedData::new(encode_u8(boxed, format));
    assert!(u8::decode_simple(&encoded, format).unwrap() == 42u8);
}

fn encode_u8(boxed: Box<u8>, format: EncodingFormat) -> Vec<u8> {
    boxed.encode(format)
}

#[test]
fn padding_alignment_invariant() {
    for a in [1usize, 2, 4, 8] {
        for n in 0usize..40 {
            let p = padding_for_n_bytes(n, a);
            assert!(p < a);
            assert_eq!((n + p) % a, 0);
        }
    }
    assert_eq!(padding_for_n_bytes(3, 4), 1);
    assert_eq!(padding_for_n_bytes(8, 8), 0);
    assert_eq!(padding_for_n_bytes(9, 8), 7);
}

#[test]
fn scalar_roundtrips_little_endian() {
    assert_eq!(u8::decode_simple(&SharedData::new(200u8.encode(LE)), LE).unwrap(), 200);
    assert_eq!(u16::decode_simple(&SharedData::new(40000u16.encode(LE)), LE).unwrap(), 40000);
    assert_eq!(i16::decode_simple(&SharedData::new((-2i16).encode(LE)), LE).unwrap(), -2);
    assert_eq!(u32::decode_simple(&SharedData::new(7u32.encode(LE)), LE).unwrap(), 7);
    assert_eq!(i32::decode_simple(&SharedData::new((-1i32).encode(LE)), LE).unwrap(), -1);
    assert_eq!(
        u64::decode_simple(&SharedData::new(0xdead_beef_u64.encode(LE)), LE).unwrap(),
        0xdead_beef_u64
    );
    assert_eq!(i64::decode_simple(&SharedData::new((-5i64).encode(LE)), LE).unwrap(), -5);
    assert!(bool::decode_simple(&SharedData::new(true.encode(LE)), LE).unwrap());
}

#[test]
fn scalar_roundtrips_big_endian() {
    assert_eq!(u16::decode_simple(&SharedData::new(40000u16.encode(BE)), BE).unwrap(), 40000);
    assert_eq!(i32::decode_simple(&SharedData::new((-7i32).encode(BE)), BE).unwrap(), -7);
    assert_eq!(
        u64::decode_simple(&SharedData::new(0x0102_0304_0506_0708_u64.encode(BE)), BE).unwrap(),
        0x0102_0304_0506_0708_u64
    );
}

#[test]
fn endianness_distinct_byte_sequences() {
    let le = 0x01020304u32.encode(LE);
    let be = 0x01020304u32.encode(BE);
    assert_eq!(le, vec![4, 3, 2, 1]);
    assert_eq!(be, vec![1, 2, 3, 4]);
    assert_ne!(le, be);
}

#[test]
fn boolean_wire_values() {
    assert!(!bool::decode_simple(&SharedData::new(vec![0, 0, 0, 0]), LE).unwrap());
    assert!(bool::decode_simple(&SharedData::new(vec![1, 0, 0, 0]), LE).unwrap());
    let e = bool::decode_simple(&SharedData::new(vec![2, 0, 0, 0]), LE).unwrap_err();
    assert_eq!(e, VariantError::IncorrectValue);
}

#[test]
fn signature_mismatch_incorrect_type() {
    let data = SharedData::new(42u32.encode(LE));
    let e = u32::decode(&data, &Signature::new("s"), LE).unwrap_err();
    assert_eq!(e, VariantError::IncorrectType);
}

#[test]
fn truncated_buffers_insufficient_data() {
    let e = u32::decode_simple(&SharedData::new(vec![1, 2]), LE).unwrap_err();
    assert_eq!(e, VariantError::InsufficientData);
    let e = u64::decode_simple(&SharedData::new(vec![]), LE).unwrap_err();
    assert_eq!(e, VariantError::InsufficientData);
    // string whose declared length exceeds the buffer
    let e = Value::decode(&SharedData::new(vec![10, 0, 0, 0, b'h', b'i']), &Signature::new("s"), LE)
        .unwrap_err();
    assert_eq!(e, VariantError::InsufficientData);
    // array whose declared length exceeds the buffer
    let e = Value::decode(&SharedData::new(vec![8, 0, 0, 0, 1, 2]), &Signature::new("ay"), LE)
        .unwrap_err();
    assert_eq!(e, VariantError::InsufficientData);
}

#[test]
fn string_roundtrip() {
    let v = Value::Str(String::from("hello"));
    let bytes = v.encode(LE);
    assert_eq!(bytes, vec![5, 0, 0, 0, b'h', b'e', b'l', b'l', b'o', 0]);
    let (back, n) = Value::decode(&SharedData::new(bytes), &Signature::new("s"), LE).unwrap();
    assert_eq!(back, v);
    assert_eq!(n, 10);
}

#[test]
fn string_invalid_utf8() {
    let e = Value::decode(&SharedData::new(vec![2, 0, 0, 0, 0xff, 0xfe, 0]), &Signature::new("s"), LE)
        .unwrap_err();
    assert_eq!(e, VariantError::InvalidUtf8);
}

#[test]
fn string_missing_nul() {
    let e = Value::decode(&SharedData::new(vec![2, 0, 0, 0, b'h', b'i', 7]), &Signature::new("s"), LE)
        .unwrap_err();
    assert_eq!(e, VariantError::IncorrectValue);
}

#[test]
fn signature_value_roundtrip() {
    let v = Value::Signature(Signature::new("a{sv}"));
    let bytes = v.encode(LE);
    assert_eq!(bytes, vec![5, b'a', b'{', b's', b'v', b'}', 0]);
    let (back, n) = Value::decode(&SharedData::new(bytes), &Signature::new("g"), LE).unwrap();
    assert_eq!(back, v);
    assert_eq!(n, 7);
}

#[test]
fn variant_roundtrip_embedded_u8() {
    let v = Value::Variant(Box::new(Value::U8(42)));
    let bytes = v.encode(LE);
    // 1-byte signature length, "y", NUL, then the payload
    assert_eq!(bytes, vec![1, b'y', 0, 42]);
    let data = SharedData::new(bytes);
    let (back, n) = Value::decode(&data, &Signature::new("v"), LE).unwrap();
    assert_eq!(n, 4);
    match &back {
        Value::Variant(inner) => {
            assert_eq!(inner.value_signature(), Signature::new("y"));
            assert_eq!(**inner, Value::U8(42));
        }
        other => panic!("expected a variant, got {:?}", other),
    }
    // decoding the payload directly as u8 also yields 42
    let tail = data.tail(3);
    assert_eq!(u8::decode_simple(&tail, LE).unwrap(), 42);
}

#[test]
fn nested_structure_absolute_padding() {
    let v = Value::Structure(vec![Value::I32(-1), Value::U32(7)]);
    let bytes = v.encode(LE);
    // the second field's padding is computed from the absolute offset after
    // the first field (already aligned), not reset to zero
    assert_eq!(bytes, vec![255, 255, 255, 255, 7, 0, 0, 0]);
    let (back, n) = Value::decode(&SharedData::new(bytes), &Signature::new("(iu)"), LE).unwrap();
    assert_eq!(back, v);
    assert_eq!(n, 8);
}

#[test]
fn structure_padding_not_reset_mid_message() {
    // encode a u8 first, then the structure: its fields align to the
    // absolute message offset
    let mut bytes = Vec::new();
    Value::U8(9).encode_into(&mut bytes, LE);
    Value::Structure(vec![Value::I32(-1), Value::U32(7)]).encode_into(&mut bytes, LE);
    assert_eq!(
        bytes,
        vec![9, 0, 0, 0, 0, 0, 0, 0, 255, 255, 255, 255, 7, 0, 0, 0]
    );
}

#[test]
fn array_length_field_excludes_padding() {
    // array of u64: the length field covers only element data, not the
    // 4 bytes of alignment padding before the first element
    let v = Value::Array(
        Signature::new("t"),
        vec![Value::U64(1), Value::U64(2)],
    );
    let bytes = v.encode(LE);
    assert_eq!(
        bytes,
        vec![
            16, 0, 0, 0, 0, 0, 0, 0, 1, 0, 0, 0, 0, 0, 0, 0, 2, 0, 0, 0, 0, 0, 0, 0
        ]
    );
    let (back, n) = Value::decode(&SharedData::new(bytes), &Signature::new("at"), LE).unwrap();
    assert_eq!(back, v);
    assert_eq!(n, 24);
}

#[test]
fn array_of_bytes_roundtrip() {
    let v = Value::Array(
        Signature::new("y"),
        vec![Value::U8(1), Value::U8(2), Value::U8(3)],
    );
    let bytes = v.encode(LE);
    assert_eq!(bytes, vec![3, 0, 0, 0, 1, 2, 3]);
    let (back, n) = Value::decode(&SharedData::new(bytes), &Signature::new("ay"), LE).unwrap();
    assert_eq!(back, v);
    assert_eq!(n, 7);
}

#[test]
fn empty_array_roundtrip() {
    let v = Value::Array(Signature::new("u"), vec![]);
    let bytes = v.encode(LE);
    assert_eq!(bytes, vec![0, 0, 0, 0]);
    let (back, n) = Value::decode(&SharedData::new(bytes), &Signature::new("au"), LE).unwrap();
    assert_eq!(back, v);
    assert_eq!(n, 4);
}

#[test]
fn dict_entry_array_roundtrip() {
    let entry = Value::DictEntry(
        Box::new(Value::Str(String::from("k"))),
        Box::new(Value::Variant(Box::new(Value::U8(5)))),
    );
    let v = Value::Array(Signature::new("{sv}"), vec![entry]);
    let bytes = v.encode(LE);
    let (back, n) = Value::decode(&SharedData::new(bytes.clone()), &Signature::new("a{sv}"), LE)
        .unwrap();
    assert_eq!(back, v);
    assert_eq!(n, bytes.len());
}

#[test]
fn unsupported_signature_character() {
    let e = Value::decode(&SharedData::new(vec![0]), &Signature::new("z"), LE).unwrap_err();
    match e {
        VariantError::UnsupportedType(s) => assert_eq!(s, Signature::new("z")),
        other => panic!("expected UnsupportedType, got {:?}", other),
    }
}

#[test]
fn slice_signature_first_complete_type() {
    let s = slice_signature(&Signature::new("a{sa(iv)}u")).unwrap();
    assert_eq!(s, Signature::new("a{sa(iv)}"));
    let s = slice_signature(&Signature::new("ii")).unwrap();
    assert_eq!(s, Signature::new("i"));
    let s = slice_signature(&Signature::new("(iu)")).unwrap();
    assert_eq!(s, Signature::new("(iu)"));
    assert_eq!(
        slice_signature(&Signature::new("")).unwrap_err(),
        VariantError::InsufficientData
    );
    match slice_signature(&Signature::new("(i")).unwrap_err() {
        VariantError::UnsupportedType(s) => assert_eq!(s, Signature::new("(i")),
        other => panic!("expected UnsupportedType, got {:?}", other),
    }
}

#[test]
fn empty_structure_signature_rejected() {
    match slice_signature(&Signature::new("()")).unwrap_err() {
        VariantError::UnsupportedType(_) => {}
        other => panic!("expected UnsupportedType, got {:?}", other),
    }
}

#[test]
fn padding_for_signature_lookup() {
    assert_eq!(padding_for_signature(1, &Signature::new("u"), LE), 3);
    assert_eq!(padding_for_signature(1, &Signature::new("(iu)"), LE), 7);
    assert_eq!(padding_for_signature(1, &Signature::new("y"), LE), 0);
    // permissive fallback: unrecognized or empty signatures ask no padding
    assert_eq!(padding_for_signature(5, &Signature::new("z"), LE), 0);
    assert_eq!(padding_for_signature(5, &Signature::new(""), LE), 0);
}

#[test]
fn slice_data_covers_value_extent() {
    let mut bytes = Value::U32(7).encode(LE);
    bytes.push(99);
    let data = SharedData::new(bytes);
    let sub = slice_data(&data, &Signature::new("u"), LE).unwrap();
    assert_eq!(sub.len(), 4);
    assert_eq!(sub.bytes(), &[7, 0, 0, 0]);
}

#[test]
fn ensure_sufficient_bytes_checks_length() {
    assert!(ensure_sufficient_bytes(&[1, 2, 3], 3).is_ok());
    assert_eq!(
        ensure_sufficient_bytes(&[1, 2], 3).unwrap_err(),
        VariantError::InsufficientData
    );
}

#[test]
fn double_bits_roundtrip() {
    let v = Value::F64((42.5f64).to_bits());
    let bytes = v.encode(LE);
    let (back, n) = Value::decode(&SharedData::new(bytes), &Signature::new("d"), LE).unwrap();
    assert_eq!(n, 8);
    match back {
        Value::F64(bits) => assert_eq!(f64::from_bits(bits), 42.5),
        other => panic!("expected a double, got {:?}", other),
    }
}

#[test]
fn typed_api_signatures() {
    assert_eq!(u8::signature_char(), 'y');
    assert_eq!(u8::signature_str(), "y");
    assert_eq!(bool::signature_str(), "b");
    assert_eq!(i16::signature_str(), "n");
    assert_eq!(u16::signature_str(), "q");
    assert_eq!(i32::signature_str(), "i");
    assert_eq!(u32::signature_str(), "u");
    assert_eq!(i64::signature_str(), "x");
    assert_eq!(u64::signature_str(), "t");
    assert_eq!(u32::alignment(), 4);
    assert_eq!(u64::alignment(), 8);
    assert_eq!(42u32.signature(), Signature::new("u"));
}

#[test]
fn variant_dynamic_accessors() {
    let v = 147u32.to_variant();
    assert!(u32::is(&v));
    assert!(!u8::is(&v));
    assert_eq!(*u32::from_variant(&v).unwrap(), 147);
    assert_eq!(
        u8::from_variant(&v).unwrap_err(),
        VariantError::IncorrectType
    );
    assert_eq!(u32::take_from_variant(v).unwrap(), 147);
}

#[test]
fn value_signature_of_compounds() {
    let v = Value::Array(
        Signature::new("{sv}"),
        vec![],
    );
    assert_eq!(v.value_signature(), Signature::new("a{sv}"));
    let s = Value::Structure(vec![Value::I32(1), Value::U32(2)]);
    assert_eq!(s.value_signature(), Signature::new("(iu)"));
    let d = Value::DictEntry(
        Box::new(Value::Str(String::from("a"))),
        Box::new(Value::U8(1)),
    );
    assert_eq!(d.value_signature(), Signature::new("{sy}"));
}

#[test]
fn excess_data_detected() {
    let mut bytes = 7u32.encode(LE);
    assert_eq!(
        Value::decode_all(&SharedData::new(bytes.clone()), &Signature::new("u"), LE).unwrap(),
        Value::U32(7)
    );
    bytes.push(0);
    let e = Value::decode_all(&SharedData::new(bytes), &Signature::new("u"), LE).unwrap_err();
    assert_eq!(e, VariantError::ExcessData);
}
