use rust_mdd::cmdc::CmdcCodec;
use rust_mdd::error::{Error, IntErrorKind};
use rust_mdd::mdd::{Container, Containers, Field, FieldType, Header, Value};

fn round_trip(data: &[u8]) -> Vec<u8> {
    let codec = CmdcCodec::new();
    let containers = codec.decode(data).unwrap();
    codec.encode(&containers).unwrap()
}

#[test]
fn decoding_then_encoding_gives_the_buffer_back() {
    let samples: [&[u8]; 6] = [
        b"<1,18,0,-6,5222,2>[1,20,300,4]",
        b"<1,18,0,-6,5222,2>[1,20,<1,2,0,452,5222,2>[100],4]",
        b"<1,18,0,-6,5222,2>[0,{1,2,3},,,300,{4,5}]",
        b"<1,18,0,-6,5222,2>[1,2,(10:v[<ue(obar),4,,6]",
        b"<1,18,0,-6,5222,2>[1,20,300,4]<1,5,0,-7,5222,2>[,2,(3:def),4]",
        b"<255,0,-128,-2147483648,65535,0>[]",
    ];
    for data in samples.iter() {
        assert_eq!(round_trip(data), data.to_vec());
    }
}

#[test]
fn a_header_out_of_canonical_form_is_written_canonically() {
    assert_eq!(round_trip(b"<01,18,0,-6,5222,2>[1]"), b"<1,18,0,-6,5222,2>[1]".to_vec());
}

#[test]
fn header_numbers_are_cut_to_their_width() {
    let containers = CmdcCodec::new().decode(b"<300,1,200,5,70000,2>[]").unwrap();
    let h = containers.containers[0].header;
    assert_eq!(h.version, 44);
    assert_eq!(h.depth, -56);
    assert_eq!(h.schema_version, 4464);
}

#[test]
fn decode_value_twice_gives_the_value_of_the_first_call() {
    let codec = CmdcCodec::new();
    let mut containers = codec.decode(b"<1,1,0,1,1,1>[42]").unwrap();
    let field = &mut containers.containers[0].fields[0];
    field.field_type = FieldType::Int32;
    assert_eq!(field.decode_value().unwrap().unwrap().as_int32(), Some(42));
    // the bytes are not read again: the kept value comes back
    field.data = b"7";
    assert_eq!(field.decode_value().unwrap().unwrap().as_int32(), Some(42));
    assert_eq!(field.get_value().unwrap().unwrap().as_int32(), Some(42));
}

#[test]
fn fields_are_one_more_than_top_level_commas() {
    let data = b"<1,1,0,1,1,1>[a,{b,c},<1,1,0,1,1,1>[d,e],(3:f,g),]";
    let containers = CmdcCodec::new().decode(data).unwrap();
    let fields = &containers.containers[0].fields;
    assert_eq!(fields.len(), 5);
    assert_eq!(fields[1].data, b"{b,c}");
    assert_eq!(fields[2].data, b"<1,1,0,1,1,1>[d,e]");
    assert_eq!(fields[3].data, b"(3:f,g)");
    assert_eq!(fields[4].data, b"");
}

#[test]
fn flat_fields_carry_no_mark() {
    let containers = CmdcCodec::new().decode(b"<1,18,0,-6,5222,2>[1,20,300,4]").unwrap();
    let c = &containers.containers[0];
    assert_eq!(c.header, Header { version: 1, total_field: 18, depth: 0, key: -6, schema_version: 5222, ext_version: 2 });
    assert_eq!(c.fields.len(), 4);
    for f in c.fields.iter() {
        assert!(!f.is_null && !f.is_multi && !f.is_container);
    }
}

#[test]
fn nested_container_field_decodes_as_struct() {
    let mut containers =
        CmdcCodec::new().decode(b"<1,18,0,-6,5222,2>[1,20,<1,2,0,452,5222,2>[100],4]").unwrap();
    let field = &mut containers.containers[0].fields[2];
    assert!(field.is_container);
    assert_eq!(field.data, b"<1,2,0,452,5222,2>[100]");
    field.field_type = FieldType::Struct;
    let nested = field.decode_value().unwrap().unwrap().as_struct().unwrap();
    assert_eq!(nested.containers.len(), 1);
    assert_eq!(nested.containers[0].header.key, 452);
    assert_eq!(nested.containers[0].fields.len(), 1);
    assert_eq!(nested.containers[0].fields[0].data, b"100");
}

#[test]
fn groups_and_empty_fields_are_marked() {
    let containers = CmdcCodec::new().decode(b"<1,18,0,-6,5222,2>[0,{1,2,3},,,300,{4,5}]").unwrap();
    let f = &containers.containers[0].fields;
    assert!(f[1].is_multi && f[5].is_multi);
    assert_eq!(f[1].data, b"{1,2,3}");
    assert_eq!(f[5].data, b"{4,5}");
    assert!(f[2].is_null && f[3].is_null);
    assert!(!f[0].is_null && !f[0].is_multi);
}

#[test]
fn short_string_payload_is_a_length_mismatch() {
    let err = CmdcCodec::new().decode(b"<1,18,0,-6,5222,2>[1,(5:foo),3,4]").unwrap_err();
    assert!(matches!(err, Error::DecodeError(_)));
    assert_eq!(err.to_string(), "Invalid cMDC body, mismatch string length");
}

#[test]
fn concatenated_containers_decode_one_after_the_other() {
    let containers = CmdcCodec::new()
        .decode(b"<1,18,0,-6,5222,2>[1,20,300,4]<1,5,0,-7,5222,2>[,2,(3:def),4]")
        .unwrap();
    assert_eq!(containers.containers.len(), 2);
    assert_eq!(containers.containers[0].fields[3].data, b"4");
    assert_eq!(containers.containers[1].header.total_field, 5);
    assert_eq!(containers.containers[1].fields[0].data, b"");
}

#[test]
fn an_empty_buffer_holds_no_container() {
    let containers = CmdcCodec::new().decode(b"").unwrap();
    assert_eq!(containers.containers.len(), 0);
    assert_eq!(CmdcCodec::new().encode(&containers).unwrap(), Vec::<u8>::new());
}

#[test]
fn header_errors() {
    let codec = CmdcCodec::new();
    assert_eq!(codec.decode_header(b"").unwrap_err().to_string(), "Invalid cMDC header, no header");
    assert_eq!(
        codec.decode(b"<1,2,3,4,,6>[]").unwrap_err().to_string(),
        "Invalid cMDC header, Invalid digit found in ''"
    );
    assert_eq!(
        codec.decode(b"<1,2,3,4,5,99999999999>[]").unwrap_err().to_string(),
        "Invalid cMDC header, Invalid digit found in '99999999999'"
    );
    assert_eq!(codec.decode(b"<1,2,3,4,5>[]").unwrap_err().to_string(), "Invalid cMDC header, 6 fields expected");
    assert_eq!(
        codec.decode(b"<1,2,3,4,5,\xe9>[]").unwrap_err().to_string(),
        "Invalid cMDC character '\u{e9}' in header, numeric expected"
    );
    let (h, n) = codec.decode_header(b"<1,2,-3,4,5,6>rest").unwrap();
    assert_eq!(n, 14);
    assert_eq!(h.depth, -3);
}

#[test]
fn body_errors() {
    let codec = CmdcCodec::new();
    assert_eq!(
        codec.decode(b"<1,2,3,4,5,6>[(:x)]").unwrap_err().to_string(),
        "Invalid string field, Invalid digit found in ''"
    );
    assert_eq!(
        codec.decode(b"<1,2,3,4,5,6>[(99999999999:x)]").unwrap_err().to_string(),
        "Invalid string field, Invalid digit found in '99999999999'"
    );
    assert_eq!(
        codec.decode(b"<1,2,3,4,5,6>[(50:x)]").unwrap_err().to_string(),
        "Invalid cMDC body, no end of body"
    );
    let (fields, n) = codec.decode_body(b"[a,(2:],)]tail").unwrap();
    assert_eq!(n, 10);
    assert_eq!(fields.len(), 2);
    assert_eq!(fields[1].data, b"(2:],)");
}

#[test]
fn int_errors_name_their_kind() {
    let codec = CmdcCodec::new();
    assert!(matches!(codec.decode_int8(b"128"), Err(Error::ParseIntError(IntErrorKind::PosOverflow))));
    assert!(matches!(codec.decode_int8(b"-129"), Err(Error::ParseIntError(IntErrorKind::NegOverflow))));
    assert!(matches!(codec.decode_int16(b""), Err(Error::ParseIntError(IntErrorKind::Empty))));
    assert!(matches!(codec.decode_int32(b"+"), Err(Error::ParseIntError(IntErrorKind::InvalidDigit))));
    assert!(matches!(codec.decode_uint8(b"-1"), Err(Error::ParseIntError(IntErrorKind::InvalidDigit))));
    assert!(matches!(codec.decode_int64(b"12a"), Err(Error::ParseIntError(IntErrorKind::InvalidDigit))));
    assert!(matches!(codec.decode_int32(b"\xff"), Err(Error::Utf8Error(_))));
    assert_eq!(codec.decode_uint16(b"+65535").unwrap(), 65535);
    assert_eq!(codec.decode_int64(b"-9223372036854775808").unwrap(), i64::MIN);
    assert_eq!(codec.decode_uint64(b"18446744073709551615").unwrap(), u64::MAX);
    assert_eq!(codec.decode_uint32(b"007").unwrap(), 7);
    assert_eq!(
        codec.decode_int8(b"300").unwrap_err().to_string(),
        "number too large to fit in target type"
    );
    assert_eq!(codec.encode_int64(i64::MIN).unwrap(), b"-9223372036854775808".to_vec());
    assert_eq!(codec.encode_int16(-7).unwrap(), b"-7".to_vec());
    assert_eq!(codec.encode_uint32(0).unwrap(), b"0".to_vec());
}

#[test]
fn string_edge_cases() {
    let codec = CmdcCodec::new();
    assert_eq!(codec.decode_string(b"(0:)").unwrap(), "");
    assert_eq!(codec.decode_string(b"").unwrap(), "");
    assert_eq!(codec.decode_string(b"()").unwrap_err().to_string(), "Invalid string value");
    assert_eq!(codec.decode_string(b"abc").unwrap_err().to_string(), "Invalid string value");
    assert_eq!(codec.decode_string(b"(5:three").unwrap_err().to_string(), "Invalid string length, 5 is too long");
    assert_eq!(codec.decode_string(b"(-1:x)").unwrap_err().to_string(), "Invalid string length, -1 is too long");
    assert_eq!(codec.decode_string(b"(x:y)").unwrap_err().to_string(), "Invalid digit found in 'x'");
    assert!(matches!(codec.decode_string(b"(2:\xff\xfe)"), Err(Error::Utf8Error(_))));
    assert_eq!(codec.decode_string("(6:富爸)".as_bytes()).unwrap(), "富爸");
    assert_eq!(codec.encode_string("富爸").unwrap(), "(6:富爸)".as_bytes().to_vec());
    assert_eq!(codec.encode_string("").unwrap(), b"(0:)".to_vec());
}

#[test]
fn field_values_by_type() {
    let codec = CmdcCodec::new();
    let mut f = Field::raw(b"(3:abc)");
    assert_eq!(f.decode_value().unwrap_err().to_string(), "No codec");
    f.codec = Some(codec);
    assert_eq!(f.decode_value().unwrap_err().to_string(), "Unsupported field type");
    f.field_type = FieldType::Bool;
    assert_eq!(codec.decode_field(&f).unwrap_err().to_string(), "Unsupported field type");
    f.field_type = FieldType::String;
    assert_eq!(f.decode_value().unwrap().unwrap().as_string(), Some("abc"));
    assert_eq!(f.value().unwrap().as_string(), Some("abc"));

    let mut null = Field::raw(b"");
    null.is_null = true;
    null.codec = Some(codec);
    assert!(null.decode_value().unwrap().is_none());
    assert!(null.get_value().unwrap().is_none());
    assert!(null.value().is_none());
    assert_eq!(codec.encode_field(&null).unwrap(), Vec::<u8>::new());
}

#[test]
fn encode_field_writes_raw_bytes_or_the_value() {
    let codec = CmdcCodec::new();
    assert_eq!(codec.encode_field(&Field::raw(b"xyz")).unwrap(), b"xyz".to_vec());
    let mut f = Field::raw(b"");
    assert_eq!(codec.encode_field(&f).unwrap_err().to_string(), "Field not decoded yet");
    f.field_type = FieldType::Int32;
    f.value = Some(Value::Int32(-20));
    assert_eq!(codec.encode_field(&f).unwrap(), b"-20".to_vec());
    f.field_type = FieldType::String;
    f.value = Some(Value::String("three".to_string()));
    assert_eq!(codec.encode_field(&f).unwrap(), b"(5:three)".to_vec());
    f.field_type = FieldType::Bool;
    f.value = Some(Value::Bool(true));
    let err = codec.encode_field(&f).unwrap_err();
    assert!(matches!(err, Error::EncodeError(_)));
    assert_eq!(err.to_string(), "Unsupported field type");
    f.field_type = FieldType::Struct;
    f.value = Some(Value::Struct(Containers {
        containers: vec![Container {
            header: Header { version: 1, total_field: 1, depth: 0, key: 3, schema_version: 4, ext_version: 5 },
            fields: vec![Field::raw(b"9")],
        }],
    }));
    assert_eq!(codec.encode_field(&f).unwrap(), b"<1,1,0,3,4,5>[9]".to_vec());
}

#[test]
fn containers_len_is_the_encoded_length() {
    let codec = CmdcCodec::new();
    let data = b"<1,18,0,-6,5222,2>[1,20,300,4]<1,5,0,-7,5222,2>[,2,(3:def),4]";
    let containers = codec.decode(data).unwrap();
    assert_eq!(codec.get_containers_len(&containers), data.len());
    let mut out = b"head".to_vec();
    codec.encode_containers(&mut out, &containers).unwrap();
    assert_eq!(&out[4..], &data[..]);
}

#[test]
fn value_accessors_pick_their_variant() {
    let d: bigdecimal::BigDecimal = "1.5".parse().unwrap();
    let v = Value::Decimal(d.clone());
    assert_eq!(v.as_decimal(), Some(&d));
    assert!(v.as_bool().is_none());
    assert_eq!(Value::Bool(true).as_bool(), Some(true));
    assert_eq!(Value::UInt64(9).as_uint64(), Some(9));
    assert!(Value::UInt64(9).as_int64().is_none());
    assert_eq!(Value::Int8(-1).as_int8(), Some(-1));
    assert_eq!(Value::Int16(-2).as_int16(), Some(-2));
    assert_eq!(Value::UInt8(3).as_uint8(), Some(3));
    assert_eq!(Value::UInt16(4).as_uint16(), Some(4));
    assert_eq!(Value::UInt32(5).as_uint32(), Some(5));
    assert!(Value::String("s".to_string()).as_struct().is_none());
}

fn one_field_container(field: Field<'static>) -> Containers<'static> {
    Containers {
        containers: vec![Container {
            header: Header { version: 1, total_field: 1, depth: 0, key: 2, schema_version: 3, ext_version: 4 },
            fields: vec![Field::raw(b"a"), field],
        }],
    }
}

#[test]
fn a_field_with_a_value_but_no_bytes_is_written_from_its_value() {
    let codec = CmdcCodec::new();
    let mut f = Field::raw(b"");
    f.field_type = FieldType::Int8;
    f.value = Some(Value::Int8(5));
    let containers = one_field_container(f);
    assert_eq!(codec.encode(&containers).unwrap(), b"<1,1,0,2,3,4>[a,5]".to_vec());
    assert_eq!(codec.get_containers_len(&containers), b"<1,1,0,2,3,4>[a,5]".len());

    let mut inner = Field::raw(b"");
    inner.field_type = FieldType::String;
    inner.value = Some(Value::String("hi".to_string()));
    let mut outer = Field::raw(b"");
    outer.field_type = FieldType::Struct;
    outer.value = Some(Value::Struct(one_field_container(inner)));
    let nested = one_field_container(outer);
    assert_eq!(
        codec.encode(&nested).unwrap(),
        b"<1,1,0,2,3,4>[a,<1,1,0,2,3,4>[a,(2:hi)]]".to_vec()
    );
}

#[test]
fn a_field_that_cannot_be_written_fails_the_encoding() {
    let codec = CmdcCodec::new();
    let containers = one_field_container(Field::raw(b""));
    assert_eq!(codec.encode(&containers).unwrap_err().to_string(), "Field not decoded yet");
    assert_eq!(codec.get_containers_len(&containers), 0);
    let mut out = b"head".to_vec();
    assert!(codec.encode_containers(&mut out, &containers).is_err());
    assert!(out.starts_with(b"head"));

    let mut f = Field::raw(b"");
    f.field_type = FieldType::Int32;
    f.value = Some(Value::Int8(5));
    let containers = one_field_container(f);
    assert!(matches!(codec.encode(&containers), Err(Error::EncodeError(_))));

    let mut null = Field::raw(b"");
    null.is_null = true;
    let containers = one_field_container(null);
    assert_eq!(codec.encode(&containers).unwrap(), b"<1,1,0,2,3,4>[a,]".to_vec());
}
