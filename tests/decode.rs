use rust_mdd::cmdc::CmdcCodec;

#[test]
fn test_decode() {
    let codec = CmdcCodec::new();
    let data = b"<1,18,0,-6,5222,2>[1,20,300,4]";

    let result = codec.decode(data);
    match result {
        Ok(containers) => {
            let container = &containers.containers[0];
            assert_eq!(container.header.version, 1);
            assert_eq!(container.header.total_field, 18);
            assert_eq!(container.header.depth, 0);
            assert_eq!(container.header.key, -6);
            assert_eq!(container.header.schema_version, 5222);
            assert_eq!(container.header.ext_version, 2);

            assert_eq!(container.fields.len(), 4);
            assert_eq!(container.fields[0].data, b"1");
            assert_eq!(container.fields[1].data, b"20");
            assert_eq!(container.fields[2].data, b"300");
            assert_eq!(container.fields[3].data, b"4");
        }
        Err(err) => {
            panic!("decode error: {}", err.to_string());
        }
    }
}

#[test]
fn test_decode_containers() {
    let codec = CmdcCodec::new();
    let data = b"<1,18,0,-6,5222,2>[1,20,300,4]<1,5,0,-7,5222,2>[,2,(3:def),4]";

    let result = codec.decode(data);
    match result {
        Ok(containers) => {
            assert_eq!(containers.containers.len(), 2);
            let container0 = &containers.containers[0];
            assert_eq!(container0.header.version, 1);
            assert_eq!(container0.header.total_field, 18);
            assert_eq!(container0.header.depth, 0);
            assert_eq!(container0.header.key, -6);
            assert_eq!(container0.header.schema_version, 5222);
            assert_eq!(container0.header.ext_version, 2);

            assert_eq!(container0.fields.len(), 4);
            assert_eq!(container0.fields[0].data, b"1");
            assert_eq!(container0.fields[1].data, b"20");
            assert_eq!(container0.fields[2].data, b"300");
            assert_eq!(container0.fields[3].data, b"4");

            let container1 = &containers.containers[1];
            assert_eq!(container1.header.version, 1);
            assert_eq!(container1.header.total_field, 5);
            assert_eq!(container1.header.depth, 0);
            assert_eq!(container1.header.key, -7);
            assert_eq!(container1.header.schema_version, 5222);
            assert_eq!(container1.header.ext_version, 2);

            assert_eq!(container1.fields.len(), 4);
            assert_eq!(container1.fields[0].data, b"");
            assert_eq!(container1.fields[1].data, b"2");
            assert_eq!(container1.fields[2].data, b"(3:def)");
            assert_eq!(container1.fields[3].data, b"4");
        }
        Err(err) => {
            panic!("decode error: {}", err.to_string());
        }
    }
}

#[test]
fn decode_test_decode_field_with_reserved_char() {
    let codec = CmdcCodec::new();
    let data = b"<1,18,0,-6,5222,2>[1,2,(10:v[<ue(obar),4,,6]";
    let containers = codec.decode(data).unwrap();
    let container = &containers.containers[0];

    assert_eq!(container.fields.len(), 6);
    assert_eq!(container.fields[0].data, b"1");
    assert_eq!(container.fields[1].data, b"2");
    assert_eq!(container.fields[2].data, b"(10:v[<ue(obar)");
    assert_eq!(container.fields[3].data, b"4");
    assert_eq!(container.fields[4].data, b"");
    assert_eq!(container.fields[5].data, b"6");
}

#[test]
fn decode_test_invalid_header1() {
    let codec = CmdcCodec::new();
    let data = b"<1,18,0,-6,5222,2,1>";
    let err = codec.decode(data).unwrap_err();
    assert_eq!(err.to_string(), "Invalid cMDC header, 6 fields expected");
}

#[test]
fn decode_test_invalid_header2() {
    let codec = CmdcCodec::new();
    let data = b"<1,18,0,-6,5222[1,20,300,4]";
    let err = codec.decode(data).unwrap_err();
    assert_eq!(
        err.to_string(),
        "Invalid cMDC character '[' in header, numeric expected"
    );
}

#[test]
fn decode_test_invalid_header3() {
    let codec = CmdcCodec::new();
    let data = b"<1,18,0,-6,5222,2";
    let err = codec.decode(data).unwrap_err();
    assert_eq!(err.to_string(), "Invalid cMDC header, missing '>'")
}

#[test]
fn decode_test_invalid_header4() {
    let codec = CmdcCodec::new();
    let data = b"1,18,0,-6,5222,2>[]";
    let err = codec.decode(data).unwrap_err();
    assert_eq!(
        err.to_string(),
        "Invalid cMDC header, first character must be '<'"
    );
}

#[test]
fn decode_test_invalid_body4() {
    let codec = CmdcCodec::new();
    let data = b"<1,18,0,-6,5222,2>[1,(abc:foo),3,4]";
    let err = codec.decode(data).unwrap_err();
    assert_eq!(
        err.to_string(),
        "Invalid character 'a', numeric expected for string length"
    );
}

#[test]
fn decode_test_invalid_body5() {
    let codec = CmdcCodec::new();
    let data = b"<1,18,0,-6,5222,2>[1,(5:foo),3,4]";
    let err = codec.decode(data).unwrap_err();
    assert_eq!(err.to_string(), "Invalid cMDC body, mismatch string length");
}
