use rust_mdd::cmdc::CmdcCodec;

#[test]
fn test_decode_single_container1() {
    let data = b"<1,18,0,-6,5222,2>[1,20,300,4]";

    let result = CmdcCodec::new().decode_containers(data);
    match result {
        Ok(containers) => {
            let container = &containers.containers[0];
            assert_eq!(container.header.version, 1);
            assert_eq!(container.header.total_field, 18);
            assert_eq!(container.header.depth, 0);
            assert_eq!(container.header.key, -6);
            assert_eq!(container.header.schema_version, 5222);
            assert_eq!(container.header.ext_version, 2);

            assert_eq!(container.fields.len(), 4);
            assert_eq!(container.fields[0].data, b"1");
            assert_eq!(container.fields[1].data, b"20");
            assert_eq!(container.fields[2].data, b"300");
            assert_eq!(container.fields[3].data, b"4");
        }
        Err(err) => {
            panic!("decode error: {}", err.to_string());
        }
    }
}

#[test]
fn test_decode_single_container2() {
    let data = b"<1,18,0,-6,5222,2>[,(6:value2),3,2021-09-07T08:00:25.000001Z,2021-10-31,09:13:02.667997Z,88,5.5,]";

    let result = CmdcCodec::new().decode_containers(data);
    match result {
        Ok(containers) => {
            let container = &containers.containers[0];
            assert_eq!(container.header.version, 1);
            assert_eq!(container.header.total_field, 18);
            assert_eq!(container.header.depth, 0);
            assert_eq!(container.header.key, -6);
            assert_eq!(container.header.schema_version, 5222);
            assert_eq!(container.header.ext_version, 2);

            assert_eq!(container.fields.len(), 9);
            assert_eq!(container.fields[0].data, b"");
            assert_eq!(container.fields[1].data, b"(6:value2)");
            assert_eq!(container.fields[2].data, b"3");
            assert_eq!(container.fields[3].data, b"2021-09-07T08:00:25.000001Z");
            assert_eq!(container.fields[4].data, b"2021-10-31");
            assert_eq!(container.fields[5].data, b"09:13:02.667997Z");
            assert_eq!(container.fields[6].data, b"88");
            assert_eq!(container.fields[7].data, b"5.5");
            assert_eq!(container.fields[8].data, b"");
        }
        Err(err) => {
            panic!("decode error: {}", err.to_string());
        }
    }
}

#[test]
fn test_decode_multi_containers() {
    let data = b"<1,18,0,-6,5222,2>[1,20,300,4]<1,5,0,-7,5222,2>[,2,(3:def),4]";

    let result = CmdcCodec::new().decode_containers(data);
    match result {
        Ok(containers) => {
            assert_eq!(containers.containers.len(), 2);
            let container0 = &containers.containers[0];
            assert_eq!(container0.header.version, 1);
            assert_eq!(container0.header.total_field, 18);
            assert_eq!(container0.header.depth, 0);
            assert_eq!(container0.header.key, -6);
            assert_eq!(container0.header.schema_version, 5222);
            assert_eq!(container0.header.ext_version, 2);

            assert_eq!(container0.fields.len(), 4);
            assert_eq!(container0.fields[0].data, b"1");
            assert_eq!(container0.fields[1].data, b"20");
            assert_eq!(container0.fields[2].data, b"300");
            assert_eq!(container0.fields[3].data, b"4");

            let container1 = &containers.containers[1];
            assert_eq!(container1.header.version, 1);
            assert_eq!(container1.header.total_field, 5);
            assert_eq!(container1.header.depth, 0);
            assert_eq!(container1.header.key, -7);
            assert_eq!(container1.header.schema_version, 5222);
            assert_eq!(container1.header.ext_version, 2);

            assert_eq!(container1.fields.len(), 4);
            assert_eq!(container1.fields[0].data, b"");
            assert_eq!(container1.fields[1].data, b"2");
            assert_eq!(container1.fields[2].data, b"(3:def)");
            assert_eq!(container1.fields[3].data, b"4");
        }
        Err(err) => {
            panic!("decode error: {}", err.to_string());
        }
    }
}

#[test]
fn test_decode_nested_containers() {
    let data = b"<1,18,0,-6,5222,2>[1,20,<1,2,0,452,5222,2>[100],4]";
    let containers = CmdcCodec::new().decode_containers(data).unwrap();
    let container = &containers.containers[0];

    assert_eq!(container.fields.len(), 4);
    assert_eq!(container.fields[0].data, b"1");
    assert_eq!(container.fields[1].data, b"20");
    assert_eq!(container.fields[2].data, b"<1,2,0,452,5222,2>[100]");
    assert_eq!(container.fields[3].data, b"4");

    assert_eq!(container.fields[0].is_container, false);
    assert_eq!(container.fields[1].is_container, false);
    assert_eq!(container.fields[2].is_container, true);
    assert_eq!(container.fields[3].is_container, false);
}

#[test]
fn test_list_integer_value() {
    let data = b"<1,18,0,-6,5222,2>[0,{1,2,3},,,300,{4,5}]";
    let containers = CmdcCodec::new().decode_containers(data).unwrap();
    let container = &containers.containers[0];

    assert_eq!(container.fields.len(), 6);
    assert_eq!(container.fields[0].data, b"0");
    assert_eq!(container.fields[1].data, b"{1,2,3}");
    assert_eq!(container.fields[2].data, b"");
    assert_eq!(container.fields[3].data, b"");
    assert_eq!(container.fields[4].data, b"300");
    assert_eq!(container.fields[5].data, b"{4,5}");

    assert_eq!(container.fields[0].is_multi, false);
    assert_eq!(container.fields[1].is_multi, true);
    assert_eq!(container.fields[2].is_multi, false);
    assert_eq!(container.fields[3].is_multi, false);
    assert_eq!(container.fields[4].is_multi, false);
    assert_eq!(container.fields[5].is_multi, true);
}

#[test]
fn test_decode_empty_body() {
    let data = b"<1,18,0,-6,5222,2>[]";
    let containers = CmdcCodec::new().decode_containers(data).unwrap();

    assert!(containers.containers.len() == 1);
    let container = &containers.containers[0];
    assert_eq!(container.fields[0].data, b"");
}

#[test]
fn test_zero_len_string_field() {
    let data = b"<1,18,0,-6,5222,2>[1,(0:),3,4]";
    let containers = CmdcCodec::new().decode_containers(data).unwrap();

    let container = &containers.containers[0];
    assert_eq!(container.fields[0].data, b"1");
    assert_eq!(container.fields[1].data, b"(0:)");
    assert_eq!(container.fields[2].data, b"3");
    assert_eq!(container.fields[3].data, b"4");
}

#[test]
fn test_empty_string_field() {
    let data = b"<1,18,0,-6,5222,2>[1,(),3,4]";
    let containers = CmdcCodec::new().decode_containers(data).unwrap();

    let container = &containers.containers[0];
    assert_eq!(container.fields[0].data, b"1");
    assert_eq!(container.fields[1].data, b"()");
    assert_eq!(container.fields[2].data, b"3");
    assert_eq!(container.fields[3].data, b"4");
}

#[test]
fn test_unicode_string_field() {
    let data = "<1,18,0,-6,5222,2>[1,(6:富爸),3,4]".as_bytes();
    let containers = CmdcCodec::new().decode_containers(data).unwrap();

    let container = &containers.containers[0];
    assert_eq!(container.fields[0].data, b"1");
    assert_eq!(container.fields[1].data, "(6:富爸)".as_bytes());
    assert_eq!(container.fields[2].data, b"3");
    assert_eq!(container.fields[3].data, b"4");
}

#[test]
fn test_decode_field_with_reserved_char() {
    let data = b"<1,18,0,-6,5222,2>[1,2,(10:v[<ue(obar),4,,6]";
    let containers = CmdcCodec::new().decode_containers(data).unwrap();
    let container = &containers.containers[0];

    assert_eq!(container.fields.len(), 6);
    assert_eq!(container.fields[0].data, b"1");
    assert_eq!(container.fields[1].data, b"2");
    assert_eq!(container.fields[2].data, b"(10:v[<ue(obar)");
    assert_eq!(container.fields[3].data, b"4");
    assert_eq!(container.fields[4].data, b"");
    assert_eq!(container.fields[5].data, b"6");
}

#[test]
fn test_invalid_header1() {
    let data = b"<1,18,0,-6,5222,2,1>";
    let err = CmdcCodec::new().decode_containers(data).unwrap_err();
    assert_eq!(err.to_string(), "Invalid cMDC header, 6 fields expected");
}

#[test]
fn test_invalid_header2() {
    let data = b"<1,18,0,-6,5222[1,20,300,4]";
    let err = CmdcCodec::new().decode_containers(data).unwrap_err();
    assert_eq!(
        err.to_string(),
        "Invalid cMDC character '[' in header, numeric expected"
    );
}

#[test]
fn test_invalid_header3() {
    let data = b"<1,18,0,-6,5222,2";
    let err = CmdcCodec::new().decode_containers(data).unwrap_err();
    assert_eq!(err.to_string(), "Invalid cMDC header, missing '>'")
}

#[test]
fn test_invalid_header4() {
    let data = b"1,18,0,-6,5222,2>[]";
    let err = CmdcCodec::new().decode_containers(data).unwrap_err();
    assert_eq!(
        err.to_string(),
        "Invalid cMDC header, first character must be '<'"
    );
}

#[test]
fn test_invalid_header5() {
    let data = b"<1,18,0,1-6,5222,2>[]";
    let err = CmdcCodec::new().decode_containers(data).unwrap_err();
    assert_eq!(
        err.to_string(),
        "Invalid cMDC header, Invalid digit found in '1-6'"
    );
}

#[test]
fn test_invalid_body1() {
    let data = b"<1,18,0,-6,5222,2>[1,20,300,4";
    let err = CmdcCodec::new().decode_containers(data).unwrap_err();
    assert_eq!(err.to_string(), "Invalid cMDC body, no end of body");
}

#[test]
fn test_invalid_body2() {
    let data = b"<1,18,0,-6,5222,2>";
    let err = CmdcCodec::new().decode_containers(data).unwrap_err();
    assert_eq!(err.to_string(), "Invalid cMDC body, no body");
}

#[test]
fn test_invalid_body3() {
    let data = b"<1,18,0,-6,5222,2>1,2,3]";
    let err = CmdcCodec::new().decode_containers(data).unwrap_err();
    assert_eq!(
        err.to_string(),
        "Invalid cMDC body, first character must be '['"
    );
}

#[test]
fn test_invalid_body4() {
    let data = b"<1,18,0,-6,5222,2>[1,(abc:foo),3,4]";
    let err = CmdcCodec::new().decode_containers(data).unwrap_err();
    assert_eq!(
        err.to_string(),
        "Invalid character 'a', numeric expected for string length"
    );
}

#[test]
fn test_invalid_body5() {
    let data = b"<1,18,0,-6,5222,2>[1,(5:foo),3,4]";
    let err = CmdcCodec::new().decode_containers(data).unwrap_err();
    assert_eq!(err.to_string(), "Invalid cMDC body, mismatch string length");
}

#[test]
fn test_invalid_body6() {
    let data = b"<1,18,0,-6,5222,2>[1,(5:foobar),3,4]";
    let err = CmdcCodec::new().decode_containers(data).unwrap_err();
    assert_eq!(err.to_string(), "Invalid cMDC body, mismatch string length");
}

#[test]
fn test_invalid_body7() {
    let data = b"<1,18,0,-6,5222,2>[1,(5:fooba:),3,4]";
    let err = CmdcCodec::new().decode_containers(data).unwrap_err();
    assert_eq!(err.to_string(), "Invalid cMDC body, mismatch string length");
}
