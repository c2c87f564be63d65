use rust_mdd::cmdc::CmdcCodec;
use rust_mdd::mdd::{FieldType, Value};

#[test]
fn test_decode_example() {
    let codec = CmdcCodec::new();
    let data = b"<1,18,0,-6,5222,2>[1,-20,(5:three),4,,<1,2,0,452,5222,2>[100]]";
    let mut containers = codec.decode_containers(data).unwrap();
    assert_eq!(containers.containers.len(), 1);

    let container = &mut containers.containers[0];
    assert_eq!(container.fields[0].data, b"1");
    assert_eq!(container.fields[1].data, b"-20");
    assert_eq!(container.fields[2].data, b"(5:three)");
    assert_eq!(container.fields[3].data, b"4");
    assert_eq!(container.fields[4].data, b"");
    assert_eq!(container.fields[5].data, b"<1,2,0,452,5222,2>[100]");

    container.fields[0].field_type = FieldType::UInt8;
    container.fields[1].field_type = FieldType::Int32;
    container.fields[2].field_type = FieldType::String;
    container.fields[3].field_type = FieldType::UInt32;
    container.fields[4].field_type = FieldType::Int8;
    container.fields[5].field_type = FieldType::Struct;

    // field 0 is uint8 1, use pattern match
    match container.fields[0].decode_value() {
        Ok(Some(Value::UInt8(v))) => assert_eq!(*v, 1),
        _ => panic!("Not a UInt8"),
    }

    // field 1 is int32 -20, use as_int32()
    let field1 = container.fields[1].decode_value().unwrap().unwrap();
    assert_eq!(field1.as_int32().unwrap(), -20);

    // field 2 is string 'three', use decode_value() and then value()
    container.fields[2].decode_value().unwrap();
    let field2 = container.fields[2].value().unwrap();
    assert_eq!(field2.as_string().unwrap(), "three");

    // field 3 is uint32 4
    assert_eq!(
        container.fields[3].get_value().err().unwrap().to_string(),
        "Field not decoded yet"
    );
    container.fields[3].decode_value().unwrap();
    let field3 = container.fields[3].get_value().unwrap();
    assert_eq!(field3.unwrap().as_uint32().unwrap(), 4);

    // field 4 is null
    assert_eq!(container.fields[4].decode_value().unwrap().is_none(), true);

    // field 5 as struct
    let field5 = container.fields[5].decode_value().unwrap().unwrap();
    let nested_container = field5.as_struct().unwrap();
    assert_eq!(nested_container.containers.len(), 1);
    assert_eq!(nested_container.containers[0].fields.len(), 1);
    assert_eq!(nested_container.containers[0].fields[0].data, b"100");
}
