use rust_mdd::mdd::{Container, Containers, Field, FieldType, Header, Value};

#[test]
fn test_get_string_field() {
    let field_data = b"(6:foobar)";
    let field = Field {
        data: field_data,
        field_type: FieldType::String,
        value: Some(Value::String("foobar".to_string())),
        codec: None,
        is_multi: false,
        is_container: false,
        is_null: false,
    };
    match field.value {
        Some(Value::String(v)) => assert_eq!(v, "foobar"),
        _ => panic!("Not a string"),
    }
}

#[test]
fn test_get_int32_field() {
    let field_data = b"-20";
    let field = Field {
        data: field_data,
        field_type: FieldType::Int32,
        value: Some(Value::Int32(-20)),
        codec: None,
        is_multi: false,
        is_container: false,
        is_null: false,
    };
    match field.value {
        Some(Value::Int32(v)) => assert_eq!(v, -20),
        _ => panic!("Not a int32"),
    }
}

#[test]
fn test_get_struct_field() {
    let field_data = b"<1,18,0,-6,5222,2>[1,20,(5:three),400000]";
    let field = Field {
        data: field_data,
        field_type: FieldType::Struct,
        value: Some(Value::Struct(Containers {
            containers: vec![Container {
                header: Header {
                    version: 1,
                    total_field: 18,
                    depth: 0,
                    key: -6,
                    schema_version: 5222,
                    ext_version: 2,
                },
                fields: vec![
                    Field::raw("1".as_bytes()),
                    Field::raw("20".as_bytes()),
                    Field::raw("(5:three)".as_bytes()),
                    Field::raw("400000".as_bytes()),
                ],
            }],
        })),
        codec: None,
        is_multi: false,
        is_container: false,
        is_null: false,
    };
    match field.value {
        Some(Value::Struct(v)) => {
            assert_eq!(v.containers.len(), 1);
            assert_eq!(v.containers[0].fields.len(), 4);
            assert_eq!(v.containers[0].fields[0].data, b"1");
            assert_eq!(v.containers[0].fields[1].data, b"20");
            assert_eq!(v.containers[0].fields[2].data, b"(5:three)");
            assert_eq!(v.containers[0].fields[3].data, b"400000");
        }
        _ => panic!("Not a struct"),
    }
}
