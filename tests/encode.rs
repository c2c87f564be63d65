use rust_mdd::cmdc::CmdcCodec;
use rust_mdd::mdd::{Container, Containers, Field, Header};

#[test]
fn test_encode_container() {
    let containers = Containers {
        containers: vec![Container {
            header: Header {
                version: 1,
                total_field: 18,
                depth: 0,
                key: -6,
                schema_version: 5222,
                ext_version: 2,
            },
            fields: vec![
                Field::raw("1".as_bytes()),
                Field::raw("20".as_bytes()),
                Field::raw("(5:three)".as_bytes()),
                Field::raw("400000".as_bytes()),
            ],
        }],
    };

    let mut encoded = Vec::new();
    CmdcCodec::new()
        .encode_containers(&mut encoded, &containers)
        .unwrap();

    assert_eq!(encoded, b"<1,18,0,-6,5222,2>[1,20,(5:three),400000]");
}
