use protobuf_contract::contract::Stream;
use protobuf_contract::proto::File;
use protobuf_contract::{Protobuf, ProtobufFactory, Reference};

const ORDER: &str = r#"
        syntax = "proto3";
        package shop.v1;
        import "google/protobuf/timestamp.proto";
        option java_package = "com.shop";

        /* the order */
        message Order {
            int64 id = 1;
            string customer = 2; // who
            repeated Line lines = 3;
            Status status = 4;
            map<string, bool> tags = 5;
            oneof note { string text = 6; bytes blob = 7; }
            google.protobuf.Timestamp placed = 8;
            Line.Price total = 9;
            reserved 10, 11;
            message Line {
                string sku = 1;
                int32 qty = 2 [deprecated = true];
                Price price = 3;
                message Price { double amount = 1; }
            }
        }
        enum Status { NEW = 0; PAID = 1; }
    "#;

fn encode_varint(mut value: u64) -> Vec<u8> {
    let mut out = Vec::new();
    while value >= 0x80 {
        out.push(value as u8 | 0x80);
        value >>= 7;
    }
    out.push(value as u8);
    out
}

fn encode_tag(number: u64, wire: u64) -> Vec<u8> {
    encode_varint((number << 3) | wire)
}

fn encode_delimited(number: u64, value: &[u8]) -> Vec<u8> {
    let mut out = encode_tag(number, 2);
    out.extend(encode_varint(value.len() as u64));
    out.extend_from_slice(value);
    out
}

fn order() -> Vec<u8> {
    let mut out = encode_tag(1, 0);
    out.extend(encode_varint(4711));
    out.extend(encode_delimited(2, b"ACME"));
    let mut line = encode_delimited(1, b"X001");
    line.extend(encode_tag(2, 0));
    line.push(2);
    out.extend(encode_delimited(3, &line));
    out
}

fn stream(bytes: Vec<u8>, media_type: Option<&str>) -> Stream {
    Stream::new(bytes, media_type.map(str::to_string))
}

#[test]
fn sound_wire_format_holds_bare_and_bound() {
    let bare = Protobuf::new();
    assert!(bare
        .identify(&stream(vec![], Some("application/x-protobuf")))
        .expect("identify"));
    assert!(!bare.identify(&stream(order(), None)).expect("identify"));
    assert!(
        bare.validate(&stream(order(), None))
            .expect("validate")
            .valid
    );
    assert!(
        bare.validate(&stream(vec![], None))
            .expect("validate")
            .valid
    );
    let file = File::parse(ORDER).expect("schema");
    let bound = Protobuf::of(file, "Order").ok().expect("bound");
    assert!(bound.is_bound());
    assert_eq!(bound.descriptor().id.0, "protobuf:shop.v1.Order");
    assert!(
        bound
            .validate(&stream(order(), None))
            .expect("validate")
            .valid
    );
    assert!(Protobuf::of(File::parse(ORDER).expect("schema"), "Nope").is_err());
}

#[test]
fn a_departure_is_named_with_its_path() {
    let file = File::parse(ORDER).expect("schema");
    let bound = Protobuf::of(file, "shop.v1.Order").ok().expect("bound");
    let mut bad = order();
    bad[0] = encode_tag(2, 0)[0]; // customer as a varint
    let result = bound.validate(&stream(bad, None)).expect("validate");
    assert!(!result.valid);
    assert_eq!(result.issues[0].code, "malformed");
    assert_eq!(
        result.issues[0].path.as_deref(),
        Some("shop.v1.Order.customer")
    );
    let result = Protobuf::new()
        .validate(&stream(vec![0x80], None))
        .expect("validate");
    assert!(!result.valid);
    assert!(result.issues[0].path.is_none());
}

#[test]
fn the_factory_locates_a_file_and_binds_a_message() {
    let reference = ProtobufFactory
        .locate("orders.proto#shop.v1.Order")
        .expect("locate");
    let loaded = match reference {
        Reference::Message { path, message } => {
            assert_eq!(path, "orders.proto");
            ProtobufFactory.bind(&path, &message, Ok(ORDER.to_string()))
        }
        Reference::Bare => panic!("a reference to a message"),
    };
    let loaded = loaded.ok().expect("load");
    assert_eq!(loaded.descriptor().id.0, "protobuf:shop.v1.Order");
    assert!(
        loaded
            .validate(&stream(order(), None))
            .expect("validate")
            .valid
    );
    assert!(ProtobufFactory.locate("orders.proto").is_err(), "no #");
    let missing = ProtobufFactory.bind("/no/such.proto", "A", Err("not found".to_string()));
    assert_eq!(
        missing.err().expect("missing").message,
        "cannot read /no/such.proto: not found"
    );
    assert_eq!(ProtobufFactory.locate(" "), Ok(Reference::Bare));
    assert!(!Protobuf::new().descriptor().id.0.contains(':'));
}

fn bound(source: &str, message: &str) -> Protobuf {
    let file = File::parse(source).ok().expect("schema");
    Protobuf::of(file, message).ok().expect("bound")
}

#[test]
fn the_media_type_is_the_mark() {
    let bare = Protobuf::default();
    for mark in [
        "application/protobuf",
        "application/x-protobuf",
        "application/vnd.google.protobuf",
        "Application/ProtoBuf",
        " application/protobuf ; charset=utf-8",
        "application/x-protobuf;;",
        "\u{3000}application/protobuf",
    ] {
        let marked = bare.identify(&stream(vec![], Some(mark)));
        assert_eq!(marked, Ok(true), "{mark}");
    }
    for other in ["", ";", "application/json", "application/protobuf2", "protobuf"] {
        let marked = bare.identify(&stream(order(), Some(other)));
        assert_eq!(marked, Ok(false), "{other}");
    }
}

#[test]
fn a_contract_describes_itself() {
    let bare = Protobuf::new();
    assert!(!bare.is_bound());
    assert_eq!(bare.descriptor().id.0, "protobuf");
    assert_eq!(bare.descriptor().version, "1");
    assert_eq!(bare.descriptor().representation, "application/protobuf");
    let order = bound(ORDER, "Order.Line");
    assert_eq!(order.descriptor().id.0, "protobuf:shop.v1.Order.Line");
    let refused = Protobuf::of(File::new(), "Nope").err().expect("no message");
    assert_eq!(refused.message, "the file does not define message Nope");
}

#[test]
fn an_issue_has_what_is_wrong_and_where() {
    let contract = bound("message A { repeated fixed32 f = 1; string s = 2; B b = 3; } message B { A a = 1; }", "A");
    let issue = |bytes: &[u8]| {
        let result = contract
            .validate(&stream(bytes.to_vec(), None))
            .expect("validate");
        assert!(!result.valid);
        assert_eq!(result.issues.len(), 1);
        result.issues[0].clone()
    };
    let deep = issue(&[0x1a, 0x05, 0x0a, 0x03, 0x12, 0x01, 0xff]);
    assert_eq!(deep.code, "malformed");
    assert_eq!(deep.message, "a string that is not UTF-8");
    assert_eq!(deep.path.as_deref(), Some("A.b.a.s"));
    let packed = issue(&[0x0a, 0x01, 0x00]);
    assert_eq!(packed.message, "1 bytes of 4-byte values in packed A.f");
    assert_eq!(packed.path.as_deref(), Some("A.f"));
    let bare = Protobuf::new()
        .validate(&stream(vec![0x0a, 0x01], None))
        .expect("validate");
    assert_eq!(bare.issues[0].message, "a value cut off (byte 2)");
    assert_eq!(bare.issues[0].path, None);
    let sound = contract.validate(&stream(vec![], None)).expect("validate");
    assert!(sound.valid);
    assert!(sound.issues.is_empty());
}

#[test]
fn a_departure_among_packed_values_is_named_with_its_path() {
    let contract = bound("message P { repeated fixed32 v = 1; }", "P");
    let result = contract
        .validate(&stream(vec![0x0a, 3, 1, 2, 3], None))
        .expect("validate");
    assert!(!result.valid);
    assert_eq!(result.issues.len(), 1);
    assert_eq!(result.issues[0].code, "malformed");
    assert_eq!(result.issues[0].path.as_deref(), Some("P.v"));
}

#[test]
fn a_name_with_at_in_it_stays_in_its_path() {
    let contract = bound("message A { string \"x at y\" = 1; }", "A");
    let result = contract
        .validate(&stream(vec![0x08, 0x00], None))
        .expect("validate");
    assert_eq!(
        result.issues[0].message,
        "wire type 0 where \"x at y\" is 2"
    );
    assert_eq!(result.issues[0].path.as_deref(), Some("A.\"x at y\""));
}

#[test]
fn what_a_bound_contract_takes_the_bare_one_takes() {
    let contract = bound(ORDER, "Order");
    let bare = Protobuf::new();
    let samples: [&[u8]; 4] = [&[], &[0x08, 0x01], &[0x0a], &[0x10, 0x01]];
    for bytes in samples {
        let stream = stream(bytes.to_vec(), None);
        if contract.validate(&stream).expect("bound").valid {
            assert!(bare.validate(&stream).expect("bare").valid);
        }
    }
}

#[test]
fn a_reference_is_a_path_and_a_message() {
    assert_eq!(ProtobufFactory.technology(), "protobuf");
    assert_eq!(ProtobufFactory.locate(""), Ok(Reference::Bare));
    for reference in ["a b.proto#p.M#x", "\t a b.proto#p.M#x\n", "\u{a0}a b.proto#p.M#x"] {
        assert_eq!(
            ProtobufFactory.locate(reference),
            Ok(Reference::Message {
                path: "a b.proto".to_string(),
                message: "p.M#x".to_string()
            })
        );
    }
    assert_eq!(
        ProtobufFactory.locate(" a\"b ").err().expect("no #").message,
        "\"a\\\"b\" is not file.proto#package.Message"
    );
}

#[test]
fn a_file_that_is_none_is_refused_with_its_path() {
    let refused = |source: &str, message: &str| {
        ProtobufFactory
            .bind("x.proto", message, Ok(source.to_string()))
            .err()
            .expect("refused")
            .message
    };
    assert_eq!(
        refused("message A", "A"),
        "x.proto is not a proto file: the file ends inside a definition"
    );
    assert_eq!(
        refused("message A {}", "B"),
        "the file does not define message B"
    );
}
