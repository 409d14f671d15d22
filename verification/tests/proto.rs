use protobuf_contract::proto::{File, Kind};

const ORDER: &str = r#"
        syntax = "proto3";
        package shop.v1;
        import "google/protobuf/timestamp.proto";
        option java_package = "com.shop";

        /* the order */
        message Order {
            int64 id = 1;
            string customer = 2; // who
            repeated Line lines = 3;
            Status status = 4;
            map<string, bool> tags = 5;
            oneof note { string text = 6; bytes blob = 7; }
            google.protobuf.Timestamp placed = 8;
            Line.Price total = 9;
            reserved 10, 11;
            message Line {
                string sku = 1;
                int32 qty = 2 [deprecated = true];
                Price price = 3;
                message Price { double amount = 1; }
            }
        }
        enum Status { NEW = 0; PAID = 1; }
    "#;

#[test]
fn a_file_reads_into_its_messages_with_types_resolved() {
    let file = File::parse(ORDER).expect("parse");
    assert_eq!(file.package, "shop.v1");
    assert_eq!(file.imports, ["google/protobuf/timestamp.proto"]);
    let order = file.message("shop.v1.Order").expect("Order");
    assert_eq!(order.fields.len(), 9);
    assert_eq!(order.fields[&1].kind, Kind::Varint);
    assert_eq!(order.fields[&2].kind, Kind::Text);
    assert_eq!(
        order.fields[&3].kind,
        Kind::Message("shop.v1.Order.Line".into())
    );
    assert!(order.fields[&3].repeated);
    assert_eq!(order.fields[&4].kind, Kind::Varint, "an enum is a varint");
    assert_eq!(
        order.fields[&5].kind,
        Kind::MapOf(Box::new(Kind::Text), Box::new(Kind::Varint))
    );
    assert_eq!(order.fields[&7].kind, Kind::Bytes);
    assert_eq!(order.fields[&8].kind, Kind::Opaque, "an import is opaque");
    assert_eq!(
        order.fields[&9].kind,
        Kind::Message("shop.v1.Order.Line.Price".into())
    );
    let line = file.message("Order.Line").expect("by short name");
    assert_eq!(
        line.fields[&3].kind,
        Kind::Message("shop.v1.Order.Line.Price".into())
    );
    assert_eq!(line.fields[&2].name, "qty");
}

#[test]
fn what_is_not_a_proto_file_is_refused() {
    assert!(File::parse("message A { string x; }").is_err(), "no number");
    assert!(
        File::parse("message A { string x = 1;").is_err(),
        "unclosed"
    );
    assert!(File::parse("banana A {}").is_err(), "statement");
    assert!(File::parse("/* open").is_err(), "comment");
    assert!(File::parse("option x = \"open;").is_err(), "string");
    let empty = File::parse("syntax = \"proto3\";").expect("no messages is still a file");
    assert!(empty.messages.is_empty());
}
