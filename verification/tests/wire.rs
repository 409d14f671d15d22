use protobuf_contract::proto::File;
use protobuf_contract::reader::WireType;
use protobuf_contract::wire::{walk, walk_bare};

const ORDER: &str = r#"
        syntax = "proto3";
        package shop.v1;
        import "google/protobuf/timestamp.proto";
        option java_package = "com.shop";

        /* the order */
        message Order {
            int64 id = 1;
            string customer = 2; // who
            repeated Line lines = 3;
            Status status = 4;
            map<string, bool> tags = 5;
            oneof note { string text = 6; bytes blob = 7; }
            google.protobuf.Timestamp placed = 8;
            Line.Price total = 9;
            reserved 10, 11;
            message Line {
                string sku = 1;
                int32 qty = 2 [deprecated = true];
                Price price = 3;
                message Price { double amount = 1; }
            }
        }
        enum Status { NEW = 0; PAID = 1; }
    "#;

fn encode_varint(mut value: u64) -> Vec<u8> {
    let mut out = Vec::new();
    while value >= 0x80 {
        out.push(value as u8 | 0x80);
        value >>= 7;
    }
    out.push(value as u8);
    out
}

fn encode_tag(number: u32, wire: WireType) -> Vec<u8> {
    encode_varint((u64::from(number) << 3) | u64::from(wire.number()))
}

fn encode_delimited(number: u32, value: &[u8]) -> Vec<u8> {
    let mut out = encode_tag(number, WireType::Len);
    out.extend(encode_varint(value.len() as u64));
    out.extend_from_slice(value);
    out
}

fn order(id: u64, customer: &str, qty: u64) -> Vec<u8> {
    let mut line = encode_delimited(1, b"X001");
    line.extend(encode_tag(2, WireType::Varint));
    line.extend(encode_varint(qty));
    let mut price = encode_tag(1, WireType::I64);
    price.extend_from_slice(&10.5f64.to_le_bytes());
    line.extend(encode_delimited(3, &price));
    let mut out = encode_tag(1, WireType::Varint);
    out.extend(encode_varint(id));
    out.extend(encode_delimited(2, customer.as_bytes()));
    out.extend(encode_delimited(3, &line));
    out.extend(encode_tag(4, WireType::Varint));
    out.extend(encode_varint(1));
    let mut entry = encode_delimited(1, b"vip");
    entry.extend(encode_tag(2, WireType::Varint));
    entry.push(1);
    out.extend(encode_delimited(5, &entry));
    out.extend(encode_delimited(8, &[8, 1]));
    out.extend(encode_tag(99, WireType::I32));
    out.extend_from_slice(&[0, 0, 0, 0]);
    out
}

#[test]
fn a_message_walks_by_its_schema_and_departures_are_placed() {
    let file = File::parse(ORDER).expect("schema");
    let message = file.message("shop.v1.Order").expect("Order");
    let bytes = order(4711, "ACME", 2);
    walk(&bytes, message, &file, "order").expect("sound");
    walk_bare(&bytes).expect("bare");

    let mut wrong_wire = bytes.clone();
    wrong_wire[0] = encode_tag(1, WireType::Len)[0];
    let error = walk(&wrong_wire, message, &file, "order").expect_err("wire");
    assert!(error.contains("where id is 0 at order.id"), "{error}");

    let mut bad_utf8 = bytes.clone();
    let at = 1 + encode_varint(4711).len() + 2;
    bad_utf8[at] = 0xff;
    let error = walk(&bad_utf8, message, &file, "order").expect_err("utf-8");
    assert_eq!(error, "a string that is not UTF-8 at order.customer");

    let mut short = bytes.clone();
    short.truncate(bytes.len() - 2);
    assert!(walk(&short, message, &file, "order").is_err());
    assert!(walk_bare(&short).is_err());

    let mut packed = encode_delimited(3, &[]);
    packed.clear();
    packed.extend(encode_tag(3, WireType::Varint));
    packed.push(7);
    let error = walk(&packed, message, &file, "order").expect_err("lines are messages");
    assert!(error.contains("order.lines"), "{error}");
}

#[test]
fn packed_scalars_groups_and_zero_fields_are_judged() {
    let file = File::parse("message P { repeated int32 v = 1; string s = 2; }").expect("p");
    let message = file.message("P").expect("P");
    let mut packed = encode_delimited(1, &[1, 2, 0x80, 0x01]);
    packed.extend(encode_delimited(2, b"ok"));
    walk(&packed, message, &file, "p").expect("packed");
    let cut = encode_delimited(1, &[0x80]);
    assert!(
        walk(&cut, message, &file, "p").is_err(),
        "a packed varint cut off"
    );
    assert!(
        walk_bare(&encode_tag(1, WireType::Group)).is_err(),
        "a group never closed"
    );
    assert!(
        walk_bare(&encode_tag(0, WireType::Varint)).is_err(),
        "field 0"
    );
    assert!(walk_bare(&[0x80; 11]).is_err(), "eleven bytes");
    assert_eq!(encode_varint(300), [0xac, 0x02]);
}

#[test]
fn a_group_is_walked_and_the_field_range_is_the_format_s() {
    let mut group = encode_tag(7, WireType::Group);
    group.extend(encode_tag(1, WireType::Varint));
    group.push(1);
    group.extend(encode_varint((7 << 3) | 4)); // the group's end tag
    walk_bare(&group).expect("a closed group is sound wire format");

    let file = File::parse("message P { string s = 2; }").expect("p");
    let message = file.message("P").expect("P");
    let mut with_unknown_group = group.clone();
    with_unknown_group.extend(encode_delimited(2, b"ok"));
    walk(&with_unknown_group, message, &file, "p").expect("an unknown group is skipped");

    let past_the_range = encode_varint(1 << 32);
    let error = walk_bare(&past_the_range).expect_err("field 2^29");
    assert!(
        error.starts_with("a field number outside the format's range"),
        "{error}"
    );
}
