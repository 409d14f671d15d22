use protobuf_contract::proto::{Field, File, Kind, Message};
use protobuf_contract::reader::{varint, Reader, Reason, Stop, Tag, WireType};
use protobuf_contract::wire::{check, first_departure, walk, walk_bare};

fn stop(reason: Reason, at: usize) -> Stop {
    Stop { reason, at }
}

fn schema(source: &str) -> File {
    match File::parse(source) {
        Ok(file) => file,
        Err(why) => panic!("{why}"),
    }
}

fn departure(source: &str, message: &str, bytes: &[u8]) -> Option<String> {
    let file = schema(source);
    walk(bytes, file.message(message).expect("message"), &file, "m").err()
}

#[test]
fn varints_are_read_to_their_last_byte() {
    assert_eq!(varint(&[0], 0), Ok((0, 1)));
    assert_eq!(varint(&[0xac, 0x02], 0), Ok((300, 2)));
    assert_eq!(varint(&[9, 0xac, 0x02, 7], 1), Ok((300, 3)));
    let most = [0xff, 0xff, 0xff, 0xff, 0xff, 0xff, 0xff, 0xff, 0xff, 0x01];
    assert_eq!(varint(&most, 0), Ok((u64::MAX, 10)));
    let mut over = most;
    over[9] = 0x02;
    assert_eq!(varint(&over, 0), Err(stop(Reason::VarintLarge, 0)));
    assert_eq!(varint(&[0x80; 10], 0), Err(stop(Reason::VarintLong, 0)));
    assert_eq!(varint(&[0x80; 9], 0), Err(stop(Reason::VarintCut, 0)));
    assert_eq!(varint(&[1, 0x80], 1), Err(stop(Reason::VarintCut, 1)));
    assert_eq!(varint(&[1], 5), Err(stop(Reason::VarintCut, 5)));
    assert_eq!(varint(&[0x80, 0x80, 0x00], 0), Ok((0, 3)));
}

#[test]
fn a_reader_gives_tags_and_values() {
    let bytes = [
        0x08, 0x96, 0x01, // 1: varint
        0x11, 1, 2, 3, 4, 5, 6, 7, 8, // 2: eight bytes
        0x1a, 0x02, 0x61, 0x62, // 3: length-delimited
        0x23, 0x2b, 0x08, 0x01, 0x2c, 0x24, // 4: a group with a group 5 in it
        0x35, 1, 2, 3, 4, // 6: four bytes
    ];
    let mut reader = Reader::new(&bytes);
    let mut found = Vec::new();
    while let Some(tag) = reader.tag().expect("tag") {
        found.push((tag.number, tag.wire, reader.value(tag).expect("value")));
    }
    assert_eq!(
        found,
        [
            (1, WireType::Varint, (1, 3)),
            (2, WireType::I64, (4, 12)),
            (3, WireType::Len, (14, 16)),
            (4, WireType::Group, (17, 22)),
            (6, WireType::I32, (23, 27)),
        ]
    );
}

#[test]
fn each_stop_has_its_words_and_its_byte() {
    let cases: [(&[u8], &str); 13] = [
        (&[0x08, 0x01, 0x80], "a varint cut off (byte 2)"),
        (&[0x08, 0x80], "a varint cut off (byte 1)"),
        (&[0x80; 11], "a varint longer than ten bytes (byte 0)"),
        (
            &[0x08, 0xff, 0xff, 0xff, 0xff, 0xff, 0xff, 0xff, 0xff, 0xff, 0x7f],
            "a varint of more than 64 bits (byte 1)",
        ),
        (&[0x00], "a field number outside the format's range (byte 0)"),
        (&[0x0e], "a wire type the format does not have (byte 0)"),
        (&[0x0f], "a wire type the format does not have (byte 0)"),
        (&[0x09, 1, 2, 3], "a value cut off (byte 1)"),
        (&[0x0d, 1, 2, 3], "a value cut off (byte 1)"),
        (&[0x0a, 0x03, 1, 2], "a value cut off (byte 2)"),
        (&[0x0b, 0x08, 0x01], "a group never closed (byte 3)"),
        (&[0x0c], "the end of a group that is not open (byte 0)"),
        (
            &[0x0b, 0x13, 0x0c],
            "the end of a group that is not open (byte 2)",
        ),
    ];
    for (bytes, words) in cases {
        assert_eq!(walk_bare(bytes), Err(words.to_string()));
    }
    assert_eq!(walk_bare(&[]), Ok(()));
}

#[test]
fn field_numbers_go_to_the_end_of_their_range() {
    // 2^29 - 1, as a varint field.
    assert_eq!(walk_bare(&[0xf8, 0xff, 0xff, 0xff, 0x0f, 0x00]), Ok(()));
    assert!(walk_bare(&[0x80, 0x80, 0x80, 0x80, 0x10, 0x00]).is_err());
}

#[test]
fn wire_types_have_their_numbers() {
    assert_eq!(WireType::Varint.number(), 0);
    assert_eq!(WireType::I64.number(), 1);
    assert_eq!(WireType::Len.number(), 2);
    assert_eq!(WireType::Group.number(), 3);
    assert_eq!(WireType::I32.number(), 5);
    assert_eq!(
        Tag { number: 1, wire: WireType::I32 },
        Tag { number: 1, wire: WireType::I32 }
    );
}

#[test]
fn each_departure_has_its_words_and_its_path() {
    let source = "message A { int32 n = 1; string s = 2; B b = 3; map<string, int32> m = 4; \
                  repeated fixed32 f = 5; repeated double d = 6; repeated sint32 v = 7; \
                  fixed32 one = 8; bytes raw = 9; X x = 10; } message B { string t = 1; }";
    let cases: [(&[u8], &str); 15] = [
        (&[0x80], "a varint cut off (byte 0) at m"),
        (&[0x08, 0x80], "a varint cut off (byte 1) at m.n"),
        (&[0x0a, 0x00], "wire type 2 where n is 0 at m.n"),
        (&[0x0b, 0x0c], "wire type 3 where n is 0 at m.n"),
        (&[0x10, 0x00], "wire type 0 where s is 2 at m.s"),
        (&[0x12, 0x01, 0xff], "a string that is not UTF-8 at m.s"),
        (
            &[0x1a, 0x03, 0x0a, 0x01, 0xff],
            "a string that is not UTF-8 at m.b.t",
        ),
        (&[0x1a, 0x01, 0x80], "a varint cut off (byte 0) at m.b"),
        (
            &[0x22, 0x03, 0x0a, 0x01, 0xff],
            "a string that is not UTF-8 at m.m.key",
        ),
        (
            &[0x22, 0x02, 0x12, 0x00],
            "wire type 2 where value is 0 at m.m.value",
        ),
        (
            &[0x2a, 0x03, 1, 2, 3],
            "3 bytes of 4-byte values in packed m.f",
        ),
        (
            &[0x32, 0x01, 1],
            "1 bytes of 8-byte values in packed m.d",
        ),
        (
            &[0x3a, 0x02, 0x01, 0x80],
            "a varint cut off (byte 1) in packed m.v",
        ),
        (&[0x42, 0x04, 1, 2, 3, 4], "wire type 2 where one is 5 at m.one"),
        (
            &[0xa2, 0x06, 0x05],
            "a value cut off (byte 3) in unknown field 100 at m",
        ),
    ];
    for (bytes, words) in cases {
        assert_eq!(departure(source, "A", bytes).as_deref(), Some(words));
    }
    let sound: [&[u8]; 9] = [
        &[],
        &[0x2a, 0x08, 1, 2, 3, 4, 5, 6, 7, 8],
        &[0x2d, 1, 2, 3, 4],
        &[0x32, 0x00],
        &[0x3a, 0x03, 0x01, 0x80, 0x01],
        &[0x4a, 0x01, 0xff],
        &[0x52, 0x01, 0xff],
        &[0xa3, 0x06, 0x08, 0x01, 0xa4, 0x06],
        &[0x1a, 0x03, 0x0a, 0x01, 0x61],
    ];
    for bytes in sound {
        assert_eq!(departure(source, "A", bytes), None);
    }
}

#[test]
fn a_message_the_file_does_not_define_has_only_to_be_sound() {
    let file = File::new();
    let lost = Kind::Message("Lost".to_string());
    assert_eq!(check(&[0x08, 0x01], &lost, &file, "p"), Ok(()));
    assert_eq!(
        check(&[0x08], &lost, &file, "p"),
        Err("a varint cut off (byte 1) at p".to_string())
    );
    let mut message = Message::default();
    message.fields.insert(
        1,
        Field {
            name: "f".to_string(),
            kind: lost,
            repeated: false,
        },
    );
    assert_eq!(
        walk(&[0x0a, 0x01, 0x80], &message, &file, "p"),
        Err("a varint cut off (byte 0) at p.f".to_string())
    );
}

#[test]
fn what_is_not_looked_into_may_be_anything() {
    let file = File::new();
    for kind in [
        Kind::Varint,
        Kind::Fixed64,
        Kind::Fixed32,
        Kind::Bytes,
        Kind::Opaque,
    ] {
        assert_eq!(check(&[0xff, 0x80], &kind, &file, "p"), Ok(()));
    }
    assert_eq!(check("grün".as_bytes(), &Kind::Text, &file, "p"), Ok(()));
    assert!(check(&[0xc0, 0x80], &Kind::Text, &file, "p").is_err());
    assert!(check(&[0xed, 0xa0, 0x80], &Kind::Text, &file, "p").is_err());
}

#[test]
fn a_message_is_sound_and_unknown_fields_are_left_alone() {
    let source = "message A { string s = 1; } message E {}";
    let samples: [&[u8]; 6] = [
        &[],
        &[0x0a, 0x01, 0x61],
        &[0x0a, 0x01, 0xff],
        &[0x10, 0x05],
        &[0x10],
        &[0x13, 0x08, 0x01, 0x14],
    ];
    for bytes in samples {
        if departure(source, "A", bytes).is_none() {
            assert_eq!(walk_bare(bytes), Ok(()));
        }
        assert_eq!(
            departure(source, "E", bytes).is_none(),
            walk_bare(bytes).is_ok()
        );
    }
}

#[test]
fn parts_join_and_the_first_departure_stands() {
    let source = "message A { string s = 1; int32 n = 2; }";
    let first: [&[u8]; 3] = [&[], &[0x0a, 0x01, 0x61], &[0x1b, 0x10, 0x01, 0x1c]];
    let second: [&[u8]; 4] = [&[0x10, 0x05], &[0x0a, 0x01, 0xff], &[0x10], &[0x1c]];
    for a in first {
        for b in second {
            let whole = [a, b].concat();
            assert_eq!(walk_bare(&whole).is_ok(), walk_bare(b).is_ok());
            assert_eq!(
                departure(source, "A", &whole).is_none(),
                departure(source, "A", b).is_none()
            );
        }
    }
    let bad: &[u8] = &[0x10, 0x05, 0x0a, 0x01, 0xff];
    for b in second {
        let whole = [bad, b].concat();
        assert_eq!(
            departure(source, "A", &whole),
            departure(source, "A", bad)
        );
    }
}

#[test]
fn a_wrong_wire_type_is_told_whatever_follows() {
    let source = "message A { int32 n = 1; }";
    let cases: [&[u8]; 3] = [&[0x0a], &[0x0a, 0x7f], &[0x0a, 0x01, 0x61, 0x80]];
    for bytes in cases {
        assert_eq!(
            departure(source, "A", bytes).as_deref(),
            Some("wire type 2 where n is 0 at m.n")
        );
    }
}

#[test]
fn the_path_does_not_decide_and_leads_on() {
    let file = schema("message A { B b = 1; } message B { string s = 1; }");
    let message = file.message("A").expect("A");
    let bytes = [0x0a, 0x03, 0x0a, 0x01, 0xff];
    for path in ["", "x", "x.y"] {
        let why = walk(&bytes, message, &file, path).expect_err("departs");
        assert_eq!(why, format!("a string that is not UTF-8 at {path}.b.s"));
        assert_eq!(walk(&[], message, &file, path), Ok(()));
    }
}

#[test]
fn the_first_departure_is_found_with_its_path() {
    let file = schema("message A { repeated fixed32 f = 1; string s = 2; }");
    let message = file.message("A").expect("A");
    let packed = first_departure(&[0x0a, 3, 1, 2, 3], message, &file, "m").expect("packed");
    assert_eq!(packed.what, "3 bytes of 4-byte values");
    assert!(packed.packed);
    assert_eq!(packed.path, "m.f");
    assert_eq!(packed.text(), "3 bytes of 4-byte values in packed m.f");
    let plain = first_departure(&[0x12, 1, 0xff], message, &file, "m").expect("plain");
    assert_eq!(plain.what, "a string that is not UTF-8");
    assert!(!plain.packed);
    assert_eq!(plain.path, "m.s");
    assert_eq!(plain.text(), "a string that is not UTF-8 at m.s");
    assert!(first_departure(&[0x12, 1, b'x'], message, &file, "m").is_none());
}

#[test]
fn packed_values_join() {
    let source = "message A { repeated int32 v = 1; repeated double d = 2; }";
    let field = |number: u8, value: &[u8]| {
        let mut bytes = vec![number << 3 | 2, value.len() as u8];
        bytes.extend_from_slice(value);
        departure(source, "A", &bytes)
    };
    let parts: [&[u8]; 4] = [&[], &[1, 0x80, 0x01], &[0x80], &[5, 0xff]];
    for part in parts {
        let mut whole = vec![0xac, 0x02, 7];
        whole.extend_from_slice(part);
        assert_eq!(field(1, &whole).is_none(), field(1, part).is_none());
    }
    assert!(field(1, &[]).is_none());
    for length in 0..17 {
        assert_eq!(field(2, &vec![0; length]).is_none(), length % 8 == 0);
    }
}
