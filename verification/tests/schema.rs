use protobuf_contract::lexer::tokenize;
use protobuf_contract::parser::read_tokens;
use protobuf_contract::proto::{full_name, scalar, File, Kind, Message, Messages};
use protobuf_contract::text::{in_decimal, is_alphanumeric, to_number, trimmed};

fn refused(source: &str) -> String {
    match File::parse(source) {
        Ok(_) => panic!("read: {source}"),
        Err(why) => why,
    }
}

fn read(source: &str) -> File {
    match File::parse(source) {
        Ok(file) => file,
        Err(why) => panic!("{why}: {source}"),
    }
}

fn kind(file: &File, message: &str, number: u32) -> Kind {
    file.message(message).expect("message").fields[&number]
        .kind
        .clone()
}

#[test]
fn each_refusal_has_its_words() {
    assert_eq!(refused("/* open"), "a comment that never closes");
    assert_eq!(refused("/*/"), "a comment that never closes");
    assert_eq!(refused("option x = \"open;"), "a string that never closes");
    assert_eq!(refused("option x = 'a\\"), "a string that never closes");
    assert_eq!(refused("option x = 'a\\'"), "a string that never closes");
    assert_eq!(
        refused("banana A {}"),
        "\"banana\" does not begin a statement"
    );
    assert_eq!(refused("}"), "\"}\" does not begin a statement");
    assert_eq!(
        refused("message A { string x; }"),
        "expected \"=\", found \";\""
    );
    assert_eq!(
        refused("message A { string x = y; }"),
        "field x of A has no number"
    );
    assert_eq!(
        refused("package p; message A { message B { B b = -1; } }"),
        "field b of p.A.B has no number"
    );
    assert_eq!(
        refused("message A { string x = 4294967296; }"),
        "field x of A has no number"
    );
    assert_eq!(
        refused("message A { string x = 1;"),
        "message A never closes"
    );
    assert_eq!(refused("message A"), "the file ends inside a definition");
    assert_eq!(refused("message"), "the file ends inside a definition");
    assert_eq!(
        refused("syntax = \"proto3\""),
        "the file ends inside a definition"
    );
    assert_eq!(
        refused("message A { oneof o { string x = 1;"),
        "the file ends inside a definition"
    );
    assert_eq!(
        refused("message A { oneof"),
        "the file ends inside a definition"
    );
    assert_eq!(
        refused("enum E { A = 0; { }"),
        "the file ends inside a definition"
    );
    assert_eq!(refused("package a b;"), "expected \";\", found \"b\"");
    assert_eq!(
        refused("message A { map<string; int32> m = 1; }"),
        "expected \",\", found \";\""
    );
    assert_eq!(
        refused("message A { int32 x = 1 [deprecated = true; }"),
        "the file ends inside a definition"
    );
}

#[test]
fn what_is_quoted_is_escaped() {
    assert_eq!(
        refused("message A \"a\nb\""),
        "expected \"{\", found \"\\\"a\\nb\\\"\""
    );
}

#[test]
fn tokens_are_words_strings_and_single_characters() {
    assert_eq!(
        tokenize("a.b_c-1 = \"x; \\\" y\" /* no */ { } // end").expect("tokens"),
        ["a.b_c-1", "=", "\"x; \\\" y\"", "{", "}"]
    );
    assert_eq!(tokenize("a/b").expect("tokens"), ["a", "/", "b"]);
    assert_eq!(tokenize("'it''s'").expect("tokens"), ["'it'", "'s'"]);
    assert_eq!(tokenize("/**/a/***/b").expect("tokens"), ["a", "b"]);
    assert!(tokenize(" \t\r\n\u{b}\u{c}").expect("tokens").is_empty());
    assert!(tokenize("").expect("tokens").is_empty());
}

#[test]
fn letters_and_spaces_beyond_ascii_are_unicode_s() {
    assert_eq!(
        tokenize("größe\u{a0}名前\u{3000}x\u{2028}y").expect("tokens"),
        ["größe", "名前", "x", "y"]
    );
    assert_eq!(tokenize("a→b").expect("tokens"), ["a", "→", "b"]);
    for code in 0..0x3100u32 {
        if let Some(c) = char::from_u32(code) {
            assert_eq!(is_alphanumeric(c), c.is_alphanumeric(), "{code:x}");
        }
    }
}

#[test]
fn white_space_is_a_short_list() {
    for code in 0..=0x10ffffu32 {
        if let Some(c) = char::from_u32(code) {
            let listed = matches!(
                c,
                '\t'..='\r'
                    | ' '
                    | '\u{85}'
                    | '\u{a0}'
                    | '\u{1680}'
                    | '\u{2000}'..='\u{200a}'
                    | '\u{2028}'
                    | '\u{2029}'
                    | '\u{202f}'
                    | '\u{205f}'
                    | '\u{3000}'
            );
            assert_eq!(c.is_whitespace(), listed, "{code:x}");
        }
    }
    assert_eq!(trimmed("\u{2003}a b\u{205f}\u{85}"), "a b");
    assert_eq!(trimmed("\u{200b}a"), "\u{200b}a");
}

#[test]
fn tokens_written_out_read_as_themselves() {
    for source in [
        "message A{int32 x=1;}// end",
        "a/b / *c 'it\\'s' \"// no\" -1.5",
        "option x={y:[1,2]};/* gone */größe→x",
        "",
    ] {
        let tokens = tokenize(source).expect("tokens");
        assert_eq!(tokenize(&tokens.join(" ")).expect("again"), tokens);
    }
}

#[test]
fn numbers_are_read_as_the_language_writes_them() {
    assert_eq!(to_number("0"), Some(0));
    assert_eq!(to_number("+17"), Some(17));
    assert_eq!(to_number("0042"), Some(42));
    assert_eq!(to_number("4294967295"), Some(u32::MAX));
    assert_eq!(to_number("4294967296"), None);
    assert_eq!(to_number("99999999999999999999999"), None);
    for bad in ["", "+", "-1", "1_000", " 1", "1 ", "0x10", "++1", "٣"] {
        assert_eq!(to_number(bad), None, "{bad}");
        assert!(bad.parse::<u32>().is_err(), "{bad}");
    }
    assert_eq!(in_decimal(0), "0");
    assert_eq!(in_decimal(18446744073709551615), "18446744073709551615");
    assert_eq!(trimmed(" \u{3000}a b\n"), "a b");
    assert_eq!(trimmed(" \t"), "");
}

#[test]
fn every_scalar_has_its_kind() {
    for name in ["int32", "int64", "uint32", "uint64", "sint32", "sint64", "bool"] {
        assert_eq!(scalar(name), Some(Kind::Varint), "{name}");
    }
    for name in ["fixed64", "sfixed64", "double"] {
        assert_eq!(scalar(name), Some(Kind::Fixed64), "{name}");
    }
    for name in ["fixed32", "sfixed32", "float"] {
        assert_eq!(scalar(name), Some(Kind::Fixed32), "{name}");
    }
    assert_eq!(scalar("string"), Some(Kind::Text));
    assert_eq!(scalar("bytes"), Some(Kind::Bytes));
    assert_eq!(scalar("String"), None);
    assert_eq!(scalar(".int32"), None);
}

#[test]
fn full_names_have_dots_between() {
    let scope = vec!["A".to_string(), "B".to_string()];
    assert_eq!(full_name("p.q", &scope, "C"), "p.q.A.B.C");
    assert_eq!(full_name("", &scope, "C"), "A.B.C");
    assert_eq!(full_name("p", &[], "C"), "p.C");
    assert_eq!(full_name("", &[], "C"), "C");
}

#[test]
fn the_last_label_counts() {
    let file = read(
        "message A { repeated optional int32 x = 1; optional repeated int32 y = 2; \
         required int32 z = 3; }",
    );
    let a = file.message("A").expect("A");
    assert!(!a.fields[&1].repeated);
    assert!(a.fields[&2].repeated);
    assert!(!a.fields[&3].repeated);
}

#[test]
fn a_oneof_has_options_and_no_labels() {
    let file = read(
        "message A { oneof o { option (x) = 1; int32 a = 1; repeated b = 2; } string c = 3; }",
    );
    let a = file.message("A").expect("A");
    assert_eq!(a.fields.len(), 3);
    assert_eq!(a.fields[&2].name, "b");
    assert_eq!(a.fields[&2].kind, Kind::Opaque);
    assert!(!a.fields[&2].repeated);
}

#[test]
fn maps_go_from_scalars() {
    let file = read("message A { map<E, A> m = 1; map<string, X> n = 2; } enum E { Z = 0; }");
    assert_eq!(
        kind(&file, "A", 1),
        Kind::MapOf(
            Box::new(Kind::Varint),
            Box::new(Kind::Message("A".to_string()))
        )
    );
    assert_eq!(
        kind(&file, "A", 2),
        Kind::MapOf(Box::new(Kind::Text), Box::new(Kind::Opaque))
    );
}

#[test]
fn imports_are_kept_in_order_without_their_quotes() {
    let file = read("import \"a.proto\"; import public \"b.proto\"; import weak 'c.proto'; ;");
    assert_eq!(file.imports, ["a.proto", "b.proto", "'c.proto'"]);
    assert!(file.enums.is_empty());
}

#[test]
fn a_type_is_the_nearest_of_its_name() {
    let file = read(
        "package p; message T {} message A { message T {} T near = 1; .p.T far = 2; \
         message B { T up = 1; A.T dotted = 2; p.T full = 3; } } \
         message C { T outer = 1; A.T inner = 2; Nope none = 3; }",
    );
    assert_eq!(kind(&file, "A", 1), Kind::Message("p.A.T".to_string()));
    assert_eq!(kind(&file, "A", 2), Kind::Message("p.T".to_string()));
    assert_eq!(kind(&file, "A.B", 1), Kind::Message("p.A.T".to_string()));
    assert_eq!(kind(&file, "A.B", 2), Kind::Message("p.A.T".to_string()));
    assert_eq!(kind(&file, "A.B", 3), Kind::Message("p.T".to_string()));
    assert_eq!(kind(&file, "C", 1), Kind::Message("p.T".to_string()));
    assert_eq!(kind(&file, "C", 2), Kind::Message("p.A.T".to_string()));
    assert_eq!(kind(&file, "C", 3), Kind::Opaque);
    assert_eq!(
        file.resolve(&["A".to_string(), "B".to_string()], "T"),
        Kind::Message("p.A.T".to_string())
    );
    assert_eq!(file.resolve(&[], "string"), Kind::Text);
}

#[test]
fn a_type_may_stand_before_what_it_names() {
    let before = read("message A { B b = 1; E e = 2; } message B {} enum E { Z = 0; }");
    let after = read("enum E { Z = 0; } message B {} message A { B b = 1; E e = 2; }");
    for file in [&before, &after] {
        assert_eq!(kind(file, "A", 1), Kind::Message("B".to_string()));
        assert_eq!(kind(file, "A", 2), Kind::Varint);
    }
}

#[test]
fn a_package_counts_from_where_it_stands() {
    let file = read("message A {} package p; message B { A a = 1; }");
    assert!(file.messages.contains_key("A"));
    assert!(file.messages.contains_key("p.B"));
    assert!(!file.messages.contains_key("p.A"));
    assert_eq!(kind(&file, "B", 1), Kind::Message("A".to_string()));
}

#[test]
fn a_message_that_stands_twice_is_one_and_a_number_given_twice_is_the_last_field_s() {
    let file = read("message A { int32 x = 1; } message A { string y = 2; string z = 1; }");
    let a = file.message("A").expect("A");
    assert_eq!(a.fields.len(), 2);
    assert_eq!(a.fields[&1].name, "z");
    let file = read(
        "message A { B b = 1; int32 x = 1; map<string, B> m = 2; bytes y = 2; B c = 3; C d = 3; \
         bool e = 4; B f = 4; B g = 5; Z h = 5; B i = 6; map<int32, C> j = 6; } \
         message B {} message C {}",
    );
    let a = file.message("A").expect("A");
    assert_eq!(a.fields[&1].name, "x");
    assert_eq!(a.fields[&1].kind, Kind::Varint);
    assert_eq!(a.fields[&2].kind, Kind::Bytes);
    assert_eq!(a.fields[&3].kind, Kind::Message("C".to_string()));
    assert_eq!(a.fields[&4].kind, Kind::Message("B".to_string()));
    assert_eq!(a.fields[&5].kind, Kind::Opaque);
    assert_eq!(
        a.fields[&6].kind,
        Kind::MapOf(
            Box::new(Kind::Varint),
            Box::new(Kind::Message("C".to_string()))
        )
    );
}

#[test]
fn messages_are_counted_listed_and_added() {
    let mut file = read("package p; message A { message B {} } message C {} message A {}");
    assert_eq!(file.messages.len(), 3);
    let mut names = file.messages.names();
    names.sort();
    assert_eq!(names, ["p.A", "p.A.B", "p.C"]);
    let other = read("message X { int32 x = 1; }");
    let x = other.message("X").expect("X").clone();
    assert!(file.messages.insert("p.D", x.clone()).is_none());
    assert_eq!(file.messages.len(), 4);
    assert_eq!(file.message("D"), Some(&x));
    let before = file.messages.insert("p.D", Message::default());
    assert_eq!(before, Some(x));
    assert_eq!(file.messages.len(), 4);
    assert_eq!(file.message("D"), Some(&Message::default()));
    let copy = file.clone();
    assert_eq!(copy.package, "p");
    assert_eq!(copy.messages.names(), file.messages.names());
    assert_eq!(Messages::new().len(), 0);
    assert!(Messages::new().names().is_empty());
}

#[test]
fn enums_are_skipped_to_their_closing_brace() {
    let file = read("enum E { option x = { a: { b: 1 } }; Z = 0; } message A { E e = 1; }");
    assert_eq!(file.enums, ["E"]);
    assert_eq!(kind(&file, "A", 1), Kind::Varint);
    let nested = read("package p; message A { enum E { Z = 0; } E e = 1; }");
    assert_eq!(nested.enums, ["p.A.E"]);
    assert_eq!(kind(&nested, "A", 1), Kind::Varint);
}

#[test]
fn other_statements_are_passed_over() {
    let file = read(
        "edition = \"2023\"; option a = 1; message A { option b = 2; reserved 1 to 3; \
         extensions 100 to 199; int32 x = 4; }",
    );
    assert_eq!(file.message("A").expect("A").fields.len(), 1);
}

#[test]
fn what_is_empty_is_empty() {
    assert!(Messages::new().is_empty());
    assert!(File::default().messages.is_empty());
    assert!(File::default().message("A").is_none());
    assert!(Message::default().fields.is_empty());
    let file = read("message A {}");
    assert!(!file.messages.is_empty());
    assert!(file.messages.get("A").is_some());
    assert!(file.messages.get("B").is_none());
}

#[test]
fn tokens_alone_are_read_too() {
    let tokens: Vec<String> = ["message", "A", "{", "int32", "x", "=", "1", ";", "}"]
        .iter()
        .map(|token| token.to_string())
        .collect();
    let file = read_tokens(tokens).expect("file");
    assert_eq!(kind(&file, "A", 1), Kind::Varint);
    let cut: Vec<String> = ["message", "A", "{", ""]
        .iter()
        .map(|token| token.to_string())
        .collect();
    assert_eq!(
        read_tokens(cut).err().expect("cut"),
        "message A never closes"
    );
}

#[test]
fn line_breaks_part_and_comments_say_nothing() {
    let first = "message A { // one";
    let second = "int32 x = 1; } /* two */";
    let mut apart = tokenize(first).expect("first");
    apart.extend(tokenize(second).expect("second"));
    let whole = format!("{first}\n{second}");
    assert_eq!(tokenize(&whole).expect("whole"), apart);
    for before in [" ", "\u{a0}", "// note\n", "/* no * / te **/"] {
        let whole = format!("{before}{second}");
        assert_eq!(
            tokenize(&whole).expect("whole"),
            tokenize(second).expect("second")
        );
    }
    for token in apart {
        assert!(!token.is_empty());
    }
}

#[test]
fn a_file_that_was_read_defines_what_its_fields_name() {
    let file = read(
        "import \"x.proto\"; package p; message A { B b = 1; x.Y y = 2; map<int32, B> m = 3; \
         message B { A a = 1; } }",
    );
    for name in ["p.A", "p.A.B"] {
        for field in file.messages.get(name).expect("message").fields.values() {
            match &field.kind {
                Kind::Message(named) => assert!(file.messages.contains_key(named)),
                Kind::MapOf(key, value) => {
                    assert_eq!(**key, Kind::Varint);
                    assert_eq!(**value, Kind::Message("p.A.B".to_string()));
                }
                other => assert_eq!(*other, Kind::Opaque),
            }
        }
    }
}

#[test]
fn statements_are_read_one_after_the_other() {
    let file = read(
        "import public \"a/b.proto\"; package p; message A { message B { enum E { Z = 0; } } \
         oneof o { option x = 1; int32 n = 1; } string s = 2; } import \"c.proto\"; message C {}",
    );
    assert_eq!(file.imports, ["a/b.proto", "c.proto"]);
    assert_eq!(file.enums, ["p.A.B.E"]);
    assert_eq!(file.messages.names(), ["p.A", "p.A.B", "p.C"]);
    assert_eq!(file.message("A").expect("A").fields.len(), 2);
    assert_eq!(refused("message A {} banana"), "\"banana\" does not begin a statement");
}
