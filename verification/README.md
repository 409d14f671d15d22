# protobuf_contract

Decides whether bytes are sound Protocol Buffers wire format, and whether they
are a message of a type that a `.proto` file defines. It is written in Rust and
verified with Verus: every function of `src/` carries a contract, and the
contracts are proved.

```rust
let file = File::parse(source)?;                 // a .proto file
let contract = Protobuf::of(file, "shop.v1.Order")?;
let result = contract.validate(&Stream::new(bytes, None))?;
```

## Layout

| Where | What |
| --- | --- |
| `src/text.rs` | characters and text |
| `src/lexer.rs` | the tokens of a `.proto` file |
| `src/grammar.rs` | its grammar, as steps from state to state |
| `src/parser.rs` | the reader that takes those steps |
| `src/proto.rs` | kinds, fields, messages, files, and what a type name stands for |
| `src/reader.rs` | the wire format: tags, values, groups |
| `src/wire.rs` | the walk that holds bytes to a message |
| `src/contract.rs`, `src/protobuf.rs` | the contract and its factory |
| `src/laws/` | what holds of all of it, as proof functions |
| `app/` | the host's traits, and reading a file from disk |
| `tests/` | the same on concrete values |

## What is not proved

Six facts about the standard library are taken as they are: `char::is_whitespace`
answers by Unicode's White_Space property; what `char::is_alphanumeric` answers
beyond ASCII and what `{:?}` writes of a `str` depend on the text alone;
`String::push` adds one character; `==` on `str` compares characters;
`str::from_utf8` succeeds on valid UTF-8 and on nothing else.
