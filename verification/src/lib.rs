//! A content contract for Protocol Buffers.
//!
//! A contract makes one of two claims. *Bare*, it says of a stream that it is
//! sound wire format: every tag a field number and a wire type that exists,
//! every value as long as its wire type says, no byte over. That is all the
//! bytes can say on their own, for they carry no schema. *Bound* to a message
//! type of a `.proto` file, it says that the stream is a message of that type:
//! each known field of the schema's wire type, every string UTF-8, every
//! embedded message one of its own type, every map entry a key and a value, and
//! unknown fields left alone. Imports are not followed: a field of an imported
//! type is length-delimited and not looked into.
//!
//! - [`text`], [`lexer`], [`grammar`], [`parser`] and [`proto`] read a `.proto`
//!   file into its messages;
//! - [`reader`] finds the fields among bytes, [`wire`] holds them to a message;
//! - [`protobuf`] puts the two together as a contract, in the terms of
//!   [`contract`];
//! - [`laws`] states what holds of all of it.
pub mod contract;
pub mod grammar;
pub mod laws;
pub mod lexer;
pub mod parser;
pub mod proto;
pub mod protobuf;
pub mod reader;
pub mod text;
pub mod wire;

pub use proto::File;
pub use protobuf::{Protobuf, ProtobufFactory, Reference};
