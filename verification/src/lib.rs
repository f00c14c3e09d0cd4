//! xmlcarve: stream giant XML files into JSONL by record element with
//! constant memory.
//!
//! The crate is split into small, pure modules. Each states what it computes
//! as functions on mathematical values, and its code is proved to compute
//! that:
//!
//! - [`text`] and [`number`]: characters, strings and decimal numbers.
//! - [`entity`]: XML entity and character-reference decoding.
//! - [`markup`]: what the next event of an XML document is.
//! - [`xml`]: the streaming parser that finds it.
//! - [`stream`]: what holds of every run of the parser.
//! - [`reading`]: how JSON is read back.
//! - [`selector`]: record-element selector parsing and path matching.
//! - [`json`]: a minimal ordered JSON value tree and serializer.
//! - [`finite`]: which decimal literals denote finite numbers.
//! - [`record`]: maps one XML record subtree onto a JSON value.
//! - [`carve`]: the streaming driver: events in, JSONL lines out.
//! - [`inspect`]: structure profiler that suggests a record selector.
//! - [`cli`]: argument parsing and command dispatch.
//! - [`tree`]: elements as trees, and which records they make.
//! - [`document`]: how a tree is written down, and that it is read back.
//! - [`syntax`]: the other forms that markup may take.
//! - [`defect`]: which documents are refused, and at which line.
//! - [`wording`]: how an invocation is worded, and that it is understood.
//! - [`census`]: what a profile counts of a tree.
//!
//! Constant memory means this: of the input, a parser that was just fed holds
//! the bytes that it has not consumed and the chunk it was fed, and nothing
//! else ([`xml::Parser::feed`]); reading on never makes it hold more. What is
//! not consumed when it asks for more is the start of one token. The chunk it
//! asks for is no longer than that start, or [`xml::CHUNK`] bytes, if that is
//! more ([`xml::Parser::wanted`]).

pub mod carve;
pub mod census;
pub mod cli;
pub mod defect;
pub mod document;
pub mod entity;
pub mod finite;
pub mod inspect;
pub mod json;
pub mod markup;
pub mod number;
pub mod reading;
pub mod record;
pub mod selector;
pub mod stream;
pub mod syntax;
pub mod text;
pub mod tree;
pub mod wording;
pub mod xml;
