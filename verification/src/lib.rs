//! A streaming converter from a small Markdown dialect (headers `#`..`######`,
//! paragraphs, line terminators) to HTML fragments.
//!
//! The pipeline has three layers, each consuming the one below: a code-unit
//! reassembler ([`u8unit`]) that stitches multi-byte UTF-8 code units back
//! together across buffer-fill boundaries, a tokenizer ([`tokenizer`]) that
//! recognises line terminators and header markers with lookahead, and a
//! parser state machine ([`parser`]) that drives HTML emission through a
//! mapper ([`mapper`]) onto a byte sink ([`writer`]), with the tag
//! vocabulary supplied by a schema ([`schema`]). Input arrives fill by
//! fill, of any size: the contracts state that what comes out depends only
//! on the concatenated byte stream, never on where the fills were cut.

pub mod engine;
pub mod error_handler;
pub mod mapper;
pub mod parser;
pub mod schema;
pub mod tokenizer;
pub mod u8unit;
pub mod writer;
