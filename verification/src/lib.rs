//! A streaming text emitter that records, for the text it produces, a
//! version 3 source map: the generated text, the delta-encoded mapping
//! string, and the table of original names.

pub mod text;
pub mod utf16;
pub mod vlq;
pub mod mapping;
pub mod decode;
pub mod name_mapper;
pub mod output;
pub mod source_writer;
pub mod paths;
pub mod json;
