//! Lexer, parser, cross-reference tables and object streams.

pub mod lexer;
pub mod num;
pub mod objstm;
pub mod parser;
pub mod xref;
pub mod xref_stream;

pub use lexer::{LexError, Lexer, Token};
pub use objstm::ObjectStream;
pub use xref_stream::{XRefStream, XRefSubsection};
pub use xref_stream::XRefEntry as BinaryXRefEntry;
pub use parser::{ParseError, Parser};
pub use xref::{XRefEntry, XRefTable, find_startxref, load_xref, parse_xref_table, read_stream_data};
