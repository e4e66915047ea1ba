//! Schema-described binary records: a small layout language, a decoder that
//! walks byte buffers against it, and the self-describing container that
//! carries both.
use vstd::prelude::*;

pub mod ast;
pub mod error;
pub mod grammar;
pub mod json;
pub mod laws;
pub mod lexer;
pub mod options;
pub mod param;
pub mod parser;
pub mod reader;
pub mod report;
pub mod text;
pub mod value;
pub mod visitor;
pub mod walker;

pub use ast::{Ast, AstKind, Len, Location, Schema, SchemaParseError, SchemaParseErrorKind, Size};
pub use error::Error;
pub use json::{json_escape_str, pieces_text, JsonDisplay, JsonFormattingStyle, JsonPiece, JsonSerializer};
pub use lexer::{SchemaLexer, Token, TokenKind};
pub use options::DataReaderOptions;
pub use param::ParamStack;
pub use parser::{parse, parse_with};
pub use reader::{DataReader, FieldMap};
pub use report::{error_excerpt, ErrorExcerpt};
pub use visitor::{
    schema_tree_lines, AstVisitor, FieldCounter, SchemaOnelineDisplay, SchemaOnelineFormatter,
    TreeLine,
};
pub use value::{TreeError, ValueTree};
pub use walker::{BufWalker, DecodeError, Number, Value};

verus! {

} // verus!
