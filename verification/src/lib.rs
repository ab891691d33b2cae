//! Parser and JSON serializer for the OpenFGA authorization DSL.
//!
//! The pipeline is `source text -> Lexer -> tokens -> Parser -> Document ->
//! JsonTransformer -> JSON text`. Each stage carries a contract that pins its
//! result down as a function of its input: the lexer against a specification
//! of the token stream, the parser against a specification of the grammar, and
//! the serializer against a specification of the OpenFGA authorization-model
//! JSON shape.

pub mod ast;
pub mod json;
pub mod lexer;
pub mod listing;
pub mod parser;
pub mod token;

pub use parser::ParseResult;
pub use parser::Parser;
pub use parser::ParserError;

