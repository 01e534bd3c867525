//! A small markdown front end: a character-level lexer that splits raw text
//! into structural marker tokens and maximal runs of plain content, and a
//! token-level parser that repairs stray markers and assembles the tokens
//! into blocks of semantic nodes (headers, emphasis, links, plain text).

pub mod lexer;
pub mod parser;

pub use lexer::{Lexer, MarkdownToken, Position};
pub use parser::{Block, ParsedToken, Parser};
