//! A query-expression compiler: it turns the value of one HTTP query
//! parameter into a nested filter document for a document store.

use vstd::prelude::*;

pub mod ast;
pub mod compile;
pub mod config;
pub mod laws;
pub mod lexer;
pub mod parser;
pub mod text;
pub mod token;

pub use compile::CompileError;
pub use compile::FilterDoc;
pub use compile::compile;
pub use compile::parse_query_params;
pub use config::AppConfig;
pub use lexer::Lexer;
pub use parser::ParseError;
pub use parser::Parser;
pub use parser::UnknownOperator;
pub use token::LexError;
pub use token::LexItem;
pub use token::SpecToken;

pub use ast::CompareOp;
pub use ast::FilterNode;
pub use ast::LogicOp;
pub use ast::SpecNode;
pub use ast::SpecValue;
pub use ast::Value;
