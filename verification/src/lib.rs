//! Reader for the nested key/value text format used by game configuration
//! assets: a lexer, a recursive tree builder and a tree with typed access.

mod assoc;
pub mod builder;
pub mod error;
pub mod failures;
pub mod grammar;
pub mod lexer;
pub mod text;
pub mod token;
pub mod tree;

pub use builder::parse_keyvalues;
pub use error::{Error, ErrorKind};
pub use lexer::tokenize;
pub use token::{Token, TokenKind};
pub use tree::{KeyValues, Tree};
