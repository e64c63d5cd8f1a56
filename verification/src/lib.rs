//! Corn: a configuration language with inputs, string interpolation,
//! chained keys and spreads, parsed and evaluated by verified code.

pub mod ast;
pub mod error;
pub mod grammar;
pub mod integer;
pub mod lexer;
pub mod parser;
pub mod messages;
mod text;
pub mod chars;
pub mod de;
pub mod multiline;
pub mod value;

pub use error::Error;
pub use integer::Integer;
pub use value::{Object, Value};
pub use de::{evaluate, parse, Deserializer, Env};
