//! `ben` is a Bencode codec. Decoding turns a byte buffer into a flat,
//! preorder sequence of tokens that the tree view walks by integer offsets;
//! encoding appends bytes to a growable buffer through scoped builders.

pub mod decode;
pub mod encode;
pub mod error;
pub mod laws;
pub mod parse;
pub mod shape;
pub mod token;

pub use decode::Node;
pub use decode::NodeKind;
pub use encode::Encode;
pub use encode::Encoder;
pub use error::Error;
pub use parse::Parser;
pub use token::Token;
pub use token::TokenKind;
