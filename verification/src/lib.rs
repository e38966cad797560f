//! A library to work with keyfiles: text documents made of groups of
//! key-value pairs.
//!
//! ```text
//! # a comment
//! [group]
//! key = value
//! list = 1;2;3
//! ```
//!
//! - [`value`] holds the values: booleans, strings, integers and doubles,
//!   and lists of each, with the rules by which a text denotes one.
//! - [`keyfile`] holds the document: groups and, in each, keys with their
//!   values.
//! - [`parser`] reads a document line by line, and [`writer`] writes one.
//! - [`roundtrip`] states what comes back when a written document is read
//!   again.
//! - [`text`], [`number`] and [`assoc`] hold what the others stand on:
//!   trimming and splitting, decimal literals, and association lists.
//!
//! Every function states what it computes over sequences of characters and
//! the models of the types, and is proved to compute it.

pub mod assoc;
pub mod errors;
pub mod keyfile;
pub mod number;
pub mod parser;
pub mod roundtrip;
pub mod text;
pub mod value;
pub mod writer;

pub use errors::Error;
pub use errors::ErrorKind;
pub use errors::Reason;
pub use keyfile::Keyfile;
pub use parser::Parser;
pub use value::Double;
pub use value::Value;
