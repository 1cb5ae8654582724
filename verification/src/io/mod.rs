//! Text formats: edge lists and Matrix Market (symmetric coordinate pattern).
//! Readers take the whole input as bytes; writers append to a byte vector.
pub mod utf8;
pub mod lex;
pub mod syntax;
pub mod pairs;
pub mod edge_list;
pub mod matrix_market;
pub mod roundtrip;

pub use edge_list::{read_edge_list, write_edge_list};
pub use lex::NumberError;
pub use matrix_market::{read_matrix_market, write_matrix_market};
pub use syntax::{Field, ReadError};
