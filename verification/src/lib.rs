use vstd::prelude::*;

pub mod ast;
pub mod btree;
pub mod compile;
pub mod connection;
pub mod constants;
pub mod error;
pub mod header;
pub mod io;
pub mod lexer;
pub mod pager;
pub mod parser;
pub mod pragma;
pub mod program;
pub mod record;
pub mod runner;
pub mod schema;
pub mod script;
pub mod text;
pub mod token;
pub mod tree;
pub mod types;
pub mod varint;
pub mod vdbe;
pub mod wal;

verus! {

} // verus!
