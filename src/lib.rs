//! Filtering documents by their metadata with a small boolean query language
//! such as `status = "done" AND priority > 2`.
//!
//! [`parse`] turns a query into an [`Expr`]; [`evaluate`] applies it to one
//! document's decoded metadata, a [`Meta`] tree.
use vstd::prelude::*;

pub mod ast;
pub mod eval;
pub mod frontmatter;
pub mod meta;
pub mod parser;
pub mod text;
pub mod values;

pub use ast::{CompareOp, Date, Expr, Number, Value};
pub use eval::evaluate;
pub use meta::{Meta, MetaNumber};
pub use parser::{parse, parse_number, ParseError, Parser};

verus! {

} // verus!
