//! A document's decoded metadata block: a tree of scalars, lists and
//! mappings.
use vstd::prelude::*;
use crate::ast::Number;

verus! {

/// A number of a metadata block: its text, as the decoder renders it, and its
/// exact value where a `Number` can hold it.
#[derive(Debug)]
pub struct MetaNumber {
    pub text: String,
    pub value: Option<Number>,
}

/// A decoded metadata value.
#[derive(Debug)]
pub enum Meta {
    /// A null, or a value of a kind the evaluator never reads.
    Null,
    Bool(bool),
    Number(MetaNumber),
    Text(String),
    List(Vec<Meta>),
    /// Key/value pairs in document order.
    Mapping(Vec<(Meta, Meta)>),
}

} // verus!
