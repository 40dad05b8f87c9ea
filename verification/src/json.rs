//! JSON values, as the query grammar reads them.

use vstd::prelude::*;
use crate::number::Num;
use crate::types::KVPair;

verus! {

/// A JSON value. A number is held in single precision; the entries of an
/// object are in the order in which the document gives them.
#[derive(Debug)]
pub enum Json {
    Null,
    Bool(bool),
    Number(Num),
    Text(String),
    Array(Vec<Json>),
    Object(Vec<KVPair<Json>>),
}

} // verus!
