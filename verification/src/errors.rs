//! The ways in which a query can fail.

use vstd::prelude::*;
use vstd::string::*;
use crate::text::joined;

verus! {

/// Why a query failed.
#[derive(Debug, Clone, PartialEq, Eq)]
pub enum EngineError {
    /// More rows passed the filter than a result may hold.
    ResultToLargeError,
    /// An operator met a value of the wrong kind in a column, or an
    /// aggregate of the column left the range of finite numbers.
    TypeError { operation: &'static str, field: String },
    /// A column that the dataset, or a transformed row, does not have.
    FieldNotFound(String),
    /// A pattern with `*` somewhere other than at its ends.
    InvalidPattern(String),
    /// A direction other than `UP` or `DOWN`, or a sort column that the
    /// result rows do not have.
    InvalidOrder(String),
    /// A query that the grammar does not admit, or a rule with an aggregate
    /// function that is not known.
    ParseError(String),
    /// A failure while the datasets were loaded.
    InternalError(String),
}

/// An error as contracts speak of it: its kind and what it is about.
pub enum Fault {
    ResultTooLarge,
    TypeError { operation: Seq<char>, field: Seq<char> },
    FieldNotFound(Seq<char>),
    InvalidPattern(Seq<char>),
    InvalidOrder(Seq<char>),
    ParseError,
    InternalError,
}

impl View for EngineError {
    type V = Fault;

    open spec fn view(&self) -> Fault {
        match self {
            EngineError::ResultToLargeError => Fault::ResultTooLarge,
            EngineError::TypeError { operation, field } => Fault::TypeError {
                operation: operation@,
                field: field@,
            },
            EngineError::FieldNotFound(name) => Fault::FieldNotFound(name@),
            EngineError::InvalidPattern(pattern) => Fault::InvalidPattern(pattern@),
            EngineError::InvalidOrder(what) => Fault::InvalidOrder(what@),
            EngineError::ParseError(_) => Fault::ParseError,
            EngineError::InternalError(_) => Fault::InternalError,
        }
    }
}

impl EngineError {
    /// The text of the message for each kind of error.
    pub open spec fn message_text(self) -> Seq<char> {
        match self {
            EngineError::ResultToLargeError => "Too many results, maximum 5000"@,
            EngineError::TypeError { operation, field } => "Invalid operation "@ + operation@
                + " for "@ + field@,
            EngineError::FieldNotFound(name) => "Invalid field "@ + name@,
            EngineError::InvalidPattern(pattern) => "Invalid pattern "@ + pattern@,
            EngineError::InvalidOrder(what) => "Invalid order "@ + what@,
            EngineError::ParseError(why) => "Invalid query: "@ + why@,
            EngineError::InternalError(why) => "Internal error: "@ + why@,
        }
    }

    /// A message for the `error` field of a response.
    pub fn message(&self) -> (r: String)
        ensures
            r@ == self.message_text(),
    {
        match self {
            EngineError::ResultToLargeError => String::from_str("Too many results, maximum 5000"),
            EngineError::TypeError { operation, field } => {
                let head = joined("Invalid operation ", operation);
                let mid = joined(head.as_str(), " for ");
                joined(mid.as_str(), field.as_str())
            },
            EngineError::FieldNotFound(name) => joined("Invalid field ", name.as_str()),
            EngineError::InvalidPattern(pattern) => joined("Invalid pattern ", pattern.as_str()),
            EngineError::InvalidOrder(what) => joined("Invalid order ", what.as_str()),
            EngineError::ParseError(why) => joined("Invalid query: ", why.as_str()),
            EngineError::InternalError(why) => joined("Internal error: ", why.as_str()),
        }
    }
}

} // verus!
