//! Cases against which the executor is tried.

use vstd::prelude::*;
use crate::errors::EngineError;
use crate::query::Query;
use crate::rows::tables;
use crate::types::{alike, Row, Table};

verus! {

/// A case: a query, whether it is valid, and rows that its result must hold.
#[derive(Debug)]
pub struct Test {
    pub title: String,
    pub query: Query,
    pub is_query_valid: bool,
    pub result: Vec<Row>,
}

/// Whether one of the rows has the keys of the row and equal values under
/// them.
pub open spec fn among(row: Table, rows: Seq<Table>) -> bool {
    exists|j: int| 0 <= j < rows.len() && alike(row, #[trigger] rows[j])
}

impl Test {
    /// Whether an outcome is what the case expects: for a valid query rows
    /// that hold every expected row, in any order, and for an invalid one
    /// an error.
    pub open spec fn expects(self, outcome: Result<Seq<Table>, EngineError>) -> bool {
        match outcome {
            Ok(rows) => self.is_query_valid && forall|i: int|
                0 <= i < self.result@.len() ==> among(#[trigger] tables(self.result@)[i], rows),
            Err(_) => !self.is_query_valid,
        }
    }

    /// Whether an outcome is what the case expects.
    pub fn accepts(&self, outcome: &Result<Vec<Row>, EngineError>) -> (r: bool)
        ensures
            r == self.expects(
                match *outcome {
                    Ok(rows) => Ok(tables(rows@)),
                    Err(e) => Err(e),
                },
            ),
    {
        let rows = match outcome {
            Ok(rows) => rows,
            Err(_) => {
                return !self.is_query_valid;
            },
        };
        if !self.is_query_valid {
            return false;
        }
        let ghost actual = tables(rows@);
        let ghost expected = tables(self.result@);
        let mut i: usize = 0;
        while i < self.result.len()
            invariant
                i <= self.result@.len(),
                self.is_query_valid,
                *outcome == Ok::<Vec<Row>, EngineError>(*rows),
                actual == tables(rows@),
                expected == tables(self.result@),
                forall|x: int| 0 <= x < i ==> among(#[trigger] expected[x], actual),
            decreases self.result@.len() - i,
        {
            let mut found = false;
            let mut j: usize = 0;
            while j < rows.len() && !found
                invariant
                    j <= rows@.len(),
                    i < self.result@.len(),
                    actual == tables(rows@),
                    expected == tables(self.result@),
                    found ==> among(expected[i as int], actual),
                    !found ==> forall|y: int|
                        0 <= y < j ==> !alike(expected[i as int], #[trigger] actual[y]),
                decreases rows@.len() - j + (if found { 0int } else { 1int }),
            {
                assert(actual[j as int] == rows@[j as int]@);
                assert(expected[i as int] == self.result@[i as int]@);
                if self.result[i].same_as(&rows[j]) {
                    found = true;
                } else {
                    j = j + 1;
                }
            }
            if !found {
                assert(!among(expected[i as int], actual));
                return false;
            }
            i = i + 1;
        }
        true
    }
}

} // verus!
