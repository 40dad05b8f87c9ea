//! The query language and its execution.

use vstd::prelude::*;
use crate::errors::{EngineError, Fault};
use crate::filter::parse_filter;
use crate::grammar::{read_query, reads_query};
use crate::json::Json;
use crate::laws::{expected_column, law_row_columns};
use crate::number::Num;
use crate::order::{ordered, handle_order, sort_plan, lemma_arranged_len};
use crate::rows::{
    tables, names, records, lifted_rows, first_lacking, projected, lacking_column, materialize, project,
};
use crate::transform::{transformed, handle_transformations, lemma_transformed_len};
use crate::types::{Dataset, KVPair, QueryResult, Row, Table};

verus! {

/// The most rows that a result may hold.
pub const RESULT_CAP: usize = 5000;

/// A query: which records to take, which columns to show and in what order,
/// and how to group and aggregate them.
#[derive(Debug)]
pub struct Query {
    pub filter: Filter,
    pub options: Options,
    pub transformations: Option<Transformations>,
}

/// Grouping columns, and the aggregates to compute for each group. Each rule
/// maps the name of a new column to an aggregate function and its argument
/// column.
#[derive(Debug)]
pub struct Transformations {
    pub group: Vec<String>,
    pub apply: Vec<KVPair<KVPair<String>>>,
}

/// The columns of the result and its order.
#[derive(Debug)]
pub struct Options {
    pub columns: Vec<String>,
    pub order: Option<Order>,
}

/// How to order the result: ascending by one column, or by several keys in a
/// direction.
#[derive(Debug)]
pub enum Order {
    ONE(String),
    MANY { dir: String, keys: Vec<String> },
}

/// A condition on a record.
#[derive(Debug)]
pub enum Filter {
    AND { and: Vec<Filter> },
    OR { or: Vec<Filter> },
    NOT { not: Box<Filter> },
    LT { lt: KVPair<Num> },
    GT { gt: KVPair<Num> },
    EQ { eq: KVPair<Num> },
    IS { is: KVPair<String> },
    EMPTY {  },
}

/// The records among the first `n` that pass the filter, in their order, or
/// the first error of the filter. Once more than the cap have passed, no
/// further record is looked at.
pub open spec fn scanned(filter: Filter, items: Seq<Table>, n: int) -> Result<Seq<Table>, Fault>
    decreases n,
{
    if n <= 0 {
        Ok(seq![])
    } else {
        match scanned(filter, items, n - 1) {
            Err(e) => Err(e),
            Ok(found) => if found.len() > RESULT_CAP {
                Ok(found)
            } else {
                match filter.verdict(items[n - 1]) {
                    Err(e) => Err(e),
                    Ok(pass) => if pass {
                        Ok(found.push(items[n - 1]))
                    } else {
                        Ok(found)
                    },
                }
            },
        }
    }
}

/// The records that pass the filter; more of them than the cap is an error.
pub open spec fn selected(filter: Filter, items: Seq<Table>) -> Result<Seq<Table>, Fault> {
    match scanned(filter, items, items.len() as int) {
        Err(e) => Err(e),
        Ok(found) => if found.len() > RESULT_CAP {
            Err(Fault::ResultTooLarge)
        } else {
            Ok(found)
        },
    }
}

/// The rows of the result before they are ordered. Without transformations
/// each row is narrowed to the columns asked for. With them the rows are
/// those of the groups, and each must have the columns asked for.
pub open spec fn shaped(rows: Seq<Table>, query: Query) -> Result<Seq<Table>, Fault> {
    match query.transformations {
        None => projected(rows, names(query.options.columns@)),
        Some(t) => match transformed(rows, t) {
            Err(e) => Err(e),
            Ok(out) => match first_lacking(out, names(query.options.columns@), out.len() as int) {
                Some(c) => Err(Fault::FieldNotFound(c)),
                None => Ok(out),
            },
        },
    }
}

/// What a query gives on a dataset.
pub open spec fn answer(query: Query, items: Seq<Table>) -> Result<Seq<Table>, Fault> {
    match selected(query.filter, items) {
        Err(e) => Err(e),
        Ok(found) => match shaped(found, query) {
            Err(e) => Err(e),
            Ok(rows) => match query.options.order {
                None => Ok(rows),
                Some(order) => ordered(rows, order),
            },
        },
    }
}

/// Once a scan has failed, more records change nothing.
pub proof fn lemma_scan_fails(filter: Filter, items: Seq<Table>, n: int, m: int)
    requires
        0 <= n <= m,
        scanned(filter, items, n) is Err,
    ensures
        scanned(filter, items, m) == scanned(filter, items, n),
    decreases m - n,
{
    if n < m {
        lemma_scan_fails(filter, items, n, m - 1);
    }
}

/// Once a scan is over the cap, more records change nothing.
pub proof fn lemma_scan_full(filter: Filter, items: Seq<Table>, n: int, m: int)
    requires
        0 <= n <= m,
        scanned(filter, items, n) matches Ok(found) && found.len() > RESULT_CAP,
    ensures
        scanned(filter, items, m) == scanned(filter, items, n),
    decreases m - n,
{
    if n < m {
        lemma_scan_full(filter, items, n, m - 1);
    }
}

/// The rows of the records that pass the filter.
pub fn select<D: Dataset>(filter: &Filter, dataset: &Vec<D>) -> (r: Result<Vec<Row>, EngineError>)
    ensures
        lifted_rows(r) == selected(*filter, records(dataset@)),
        r matches Ok(rows) ==> rows@.len() <= RESULT_CAP,
{
    let ghost items = records(dataset@);
    let mut found: Vec<Row> = Vec::new();
    let mut i: usize = 0;
    assert(tables(found@) =~= Seq::<Table>::empty());
    while i < dataset.len()
        invariant
            i <= dataset@.len(),
            items == records(dataset@),
            found@.len() <= RESULT_CAP,
            scanned(*filter, items, i as int) == Ok::<Seq<Table>, Fault>(tables(found@)),
        decreases dataset@.len() - i,
    {
        let item = &dataset[i];
        assert(items[i as int] == item.table());
        match parse_filter(filter, item) {
            Err(e) => {
                proof {
                    lemma_scan_fails(*filter, items, i + 1, dataset@.len() as int);
                }
                return Err(e);
            },
            Ok(pass) => {
                if pass {
                    match materialize(item) {
                        Err(e) => {
                            return Err(e);
                        },
                        Ok(row) => {
                            let ghost before = tables(found@);
                            found.push(row);
                            assert(tables(found@) =~= before.push(item.table()));
                        },
                    }
                    if found.len() > RESULT_CAP {
                        proof {
                            lemma_scan_full(*filter, items, i + 1, dataset@.len() as int);
                        }
                        return Err(EngineError::ResultToLargeError);
                    }
                }
            },
        }
        i = i + 1;
    }
    Ok(found)
}

/// Brings the rows that passed the filter into the shape of the result.
pub fn shape(query: &Query, found: &Vec<Row>) -> (r: Result<Vec<Row>, EngineError>)
    requires
        found@.len() <= RESULT_CAP,
    ensures
        lifted_rows(r) == shaped(tables(found@), *query),
        r matches Ok(rows) ==> rows@.len() <= found@.len(),
{
    match &query.transformations {
        None => {
            let out = project(found, &query.options.columns);
            proof {
                if out is Ok {
                    assert(tables(out->Ok_0@).len() == tables(found@).len());
                }
            }
            out
        },
        Some(transform) => {
            proof {
                lemma_transformed_len(tables(found@), *transform);
            }
            let out = match handle_transformations(transform, found) {
                Err(e) => {
                    return Err(e);
                },
                Ok(out) => out,
            };
            assert(tables(out@).len() <= tables(found@).len());
            if let Some(j) = lacking_column(&out, &query.options.columns) {
                return Err(EngineError::FieldNotFound(query.options.columns[j].clone()));
            }
            Ok(out)
        },
    }
}

/// Runs a query on a dataset: filters the records, shapes the rows and
/// orders them.
pub fn execute_query<D: Dataset>(query: &Query, dataset: &Vec<D>) -> (r: Result<
    Vec<Row>,
    EngineError,
>)
    ensures
        lifted_rows(r) == answer(*query, records(dataset@)),
        r matches Ok(rows) ==> rows@.len() <= RESULT_CAP,
        r matches Ok(rows) ==> forall|x: int, c: Seq<char>|
            0 <= x < rows@.len() ==> ((#[trigger] rows@[x])@.contains_key(c) <==> #[trigger] expected_column(
                *query,
                c,
            )),
{
    let found = match select(&query.filter, dataset) {
        Err(e) => {
            return Err(e);
        },
        Ok(found) => found,
    };
    let mut rows = match shape(query, &found) {
        Err(e) => {
            return Err(e);
        },
        Ok(rows) => rows,
    };
    if let Some(order) = &query.options.order {
        proof {
            if let Ok((keys, descending)) = sort_plan(*order) {
                lemma_arranged_len(tables(rows@), keys, descending, rows@.len() as int);
            }
        }
        match handle_order(order, &mut rows) {
            Err(e) => {
                return Err(e);
            },
            Ok(_) => {},
        }
    }
    proof {
        assert forall|x: int, c: Seq<char>| 0 <= x < rows@.len() implies ((#[trigger] rows@[x])@.contains_key(
            c,
        ) <==> #[trigger] expected_column(*query, c)) by {
            let given = answer(*query, records(dataset@));
            assert(given == Ok::<Seq<Table>, Fault>(tables(rows@)));
            law_row_columns(*query, records(dataset@));
            let out = given->Ok_0;
            assert(out[x] == rows@[x]@);
            assert(out[x].contains_key(c) <==> expected_column(*query, c));
        }
    }
    Ok(rows)
}

/// Whether reading a query and running it fails with this error: the JSON
/// value spells out no query, or running the query that it spells out
/// gives the error.
pub open spec fn failed_with(json: Json, items: Seq<Table>, fault: Fault) -> bool {
    ||| fault == Fault::ParseError && forall|query: Query| !reads_query(json, query)
    ||| exists|query: Query| #[trigger]
        reads_query(json, query) && answer(query, items) == Err::<Seq<Table>, Fault>(fault)
}

/// Reads a query and runs it on a dataset. The response holds the rows of
/// the query that the JSON value spells out, or the message of an error:
/// that the value spells out no query, or the error of running the one it
/// does.
pub fn query_courses<D: Dataset>(json: &Json, dataset: &Vec<D>) -> (r: QueryResult)
    ensures
        match r {
            QueryResult::OK { result } => exists|query: Query| #[trigger]
                reads_query(*json, query) && answer(query, records(dataset@)) == Ok::<
                    Seq<Table>,
                    Fault,
                >(tables(result@)),
            QueryResult::ERROR { error } => exists|e: EngineError|
                error@ == #[trigger] e.message_text() && failed_with(*json, records(dataset@), e@),
        },
{
    let query = match read_query(json) {
        Ok(query) => query,
        Err(e) => {
            assert(failed_with(*json, records(dataset@), e@));
            return QueryResult::from_outcome(Err(e));
        },
    };
    let outcome = execute_query(&query, dataset);
    proof {
        if outcome is Ok {
            assert(reads_query(*json, query) && answer(query, records(dataset@)) == Ok::<
                Seq<Table>,
                Fault,
            >(tables(outcome->Ok_0@)));
        } else {
            assert(reads_query(*json, query) && answer(query, records(dataset@)) == Err::<
                Seq<Table>,
                Fault,
            >(outcome->Err_0@));
            assert(failed_with(*json, records(dataset@), outcome->Err_0@));
        }
    }
    QueryResult::from_outcome(outcome)
}

} // verus!
