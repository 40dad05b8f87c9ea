//! Rows in bulk: building them from records, checking them for columns and
//! narrowing them to the columns asked for.

use vstd::prelude::*;
use vstd::string::*;
use crate::errors::{EngineError, Fault};
use crate::types::{Dataset, Row, Table};

verus! {

/// The rows as contracts speak of them.
pub open spec fn tables(rows: Seq<Row>) -> Seq<Table> {
    Seq::new(rows.len(), |i: int| rows[i]@)
}

/// The names as contracts speak of them.
pub open spec fn names(list: Seq<String>) -> Seq<Seq<char>> {
    Seq::new(list.len(), |i: int| list[i]@)
}

/// The records as contracts speak of them: each by its table.
pub open spec fn records<D: Dataset>(items: Seq<D>) -> Seq<Table> {
    Seq::new(items.len(), |i: int| items[i].table())
}

/// A result of rows as contracts speak of it.
pub open spec fn lifted_rows(r: Result<Vec<Row>, EngineError>) -> Result<Seq<Table>, Fault> {
    match r {
        Ok(rows) => Ok(tables(rows@)),
        Err(e) => Err(e@),
    }
}

/// The first of the first `n` columns that the row does not have.
pub open spec fn first_absent(t: Table, columns: Seq<Seq<char>>, n: int) -> Option<Seq<char>>
    decreases n,
{
    if n <= 0 {
        None
    } else {
        match first_absent(t, columns, n - 1) {
            Some(c) => Some(c),
            None => if t.contains_key(columns[n - 1]) {
                None
            } else {
                Some(columns[n - 1])
            },
        }
    }
}

/// The first column that one of the first `n` rows does not have, going row
/// by row.
pub open spec fn first_lacking(rows: Seq<Table>, columns: Seq<Seq<char>>, n: int) -> Option<
    Seq<char>,
>
    decreases n,
{
    if n <= 0 {
        None
    } else {
        match first_lacking(rows, columns, n - 1) {
            Some(c) => Some(c),
            None => first_absent(rows[n - 1], columns, columns.len() as int),
        }
    }
}

/// Nothing is absent exactly when the row has all the columns.
pub proof fn lemma_first_absent(t: Table, columns: Seq<Seq<char>>, n: int)
    requires
        0 <= n <= columns.len(),
    ensures
        first_absent(t, columns, n) is None <==> forall|j: int|
            0 <= j < n ==> t.contains_key(#[trigger] columns[j]),
    decreases n,
{
    if n > 0 {
        lemma_first_absent(t, columns, n - 1);
    }
}

/// Nothing is lacking exactly when every row has all the columns.
pub proof fn lemma_first_lacking(rows: Seq<Table>, columns: Seq<Seq<char>>, n: int)
    requires
        0 <= n <= rows.len(),
    ensures
        first_lacking(rows, columns, n) is None <==> forall|i: int, j: int|
            0 <= i < n && 0 <= j < columns.len() ==> (#[trigger] rows[i]).contains_key(
                #[trigger] columns[j],
            ),
    decreases n,
{
    if n > 0 {
        lemma_first_lacking(rows, columns, n - 1);
        lemma_first_absent(rows[n - 1], columns, columns.len() as int);
    }
}

/// The row with only those of its entries whose key is among the columns.
pub open spec fn narrowed(t: Table, columns: Seq<Seq<char>>) -> Table {
    Map::new(|k: Seq<char>| t.contains_key(k) && columns.contains(k), |k: Seq<char>| t[k])
}

/// The rows, each narrowed to the columns; the first missing column, going
/// row by row, is an error.
pub open spec fn projected(rows: Seq<Table>, columns: Seq<Seq<char>>) -> Result<Seq<Table>, Fault> {
    match first_lacking(rows, columns, rows.len() as int) {
        Some(c) => Err(Fault::FieldNotFound(c)),
        None => Ok(Seq::new(rows.len(), |i: int| narrowed(rows[i], columns))),
    }
}

/// The position of the first column that the row does not have.
pub fn absent_column(row: &Row, columns: &Vec<String>) -> (r: Option<usize>)
    ensures
        match r {
            Some(j) => j < columns@.len() && first_absent(
                row@,
                names(columns@),
                columns@.len() as int,
            ) == Some(columns@[j as int]@),
            None => first_absent(row@, names(columns@), columns@.len() as int) is None,
        },
{
    let mut j: usize = 0;
    while j < columns.len()
        invariant
            j <= columns@.len(),
            first_absent(row@, names(columns@), j as int) is None,
        decreases columns@.len() - j,
    {
        if !row.contains_key(columns[j].as_str()) {
            proof {
                lemma_absent_stays(row@, names(columns@), j + 1, columns@.len() as int);
            }
            return Some(j);
        }
        j = j + 1;
    }
    None
}

/// Once a column is found absent, looking at more columns changes nothing.
pub proof fn lemma_absent_stays(t: Table, columns: Seq<Seq<char>>, n: int, m: int)
    requires
        0 <= n <= m,
        first_absent(t, columns, n) is Some,
    ensures
        first_absent(t, columns, m) == first_absent(t, columns, n),
    decreases m - n,
{
    if n < m {
        lemma_absent_stays(t, columns, n, m - 1);
    }
}

/// Once a column is found lacking, looking at more rows changes nothing.
pub proof fn lemma_lacking_stays(rows: Seq<Table>, columns: Seq<Seq<char>>, n: int, m: int)
    requires
        0 <= n <= m,
        first_lacking(rows, columns, n) is Some,
    ensures
        first_lacking(rows, columns, m) == first_lacking(rows, columns, n),
    decreases m - n,
{
    if n < m {
        lemma_lacking_stays(rows, columns, n, m - 1);
    }
}

/// The position of the first column that one of the rows does not have,
/// going row by row.
pub fn lacking_column(rows: &Vec<Row>, columns: &Vec<String>) -> (r: Option<usize>)
    ensures
        match r {
            Some(j) => j < columns@.len() && first_lacking(
                tables(rows@),
                names(columns@),
                rows@.len() as int,
            ) == Some(columns@[j as int]@),
            None => first_lacking(tables(rows@), names(columns@), rows@.len() as int) is None,
        },
{
    let mut i: usize = 0;
    while i < rows.len()
        invariant
            i <= rows@.len(),
            first_lacking(tables(rows@), names(columns@), i as int) is None,
        decreases rows@.len() - i,
    {
        if let Some(j) = absent_column(&rows[i], columns) {
            proof {
                lemma_lacking_stays(tables(rows@), names(columns@), i + 1, rows@.len() as int);
            }
            return Some(j);
        }
        i = i + 1;
    }
    None
}

/// The row of a record: every column of it under its prefixed name.
pub fn materialize<D: Dataset>(item: &D) -> (r: Result<Row, EngineError>)
    ensures
        r matches Ok(row) && row@ == item.table(),
{
    let all = item.get_all();
    let mut row = Row::new();
    let mut j: usize = 0;
    while j < all.len()
        invariant
            j <= all@.len(),
            all@.len() == item.columns().len(),
            forall|i: int| 0 <= i < all@.len() ==> (#[trigger] all@[i])@ == item.columns()[i],
            forall|k: Seq<char>| item.table().contains_key(k) <==> item.columns().contains(k),
            forall|k: Seq<char>|
                row@.contains_key(k) <==> exists|i: int|
                    0 <= i < j && #[trigger] item.columns()[i] == k,
            forall|k: Seq<char>| #[trigger] row@.contains_key(k) ==> row@[k] == item.table()[k],
        decreases all@.len() - j,
    {
        let name: &str = all[j];
        assert(item.columns()[j as int] == name@);
        assert(item.columns().contains(name@));
        match item.get(name) {
            Ok(value) => {
                let ghost before = row@;
                row.insert(String::from_str(name), value);
                assert forall|k: Seq<char>| row@.contains_key(k) <==> exists|i: int|
                    0 <= i < j + 1 && #[trigger] item.columns()[i] == k by {
                    if before.contains_key(k) {
                        let i = choose|i: int| 0 <= i < j && #[trigger] item.columns()[i] == k;
                        assert(0 <= i < j + 1 && item.columns()[i] == k);
                    }
                }
            },
            Err(_) => {
                assert(false);
                return Err(EngineError::FieldNotFound(String::from_str(name)));
            },
        }
        j = j + 1;
    }
    proof {
        assert forall|k: Seq<char>| row@.contains_key(k) <==> item.table().contains_key(k) by {
            if row@.contains_key(k) {
                let i = choose|i: int| 0 <= i < j && #[trigger] item.columns()[i] == k;
                assert(item.columns().contains(k));
            }
            if item.columns().contains(k) {
                let i = choose|i: int| 0 <= i < item.columns().len() && item.columns()[i] == k;
                assert(0 <= i < j && item.columns()[i] == k);
            }
        }
        assert(row@ =~= item.table());
    }
    Ok(row)
}

/// The row narrowed to the columns; the position of the first column that
/// it does not have is an error.
pub fn project_row(row: &Row, columns: &Vec<String>) -> (r: Result<Row, usize>)
    ensures
        match r {
            Ok(out) => first_absent(row@, names(columns@), columns@.len() as int) is None && out@
                == narrowed(row@, names(columns@)),
            Err(j) => j < columns@.len() && first_absent(
                row@,
                names(columns@),
                columns@.len() as int,
            ) == Some(columns@[j as int]@),
        },
{
    let mut out = Row::new();
    let mut j: usize = 0;
    let ghost wanted = names(columns@);
    while j < columns.len()
        invariant
            j <= columns@.len(),
            wanted == names(columns@),
            first_absent(row@, wanted, j as int) is None,
            forall|k: Seq<char>|
                out@.contains_key(k) <==> exists|i: int| 0 <= i < j && #[trigger] wanted[i] == k,
            forall|k: Seq<char>| #[trigger]
                out@.contains_key(k) ==> row@.contains_key(k) && out@[k] == row@[k],
        decreases columns@.len() - j,
    {
        match row.get(columns[j].as_str()) {
            Some(value) => {
                let ghost before = out@;
                let key = columns[j].clone();
                let copy = value.duplicate();
                assert(key@ == wanted[j as int]);
                assert(copy@ == row@[key@]);
                out.insert(key, copy);
                assert(out@ == before.insert(wanted[j as int], row@[wanted[j as int]]));
                assert forall|k: Seq<char>| out@.contains_key(k) <==> exists|i: int|
                    0 <= i < j + 1 && #[trigger] wanted[i] == k by {
                    if before.contains_key(k) {
                        let i = choose|i: int| 0 <= i < j && #[trigger] wanted[i] == k;
                        assert(0 <= i < j + 1 && wanted[i] == k);
                    }
                    if k == wanted[j as int] {
                        assert(0 <= j < j + 1 && wanted[j as int] == k);
                    }
                }
                assert forall|k: Seq<char>| out@.contains_key(k) implies row@.contains_key(k)
                    && out@[k] == row@[k] by {
                    if k != wanted[j as int] {
                        assert(before.contains_key(k));
                    }
                }
            },
            None => {
                proof {
                    lemma_absent_stays(row@, wanted, j + 1, columns@.len() as int);
                }
                return Err(j);
            },
        }
        j = j + 1;
    }
    proof {
        lemma_first_absent(row@, wanted, columns@.len() as int);
        assert forall|k: Seq<char>| out@.contains_key(k) <==> (row@.contains_key(k)
            && wanted.contains(k)) by {
            if row@.contains_key(k) && wanted.contains(k) {
                let i = choose|i: int| 0 <= i < wanted.len() && wanted[i] == k;
                assert(0 <= i < j && wanted[i] == k);
            }
        }
        assert(out@ =~= narrowed(row@, wanted));
    }
    Ok(out)
}

/// The rows, each narrowed to the columns.
pub fn project(rows: &Vec<Row>, columns: &Vec<String>) -> (r: Result<Vec<Row>, EngineError>)
    ensures
        lifted_rows(r) == projected(tables(rows@), names(columns@)),
{
    let mut out: Vec<Row> = Vec::new();
    let mut i: usize = 0;
    let ghost wanted = names(columns@);
    let ghost given = tables(rows@);
    while i < rows.len()
        invariant
            i <= rows@.len(),
            wanted == names(columns@),
            given == tables(rows@),
            first_lacking(given, wanted, i as int) is None,
            out@.len() == i,
            forall|x: int| 0 <= x < i ==> (#[trigger] out@[x])@ == narrowed(given[x], wanted),
        decreases rows@.len() - i,
    {
        match project_row(&rows[i], columns) {
            Ok(row) => {
                out.push(row);
            },
            Err(j) => {
                proof {
                    lemma_lacking_stays(given, wanted, i + 1, rows@.len() as int);
                }
                return Err(EngineError::FieldNotFound(columns[j].clone()));
            },
        }
        i = i + 1;
    }
    assert(tables(out@) =~= Seq::new(given.len(), |x: int| narrowed(given[x], wanted)));
    Ok(out)
}

} // verus!
