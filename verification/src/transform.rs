//! Grouping and aggregation.
//!
//! Rows are grouped by their values in the grouping columns. A group is led
//! by its first row, groups come in the order of their leaders, and a
//! group's rows keep theirs.

use vstd::prelude::*;
use vstd::string::*;
use crate::errors::{EngineError, Fault};
use crate::filter::{lifted, operand};
use crate::number::Num;
use crate::query::{Transformations, RESULT_CAP};
use crate::rows::{
    tables, names, lifted_rows, first_lacking, narrowed, lacking_column, project_row,
    lemma_first_lacking, lemma_first_absent,
};
use crate::text::str_equal;
use crate::types::{Datum, Row, Table, Value};

verus! {

/// An aggregate function.
#[derive(Debug, Clone, Copy, PartialEq, Eq)]
pub enum Aggregator {
    Count,
    Avg,
    Sum,
    Max,
    Min,
}

/// The aggregate function of a name.
pub open spec fn aggregator_named(name: Seq<char>) -> Option<Aggregator> {
    if name == "COUNT"@ {
        Some(Aggregator::Count)
    } else if name == "AVG"@ {
        Some(Aggregator::Avg)
    } else if name == "SUM"@ {
        Some(Aggregator::Sum)
    } else if name == "MAX"@ {
        Some(Aggregator::Max)
    } else if name == "MIN"@ {
        Some(Aggregator::Min)
    } else {
        None
    }
}

impl Aggregator {
    /// The name of the operation in errors.
    pub open spec fn label(self) -> Seq<char> {
        match self {
            Aggregator::Count => "count"@,
            Aggregator::Avg => "avg"@,
            Aggregator::Sum => "sum"@,
            Aggregator::Max => "max"@,
            Aggregator::Min => "min"@,
        }
    }

    /// The aggregate function of a name.
    pub fn named(name: &str) -> (r: Option<Aggregator>)
        ensures
            r == aggregator_named(name@),
    {
        if str_equal(name, "COUNT") {
            Some(Aggregator::Count)
        } else if str_equal(name, "AVG") {
            Some(Aggregator::Avg)
        } else if str_equal(name, "SUM") {
            Some(Aggregator::Sum)
        } else if str_equal(name, "MAX") {
            Some(Aggregator::Max)
        } else if str_equal(name, "MIN") {
            Some(Aggregator::Min)
        } else {
            None
        }
    }

    /// The name of the operation in errors.
    pub fn operation(self) -> (r: &'static str)
        ensures
            r@ == self.label(),
    {
        match self {
            Aggregator::Count => "count",
            Aggregator::Avg => "avg",
            Aggregator::Sum => "sum",
            Aggregator::Max => "max",
            Aggregator::Min => "min",
        }
    }

    /// The running value after one more number `x` of a group of `n`;
    /// `None` where the arithmetic leaves the finite range. A running sum
    /// starts from zero, a running extreme from the first number. An average
    /// is the running sum of the numbers each divided by `n`. Of two equal
    /// numbers the later is the maximum and the earlier the minimum.
    pub open spec fn absorbed(self, acc: Option<Num>, x: Num, n: nat) -> Option<Num> {
        let base = match acc {
            Some(a) => a,
            None => Num::of_bits(0),
        };
        match self {
            Aggregator::Count => acc,
            Aggregator::Sum => base.sum(x),
            Aggregator::Avg => match x.quotient(n) {
                None => None,
                Some(q) => base.sum(q),
            },
            Aggregator::Max => match acc {
                None => Some(x),
                Some(a) => Some(
                    if x.key() >= a.key() {
                        x
                    } else {
                        a
                    },
                ),
            },
            Aggregator::Min => match acc {
                None => Some(x),
                Some(a) => Some(
                    if a.key() <= x.key() {
                        a
                    } else {
                        x
                    },
                ),
            },
        }
    }

    /// The running value after one more number.
    pub fn absorb(self, acc: Option<Num>, x: Num, n: u32) -> (r: Option<Num>)
        requires
            1 <= n <= 0x100_0000,
        ensures
            r == self.absorbed(acc, x, n as nat),
    {
        let base = match acc {
            Some(a) => a,
            None => Num::zero(),
        };
        match self {
            Aggregator::Count => acc,
            Aggregator::Sum => base.plus(x),
            Aggregator::Avg => match x.per(n) {
                None => None,
                Some(q) => base.plus(q),
            },
            Aggregator::Max => match acc {
                None => Some(x),
                Some(a) => Some(
                    if !x.less(a) {
                        x
                    } else {
                        a
                    },
                ),
            },
            Aggregator::Min => match acc {
                None => Some(x),
                Some(a) => Some(
                    if !x.less(a) {
                        a
                    } else {
                        x
                    },
                ),
            },
        }
    }
}

/// Whether two values are equal: numbers by their value, strings by their
/// text, and a number never equals a string.
pub open spec fn same_datum(a: Datum, b: Datum) -> bool {
    match (a, b) {
        (Datum::Num(x), Datum::Num(y)) => x.key() == y.key(),
        (Datum::Str(s), Datum::Str(t)) => s == t,
        _ => false,
    }
}

/// Whether two rows are equal in each of the columns.
pub open spec fn same_on(a: Table, b: Table, columns: Seq<Seq<char>>) -> bool {
    forall|j: int| 0 <= j < columns.len() ==> same_datum(a[#[trigger] columns[j]], b[columns[j]])
}

/// Whether the row at `i` is equal, in the columns, to the row at one of the
/// positions in `heads`.
pub open spec fn led(rows: Seq<Table>, columns: Seq<Seq<char>>, heads: Seq<int>, i: int) -> bool {
    exists|g: int| 0 <= g < heads.len() && same_on(rows[#[trigger] heads[g]], rows[i], columns)
}

/// The positions, among the first `n` rows, of the rows that lead a group:
/// those equal in the columns to no leader before them.
pub open spec fn leaders(rows: Seq<Table>, columns: Seq<Seq<char>>, n: int) -> Seq<int>
    decreases n,
{
    if n <= 0 {
        seq![]
    } else {
        let before = leaders(rows, columns, n - 1);
        if led(rows, columns, before, n - 1) {
            before
        } else {
            before.push(n - 1)
        }
    }
}

/// The positions, among the first `n` rows, of the rows in the group that
/// the row at `head` leads.
pub open spec fn members(rows: Seq<Table>, columns: Seq<Seq<char>>, head: int, n: int) -> Seq<int>
    decreases n,
{
    if n <= 0 {
        seq![]
    } else {
        let before = members(rows, columns, head, n - 1);
        if same_on(rows[head], rows[n - 1], columns) {
            before.push(n - 1)
        } else {
            before
        }
    }
}

/// The running value of an aggregate after the first `k` rows of a group,
/// or the first error: a row without the column, a string in it, or
/// arithmetic that leaves the finite range.
pub open spec fn folded(
    rows: Seq<Table>,
    group: Seq<int>,
    kind: Aggregator,
    column: Seq<char>,
    k: int,
) -> Result<Option<Num>, Fault>
    decreases k,
{
    if k <= 0 {
        Ok(None)
    } else {
        match folded(rows, group, kind, column, k - 1) {
            Err(e) => Err(e),
            Ok(acc) => match operand(rows[group[k - 1]], column, kind.label()) {
                Err(e) => Err(e),
                Ok(x) => match kind.absorbed(acc, x, group.len()) {
                    None => Err(Fault::TypeError { operation: kind.label(), field: column }),
                    Some(v) => Ok(Some(v)),
                },
            },
        }
    }
}

/// The aggregate of a column over a group, before rounding: the size of the
/// group for a count, else the running value after all rows.
pub open spec fn gathered(rows: Seq<Table>, group: Seq<int>, kind: Aggregator, column: Seq<char>)
    -> Result<Option<Num>, Fault> {
    if kind == Aggregator::Count {
        Ok(Num::counted(group.len()))
    } else {
        folded(rows, group, kind, column, group.len() as int)
    }
}

/// The aggregate of a column over a group, rounded to two decimal places.
pub open spec fn aggregate(rows: Seq<Table>, group: Seq<int>, kind: Aggregator, column: Seq<char>)
    -> Result<Num, Fault> {
    let overflow = Fault::TypeError { operation: kind.label(), field: column };
    match gathered(rows, group, kind, column) {
        Err(e) => Err(e),
        Ok(None) => Err(overflow),
        Ok(Some(v)) => match v.cents() {
            None => Err(overflow),
            Some(c) => Ok(c),
        },
    }
}

/// The row of a group after its first `k` rules: the leader's grouping
/// columns, then one column for each rule, a later one replacing an earlier
/// one of the same name. A rule with an unknown function is an error.
pub open spec fn summarized(
    rows: Seq<Table>,
    t: Transformations,
    head: int,
    group: Seq<int>,
    k: int,
) -> Result<Table, Fault>
    decreases k,
{
    if k <= 0 {
        Ok(narrowed(rows[head], names(t.group@)))
    } else {
        match summarized(rows, t, head, group, k - 1) {
            Err(e) => Err(e),
            Ok(row) => match aggregator_named(t.apply@[k - 1].value.key@) {
                None => Err(Fault::ParseError),
                Some(kind) => match aggregate(rows, group, kind, t.apply@[k - 1].value.value@) {
                    Err(e) => Err(e),
                    Ok(v) => Ok(row.insert(t.apply@[k - 1].key@, Datum::Num(v))),
                },
            },
        }
    }
}

/// The rows of the first `g` groups, or the first error.
pub open spec fn summaries(rows: Seq<Table>, t: Transformations, heads: Seq<int>, g: int) -> Result<
    Seq<Table>,
    Fault,
>
    decreases g,
{
    if g <= 0 {
        Ok(seq![])
    } else {
        match summaries(rows, t, heads, g - 1) {
            Err(e) => Err(e),
            Ok(done) => match summarized(
                rows,
                t,
                heads[g - 1],
                members(rows, names(t.group@), heads[g - 1], rows.len() as int),
                t.apply@.len() as int,
            ) {
                Err(e) => Err(e),
                Ok(row) => Ok(done.push(row)),
            },
        }
    }
}

/// What grouping and aggregating the rows gives: one row for each group, in
/// the order of the groups; or the first grouping column that a row does not
/// have; or the first error of an aggregate.
pub open spec fn transformed(rows: Seq<Table>, t: Transformations) -> Result<Seq<Table>, Fault> {
    match first_lacking(rows, names(t.group@), rows.len() as int) {
        Some(c) => Err(Fault::FieldNotFound(c)),
        None => {
            let heads = leaders(rows, names(t.group@), rows.len() as int);
            summaries(rows, t, heads, heads.len() as int)
        },
    }
}

/// Positions as contracts speak of them.
pub open spec fn positions(list: Seq<usize>) -> Seq<int> {
    Seq::new(list.len(), |i: int| list[i] as int)
}

/// Whether every row has every column.
pub open spec fn complete(rows: Seq<Table>, columns: Seq<Seq<char>>) -> bool {
    forall|i: int, j: int|
        0 <= i < rows.len() && 0 <= j < columns.len() ==> (#[trigger] rows[i]).contains_key(
            #[trigger] columns[j],
        )
}

/// Whether two values are equal.
pub fn same_value(a: &Value, b: &Value) -> (r: bool)
    ensures
        r == same_datum(a@, b@),
{
    match (a, b) {
        (Value::Num(x), Value::Num(y)) => x.same(*y),
        (Value::Str(s), Value::Str(t)) => *s == *t,
        _ => false,
    }
}

/// Whether two rows are equal in each of the columns, which both have.
pub fn same_key(a: &Row, b: &Row, columns: &Vec<String>) -> (r: bool)
    requires
        forall|j: int| 0 <= j < columns@.len() ==> a@.contains_key(#[trigger] columns@[j]@),
        forall|j: int| 0 <= j < columns@.len() ==> b@.contains_key(#[trigger] columns@[j]@),
    ensures
        r == same_on(a@, b@, names(columns@)),
{
    let ghost wanted = names(columns@);
    let mut j: usize = 0;
    while j < columns.len()
        invariant
            j <= columns@.len(),
            wanted == names(columns@),
            forall|x: int| 0 <= x < columns@.len() ==> a@.contains_key(#[trigger] columns@[x]@),
            forall|x: int| 0 <= x < columns@.len() ==> b@.contains_key(#[trigger] columns@[x]@),
            forall|x: int| 0 <= x < j ==> same_datum(a@[#[trigger] wanted[x]], b@[wanted[x]]),
        decreases columns@.len() - j,
    {
        let name = columns[j].as_str();
        assert(wanted[j as int] == columns@[j as int]@);
        let equal = match (a.get(name), b.get(name)) {
            (Some(x), Some(y)) => same_value(x, y),
            _ => false,
        };
        if !equal {
            assert(!same_datum(a@[wanted[j as int]], b@[wanted[j as int]]));
            return false;
        }
        j = j + 1;
    }
    true
}

/// The positions of the rows that lead a group.
pub fn group_heads(rows: &Vec<Row>, columns: &Vec<String>) -> (heads: Vec<usize>)
    requires
        complete(tables(rows@), names(columns@)),
    ensures
        positions(heads@) == leaders(tables(rows@), names(columns@), rows@.len() as int),
        forall|g: int| 0 <= g < heads@.len() ==> (#[trigger] heads@[g]) < rows@.len(),
{
    let ghost given = tables(rows@);
    let ghost wanted = names(columns@);
    let mut heads: Vec<usize> = Vec::new();
    let mut i: usize = 0;
    while i < rows.len()
        invariant
            i <= rows@.len(),
            given == tables(rows@),
            wanted == names(columns@),
            complete(given, wanted),
            positions(heads@) == leaders(given, wanted, i as int),
            forall|g: int| 0 <= g < heads@.len() ==> (#[trigger] heads@[g]) < i,
        decreases rows@.len() - i,
    {
        let mut found = false;
        let mut g: usize = 0;
        while g < heads.len() && !found
            invariant
                g <= heads@.len(),
                i < rows@.len(),
                given == tables(rows@),
                wanted == names(columns@),
                complete(given, wanted),
                forall|x: int| 0 <= x < heads@.len() ==> (#[trigger] heads@[x]) < i,
                found ==> led(given, wanted, positions(heads@), i as int),
                !found ==> forall|x: int|
                    0 <= x < g ==> !same_on(
                        given[#[trigger] positions(heads@)[x]],
                        given[i as int],
                        wanted,
                    ),
            decreases heads@.len() - g + (if found { 0int } else { 1int }),
        {
            let h = heads[g];
            proof {
                lemma_complete_row(rows@, columns@, h as int);
                lemma_complete_row(rows@, columns@, i as int);
            }
            if same_key(&rows[h], &rows[i], columns) {
                found = true;
                assert(positions(heads@)[g as int] == h);
                assert(same_on(given[positions(heads@)[g as int]], given[i as int], wanted));
            } else {
                assert(positions(heads@)[g as int] == h);
                g = g + 1;
            }
        }
        if !found {
            let ghost old_heads = positions(heads@);
            heads.push(i);
            assert(positions(heads@) =~= old_heads.push(i as int));
            assert(!led(given, wanted, old_heads, i as int));
        }
        i = i + 1;
    }
    heads
}

/// A row of complete rows has all the columns.
pub proof fn lemma_complete_row(rows: Seq<Row>, columns: Seq<String>, i: int)
    requires
        complete(tables(rows), names(columns)),
        0 <= i < rows.len(),
    ensures
        forall|j: int| 0 <= j < columns.len() ==> rows[i]@.contains_key(#[trigger] columns[j]@),
{
    assert forall|j: int| 0 <= j < columns.len() implies rows[i]@.contains_key(
        #[trigger] columns[j]@,
    ) by {
        assert(tables(rows)[i].contains_key(names(columns)[j]));
    }
}

/// The positions of the rows in the group that the row at `head` leads.
pub fn group_members(rows: &Vec<Row>, columns: &Vec<String>, head: usize) -> (group: Vec<usize>)
    requires
        complete(tables(rows@), names(columns@)),
        head < rows@.len(),
    ensures
        positions(group@) == members(
            tables(rows@),
            names(columns@),
            head as int,
            rows@.len() as int,
        ),
        group@.len() <= rows@.len(),
        forall|x: int| 0 <= x < group@.len() ==> (#[trigger] group@[x]) < rows@.len(),
{
    let ghost given = tables(rows@);
    let ghost wanted = names(columns@);
    let mut group: Vec<usize> = Vec::new();
    let mut i: usize = 0;
    while i < rows.len()
        invariant
            i <= rows@.len(),
            head < rows@.len(),
            given == tables(rows@),
            wanted == names(columns@),
            complete(given, wanted),
            positions(group@) == members(given, wanted, head as int, i as int),
            group@.len() <= i,
            forall|x: int| 0 <= x < group@.len() ==> (#[trigger] group@[x]) < i,
        decreases rows@.len() - i,
    {
        proof {
            lemma_complete_row(rows@, columns@, head as int);
            lemma_complete_row(rows@, columns@, i as int);
        }
        if same_key(&rows[head], &rows[i], columns) {
            let ghost before = positions(group@);
            group.push(i);
            assert(positions(group@) =~= before.push(i as int));
        }
        i = i + 1;
    }
    group
}

/// Folds an aggregate over the rows of a group.
pub fn compute_aggregate(kind: Aggregator, column: &String, data: &Vec<Row>, group: &Vec<usize>) -> (r:
    Result<Option<Num>, EngineError>)
    requires
        forall|x: int| 0 <= x < group@.len() ==> (#[trigger] group@[x]) < data@.len(),
        1 <= group@.len() <= RESULT_CAP,
    ensures
        lifted(r) == folded(
            tables(data@),
            positions(group@),
            kind,
            column@,
            group@.len() as int,
        ),
{
    let ghost given = tables(data@);
    let ghost spots = positions(group@);
    let n: u32 = group.len() as u32;
    let mut acc: Option<Num> = None;
    let mut k: usize = 0;
    while k < group.len()
        invariant
            k <= group@.len(),
            n == group@.len(),
            1 <= n <= RESULT_CAP,
            given == tables(data@),
            spots == positions(group@),
            forall|x: int| 0 <= x < group@.len() ==> (#[trigger] group@[x]) < data@.len(),
            folded(given, spots, kind, column@, k as int) == Ok::<Option<Num>, Fault>(acc),
        decreases group@.len() - k,
    {
        let row = &data[group[k]];
        assert(given[spots[k as int]] == row@);
        let x = match row.get(column.as_str()) {
            None => {
                proof {
                    lemma_fold_fails(given, spots, kind, column@, k + 1, group@.len() as int);
                }
                return Err(EngineError::FieldNotFound(column.clone()));
            },
            Some(Value::Str(_)) => {
                proof {
                    lemma_fold_fails(given, spots, kind, column@, k + 1, group@.len() as int);
                }
                return Err(
                    EngineError::TypeError { operation: kind.operation(), field: column.clone() },
                );
            },
            Some(Value::Num(x)) => *x,
        };
        match kind.absorb(acc, x, n) {
            None => {
                proof {
                    lemma_fold_fails(given, spots, kind, column@, k + 1, group@.len() as int);
                }
                return Err(
                    EngineError::TypeError { operation: kind.operation(), field: column.clone() },
                );
            },
            Some(v) => {
                acc = Some(v);
            },
        }
        k = k + 1;
    }
    Ok(acc)
}

/// Once a fold has failed, more rows change nothing.
pub proof fn lemma_fold_fails(
    rows: Seq<Table>,
    group: Seq<int>,
    kind: Aggregator,
    column: Seq<char>,
    k: int,
    m: int,
)
    requires
        0 <= k <= m,
        folded(rows, group, kind, column, k) is Err,
    ensures
        folded(rows, group, kind, column, m) == folded(rows, group, kind, column, k),
    decreases m - k,
{
    if k < m {
        lemma_fold_fails(rows, group, kind, column, k, m - 1);
    }
}

/// The aggregate of a column over a group, rounded to two decimal places.
pub fn aggregate_of(kind: Aggregator, column: &String, data: &Vec<Row>, group: &Vec<usize>) -> (r:
    Result<Num, EngineError>)
    requires
        forall|x: int| 0 <= x < group@.len() ==> (#[trigger] group@[x]) < data@.len(),
        1 <= group@.len() <= RESULT_CAP,
    ensures
        lifted(r) == aggregate(tables(data@), positions(group@), kind, column@),
{
    let raw = match kind {
        Aggregator::Count => Num::from_count(group.len() as u32),
        _ => match compute_aggregate(kind, column, data, group) {
            Err(e) => {
                return Err(e);
            },
            Ok(v) => v,
        },
    };
    let rounded = match raw {
        None => None,
        Some(v) => v.round_cents(),
    };
    match rounded {
        None => Err(EngineError::TypeError { operation: kind.operation(), field: column.clone() }),
        Some(c) => Ok(c),
    }
}

/// Once a group's row has failed, more rules change nothing.
pub proof fn lemma_summary_fails(
    rows: Seq<Table>,
    t: Transformations,
    head: int,
    group: Seq<int>,
    k: int,
    m: int,
)
    requires
        0 <= k <= m,
        summarized(rows, t, head, group, k) is Err,
    ensures
        summarized(rows, t, head, group, m) == summarized(rows, t, head, group, k),
    decreases m - k,
{
    if k < m {
        lemma_summary_fails(rows, t, head, group, k, m - 1);
    }
}

/// The row of one group.
pub fn summarize(
    transformations: &Transformations,
    data: &Vec<Row>,
    head: usize,
    group: &Vec<usize>,
) -> (r: Result<Row, EngineError>)
    requires
        head < data@.len(),
        complete(tables(data@), names(transformations.group@)),
        forall|x: int| 0 <= x < group@.len() ==> (#[trigger] group@[x]) < data@.len(),
        1 <= group@.len() <= RESULT_CAP,
    ensures
        match r {
            Ok(row) => Ok::<Table, Fault>(row@),
            Err(e) => Err(e@),
        } == summarized(
            tables(data@),
            *transformations,
            head as int,
            positions(group@),
            transformations.apply@.len() as int,
        ),
{
    let ghost given = tables(data@);
    let ghost spots = positions(group@);
    proof {
        lemma_complete_row(data@, transformations.group@, head as int);
        lemma_first_absent(
            data@[head as int]@,
            names(transformations.group@),
            transformations.group@.len() as int,
        );
        assert forall|j: int| 0 <= j < names(transformations.group@).len() implies data@[head as int]@.contains_key(
         #[trigger] names(transformations.group@)[j]) by {
            assert(data@[head as int]@.contains_key(transformations.group@[j]@));
        }
    }
    let mut row = match project_row(&data[head], &transformations.group) {
        Ok(row) => row,
        Err(j) => {
            assert(false);
            return Err(EngineError::FieldNotFound(transformations.group[j].clone()));
        },
    };
    let mut k: usize = 0;
    while k < transformations.apply.len()
        invariant
            k <= transformations.apply@.len(),
            given == tables(data@),
            spots == positions(group@),
            head < data@.len(),
            forall|x: int| 0 <= x < group@.len() ==> (#[trigger] group@[x]) < data@.len(),
            1 <= group@.len() <= RESULT_CAP,
            summarized(given, *transformations, head as int, spots, k as int) == Ok::<Table, Fault>(
                row@,
            ),
        decreases transformations.apply@.len() - k,
    {
        let rule = &transformations.apply[k];
        let kind = match Aggregator::named(rule.value.key.as_str()) {
            None => {
                proof {
                    lemma_summary_fails(
                        given,
                        *transformations,
                        head as int,
                        spots,
                        k + 1,
                        transformations.apply@.len() as int,
                    );
                }
                return Err(EngineError::ParseError(rule.value.key.clone()));
            },
            Some(kind) => kind,
        };
        match aggregate_of(kind, &rule.value.value, data, group) {
            Err(e) => {
                proof {
                    lemma_summary_fails(
                        given,
                        *transformations,
                        head as int,
                        spots,
                        k + 1,
                        transformations.apply@.len() as int,
                    );
                }
                return Err(e);
            },
            Ok(v) => {
                row.insert(rule.key.clone(), Value::Num(v));
            },
        }
        k = k + 1;
    }
    Ok(row)
}

/// Once a group has failed, more groups change nothing.
pub proof fn lemma_summaries_fail(
    rows: Seq<Table>,
    t: Transformations,
    heads: Seq<int>,
    g: int,
    m: int,
)
    requires
        0 <= g <= m,
        summaries(rows, t, heads, g) is Err,
    ensures
        summaries(rows, t, heads, m) == summaries(rows, t, heads, g),
    decreases m - g,
{
    if g < m {
        lemma_summaries_fail(rows, t, heads, g, m - 1);
    }
}

/// The row of the group that the row at `head` leads.
pub fn summarize_group(transformations: &Transformations, data: &Vec<Row>, head: usize) -> (r:
    Result<Row, EngineError>)
    requires
        head < data@.len(),
        data@.len() <= RESULT_CAP,
        complete(tables(data@), names(transformations.group@)),
    ensures
        match r {
            Ok(row) => Ok::<Table, Fault>(row@),
            Err(e) => Err(e@),
        } == summarized(
            tables(data@),
            *transformations,
            head as int,
            members(
                tables(data@),
                names(transformations.group@),
                head as int,
                data@.len() as int,
            ),
            transformations.apply@.len() as int,
        ),
{
    let group = group_members(data, &transformations.group, head);
    proof {
        let given = tables(data@);
        let wanted = names(transformations.group@);
        assert forall|j: int| 0 <= j < wanted.len() implies same_datum(
            given[head as int][#[trigger] wanted[j]],
            given[head as int][wanted[j]],
        ) by {}
        lemma_leader_in_group(given, wanted, head as int, data@.len() as int);
    }
    summarize(transformations, data, head, &group)
}

/// The rows of all groups, in the order of their leaders.
fn summarize_all(transformations: &Transformations, data: &Vec<Row>, heads: &Vec<usize>) -> (r:
    Result<Vec<Row>, EngineError>)
    requires
        data@.len() <= RESULT_CAP,
        complete(tables(data@), names(transformations.group@)),
        forall|x: int| 0 <= x < heads@.len() ==> (#[trigger] heads@[x]) < data@.len(),
    ensures
        lifted_rows(r) == summaries(
            tables(data@),
            *transformations,
            positions(heads@),
            heads@.len() as int,
        ),
{
    let ghost given = tables(data@);
    let ghost spots = positions(heads@);
    let mut out: Vec<Row> = Vec::new();
    let mut g: usize = 0;
    assert(tables(out@) =~= Seq::<Table>::empty());
    while g < heads.len()
        invariant
            g <= heads@.len(),
            given == tables(data@),
            spots == positions(heads@),
            data@.len() <= RESULT_CAP,
            complete(tables(data@), names(transformations.group@)),
            forall|x: int| 0 <= x < heads@.len() ==> (#[trigger] heads@[x]) < data@.len(),
            summaries(given, *transformations, spots, g as int) == Ok::<Seq<Table>, Fault>(
                tables(out@),
            ),
        decreases heads@.len() - g,
    {
        let head = heads[g];
        assert(spots[g as int] == head);
        match summarize_group(transformations, data, head) {
            Err(e) => {
                proof {
                    lemma_summaries_fail(given, *transformations, spots, g + 1, heads@.len() as int);
                }
                return Err(e);
            },
            Ok(row) => {
                let ghost before = tables(out@);
                out.push(row);
                assert(tables(out@) =~= before.push(row@));
            },
        }
        g = g + 1;
    }
    Ok(out)
}

/// Groups the rows and computes the aggregates of each group.
pub fn handle_transformations(transformations: &Transformations, columns_result: &Vec<Row>) -> (r:
    Result<Vec<Row>, EngineError>)
    requires
        columns_result@.len() <= RESULT_CAP,
    ensures
        lifted_rows(r) == transformed(tables(columns_result@), *transformations),
{
    if let Some(j) = lacking_column(columns_result, &transformations.group) {
        return Err(EngineError::FieldNotFound(transformations.group[j].clone()));
    }
    proof {
        lemma_first_lacking(
            tables(columns_result@),
            names(transformations.group@),
            columns_result@.len() as int,
        );
    }
    let heads = group_heads(columns_result, &transformations.group);
    summarize_all(transformations, columns_result, &heads)
}

/// There are no more groups than rows.
pub proof fn lemma_leaders_len(rows: Seq<Table>, columns: Seq<Seq<char>>, n: int)
    requires
        0 <= n,
    ensures
        leaders(rows, columns, n).len() <= n,
    decreases n,
{
    if n > 0 {
        lemma_leaders_len(rows, columns, n - 1);
    }
}

/// There is one row for each group.
pub proof fn lemma_summaries_len(rows: Seq<Table>, t: Transformations, heads: Seq<int>, g: int)
    requires
        0 <= g,
    ensures
        summaries(rows, t, heads, g) matches Ok(out) ==> out.len() == g,
    decreases g,
{
    if g > 0 {
        lemma_summaries_len(rows, t, heads, g - 1);
    }
}

/// Grouping gives no more rows than it was given.
pub proof fn lemma_transformed_len(rows: Seq<Table>, t: Transformations)
    ensures
        transformed(rows, t) matches Ok(out) ==> out.len() <= rows.len(),
{
    let heads = leaders(rows, names(t.group@), rows.len() as int);
    lemma_leaders_len(rows, names(t.group@), rows.len() as int);
    lemma_summaries_len(rows, t, heads, heads.len() as int);
}

/// A row is in the group that it leads.
pub proof fn lemma_leader_in_group(rows: Seq<Table>, columns: Seq<Seq<char>>, head: int, n: int)
    requires
        0 <= head < n,
        forall|j: int|
            0 <= j < columns.len() ==> same_datum(
                rows[head][#[trigger] columns[j]],
                rows[head][columns[j]],
            ),
    ensures
        members(rows, columns, head, n).len() >= 1,
    decreases n,
{
    if head < n - 1 {
        lemma_leader_in_group(rows, columns, head, n - 1);
    } else {
        assert(same_on(rows[head], rows[n - 1], columns));
    }
}

} // verus!
