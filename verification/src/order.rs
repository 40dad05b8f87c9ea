//! Ordering the rows of a result.
//!
//! Rows are ordered by a stable insertion sort: each row in turn is put
//! after the rows already placed that do not come after it.

use vstd::prelude::*;
use vstd::string::*;
use crate::errors::{EngineError, Fault};
use crate::query::Order;
use crate::rows::{tables, names};
use crate::text::{precedes, str_less, str_equal};
use crate::transform::{same_datum, same_value};
use crate::types::{Datum, Row, Table, Value};

verus! {

/// Whether the first value is below the second: numbers by their value,
/// strings by their text, and a number and a string in neither order.
pub open spec fn less_datum(a: Datum, b: Datum) -> bool {
    match (a, b) {
        (Datum::Num(x), Datum::Num(y)) => x.key() < y.key(),
        (Datum::Str(s), Datum::Str(t)) => precedes(s, t),
        _ => false,
    }
}

/// Whether row `a` comes before row `b`, going by the keys from the `j`-th
/// on: the first key in which they differ decides, the other way round when
/// descending.
pub open spec fn before(a: Table, b: Table, keys: Seq<Seq<char>>, descending: bool, j: int) -> bool
    decreases keys.len() - j,
{
    if j < 0 || j >= keys.len() {
        false
    } else if same_datum(a[keys[j]], b[keys[j]]) {
        before(a, b, keys, descending, j + 1)
    } else if descending {
        less_datum(b[keys[j]], a[keys[j]])
    } else {
        less_datum(a[keys[j]], b[keys[j]])
    }
}

/// The sorted rows with one more: it goes before the rows that come after
/// it, and after all the others.
pub open spec fn inserted(sorted: Seq<Table>, x: Table, keys: Seq<Seq<char>>, descending: bool)
    -> Seq<Table>
    decreases sorted.len(),
{
    if sorted.len() == 0 {
        seq![x]
    } else if before(x, sorted.last(), keys, descending, 0) {
        inserted(sorted.drop_last(), x, keys, descending).push(sorted.last())
    } else {
        sorted.push(x)
    }
}

/// The first `n` rows in order.
pub open spec fn arranged(rows: Seq<Table>, keys: Seq<Seq<char>>, descending: bool, n: int) -> Seq<
    Table,
>
    decreases n,
{
    if n <= 0 {
        seq![]
    } else {
        inserted(arranged(rows, keys, descending, n - 1), rows[n - 1], keys, descending)
    }
}

/// Whether every row has the key.
pub open spec fn shared(rows: Seq<Table>, key: Seq<char>) -> bool {
    forall|i: int| 0 <= i < rows.len() ==> (#[trigger] rows[i]).contains_key(key)
}

/// The first of the first `n` keys that some row does not have.
pub open spec fn first_unshared(rows: Seq<Table>, keys: Seq<Seq<char>>, n: int) -> Option<Seq<char>>
    decreases n,
{
    if n <= 0 {
        None
    } else {
        match first_unshared(rows, keys, n - 1) {
            Some(k) => Some(k),
            None => if shared(rows, keys[n - 1]) {
                None
            } else {
                Some(keys[n - 1])
            },
        }
    }
}

/// Whether some row has a number under the key.
pub open spec fn has_number(rows: Seq<Table>, key: Seq<char>, n: int) -> bool {
    exists|i: int| 0 <= i < n && (#[trigger] rows[i])[key] is Num
}

/// Whether some row has a string under the key.
pub open spec fn has_string(rows: Seq<Table>, key: Seq<char>, n: int) -> bool {
    exists|i: int| 0 <= i < n && (#[trigger] rows[i])[key] is Str
}

/// Whether the column holds both numbers and strings.
pub open spec fn mixed(rows: Seq<Table>, key: Seq<char>) -> bool {
    has_number(rows, key, rows.len() as int) && has_string(rows, key, rows.len() as int)
}

/// The first of the first `n` keys whose column is mixed.
pub open spec fn first_mixed(rows: Seq<Table>, keys: Seq<Seq<char>>, n: int) -> Option<Seq<char>>
    decreases n,
{
    if n <= 0 {
        None
    } else {
        match first_mixed(rows, keys, n - 1) {
            Some(k) => Some(k),
            None => if mixed(rows, keys[n - 1]) {
                Some(keys[n - 1])
            } else {
                None
            },
        }
    }
}

/// The keys of an order and whether it is descending; a direction other
/// than `UP` and `DOWN` is an error.
pub open spec fn sort_plan(order: Order) -> Result<(Seq<Seq<char>>, bool), Fault> {
    match order {
        Order::ONE(column) => Ok((seq![column@], false)),
        Order::MANY { dir, keys } => if dir@ == "UP"@ {
            Ok((names(keys@), false))
        } else if dir@ == "DOWN"@ {
            Ok((names(keys@), true))
        } else {
            Err(Fault::InvalidOrder(dir@))
        },
    }
}

/// The rows ordered by keys that all of them have and that hold values of
/// one kind each.
pub open spec fn sorted_by(rows: Seq<Table>, keys: Seq<Seq<char>>, descending: bool) -> Result<
    Seq<Table>,
    Fault,
> {
    match first_unshared(rows, keys, keys.len() as int) {
        Some(k) => Err(Fault::InvalidOrder(k)),
        None => match first_mixed(rows, keys, keys.len() as int) {
            Some(k) => Err(Fault::TypeError { operation: "order"@, field: k }),
            None => Ok(arranged(rows, keys, descending, rows.len() as int)),
        },
    }
}

/// The rows in the order asked for: an invalid direction is an error, then
/// the first key that a row does not have, then the first key whose column
/// is mixed.
pub open spec fn ordered(rows: Seq<Table>, order: Order) -> Result<Seq<Table>, Fault> {
    match sort_plan(order) {
        Err(e) => Err(e),
        Ok((keys, descending)) => sorted_by(rows, keys, descending),
    }
}

/// Whether the first value is below the second.
pub fn less_value(a: &Value, b: &Value) -> (r: bool)
    ensures
        r == less_datum(a@, b@),
{
    match (a, b) {
        (Value::Num(x), Value::Num(y)) => x.less(*y),
        (Value::Str(s), Value::Str(t)) => str_less(s.as_str(), t.as_str()),
        _ => false,
    }
}

/// Whether row `a` comes before row `b`.
pub fn row_before(a: &Row, b: &Row, keys: &Vec<String>, descending: bool) -> (r: bool)
    requires
        forall|j: int| 0 <= j < keys@.len() ==> a@.contains_key(#[trigger] keys@[j]@),
        forall|j: int| 0 <= j < keys@.len() ==> b@.contains_key(#[trigger] keys@[j]@),
    ensures
        r == before(a@, b@, names(keys@), descending, 0),
{
    let ghost wanted = names(keys@);
    let mut j: usize = 0;
    while j < keys.len()
        invariant
            j <= keys@.len(),
            wanted == names(keys@),
            forall|x: int| 0 <= x < keys@.len() ==> a@.contains_key(#[trigger] keys@[x]@),
            forall|x: int| 0 <= x < keys@.len() ==> b@.contains_key(#[trigger] keys@[x]@),
            before(a@, b@, wanted, descending, 0) == before(a@, b@, wanted, descending, j as int),
        decreases keys@.len() - j,
    {
        let name = keys[j].as_str();
        assert(wanted[j as int] == keys@[j as int]@);
        match (a.get(name), b.get(name)) {
            (Some(x), Some(y)) => {
                if !same_value(x, y) {
                    return if descending {
                        less_value(y, x)
                    } else {
                        less_value(x, y)
                    };
                }
            },
            _ => {
                assert(false);
                return false;
            },
        }
        j = j + 1;
    }
    false
}

/// The position of the first key that some row does not have.
pub fn unshared_key(rows: &Vec<Row>, keys: &Vec<String>) -> (r: Option<usize>)
    ensures
        match r {
            Some(j) => j < keys@.len() && first_unshared(
                tables(rows@),
                names(keys@),
                keys@.len() as int,
            ) == Some(keys@[j as int]@),
            None => first_unshared(tables(rows@), names(keys@), keys@.len() as int) is None,
        },
{
    let ghost given = tables(rows@);
    let ghost wanted = names(keys@);
    let mut j: usize = 0;
    while j < keys.len()
        invariant
            j <= keys@.len(),
            given == tables(rows@),
            wanted == names(keys@),
            first_unshared(given, wanted, j as int) is None,
        decreases keys@.len() - j,
    {
        let mut i: usize = 0;
        while i < rows.len()
            invariant
                i <= rows@.len(),
                j < keys@.len(),
                given == tables(rows@),
                wanted == names(keys@),
                first_unshared(given, wanted, j as int) is None,
                forall|x: int| 0 <= x < i ==> (#[trigger] given[x]).contains_key(keys@[j as int]@),
            decreases rows@.len() - i,
        {
            if !rows[i].contains_key(keys[j].as_str()) {
                proof {
                    assert(!given[i as int].contains_key(keys@[j as int]@));
                    assert(!shared(given, wanted[j as int]));
                    lemma_unshared_stays(given, wanted, j + 1, keys@.len() as int);
                }
                return Some(j);
            }
            i = i + 1;
        }
        assert(shared(given, wanted[j as int]));
        j = j + 1;
    }
    None
}

/// Once a key is found unshared, more keys change nothing.
pub proof fn lemma_unshared_stays(rows: Seq<Table>, keys: Seq<Seq<char>>, n: int, m: int)
    requires
        0 <= n <= m,
        first_unshared(rows, keys, n) is Some,
    ensures
        first_unshared(rows, keys, m) == first_unshared(rows, keys, n),
    decreases m - n,
{
    if n < m {
        lemma_unshared_stays(rows, keys, n, m - 1);
    }
}

/// No key is unshared exactly when every row has every key.
pub proof fn lemma_all_shared(rows: Seq<Table>, keys: Seq<Seq<char>>, n: int)
    requires
        0 <= n <= keys.len(),
    ensures
        first_unshared(rows, keys, n) is None <==> forall|j: int|
            0 <= j < n ==> shared(rows, #[trigger] keys[j]),
    decreases n,
{
    if n > 0 {
        lemma_all_shared(rows, keys, n - 1);
    }
}

/// Once a key is found mixed, more keys change nothing.
pub proof fn lemma_mixed_stays(rows: Seq<Table>, keys: Seq<Seq<char>>, n: int, m: int)
    requires
        0 <= n <= m,
        first_mixed(rows, keys, n) is Some,
    ensures
        first_mixed(rows, keys, m) == first_mixed(rows, keys, n),
    decreases m - n,
{
    if n < m {
        lemma_mixed_stays(rows, keys, n, m - 1);
    }
}

/// Whether a column that every row has holds both numbers and strings.
pub fn is_mixed(rows: &Vec<Row>, key: &String) -> (r: bool)
    requires
        shared(tables(rows@), key@),
    ensures
        r == mixed(tables(rows@), key@),
{
    let ghost given = tables(rows@);
    let mut numbers = false;
    let mut strings = false;
    let mut i: usize = 0;
    while i < rows.len()
        invariant
            i <= rows@.len(),
            given == tables(rows@),
            shared(given, key@),
            numbers == has_number(given, key@, i as int),
            strings == has_string(given, key@, i as int),
        decreases rows@.len() - i,
    {
        assert(given[i as int] == rows@[i as int]@);
        assert(given[i as int].contains_key(key@));
        match rows[i].get(key.as_str()) {
            Some(Value::Num(_)) => {
                numbers = true;
            },
            Some(Value::Str(_)) => {
                strings = true;
            },
            None => {
                assert(false);
            },
        }
        proof {
            let d = given[i as int][key@];
            if has_number(given, key@, i + 1) && !numbers {
                let w = choose|w: int| 0 <= w < i + 1 && (#[trigger] given[w])[key@] is Num;
                assert(w < i);
            }
            if has_string(given, key@, i + 1) && !strings {
                let w = choose|w: int| 0 <= w < i + 1 && (#[trigger] given[w])[key@] is Str;
                assert(w < i);
            }
        }
        i = i + 1;
    }
    numbers && strings
}

/// The position of the first key whose column is mixed.
pub fn mixed_key(rows: &Vec<Row>, keys: &Vec<String>) -> (r: Option<usize>)
    requires
        forall|j: int| 0 <= j < keys@.len() ==> shared(tables(rows@), #[trigger] keys@[j]@),
    ensures
        match r {
            Some(j) => j < keys@.len() && first_mixed(
                tables(rows@),
                names(keys@),
                keys@.len() as int,
            ) == Some(keys@[j as int]@),
            None => first_mixed(tables(rows@), names(keys@), keys@.len() as int) is None,
        },
{
    let ghost given = tables(rows@);
    let ghost wanted = names(keys@);
    let mut j: usize = 0;
    while j < keys.len()
        invariant
            j <= keys@.len(),
            given == tables(rows@),
            wanted == names(keys@),
            forall|x: int| 0 <= x < keys@.len() ==> shared(given, #[trigger] keys@[x]@),
            first_mixed(given, wanted, j as int) is None,
        decreases keys@.len() - j,
    {
        assert(wanted[j as int] == keys@[j as int]@);
        if is_mixed(rows, &keys[j]) {
            proof {
                lemma_mixed_stays(given, wanted, j + 1, keys@.len() as int);
            }
            return Some(j);
        }
        j = j + 1;
    }
    None
}

/// Putting a row in adds one row.
pub proof fn lemma_inserted_len(sorted: Seq<Table>, x: Table, keys: Seq<Seq<char>>, descending: bool)
    ensures
        inserted(sorted, x, keys, descending).len() == sorted.len() + 1,
    decreases sorted.len(),
{
    if sorted.len() > 0 && before(x, sorted.last(), keys, descending, 0) {
        lemma_inserted_len(sorted.drop_last(), x, keys, descending);
    }
}

/// Ordering keeps the number of rows.
pub proof fn lemma_arranged_len(rows: Seq<Table>, keys: Seq<Seq<char>>, descending: bool, n: int)
    requires
        0 <= n,
    ensures
        arranged(rows, keys, descending, n).len() == n,
    decreases n,
{
    if n > 0 {
        lemma_arranged_len(rows, keys, descending, n - 1);
        lemma_inserted_len(arranged(rows, keys, descending, n - 1), rows[n - 1], keys, descending);
    }
}

/// Where the scan from the back stops is where the new row goes.
pub proof fn lemma_inserted_at(
    sorted: Seq<Table>,
    x: Table,
    keys: Seq<Seq<char>>,
    descending: bool,
    at: int,
)
    requires
        0 <= at <= sorted.len(),
        forall|m: int| at <= m < sorted.len() ==> before(x, #[trigger] sorted[m], keys, descending, 0),
        at > 0 ==> !before(x, sorted[at - 1], keys, descending, 0),
    ensures
        inserted(sorted, x, keys, descending) == sorted.insert(at, x),
    decreases sorted.len(),
{
    if sorted.len() == 0 {
        assert(sorted.insert(at, x) =~= seq![x]);
    } else if at == sorted.len() {
        assert(sorted.insert(at, x) =~= sorted.push(x));
    } else {
        assert(before(x, sorted[sorted.len() - 1], keys, descending, 0));
        let rest = sorted.drop_last();
        assert forall|m: int| at <= m < rest.len() implies before(
            x,
            #[trigger] rest[m],
            keys,
            descending,
            0,
        ) by {
            assert(rest[m] == sorted[m]);
        }
        lemma_inserted_at(rest, x, keys, descending, at);
        assert(sorted.insert(at, x) =~= rest.insert(at, x).push(sorted.last()));
    }
}

/// Orders rows by keys that all of them have.
pub fn sort_rows(rows: &mut Vec<Row>, keys: &Vec<String>, descending: bool)
    requires
        forall|j: int| 0 <= j < keys@.len() ==> shared(tables(old(rows)@), #[trigger] keys@[j]@),
    ensures
        tables(final(rows)@) == arranged(
            tables(old(rows)@),
            names(keys@),
            descending,
            old(rows)@.len() as int,
        ),
{
    let ghost given = tables(rows@);
    let ghost wanted = names(keys@);
    let n = rows.len();
    let mut i: usize = 0;
    assert(tables(rows@).subrange(0, 0) =~= Seq::<Table>::empty());
    assert forall|x: int, j: int| 0 <= x < n && 0 <= j < keys@.len() implies (#[trigger] rows@[x])@.contains_key(
        #[trigger] keys@[j]@,
    ) by {
        assert(shared(given, keys@[j]@));
        assert(given[x] == rows@[x]@);
    }
    while i < n
        invariant
            i <= n,
            n == rows@.len(),
            n == given.len(),
            wanted == names(keys@),
            forall|j: int| 0 <= j < keys@.len() ==> shared(given, #[trigger] keys@[j]@),
            forall|x: int|
                0 <= x < n ==> forall|j: int|
                    0 <= j < keys@.len() ==> (#[trigger] rows@[x])@.contains_key(
                        #[trigger] keys@[j]@,
                    ),
            tables(rows@).subrange(0, i as int) == arranged(given, wanted, descending, i as int),
            forall|x: int| i <= x < n ==> (#[trigger] rows@[x])@ == given[x],
        decreases n - i,
    {
        let ghost start = tables(rows@);
        let ghost placed = start.subrange(0, i as int);
        let ghost first = rows@;
        assert(start[i as int] == given[i as int]);
        let row = rows.remove(i);
        assert(tables(rows@) =~= start.remove(i as int));
        let mut at: usize = i;
        while at > 0 && row_before(&row, &rows[at - 1], keys, descending)
            invariant
                at <= i,
                i < n,
                rows@.len() == n - 1,
                start.len() == n,
                wanted == names(keys@),
                tables(rows@) == start.remove(i as int),
                placed == start.subrange(0, i as int),
                forall|j: int| 0 <= j < keys@.len() ==> row@.contains_key(#[trigger] keys@[j]@),
                forall|x: int|
                    0 <= x < n - 1 ==> forall|j: int|
                        0 <= j < keys@.len() ==> (#[trigger] rows@[x])@.contains_key(
                            #[trigger] keys@[j]@,
                        ),
                forall|m: int|
                    at <= m < i ==> before(row@, #[trigger] placed[m], wanted, descending, 0),
            decreases at,
        {
            assert(placed[at - 1] == tables(rows@)[at - 1]);
            at = at - 1;
        }
        proof {
            if at > 0 {
                assert(placed[at - 1] == tables(rows@)[at - 1]);
            }
            lemma_inserted_at(placed, row@, wanted, descending, at as int);
        }
        let ghost middle = tables(rows@);
        rows.insert(at, row);
        proof {
            assert(tables(rows@) =~= middle.insert(at as int, row@));
            assert(tables(rows@).subrange(0, i + 1) =~= placed.insert(at as int, row@));
            assert forall|x: int| i + 1 <= x < n implies (#[trigger] rows@[x])@ == given[x] by {
                assert(rows@[x] == first[x]);
            }
        }
        i = i + 1;
    }
    assert(tables(rows@).subrange(0, n as int) =~= tables(rows@));
}

/// Orders the rows as the query asks.
pub fn handle_order(order: &Order, columns_result: &mut Vec<Row>) -> (r: Result<(), EngineError>)
    ensures
        match r {
            Ok(_) => ordered(tables(old(columns_result)@), *order) == Ok::<Seq<Table>, Fault>(
                tables(final(columns_result)@),
            ),
            Err(e) => ordered(tables(old(columns_result)@), *order) == Err::<Seq<Table>, Fault>(e@)
                && final(columns_result)@ == old(columns_result)@,
        },
{
    match order {
        Order::ONE(column) => {
            let mut keys: Vec<String> = Vec::new();
            keys.push(column.clone());
            assert(names(keys@) =~= seq![column@]);
            sort_checked(columns_result, &keys, false)
        },
        Order::MANY { dir, keys } => {
            let descending = if str_equal(dir.as_str(), "UP") {
                false
            } else if str_equal(dir.as_str(), "DOWN") {
                true
            } else {
                return Err(EngineError::InvalidOrder(dir.clone()));
            };
            sort_checked(columns_result, keys, descending)
        },
    }
}

/// Checks the keys against the rows, then orders the rows.
pub fn sort_checked(rows: &mut Vec<Row>, keys: &Vec<String>, descending: bool) -> (r: Result<
    (),
    EngineError,
>)
    ensures
        match r {
            Ok(_) => sorted_by(tables(old(rows)@), names(keys@), descending) == Ok::<
                Seq<Table>,
                Fault,
            >(tables(final(rows)@)),
            Err(e) => sorted_by(tables(old(rows)@), names(keys@), descending) == Err::<
                Seq<Table>,
                Fault,
            >(e@) && final(rows)@ == old(rows)@,
        },
{
    if let Some(j) = unshared_key(rows, keys) {
        return Err(EngineError::InvalidOrder(keys[j].clone()));
    }
    proof {
        lemma_all_shared(tables(rows@), names(keys@), keys@.len() as int);
        assert forall|j: int| 0 <= j < keys@.len() implies shared(
            tables(rows@),
            #[trigger] keys@[j]@,
        ) by {
            assert(names(keys@)[j] == keys@[j]@);
        }
    }
    if let Some(j) = mixed_key(rows, keys) {
        return Err(EngineError::TypeError { operation: "order", field: keys[j].clone() });
    }
    sort_rows(rows, keys, descending);
    Ok(())
}

} // verus!
