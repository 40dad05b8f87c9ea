//! What holds of every query and every dataset.

use vstd::prelude::*;
use crate::errors::Fault;
use crate::filter::{every, some};
use crate::order::{
    arranged, before, first_mixed, has_number, has_string, less_datum, mixed, ordered, sort_plan,
    sorted_by, lemma_arranged_len, lemma_inserted_at,
};
use crate::query::{
    answer, scanned, selected, shaped, Filter, Query, Transformations, RESULT_CAP,
};
use crate::rows::{first_lacking, names, narrowed, records, lemma_first_lacking};
use crate::text::{lemma_precedes_asymmetric, lemma_precedes_total, lemma_precedes_transitive};
use crate::number::Num;
use crate::transform::{
    folded, leaders, led, members, same_datum, same_on, summaries, summarized, Aggregator,
    lemma_transformed_len,
};
use crate::types::{Dataset, Datum, Table};

verus! {

/// Whether two values are of one kind: both numbers or both strings.
pub open spec fn same_kind(a: Datum, b: Datum) -> bool {
    (a is Num) == (b is Num)
}

/// Whether the rows hold values of one kind under each key.
pub open spec fn uniform(rows: Seq<Table>, keys: Seq<Seq<char>>) -> bool {
    forall|x: int, y: int, j: int|
        0 <= x < rows.len() && 0 <= y < rows.len() && 0 <= j < keys.len() ==> same_kind(
            (#[trigger] rows[x])[#[trigger] keys[j]],
            (#[trigger] rows[y])[keys[j]],
        )
}

/// Among values of one kind, exactly one of below, equal and above holds,
/// and the three go together as those of a total order do.
proof fn lemma_datum_order(a: Datum, b: Datum, c: Datum)
    requires
        same_kind(a, b),
        same_kind(b, c),
    ensures
        same_datum(a, a),
        same_datum(a, b) == same_datum(b, a),
        same_datum(a, b) || less_datum(a, b) || less_datum(b, a),
        !(less_datum(a, b) && less_datum(b, a)),
        !(same_datum(a, b) && less_datum(a, b)),
        !(same_datum(a, b) && less_datum(b, a)),
        same_datum(a, b) && same_datum(b, c) ==> same_datum(a, c),
        less_datum(a, b) && less_datum(b, c) ==> less_datum(a, c),
        same_datum(a, b) && less_datum(b, c) ==> less_datum(a, c),
        less_datum(a, b) && same_datum(b, c) ==> less_datum(a, c),
{
    match (a, b, c) {
        (Datum::Str(s), Datum::Str(t), Datum::Str(u)) => {
            lemma_precedes_total(s, t);
            lemma_precedes_asymmetric(s, t);
            lemma_precedes_asymmetric(t, s);
            if less_datum(a, b) && less_datum(b, c) {
                lemma_precedes_transitive(s, t, u);
            }
        },
        _ => {},
    }
}

/// Of two rows at most one comes before the other.
proof fn lemma_before_asymmetric(
    a: Table,
    b: Table,
    keys: Seq<Seq<char>>,
    descending: bool,
    j: int,
)
    requires
        0 <= j,
        forall|k: int| 0 <= k < keys.len() ==> same_kind(a[#[trigger] keys[k]], b[keys[k]]),
        before(a, b, keys, descending, j),
    ensures
        !before(b, a, keys, descending, j),
    decreases keys.len() - j,
{
    if j < keys.len() {
        lemma_datum_order(a[keys[j]], b[keys[j]], a[keys[j]]);
        if same_datum(a[keys[j]], b[keys[j]]) {
            lemma_before_asymmetric(a, b, keys, descending, j + 1);
        }
    }
}

/// If neither `a` comes before `b` nor `b` before `c`, then `a` does not
/// come before `c`; and if moreover one of the first two pairs is strictly
/// ordered the other way, so is the third.
proof fn lemma_before_chain(
    a: Table,
    b: Table,
    c: Table,
    keys: Seq<Seq<char>>,
    descending: bool,
    j: int,
)
    requires
        0 <= j,
        forall|k: int| 0 <= k < keys.len() ==> same_kind(a[#[trigger] keys[k]], b[keys[k]]),
        forall|k: int| 0 <= k < keys.len() ==> same_kind(b[#[trigger] keys[k]], c[keys[k]]),
        !before(a, b, keys, descending, j),
        !before(b, c, keys, descending, j),
    ensures
        !before(a, c, keys, descending, j),
    decreases keys.len() - j,
{
    if j < keys.len() {
        let x = a[keys[j]];
        let y = b[keys[j]];
        let z = c[keys[j]];
        lemma_datum_order(x, y, z);
        lemma_datum_order(z, y, x);
        lemma_datum_order(y, x, z);
        lemma_datum_order(x, z, y);
        lemma_datum_order(y, z, x);
        lemma_datum_order(z, x, y);
        if same_datum(x, y) && same_datum(y, z) {
            lemma_before_chain(a, b, c, keys, descending, j + 1);
        }
    }
}

/// The positions with one more: `x` goes before the positions whose rows
/// come after its row, and after all the others.
pub open spec fn placed(
    sorted: Seq<int>,
    x: int,
    rows: Seq<Table>,
    keys: Seq<Seq<char>>,
    descending: bool,
) -> Seq<int>
    decreases sorted.len(),
{
    if sorted.len() == 0 {
        seq![x]
    } else if before(rows[x], rows[sorted.last()], keys, descending, 0) {
        placed(sorted.drop_last(), x, rows, keys, descending).push(sorted.last())
    } else {
        sorted.push(x)
    }
}

/// For each place in the order of the first `n` rows, the position that its
/// row had before.
pub open spec fn origins(rows: Seq<Table>, keys: Seq<Seq<char>>, descending: bool, n: int) -> Seq<
    int,
>
    decreases n,
{
    if n <= 0 {
        seq![]
    } else {
        placed(origins(rows, keys, descending, n - 1), n - 1, rows, keys, descending)
    }
}

/// The rows at the given positions.
pub open spec fn picked(rows: Seq<Table>, spots: Seq<int>) -> Seq<Table> {
    Seq::new(spots.len(), |k: int| rows[spots[k]])
}

/// Whether the positions are those below `n`, each once.
pub open spec fn rearranges(spots: Seq<int>, n: int) -> bool {
    &&& spots.len() == n
    &&& forall|k: int| 0 <= k < spots.len() ==> 0 <= #[trigger] spots[k] < n
    &&& forall|k: int, m: int| 0 <= k < m < spots.len() ==> #[trigger] spots[k] != #[trigger] spots[m]
}

/// Whether no row comes before a row that stands earlier.
pub open spec fn in_order(out: Seq<Table>, keys: Seq<Seq<char>>, descending: bool) -> bool {
    forall|k: int, m: int|
        0 <= k < m < out.len() ==> !before(#[trigger] out[m], #[trigger] out[k], keys, descending, 0)
}

/// Whether rows of which neither comes before the other stand as they
/// stood before.
pub open spec fn keeps_ties(
    out: Seq<Table>,
    spots: Seq<int>,
    keys: Seq<Seq<char>>,
    descending: bool,
) -> bool {
    forall|k: int, m: int|
        0 <= k < m < out.len() && !before(#[trigger] out[k], #[trigger] out[m], keys, descending, 0)
            ==> spots[k] < spots[m]
}

/// Where a position is placed, given where the scan from the back stops.
proof fn lemma_placed_at(
    sorted: Seq<int>,
    x: int,
    rows: Seq<Table>,
    keys: Seq<Seq<char>>,
    descending: bool,
    at: int,
)
    requires
        0 <= at <= sorted.len(),
        forall|m: int|
            at <= m < sorted.len() ==> before(rows[x], rows[#[trigger] sorted[m]], keys, descending, 0),
        at > 0 ==> !before(rows[x], rows[sorted[at - 1]], keys, descending, 0),
    ensures
        placed(sorted, x, rows, keys, descending) == sorted.insert(at, x),
    decreases sorted.len(),
{
    if sorted.len() == 0 {
        assert(sorted.insert(at, x) =~= seq![x]);
    } else if at == sorted.len() {
        assert(sorted.insert(at, x) =~= sorted.push(x));
    } else {
        assert(before(rows[x], rows[sorted[sorted.len() - 1]], keys, descending, 0));
        let rest = sorted.drop_last();
        assert forall|m: int| at <= m < rest.len() implies before(
            rows[x],
            rows[#[trigger] rest[m]],
            keys,
            descending,
            0,
        ) by {
            assert(rest[m] == sorted[m]);
        }
        lemma_placed_at(rest, x, rows, keys, descending, at);
        assert(sorted.insert(at, x) =~= rest.insert(at, x).push(sorted.last()));
    }
}

/// Where the scan from the back stops: behind it every row comes after the
/// new one, and the row before it does not.
pub open spec fn stop(
    sorted: Seq<int>,
    x: int,
    rows: Seq<Table>,
    keys: Seq<Seq<char>>,
    descending: bool,
) -> int
    decreases sorted.len(),
{
    if sorted.len() == 0 {
        0
    } else if before(rows[x], rows[sorted.last()], keys, descending, 0) {
        stop(sorted.drop_last(), x, rows, keys, descending)
    } else {
        sorted.len() as int
    }
}

proof fn lemma_stop(
    sorted: Seq<int>,
    x: int,
    rows: Seq<Table>,
    keys: Seq<Seq<char>>,
    descending: bool,
)
    ensures
        0 <= stop(sorted, x, rows, keys, descending) <= sorted.len(),
        forall|m: int|
            stop(sorted, x, rows, keys, descending) <= m < sorted.len() ==> before(
                rows[x],
                rows[#[trigger] sorted[m]],
                keys,
                descending,
                0,
            ),
        stop(sorted, x, rows, keys, descending) > 0 ==> !before(
            rows[x],
            rows[sorted[stop(sorted, x, rows, keys, descending) - 1]],
            keys,
            descending,
            0,
        ),
        placed(sorted, x, rows, keys, descending) == sorted.insert(
            stop(sorted, x, rows, keys, descending),
            x,
        ),
    decreases sorted.len(),
{
    if sorted.len() > 0 && before(rows[x], rows[sorted.last()], keys, descending, 0) {
        let rest = sorted.drop_last();
        lemma_stop(rest, x, rows, keys, descending);
        let at = stop(rest, x, rows, keys, descending);
        assert forall|m: int| at <= m < sorted.len() implies before(
            rows[x],
            rows[#[trigger] sorted[m]],
            keys,
            descending,
            0,
        ) by {
            if m < rest.len() {
                assert(rest[m] == sorted[m]);
            }
        }
        if at > 0 {
            assert(rest[at - 1] == sorted[at - 1]);
        }
    }
    lemma_placed_at(sorted, x, rows, keys, descending, stop(sorted, x, rows, keys, descending));
}

/// The rows in order are the rows at their origins, and the origins are
/// the positions of the rows, each once.
pub proof fn lemma_origins(rows: Seq<Table>, keys: Seq<Seq<char>>, descending: bool, n: int)
    requires
        0 <= n <= rows.len(),
    ensures
        rearranges(origins(rows, keys, descending, n), n),
        arranged(rows, keys, descending, n) == picked(rows, origins(rows, keys, descending, n)),
    decreases n,
{
    if n > 0 {
        lemma_origins(rows, keys, descending, n - 1);
        let spots = origins(rows, keys, descending, n - 1);
        let sorted = arranged(rows, keys, descending, n - 1);
        lemma_stop(spots, n - 1, rows, keys, descending);
        let at = stop(spots, n - 1, rows, keys, descending);
        assert forall|m: int| at <= m < sorted.len() implies before(
            rows[n - 1],
            #[trigger] sorted[m],
            keys,
            descending,
            0,
        ) by {
            assert(sorted[m] == rows[spots[m]]);
        }
        if at > 0 {
            assert(sorted[at - 1] == rows[spots[at - 1]]);
        }
        lemma_inserted_at(sorted, rows[n - 1], keys, descending, at);
        let after = spots.insert(at, n - 1);
        assert(picked(rows, after) =~= sorted.insert(at, rows[n - 1]));
        assert forall|k: int, m: int| 0 <= k < m < after.len() implies #[trigger] after[k]
            != #[trigger] after[m] by {
            let bk = if k < at { k } else { k - 1 };
            let bm = if m < at { m } else { m - 1 };
            if k != at && m != at {
                assert(spots[bk] != spots[bm]);
            } else if k == at {
                assert(spots[bm] < n - 1);
            } else {
                assert(spots[bk] < n - 1);
            }
        }
        assert forall|k: int| 0 <= k < after.len() implies 0 <= #[trigger] after[k] < n by {
            if k < at {
                assert(after[k] == spots[k]);
            } else if k > at {
                assert(after[k] == spots[k - 1]);
            }
        }
    }
}

/// Rows of one kind under each key come out in order, ties as they stood.
pub proof fn lemma_sorted(rows: Seq<Table>, keys: Seq<Seq<char>>, descending: bool, n: int)
    requires
        0 <= n <= rows.len(),
        uniform(rows, keys),
    ensures
        in_order(arranged(rows, keys, descending, n), keys, descending),
        keeps_ties(
            arranged(rows, keys, descending, n),
            origins(rows, keys, descending, n),
            keys,
            descending,
        ),
    decreases n,
{
    if n > 0 {
        lemma_sorted(rows, keys, descending, n - 1);
        lemma_origins(rows, keys, descending, n - 1);
        lemma_origins(rows, keys, descending, n);
        let spots = origins(rows, keys, descending, n - 1);
        let sorted = arranged(rows, keys, descending, n - 1);
        lemma_stop(spots, n - 1, rows, keys, descending);
        let at = stop(spots, n - 1, rows, keys, descending);
        let after = origins(rows, keys, descending, n);
        let out = arranged(rows, keys, descending, n);
        let x = rows[n - 1];
        assert(after == spots.insert(at, n - 1));
        assert(out == picked(rows, after));
        assert forall|k: int| 0 <= k < out.len() implies (forall|j: int|
            0 <= j < keys.len() ==> same_kind(x[#[trigger] keys[j]], (#[trigger] out[k])[keys[j]]))
            && (forall|j: int|
            0 <= j < keys.len() ==> same_kind((#[trigger] out[k])[#[trigger] keys[j]], x[keys[j]])) by {
            assert(out[k] == rows[after[k]]);
            assert forall|j: int| 0 <= j < keys.len() implies same_kind(
                x[#[trigger] keys[j]],
                out[k][keys[j]],
            ) by {
                assert(same_kind(rows[n - 1][keys[j]], rows[after[k]][keys[j]]));
            }
        }
        assert forall|k: int, m: int| 0 <= k < m < out.len() implies !before(
            #[trigger] out[m],
            #[trigger] out[k],
            keys,
            descending,
            0,
        ) && (!before(out[k], out[m], keys, descending, 0) ==> after[k] < after[m]) by {
            let bk = if k < at { k } else { k - 1 };
            let bm = if m < at { m } else { m - 1 };
            assert(out[k] == rows[after[k]]);
            assert(out[m] == rows[after[m]]);
            if k != at && m != at {
                assert(sorted[bk] == rows[spots[bk]]);
                assert(sorted[bm] == rows[spots[bm]]);
                assert(!before(sorted[bm], sorted[bk], keys, descending, 0));
            } else if m == at {
                // the new row stands behind `k`
                assert(out[m] == x);
                assert(sorted[k] == rows[spots[k]]);
                assert(spots[k] < n - 1);
                if k < at - 1 {
                    assert(sorted[at - 1] == rows[spots[at - 1]]);
                    assert(!before(sorted[at - 1], sorted[k], keys, descending, 0));
                    assert forall|j: int| 0 <= j < keys.len() implies same_kind(
                        sorted[at - 1][#[trigger] keys[j]],
                        sorted[k][keys[j]],
                    ) by {
                        assert(same_kind(rows[spots[at - 1]][keys[j]], rows[spots[k]][keys[j]]));
                    }
                    assert forall|j: int| 0 <= j < keys.len() implies same_kind(
                        x[#[trigger] keys[j]],
                        sorted[at - 1][keys[j]],
                    ) by {
                        assert(same_kind(rows[n - 1][keys[j]], rows[spots[at - 1]][keys[j]]));
                    }
                    lemma_before_chain(x, sorted[at - 1], sorted[k], keys, descending, 0);
                }
            } else {
                // the new row stands before `m`, which comes after it
                assert(out[k] == x);
                assert(before(x, rows[spots[bm]], keys, descending, 0));
                assert forall|j: int| 0 <= j < keys.len() implies same_kind(
                    x[#[trigger] keys[j]],
                    out[m][keys[j]],
                ) by {
                    assert(same_kind(rows[n - 1][keys[j]], rows[spots[bm]][keys[j]]));
                }
                lemma_before_asymmetric(x, out[m], keys, descending, 0);
            }
        }
    }
}

/// Rows whose columns are not mixed hold values of one kind under each key.
proof fn lemma_uniform(rows: Seq<Table>, keys: Seq<Seq<char>>, n: int)
    requires
        0 <= n <= keys.len(),
        first_mixed(rows, keys, n) is None,
    ensures
        forall|x: int, y: int, j: int|
            0 <= x < rows.len() && 0 <= y < rows.len() && 0 <= j < n ==> same_kind(
                (#[trigger] rows[x])[#[trigger] keys[j]],
                (#[trigger] rows[y])[keys[j]],
            ),
    decreases n,
{
    if n > 0 {
        lemma_uniform(rows, keys, n - 1);
        let key = keys[n - 1];
        assert(!mixed(rows, key));
        assert forall|x: int, y: int| 0 <= x < rows.len() && 0 <= y < rows.len() implies same_kind(
            (#[trigger] rows[x])[key],
            (#[trigger] rows[y])[key],
        ) by {
            if rows[x][key] is Num && rows[y][key] is Str {
                assert(has_number(rows, key, rows.len() as int));
                assert(has_string(rows, key, rows.len() as int));
            }
            if rows[y][key] is Num && rows[x][key] is Str {
                assert(has_number(rows, key, rows.len() as int));
                assert(has_string(rows, key, rows.len() as int));
            }
        }
    }
}

/// Ordering is stable. Where rows are ordered by keys, the result holds the
/// same rows, `origins` tells for each place where its row stood before, no
/// row comes before one that stands earlier, and of two rows of which
/// neither comes before the other, as of two rows equal in every key, the
/// one that stood first still stands first.
pub proof fn law_order_stable(rows: Seq<Table>, keys: Seq<Seq<char>>, descending: bool)
    requires
        sorted_by(rows, keys, descending) is Ok,
    ensures
        sorted_by(rows, keys, descending) matches Ok(out) && {
            let spots = origins(rows, keys, descending, rows.len() as int);
            &&& rearranges(spots, rows.len() as int)
            &&& out == picked(rows, spots)
            &&& in_order(out, keys, descending)
            &&& keeps_ties(out, spots, keys, descending)
        },
{
    lemma_uniform(rows, keys, keys.len() as int);
    lemma_origins(rows, keys, descending, rows.len() as int);
    lemma_sorted(rows, keys, descending, rows.len() as int);
}

/// Rows equal in every key do not come one before the other.
pub proof fn law_equal_keys_tie(a: Table, b: Table, keys: Seq<Seq<char>>, descending: bool, j: int)
    requires
        0 <= j,
        forall|k: int| 0 <= k < keys.len() ==> same_datum(a[#[trigger] keys[k]], b[keys[k]]),
    ensures
        !before(a, b, keys, descending, j),
    decreases keys.len() - j,
{
    if j < keys.len() {
        law_equal_keys_tie(a, b, keys, descending, j + 1);
    }
}

/// A result never holds more rows than the cap: whatever a query gives on a
/// dataset is an error or at most that many rows.
pub proof fn law_result_bounded(query: Query, items: Seq<Table>)
    ensures
        answer(query, items) matches Ok(rows) ==> rows.len() <= RESULT_CAP,
{
    if let Ok(found) = selected(query.filter, items) {
        if let Some(t) = query.transformations {
            lemma_transformed_len(found, t);
        }
        if let Ok(rows) = shaped(found, query) {
            if let Some(order) = query.options.order {
                if let Ok((keys, descending)) = sort_plan(order) {
                    lemma_arranged_len(rows, keys, descending, rows.len() as int);
                }
            }
        }
    }
}

/// Whether a record passes a filter.
pub open spec fn passing(filter: Filter) -> spec_fn(Table) -> bool {
    |t: Table| filter.verdict(t) == Ok::<bool, Fault>(true)
}

proof fn lemma_scanned(filter: Filter, items: Seq<Table>, n: int)
    requires
        0 <= n <= items.len(),
        scanned(filter, items, n) matches Ok(found) && found.len() <= RESULT_CAP,
    ensures
        scanned(filter, items, n) == Ok::<Seq<Table>, Fault>(items.take(n).filter(passing(filter))),
        forall|i: int| 0 <= i < n ==> filter.verdict(#[trigger] items[i]) is Ok,
    decreases n,
{
    reveal(Seq::filter);
    let pass = passing(filter);
    if n > 0 {
        lemma_scanned(filter, items, n - 1);
        let now = items.take(n);
        assert(now.drop_last() =~= items.take(n - 1));
        assert(now.last() == items[n - 1]);
        assert(pass(items[n - 1]) == (filter.verdict(items[n - 1]) == Ok::<bool, Fault>(true)));
        assert(now.filter(pass) == if pass(now.last()) {
            now.drop_last().filter(pass).push(now.last())
        } else {
            now.drop_last().filter(pass)
        });
    } else {
        assert(items.take(0).filter(pass) =~= Seq::<Table>::empty());
    }
}

/// Where selection succeeds the filter fails on no record, and the rows
/// selected are the records that pass it, in their order.
pub proof fn law_selected_pass(filter: Filter, items: Seq<Table>)
    requires
        selected(filter, items) is Ok,
    ensures
        selected(filter, items) == Ok::<Seq<Table>, Fault>(items.filter(passing(filter))),
        forall|i: int| 0 <= i < items.len() ==> filter.verdict(#[trigger] items[i]) is Ok,
{
    lemma_scanned(filter, items, items.len() as int);
    assert(items.take(items.len() as int) =~= items);
}

/// More records passing the filter than the cap, with no error before the
/// one that exceeds it, is the error of a result too large.
pub proof fn law_too_many(query: Query, items: Seq<Table>)
    requires
        scanned(query.filter, items, items.len() as int) matches Ok(found) && found.len()
            > RESULT_CAP,
    ensures
        answer(query, items) == Err::<Seq<Table>, Fault>(Fault::ResultTooLarge),
{
}

/// A query's answer is a function of the query and of what the records'
/// capability gives: two executions on the same inputs return the same rows
/// in the same order, or the same error.
pub proof fn law_deterministic(
    query: Query,
    items: Seq<Table>,
    first: Result<Seq<Table>, Fault>,
    second: Result<Seq<Table>, Fault>,
)
    requires
        first == answer(query, items),
        second == answer(query, items),
    ensures
        first == second,
{
}

/// The answer depends on the dataset through its capability only: datasets
/// of any two record types whose records have the same tables give the same
/// answer.
pub proof fn law_capability_only<A: Dataset, B: Dataset>(query: Query, a: Seq<A>, b: Seq<B>)
    requires
        a.len() == b.len(),
        forall|i: int| 0 <= i < a.len() ==> (#[trigger] a[i]).table() == b[i].table(),
    ensures
        answer(query, records(a)) == answer(query, records(b)),
{
    assert(records(a) =~= records(b));
}

/// A conjunction of a filter with itself says what the filter says.
pub proof fn law_and_twice(f: Filter, both: Filter, t: Table)
    requires
        both matches Filter::AND { and } && and@ == seq![f, f],
    ensures
        both.verdict(t) == f.verdict(t),
{
    let parts = both->and;
    assert(parts@[0] == f && parts@[1] == f);
    assert(parts@.len() == 2);
    assert(every(parts, t, 2) == Ok::<bool, Fault>(true));
    assert(every(parts, t, 1) == match f.verdict(t) {
        Err(e) => Err::<bool, Fault>(e),
        Ok(b) => Ok(b),
    });
    assert(every(parts, t, 0) == f.verdict(t));
}

/// A disjunction of a filter with itself says what the filter says.
pub proof fn law_or_twice(f: Filter, both: Filter, t: Table)
    requires
        both matches Filter::OR { or } && or@ == seq![f, f],
    ensures
        both.verdict(t) == f.verdict(t),
{
    let parts = both->or;
    assert(parts@[0] == f && parts@[1] == f);
    assert(parts@.len() == 2);
    assert(some(parts, t, 2) == Ok::<bool, Fault>(false));
    assert(some(parts, t, 1) == match f.verdict(t) {
        Err(e) => Err::<bool, Fault>(e),
        Ok(b) => Ok(b),
    });
    assert(some(parts, t, 0) == f.verdict(t));
}

/// The negation of the negation of a filter says what the filter says.
pub proof fn law_not_twice(f: Filter, outer: Filter, t: Table)
    requires
        outer matches Filter::NOT { not } && *not matches Filter::NOT { not: inner } && *inner == f,
    ensures
        outer.verdict(t) == f.verdict(t),
{
    let middle = *outer->not;
    assert(outer.verdict(t) == match middle.verdict(t) {
        Err(e) => Err(e),
        Ok(b) => Ok(!b),
    });
}

/// Whether one of the rules makes a column of this name.
pub open spec fn produced(t: Transformations, k: Seq<char>) -> bool {
    exists|j: int| 0 <= j < t.apply@.len() && #[trigger] t.apply@[j].key@ == k
}

/// Whether a row of a group has a column of this name: the grouping columns
/// and the columns that the rules make.
pub open spec fn grouped_column(t: Transformations, k: Seq<char>) -> bool {
    names(t.group@).contains(k) || produced(t, k)
}

/// Whether a row of the query's result has a column of this name: without
/// transformations the columns asked for, with them the grouping columns and
/// the columns that the rules make.
pub open spec fn expected_column(query: Query, k: Seq<char>) -> bool {
    match query.transformations {
        None => names(query.options.columns@).contains(k),
        Some(t) => grouped_column(t, k),
    }
}

/// The columns of a group's row after its first `k` rules.
proof fn lemma_summarized_columns(
    rows: Seq<Table>,
    t: Transformations,
    head: int,
    group: Seq<int>,
    k: int,
)
    requires
        0 <= k <= t.apply@.len(),
        forall|j: int|
            0 <= j < t.group@.len() ==> rows[head].contains_key(#[trigger] names(t.group@)[j]),
    ensures
        summarized(rows, t, head, group, k) matches Ok(row) ==> forall|c: Seq<char>|
            row.contains_key(c) <==> names(t.group@).contains(c) || exists|j: int|
                0 <= j < k && #[trigger] t.apply@[j].key@ == c,
    decreases k,
{
    if k > 0 {
        lemma_summarized_columns(rows, t, head, group, k - 1);
        if let Ok(row) = summarized(rows, t, head, group, k) {
            let prev = summarized(rows, t, head, group, k - 1)->Ok_0;
            let name = t.apply@[k - 1].key@;
            assert forall|c: Seq<char>| row.contains_key(c) <==> names(t.group@).contains(c)
                || exists|j: int| 0 <= j < k && #[trigger] t.apply@[j].key@ == c by {
                if prev.contains_key(c) && !names(t.group@).contains(c) {
                    let j = choose|j: int| 0 <= j < k - 1 && #[trigger] t.apply@[j].key@ == c;
                    assert(0 <= j < k && t.apply@[j].key@ == c);
                }
                if c == name {
                    assert(0 <= k - 1 < k && t.apply@[k - 1].key@ == c);
                }
            }
        }
    } else {
        let base = narrowed(rows[head], names(t.group@));
        assert forall|c: Seq<char>| base.contains_key(c) <==> names(t.group@).contains(c) by {
            if names(t.group@).contains(c) {
                let j = choose|j: int| 0 <= j < names(t.group@).len() && names(t.group@)[j] == c;
                assert(rows[head].contains_key(names(t.group@)[j]));
            }
        }
    }
}

/// The columns of the rows of the first `g` groups.
proof fn lemma_summaries_columns(
    rows: Seq<Table>,
    t: Transformations,
    heads: Seq<int>,
    g: int,
)
    requires
        0 <= g <= heads.len(),
        forall|x: int| 0 <= x < heads.len() ==> 0 <= #[trigger] heads[x] < rows.len(),
        first_lacking(rows, names(t.group@), rows.len() as int) is None,
    ensures
        summaries(rows, t, heads, g) matches Ok(out) ==> out.len() == g && forall|x: int, c: Seq<char>|
            0 <= x < g ==> ((#[trigger] out[x]).contains_key(c) <==> #[trigger] grouped_column(t, c)),
    decreases g,
{
    if g > 0 {
        lemma_summaries_columns(rows, t, heads, g - 1);
        let head = heads[g - 1];
        let group = members(rows, names(t.group@), head, rows.len() as int);
        lemma_first_lacking(rows, names(t.group@), rows.len() as int);
        lemma_summarized_columns(rows, t, head, group, t.apply@.len() as int);
    }
}

/// The columns of the rows before they are ordered.
proof fn lemma_shaped_columns(query: Query, found: Seq<Table>)
    ensures
        shaped(found, query) matches Ok(rows) ==> forall|x: int, c: Seq<char>|
            0 <= x < rows.len() ==> ((#[trigger] rows[x]).contains_key(c) <==> #[trigger] expected_column(
                query,
                c,
            )),
{
    if let Ok(rows) = shaped(found, query) {
        match query.transformations {
            None => {
                let wanted = names(query.options.columns@);
                lemma_first_lacking(found, wanted, found.len() as int);
                assert forall|x: int, c: Seq<char>| 0 <= x < rows.len() implies ((#[trigger] rows[x]).contains_key(
                    c,
                ) <==> #[trigger] expected_column(query, c)) by {
                    assert(rows[x] == narrowed(found[x], wanted));
                    if wanted.contains(c) {
                        let j = choose|j: int| 0 <= j < wanted.len() && wanted[j] == c;
                        assert(found[x].contains_key(wanted[j]));
                    }
                }
            },
            Some(t) => {
                let heads = leaders(found, names(t.group@), found.len() as int);
                lemma_leaders(found, names(t.group@), found.len() as int);
                lemma_summaries_columns(found, t, heads, heads.len() as int);
            },
        }
    }
}

/// Every row of a result has exactly the columns that the query names:
/// without transformations the columns asked for, with them the grouping
/// columns and the columns that the rules make.
pub proof fn law_row_columns(query: Query, items: Seq<Table>)
    ensures
        answer(query, items) matches Ok(rows) ==> forall|x: int, c: Seq<char>|
            0 <= x < rows.len() ==> ((#[trigger] rows[x]).contains_key(c) <==> #[trigger] expected_column(
                query,
                c,
            )),
{
    if let Ok(rows) = answer(query, items) {
        let found = selected(query.filter, items)->Ok_0;
        let before_order = shaped(found, query)->Ok_0;
        lemma_shaped_columns(query, found);
        if let Some(order) = query.options.order {
            let plan = sort_plan(order)->Ok_0;
            lemma_origins(before_order, plan.0, plan.1, before_order.len() as int);
            let spots = origins(before_order, plan.0, plan.1, before_order.len() as int);
            assert forall|x: int, c: Seq<char>| 0 <= x < rows.len() implies ((#[trigger] rows[x]).contains_key(
                c,
            ) <==> #[trigger] expected_column(query, c)) by {
                assert(rows[x] == before_order[spots[x]]);
            }
        }
    }
}

/// Whether the positions are in rising order.
pub open spec fn rising(spots: Seq<int>) -> bool {
    forall|g: int, h: int| 0 <= g < h < spots.len() ==> #[trigger] spots[g] < #[trigger] spots[h]
}

proof fn lemma_leaders(rows: Seq<Table>, columns: Seq<Seq<char>>, n: int)
    requires
        0 <= n,
    ensures
        rising(leaders(rows, columns, n)),
        forall|g: int|
            0 <= g < leaders(rows, columns, n).len() ==> 0 <= #[trigger] leaders(rows, columns, n)[g]
                < n,
        forall|g: int, h: int|
            0 <= g < h < leaders(rows, columns, n).len() ==> !same_on(
                rows[#[trigger] leaders(rows, columns, n)[g]],
                rows[#[trigger] leaders(rows, columns, n)[h]],
                columns,
            ),
        forall|i: int| 0 <= i < n ==> #[trigger] led(rows, columns, leaders(rows, columns, n), i),
    decreases n,
{
    if n > 0 {
        lemma_leaders(rows, columns, n - 1);
        let prev = leaders(rows, columns, n - 1);
        let now = leaders(rows, columns, n);
        assert forall|g: int| 0 <= g < now.len() implies 0 <= #[trigger] now[g] < n by {
            if g < prev.len() {
                assert(now[g] == prev[g]);
            }
        }
        assert forall|g: int, h: int| 0 <= g < h < now.len() implies #[trigger] now[g]
            < #[trigger] now[h] && !same_on(rows[now[g]], rows[now[h]], columns) by {
            assert(now[g] == prev[g]);
            if h < prev.len() {
                assert(now[h] == prev[h]);
            } else {
                assert(!led(rows, columns, prev, n - 1));
            }
        }
        assert forall|i: int| 0 <= i < n implies #[trigger] led(rows, columns, now, i) by {
            if i < n - 1 {
                assert(led(rows, columns, prev, i));
                let g = choose|g: int|
                    0 <= g < prev.len() && same_on(rows[#[trigger] prev[g]], rows[i], columns);
                assert(now[g] == prev[g]);
            } else if led(rows, columns, prev, n - 1) {
            } else {
                assert(now[now.len() - 1] == n - 1);
                assert(same_on(rows[n - 1], rows[n - 1], columns)) by {
                    assert forall|j: int| 0 <= j < columns.len() implies same_datum(
                        rows[n - 1][#[trigger] columns[j]],
                        rows[n - 1][columns[j]],
                    ) by {}
                }
            }
        }
    }
}

proof fn lemma_members(rows: Seq<Table>, columns: Seq<Seq<char>>, head: int, n: int)
    requires
        0 <= n,
    ensures
        rising(members(rows, columns, head, n)),
        forall|k: int|
            0 <= k < members(rows, columns, head, n).len() ==> {
                let j = #[trigger] members(rows, columns, head, n)[k];
                0 <= j < n && same_on(rows[head], rows[j], columns)
            },
        forall|j: int|
            0 <= j < n && same_on(rows[head], #[trigger] rows[j], columns) ==> members(
                rows,
                columns,
                head,
                n,
            ).contains(j),
    decreases n,
{
    if n > 0 {
        lemma_members(rows, columns, head, n - 1);
        let prev = members(rows, columns, head, n - 1);
        let now = members(rows, columns, head, n);
        assert forall|k: int| 0 <= k < now.len() implies {
            let j = #[trigger] now[k];
            0 <= j < n && same_on(rows[head], rows[j], columns)
        } by {
            if k < prev.len() {
                assert(now[k] == prev[k]);
            }
        }
        assert forall|g: int, h: int| 0 <= g < h < now.len() implies #[trigger] now[g]
            < #[trigger] now[h] by {
            assert(now[g] == prev[g]);
            if h < prev.len() {
                assert(now[h] == prev[h]);
            }
        }
        assert forall|j: int|
            0 <= j < n && same_on(rows[head], #[trigger] rows[j], columns) implies now.contains(
            j,
        ) by {
            if j < n - 1 {
                assert(prev.contains(j));
                let k = choose|k: int| 0 <= k < prev.len() && prev[k] == j;
                assert(now[k] == j);
            } else {
                assert(now[now.len() - 1] == j);
            }
        }
    }
}

/// Whether the positions are, in rising order, exactly those of the rows
/// equal to the row at `head` in the columns.
pub open spec fn gathers(rows: Seq<Table>, columns: Seq<Seq<char>>, head: int, group: Seq<int>)
    -> bool {
    &&& rising(group)
    &&& forall|k: int|
        0 <= k < group.len() ==> 0 <= #[trigger] group[k] < rows.len() && same_on(
            rows[head],
            rows[group[k]],
            columns,
        )
    &&& forall|j: int|
        0 <= j < rows.len() && same_on(rows[head], #[trigger] rows[j], columns) ==> group.contains(j)
}

/// Grouping parts the rows. The leaders are positions of rows, in rising
/// order, and no two of them are equal in the grouping columns. Every row
/// is equal in them to a leader. The members of a leader's group are, in
/// rising order, exactly the positions of the rows equal to it in the
/// grouping columns.
pub proof fn law_groups_part_the_rows(rows: Seq<Table>, columns: Seq<Seq<char>>)
    ensures
        ({
            let heads = leaders(rows, columns, rows.len() as int);
            &&& rising(heads)
            &&& forall|g: int| 0 <= g < heads.len() ==> 0 <= #[trigger] heads[g] < rows.len()
            &&& forall|g: int, h: int|
                0 <= g < h < heads.len() ==> !same_on(
                    rows[#[trigger] heads[g]],
                    rows[#[trigger] heads[h]],
                    columns,
                )
            &&& forall|i: int| 0 <= i < rows.len() ==> #[trigger] led(rows, columns, heads, i)
        }),
        forall|head: int|
            gathers(rows, columns, head, #[trigger] members(rows, columns, head, rows.len() as int)),
{
    lemma_leaders(rows, columns, rows.len() as int);
    assert forall|head: int|
        gathers(
            rows,
            columns,
            head,
            #[trigger] members(rows, columns, head, rows.len() as int),
        ) by {
        lemma_members(rows, columns, head, rows.len() as int);
    }
}

/// Whether the number is that of one of the first `k` rows of the group,
/// in the column.
pub open spec fn occurs(rows: Seq<Table>, group: Seq<int>, column: Seq<char>, k: int, v: Num)
    -> bool {
    exists|j: int| 0 <= j < k && rows[#[trigger] group[j]][column] == Datum::Num(v)
}

/// Whether the value is a number that is not above the maximum `v`, or not
/// below the minimum `v`.
pub open spec fn bounds(value: Datum, kind: Aggregator, v: Num) -> bool {
    value matches Datum::Num(x) && if kind == Aggregator::Max {
        x.key() <= v.key()
    } else {
        v.key() <= x.key()
    }
}

/// A maximum is the number of one of the rows, and none of their numbers is
/// above it; a minimum likewise, with none below it.
pub proof fn law_extremes(
    rows: Seq<Table>,
    group: Seq<int>,
    kind: Aggregator,
    column: Seq<char>,
    k: int,
)
    requires
        kind == Aggregator::Max || kind == Aggregator::Min,
        0 < k,
        folded(rows, group, kind, column, k) is Ok,
    ensures
        folded(rows, group, kind, column, k) matches Ok(Some(v)) && occurs(
            rows,
            group,
            column,
            k,
            v,
        ) && forall|j: int| 0 <= j < k ==> bounds(rows[#[trigger] group[j]][column], kind, v),
    decreases k,
{
    let x = rows[group[k - 1]][column]->Num_0;
    if k > 1 {
        law_extremes(rows, group, kind, column, k - 1);
        let before = folded(rows, group, kind, column, k - 1)->Ok_0->Some_0;
        let v = folded(rows, group, kind, column, k)->Ok_0->Some_0;
        if v == before {
            let j = choose|j: int|
                0 <= j < k - 1 && rows[#[trigger] group[j]][column] == Datum::Num(before);
            assert(0 <= j < k && rows[group[j]][column] == Datum::Num(v));
        } else {
            assert(0 <= k - 1 < k && rows[group[k - 1]][column] == Datum::Num(v));
        }
    } else {
        assert(folded(rows, group, kind, column, 0) == Ok::<Option<Num>, Fault>(None));
        assert(0 <= 0 < k && rows[group[0]][column] == Datum::Num(x));
    }
}

} // verus!
