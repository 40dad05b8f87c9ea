//! Values, rows and the capability that a record type offers to the query
//! executor.

use vstd::prelude::*;
use vstd::string::*;
use crate::errors::EngineError;
use crate::number::Num;
use crate::transform::{same_datum, same_value};
use crate::text::{
    precedes, str_less, lemma_precedes_total, lemma_precedes_asymmetric, lemma_precedes_transitive,
};

verus! {

/// A value as contracts speak of it.
pub enum Datum {
    Num(Num),
    Str(Seq<char>),
}

/// A row as contracts speak of it: a finite map from column name to value.
pub type Table = Map<Seq<char>, Datum>;

/// A scalar: a number or a string.
#[derive(Debug, Clone, PartialEq, Eq)]
pub enum Value {
    Num(Num),
    Str(String),
}

impl View for Value {
    type V = Datum;

    open spec fn view(&self) -> Datum {
        match self {
            Value::Num(n) => Datum::Num(*n),
            Value::Str(s) => Datum::Str(s@),
        }
    }
}

impl Value {
    /// A copy of the value.
    pub fn duplicate(&self) -> (r: Value)
        ensures
            r@ == self@,
    {
        match self {
            Value::Num(n) => Value::Num(*n),
            Value::Str(s) => Value::Str(s.clone()),
        }
    }
}

/// One entry of an object: a key and what it maps to.
#[derive(Debug, Clone, PartialEq, Eq)]
pub struct KVPair<T> {
    pub key: String,
    pub value: T,
}

/// Whether some entry has the key.
pub open spec fn has_key(entries: Seq<KVPair<Value>>, key: Seq<char>) -> bool {
    exists|i: int| 0 <= i < entries.len() && #[trigger] entries[i].key@ == key
}

/// The position of an entry with the key.
pub open spec fn position(entries: Seq<KVPair<Value>>, key: Seq<char>) -> int {
    choose|i: int| 0 <= i < entries.len() && #[trigger] entries[i].key@ == key
}

/// The map that a list of entries stands for.
pub open spec fn table_of(entries: Seq<KVPair<Value>>) -> Table {
    Map::new(|k: Seq<char>| has_key(entries, k), |k: Seq<char>| entries[position(entries, k)].value@)
}

/// No key occurs twice.
pub open spec fn distinct(entries: Seq<KVPair<Value>>) -> bool {
    forall|i: int, j: int|
        0 <= i < j < entries.len() ==> #[trigger] entries[i].key@ != #[trigger] entries[j].key@
}

/// Each key comes before the next.
pub open spec fn ascending(entries: Seq<KVPair<Value>>) -> bool {
    forall|i: int|
        0 <= i < entries.len() - 1 ==> precedes(#[trigger] entries[i].key@, entries[i + 1].key@)
}

/// Whether two rows have the same keys and equal values under them.
pub open spec fn alike(a: Table, b: Table) -> bool {
    &&& a.dom() == b.dom()
    &&& forall|k: Seq<char>| a.contains_key(k) ==> same_datum(a[k], #[trigger] b[k])
}

/// A row of a result: an ordered map from column name to value, its entries
/// kept in the order of their keys.
#[derive(Debug, PartialEq, Eq)]
pub struct Row {
    pub(crate) entries: Vec<KVPair<Value>>,
}

impl View for Row {
    type V = Table;

    closed spec fn view(&self) -> Table {
        table_of(self.entries@)
    }
}

proof fn lemma_table_entry(entries: Seq<KVPair<Value>>, i: int)
    requires
        distinct(entries),
        0 <= i < entries.len(),
    ensures
        table_of(entries).contains_key(entries[i].key@),
        table_of(entries)[entries[i].key@] == entries[i].value@,
        position(entries, entries[i].key@) == i,
{
    let k = entries[i].key@;
    assert(has_key(entries, k));
    let p = position(entries, k);
    assert(0 <= p < entries.len() && entries[p].key@ == k);
    if p < i {
        assert(entries[p].key@ != entries[i].key@);
    }
    if i < p {
        assert(entries[i].key@ != entries[p].key@);
    }
}

impl Row {
    #[verifier::type_invariant]
    pub open(crate) spec fn well_formed(self) -> bool {
        distinct(self.entries@) && ascending(self.entries@)
    }

    /// The empty row.
    pub fn new() -> (r: Row)
        ensures
            r@ == Map::<Seq<char>, Datum>::empty(),
    {
        let r = Row { entries: Vec::new() };
        assert(r@ =~= Map::<Seq<char>, Datum>::empty());
        r
    }

    /// The number of entries.
    pub fn len(&self) -> (n: usize)
        ensures
            n == self@.dom().len(),
            self@.dom().finite(),
    {
        proof {
            use_type_invariant(self);
            lemma_domain_size(self.entries@);
        }
        self.entries.len()
    }

    fn find(&self, key: &String) -> (r: Option<usize>)
        ensures
            match r {
                Some(i) => i < self.entries@.len() && self.entries@[i as int].key@ == key@,
                None => !has_key(self.entries@, key@),
            },
    {
        let mut i: usize = 0;
        while i < self.entries.len()
            invariant
                i <= self.entries@.len(),
                forall|j: int| 0 <= j < i ==> self.entries@[j].key@ != key@,
            decreases self.entries@.len() - i,
        {
            if self.entries[i].key == *key {
                return Some(i);
            }
            i = i + 1;
        }
        None
    }

    /// The value under a key, if the row has the key.
    pub fn get(&self, key: &str) -> (r: Option<&Value>)
        ensures
            match r {
                Some(v) => self@.contains_key(key@) && v@ == self@[key@],
                None => !self@.contains_key(key@),
            },
    {
        let owned = String::from_str(key);
        match self.find(&owned) {
            Some(i) => {
                proof {
                    use_type_invariant(self);
                    lemma_table_entry(self.entries@, i as int);
                }
                Some(&self.entries[i].value)
            },
            None => None,
        }
    }

    /// Whether the row has the key.
    pub fn contains_key(&self, key: &str) -> (r: bool)
        ensures
            r == self@.contains_key(key@),
    {
        self.get(key).is_some()
    }

    /// Puts a value under a key, in place of the one that was there.
    pub fn insert(&mut self, key: String, value: Value)
        ensures
            final(self)@ == old(self)@.insert(key@, value@),
    {
        proof {
            use_type_invariant(&*self);
        }
        let mut taken = Row { entries: Vec::new() };
        core::mem::swap(self, &mut taken);
        let entries = place(taken.entries, KVPair { key, value });
        *self = Row { entries };
    }

    /// A copy of the row.
    pub fn duplicate(&self) -> (r: Row)
        ensures
            r@ == self@,
    {
        proof {
            use_type_invariant(self);
        }
        let mut out: Vec<KVPair<Value>> = Vec::new();
        let mut i: usize = 0;
        while i < self.entries.len()
            invariant
                i <= self.entries@.len(),
                out@.len() == i,
                forall|j: int|
                    0 <= j < i ==> (#[trigger] out@[j]).key@ == self.entries@[j].key@ && out@[j].value@
                        == self.entries@[j].value@,
            decreases self.entries@.len() - i,
        {
            let entry = &self.entries[i];
            out.push(KVPair { key: entry.key.clone(), value: entry.value.duplicate() });
            i = i + 1;
        }
        proof {
            lemma_table_same(self.entries@, out@);
        }
        Row { entries: out }
    }

    /// Whether two rows have the same keys and equal values under them.
    pub fn same_as(&self, other: &Row) -> (r: bool)
        ensures
            r == alike(self@, other@),
    {
        proof {
            use_type_invariant(self);
            use_type_invariant(other);
            lemma_domain_size(self.entries@);
            lemma_domain_size(other.entries@);
        }
        if self.entries.len() != other.entries.len() {
            return false;
        }
        let mut i: usize = 0;
        while i < self.entries.len()
            invariant
                i <= self.entries@.len(),
                distinct(self.entries@),
                forall|j: int|
                    0 <= j < i ==> other@.contains_key(#[trigger] self.entries@[j].key@)
                        && same_datum(self.entries@[j].value@, other@[self.entries@[j].key@]),
            decreases self.entries@.len() - i,
        {
            let entry = &self.entries[i];
            proof {
                lemma_table_entry(self.entries@, i as int);
            }
            let equal = match other.get(entry.key.as_str()) {
                Some(v) => same_value(&entry.value, v),
                None => false,
            };
            if !equal {
                return false;
            }
            i = i + 1;
        }
        proof {
            assert forall|k: Seq<char>| self@.contains_key(k) implies other@.contains_key(k)
                && same_datum(self@[k], other@[k]) by {
                let j = position(self.entries@, k);
                lemma_table_entry(self.entries@, j);
            }
            assert(self@.dom().subset_of(other@.dom()));
            vstd::set_lib::lemma_subset_equality(self@.dom(), other@.dom());
        }
        true
    }

    /// The entries, in the order of their keys.
    pub fn pairs(&self) -> (r: &Vec<KVPair<Value>>)
        ensures
            r@.len() == self@.dom().len(),
            distinct(r@),
            ascending(r@),
            self@ == table_of(r@),
    {
        proof {
            use_type_invariant(self);
            lemma_domain_size(self.entries@);
        }
        &self.entries
    }
}

/// Puts an entry into a list kept in the order of its keys, in place of the
/// entry with the same key if there is one.
fn place(entries: Vec<KVPair<Value>>, fresh: KVPair<Value>) -> (r: Vec<KVPair<Value>>)
    requires
        distinct(entries@),
        ascending(entries@),
    ensures
        distinct(r@),
        ascending(r@),
        table_of(r@) == table_of(entries@).insert(fresh.key@, fresh.value@),
{
    let mut entries = entries;
    let ghost before = entries@;
    let mut at: usize = 0;
    while at < entries.len() && str_less(entries[at].key.as_str(), fresh.key.as_str())
        invariant
            at <= entries@.len(),
            entries@ == before,
            forall|j: int| 0 <= j < at ==> precedes(#[trigger] before[j].key@, fresh.key@),
        decreases entries@.len() - at,
    {
        at = at + 1;
    }
    if at < entries.len() && entries[at].key == fresh.key {
        let _gone = entries.remove(at);
        entries.insert(at, fresh);
        proof {
            let after = entries@;
            assert(after =~= before.update(at as int, fresh));
            assert forall|x: int, y: int| 0 <= x < y < after.len() implies #[trigger] after[x].key@
                != #[trigger] after[y].key@ by {
                assert(before[x].key@ != before[y].key@);
            }
            assert forall|x: int| 0 <= x < after.len() - 1 implies precedes(
                #[trigger] after[x].key@,
                after[x + 1].key@,
            ) by {
                assert(precedes(before[x].key@, before[x + 1].key@));
            }
            lemma_table_update(before, after, at as int);
        }
    } else {
        proof {
            lemma_absent_beyond(before, fresh.key@, at as int);
        }
        entries.insert(at, fresh);
        proof {
            let after = entries@;
            assert(after =~= before.insert(at as int, fresh));
            assert forall|x: int, y: int| 0 <= x < y < after.len() implies #[trigger] after[x].key@
                != #[trigger] after[y].key@ by {
                let bx = if x < at { x } else { x - 1 };
                let by_ = if y < at { y } else { y - 1 };
                if x != at && y != at {
                    assert(before[bx].key@ != before[by_].key@);
                } else if x == at {
                    assert(before[by_].key@ != fresh.key@);
                } else {
                    assert(before[bx].key@ != fresh.key@);
                }
            }
            assert forall|x: int| 0 <= x < after.len() - 1 implies precedes(
                #[trigger] after[x].key@,
                after[x + 1].key@,
            ) by {
                if x + 1 < at {
                    assert(precedes(before[x].key@, before[x + 1].key@));
                } else if x + 1 == at {
                    assert(precedes(before[x].key@, fresh.key@));
                } else if x == at {
                    assert(before[at as int].key@ != fresh.key@);
                    lemma_precedes_total(before[at as int].key@, fresh.key@);
                } else {
                    assert(precedes(before[x - 1].key@, before[x].key@));
                }
            }
            lemma_table_insert(before, after, at as int);
        }
    }
    entries
}

/// In a list in the order of its keys, a key that comes before the entry at
/// `at`, or after all entries, and after every entry before `at`, is no
/// entry's key.
proof fn lemma_absent_beyond(entries: Seq<KVPair<Value>>, key: Seq<char>, at: int)
    requires
        ascending(entries),
        0 <= at <= entries.len(),
        forall|j: int| 0 <= j < at ==> precedes(#[trigger] entries[j].key@, key),
        at < entries.len() ==> !precedes(entries[at].key@, key) && entries[at].key@ != key,
    ensures
        forall|j: int| 0 <= j < entries.len() ==> #[trigger] entries[j].key@ != key,
{
    assert forall|j: int| 0 <= j < entries.len() implies #[trigger] entries[j].key@ != key by {
        if j < at {
            lemma_precedes_asymmetric(entries[j].key@, key);
        } else {
            lemma_precedes_total(entries[at].key@, key);
            lemma_ascending_from(entries, at, j);
            if at < j {
                lemma_precedes_transitive(key, entries[at].key@, entries[j].key@);
            }
            lemma_precedes_asymmetric(key, entries[j].key@);
        }
    }
}

/// In a list in the order of its keys, an earlier key comes before a later
/// one.
proof fn lemma_ascending_from(entries: Seq<KVPair<Value>>, i: int, j: int)
    requires
        ascending(entries),
        0 <= i <= j < entries.len(),
    ensures
        i < j ==> precedes(entries[i].key@, entries[j].key@),
    decreases j - i,
{
    if i < j {
        lemma_ascending_from(entries, i, j - 1);
        assert(precedes(entries[j - 1].key@, entries[j].key@));
        if i < j - 1 {
            lemma_precedes_transitive(entries[i].key@, entries[j - 1].key@, entries[j].key@);
        }
    }
}

/// Lists that agree entry by entry, in keys and in values, stand for the same
/// map and are in order together.
proof fn lemma_table_same(a: Seq<KVPair<Value>>, b: Seq<KVPair<Value>>)
    requires
        a.len() == b.len(),
        forall|j: int|
            0 <= j < a.len() ==> (#[trigger] b[j]).key@ == a[j].key@ && b[j].value@ == a[j].value@,
        distinct(a),
        ascending(a),
    ensures
        distinct(b),
        ascending(b),
        table_of(a) == table_of(b),
{
    assert forall|i: int, j: int| 0 <= i < j < b.len() implies #[trigger] b[i].key@
        != #[trigger] b[j].key@ by {
        assert(a[i].key@ != a[j].key@);
    }
    assert forall|i: int| 0 <= i < b.len() - 1 implies precedes(
        #[trigger] b[i].key@,
        b[i + 1].key@,
    ) by {
        assert(precedes(a[i].key@, a[i + 1].key@));
        assert(b[i + 1].key@ == a[i + 1].key@);
    }
    assert forall|k: Seq<char>| has_key(a, k) <==> has_key(b, k) by {
        if has_key(a, k) {
            let p = position(a, k);
            assert(b[p].key@ == k);
        }
        if has_key(b, k) {
            let p = position(b, k);
            assert(a[p].key@ == k);
        }
    }
    assert forall|k: Seq<char>| has_key(a, k) implies table_of(a)[k] == table_of(b)[k] by {
        let p = position(a, k);
        lemma_table_entry(a, p);
        assert(b[p].key@ == k);
        lemma_table_entry(b, p);
    }
    assert(table_of(a) =~= table_of(b));
}

proof fn lemma_table_update(before: Seq<KVPair<Value>>, after: Seq<KVPair<Value>>, i: int)
    requires
        distinct(before),
        distinct(after),
        0 <= i < before.len(),
        after == before.update(i, after[i]),
        after[i].key@ == before[i].key@,
    ensures
        table_of(after) == table_of(before).insert(after[i].key@, after[i].value@),
{
    let key = after[i].key@;
    let goal = table_of(before).insert(key, after[i].value@);
    assert forall|k: Seq<char>| table_of(after).contains_key(k) <==> goal.contains_key(k) by {
        if has_key(after, k) {
            let p = position(after, k);
            assert(before[p].key@ == k);
        }
        if has_key(before, k) {
            let p = position(before, k);
            assert(after[p].key@ == k);
        }
        if k == key {
            assert(after[i].key@ == k);
        }
    }
    assert forall|k: Seq<char>| table_of(after).contains_key(k) implies table_of(after)[k]
        == goal[k] by {
        let p = position(after, k);
        lemma_table_entry(after, p);
        if p != i {
            assert(before[p].key@ == k);
            lemma_table_entry(before, p);
        }
    }
    assert(table_of(after) =~= goal);
}

proof fn lemma_table_insert(before: Seq<KVPair<Value>>, after: Seq<KVPair<Value>>, at: int)
    requires
        distinct(before),
        distinct(after),
        0 <= at <= before.len(),
        after == before.insert(at, after[at]),
    ensures
        table_of(after) == table_of(before).insert(after[at].key@, after[at].value@),
{
    let key = after[at].key@;
    let goal = table_of(before).insert(key, after[at].value@);
    assert forall|k: Seq<char>| table_of(after).contains_key(k) <==> goal.contains_key(k) by {
        if has_key(after, k) {
            let p = position(after, k);
            if p < at {
                assert(before[p].key@ == k);
            } else if p > at {
                assert(before[p - 1].key@ == k);
            }
        }
        if has_key(before, k) {
            let p = position(before, k);
            if p < at {
                assert(after[p].key@ == k);
            } else {
                assert(after[p + 1].key@ == k);
            }
        }
        if k == key {
            assert(after[at].key@ == k);
        }
    }
    assert forall|k: Seq<char>| table_of(after).contains_key(k) implies table_of(after)[k]
        == goal[k] by {
        let p = position(after, k);
        lemma_table_entry(after, p);
        if p < at {
            assert(before[p].key@ == k);
            lemma_table_entry(before, p);
        } else if p > at {
            assert(before[p - 1].key@ == k);
            lemma_table_entry(before, p - 1);
        }
    }
    assert(table_of(after) =~= goal);
}

/// A list of entries without a repeated key stands for a map with as many
/// keys as the list has entries.
proof fn lemma_domain_size(entries: Seq<KVPair<Value>>)
    requires
        distinct(entries),
    ensures
        table_of(entries).dom().finite(),
        table_of(entries).dom().len() == entries.len(),
    decreases entries.len(),
{
    if entries.len() == 0 {
        assert(table_of(entries).dom() =~= Set::<Seq<char>>::empty());
    } else {
        let rest = entries.drop_last();
        let last = entries.last();
        assert(distinct(rest)) by {
            assert forall|i: int, j: int| 0 <= i < j < rest.len() implies #[trigger] rest[i].key@
                != #[trigger] rest[j].key@ by {
                assert(entries[i].key@ != entries[j].key@);
            }
        }
        lemma_domain_size(rest);
        assert(!has_key(rest, last.key@)) by {
            if has_key(rest, last.key@) {
                let p = position(rest, last.key@);
                assert(entries[p].key@ != entries[entries.len() - 1].key@);
            }
        }
        assert(table_of(entries).dom() =~= table_of(rest).dom().insert(last.key@)) by {
            assert forall|k: Seq<char>| has_key(entries, k) <==> (has_key(rest, k) || k
                == last.key@) by {
                if has_key(entries, k) {
                    let p = position(entries, k);
                    if p < rest.len() {
                        assert(rest[p].key@ == k);
                    }
                }
                if has_key(rest, k) {
                    let p = position(rest, k);
                    assert(entries[p].key@ == k);
                }
                if k == last.key@ {
                    assert(entries[entries.len() - 1].key@ == k);
                }
            }
        }
    }
}

/// What a record type offers to the executor: its columns by their prefixed
/// names.
pub trait Dataset {
    /// The record as a map from prefixed column name to value. A record
    /// type says here what `get` returns.
    open spec fn table(&self) -> Table {
        arbitrary()
    }

    /// The prefixed names of the record's columns, in the order in which the
    /// record type declares them. A record type says here what `get_all`
    /// returns.
    open spec fn columns(&self) -> Seq<Seq<char>> {
        arbitrary()
    }

    /// The value of a column: `Ok` for each of the record's columns, and a
    /// diagnostic for every other name.
    fn get(&self, field_name: &str) -> (r: Result<Value, String>)
        ensures
            match r {
                Ok(v) => self.table().contains_key(field_name@) && v@ == self.table()[field_name@],
                Err(_) => !self.table().contains_key(field_name@),
            },
    ;

    /// The names of all columns, which are the keys of the record's table.
    fn get_all(&self) -> (r: &'static [&'static str])
        ensures
            r@.len() == self.columns().len(),
            forall|i: int| 0 <= i < r@.len() ==> (#[trigger] r@[i])@ == self.columns()[i],
            forall|k: Seq<char>| self.table().contains_key(k) <==> self.columns().contains(k),
    ;
}

/// The outcome of a query as a response carries it: the rows, or the
/// message of an error.
#[derive(Debug)]
pub enum QueryResult {
    OK { result: Vec<Row> },
    ERROR { error: String },
}

impl QueryResult {
    /// The response for the outcome of a query.
    pub fn from_outcome(outcome: Result<Vec<Row>, EngineError>) -> (r: QueryResult)
        ensures
            match outcome {
                Ok(rows) => r == (QueryResult::OK { result: rows }),
                Err(e) => r matches QueryResult::ERROR { error } && error@ == e.message_text(),
            },
    {
        match outcome {
            Ok(rows) => QueryResult::OK { result: rows },
            Err(e) => QueryResult::ERROR { error: e.message() },
        }
    }
}

} // verus!
