//! The grammar of queries: which JSON values are queries, and which query
//! each of them is.
//!
//! A predicate `reads_..(json, x)` says that the JSON value is a well-formed
//! `x` and that it spells out exactly this one. A reader returns the value
//! that its argument spells out, and an error exactly when it spells out
//! none.

use vstd::prelude::*;
use vstd::string::*;
use crate::errors::{EngineError, Fault};
use crate::json::Json;
use crate::number::Num;
use crate::query::{Filter, Options, Order, Query, Transformations};
use crate::text::str_equal;
use crate::transform::{aggregator_named, Aggregator};
use crate::types::KVPair;

verus! {

/// The value of the first entry from position `i` on that has the key.
pub open spec fn member_from(entries: Seq<KVPair<Json>>, key: Seq<char>, i: int) -> Option<Json>
    decreases entries.len() - i,
{
    if i < 0 || i >= entries.len() {
        None
    } else if entries[i].key@ == key {
        Some(entries[i].value)
    } else {
        member_from(entries, key, i + 1)
    }
}

/// The value under a key of an object.
pub open spec fn member_of(entries: Seq<KVPair<Json>>, key: Seq<char>) -> Option<Json> {
    member_from(entries, key, 0)
}

/// No key occurs twice.
pub open spec fn keys_distinct(entries: Seq<KVPair<Json>>) -> bool {
    forall|i: int, j: int|
        0 <= i < j < entries.len() ==> #[trigger] entries[i].key@ != #[trigger] entries[j].key@
}

/// Every key is one of three.
pub open spec fn keys_among(entries: Seq<KVPair<Json>>, a: Seq<char>, b: Seq<char>, c: Seq<char>)
    -> bool {
    forall|i: int|
        0 <= i < entries.len() ==> {
            let k = #[trigger] entries[i].key@;
            k == a || k == b || k == c
        }
}

/// The entries of an object whose keys are among three and occur once each.
pub open spec fn fields(json: Json, a: Seq<char>, b: Seq<char>, c: Seq<char>) -> Option<
    Seq<KVPair<Json>>,
> {
    match json {
        Json::Object(entries) => if keys_distinct(entries@) && keys_among(entries@, a, b, c) {
            Some(entries@)
        } else {
            None
        },
        _ => None,
    }
}

/// The entry of an object that has exactly one.
pub open spec fn single(json: Json) -> Option<KVPair<Json>> {
    match json {
        Json::Object(entries) => if entries@.len() == 1 {
            Some(entries@[0])
        } else {
            None
        },
        _ => None,
    }
}

/// The JSON value is this string.
pub open spec fn reads_text(json: Json, s: String) -> bool {
    json matches Json::Text(t) && t@ == s@
}

/// The JSON value is an array of these strings.
pub open spec fn reads_texts(json: Json, list: Vec<String>) -> bool {
    &&& json matches Json::Array(items)
    &&& items@.len() == list@.len()
    &&& forall|i: int| 0 <= i < items@.len() ==> reads_text(#[trigger] items@[i], list@[i])
}

/// The JSON value is an object with one entry, a column and a number.
pub open spec fn reads_comparison(json: Json, pair: KVPair<Num>) -> bool {
    &&& single(json) matches Some(entry)
    &&& entry.key@ == pair.key@
    &&& entry.value == Json::Number(pair.value)
}

/// The JSON value is an object with one entry, a column and a string.
pub open spec fn reads_pattern(json: Json, pair: KVPair<String>) -> bool {
    &&& single(json) matches Some(entry)
    &&& entry.key@ == pair.key@
    &&& reads_text(entry.value, pair.value)
}

/// The JSON value is this filter: the empty object, or an object with one
/// entry whose key names the operator.
pub open spec fn reads_filter(json: Json, f: Filter) -> bool
    decreases json,
{
    match json {
        Json::Object(entries) => if entries@.len() == 0 {
            f is EMPTY
        } else if entries@.len() == 1 {
            let key = entries@[0].key@;
            let body = entries@[0].value;
            if key == "AND"@ {
                &&& f matches Filter::AND { and }
                &&& body matches Json::Array(items)
                &&& items@.len() > 0
                &&& items@.len() == and@.len()
                &&& forall|i: int|
                    0 <= i < items@.len() ==> reads_filter(#[trigger] items@[i], and@[i])
            } else if key == "OR"@ {
                &&& f matches Filter::OR { or }
                &&& body matches Json::Array(items)
                &&& items@.len() > 0
                &&& items@.len() == or@.len()
                &&& forall|i: int|
                    0 <= i < items@.len() ==> reads_filter(#[trigger] items@[i], or@[i])
            } else if key == "NOT"@ {
                f matches Filter::NOT { not } && reads_filter(body, *not)
            } else if key == "LT"@ {
                f matches Filter::LT { lt } && reads_comparison(body, lt)
            } else if key == "GT"@ {
                f matches Filter::GT { gt } && reads_comparison(body, gt)
            } else if key == "EQ"@ {
                f matches Filter::EQ { eq } && reads_comparison(body, eq)
            } else if key == "IS"@ {
                f matches Filter::IS { is } && reads_pattern(body, is)
            } else {
                false
            }
        } else {
            false
        },
        _ => false,
    }
}

/// The JSON value is this order: a string, or an object with a direction
/// and keys.
pub open spec fn reads_order(json: Json, order: Order) -> bool {
    match json {
        Json::Text(s) => order matches Order::ONE(column) && column@ == s@,
        Json::Object(_) => {
            &&& order matches Order::MANY { dir, keys }
            &&& fields(json, "dir"@, "keys"@, "keys"@) matches Some(entries)
            &&& member_of(entries, "dir"@) matches Some(d)
            &&& reads_text(d, dir)
            &&& member_of(entries, "keys"@) matches Some(k)
            &&& reads_texts(k, keys)
        },
        _ => false,
    }
}

/// The JSON value is these options: columns, and an order or none.
pub open spec fn reads_options(json: Json, options: Options) -> bool {
    &&& fields(json, "COLUMNS"@, "ORDER"@, "ORDER"@) matches Some(entries)
    &&& member_of(entries, "COLUMNS"@) matches Some(c)
    &&& reads_texts(c, options.columns)
    &&& match (member_of(entries, "ORDER"@), options.order) {
        (None, None) => true,
        (Some(o), Some(order)) => reads_order(o, order),
        _ => false,
    }
}

/// The JSON value is this rule: an object with one entry, from the name of
/// the new column to an object with one entry, from the name of an
/// aggregate function to its column.
pub open spec fn reads_rule(json: Json, rule: KVPair<KVPair<String>>) -> bool {
    &&& single(json) matches Some(outer)
    &&& outer.key@ == rule.key@
    &&& single(outer.value) matches Some(inner)
    &&& inner.key@ == rule.value.key@
    &&& aggregator_named(inner.key@) is Some
    &&& reads_text(inner.value, rule.value.value)
}

/// No two rules make a column of the same name.
pub open spec fn rules_distinct(rules: Seq<KVPair<KVPair<String>>>) -> bool {
    forall|i: int, j: int|
        0 <= i < j < rules.len() ==> #[trigger] rules[i].key@ != #[trigger] rules[j].key@
}

/// The JSON value is an array of these rules.
pub open spec fn reads_rules(json: Json, rules: Vec<KVPair<KVPair<String>>>) -> bool {
    &&& json matches Json::Array(items)
    &&& items@.len() == rules@.len()
    &&& rules_distinct(rules@)
    &&& forall|i: int| 0 <= i < items@.len() ==> reads_rule(#[trigger] items@[i], rules@[i])
}

/// The JSON value is these transformations: grouping columns and rules.
pub open spec fn reads_transformations(json: Json, t: Transformations) -> bool {
    &&& fields(json, "GROUP"@, "APPLY"@, "APPLY"@) matches Some(entries)
    &&& member_of(entries, "GROUP"@) matches Some(g)
    &&& reads_texts(g, t.group)
    &&& member_of(entries, "APPLY"@) matches Some(a)
    &&& reads_rules(a, t.apply)
}

/// The JSON value is this query: options, a filter or none, which stands
/// for the filter that every record passes, and transformations or none.
pub open spec fn reads_query(json: Json, query: Query) -> bool {
    &&& fields(json, "WHERE"@, "OPTIONS"@, "TRANSFORMATIONS"@) matches Some(entries)
    &&& match member_of(entries, "WHERE"@) {
        None => query.filter is EMPTY,
        Some(w) => reads_filter(w, query.filter),
    }
    &&& member_of(entries, "OPTIONS"@) matches Some(o)
    &&& reads_options(o, query.options)
    &&& match (member_of(entries, "TRANSFORMATIONS"@), query.transformations) {
        (None, None) => true,
        (Some(t), Some(transformations)) => reads_transformations(t, transformations),
        _ => false,
    }
}

fn refusal(why: &str) -> (e: EngineError)
    ensures
        e@ == Fault::ParseError,
{
    EngineError::ParseError(String::from_str(why))
}

/// The value under a key of an object.
pub fn member<'a>(entries: &'a Vec<KVPair<Json>>, key: &str) -> (r: Option<&'a Json>)
    ensures
        match r {
            Some(v) => member_of(entries@, key@) == Some(*v),
            None => member_of(entries@, key@) is None,
        },
{
    let mut i: usize = 0;
    while i < entries.len()
        invariant
            i <= entries@.len(),
            member_of(entries@, key@) == member_from(entries@, key@, i as int),
        decreases entries@.len() - i,
    {
        if str_equal(entries[i].key.as_str(), key) {
            return Some(&entries[i].value);
        }
        i = i + 1;
    }
    None
}

/// The entries of an object whose keys are among three and occur once each.
pub fn object_fields<'a>(json: &'a Json, a: &str, b: &str, c: &str) -> (r: Option<
    &'a Vec<KVPair<Json>>,
>)
    ensures
        match r {
            Some(entries) => fields(*json, a@, b@, c@) == Some(entries@),
            None => fields(*json, a@, b@, c@) is None,
        },
{
    let entries = match json {
        Json::Object(entries) => entries,
        _ => {
            return None;
        },
    };
    let mut i: usize = 0;
    while i < entries.len()
        invariant
            i <= entries@.len(),
            *json == Json::Object(*entries),
            forall|x: int, y: int|
                0 <= x < y < i ==> #[trigger] entries@[x].key@ != #[trigger] entries@[y].key@,
            forall|x: int|
                0 <= x < i ==> {
                    let k = #[trigger] entries@[x].key@;
                    k == a@ || k == b@ || k == c@
                },
        decreases entries@.len() - i,
    {
        let key = entries[i].key.as_str();
        if !(str_equal(key, a) || str_equal(key, b) || str_equal(key, c)) {
            assert(!keys_among(entries@, a@, b@, c@));
            return None;
        }
        let mut j: usize = 0;
        while j < i
            invariant
                j <= i,
                i < entries@.len(),
                key@ == entries@[i as int].key@,
                *json == Json::Object(*entries),
                forall|x: int| 0 <= x < j ==> #[trigger] entries@[x].key@ != key@,
            decreases i - j,
        {
            if str_equal(entries[j].key.as_str(), key) {
                assert(!keys_distinct(entries@));
                return None;
            }
            j = j + 1;
        }
        i = i + 1;
    }
    Some(entries)
}

impl KVPair<Json> {
    /// The entry of an object that has exactly one.
    pub fn deserialize(json: &Json) -> (r: Result<&KVPair<Json>, EngineError>)
        ensures
            match r {
                Ok(entry) => single(*json) == Some(*entry),
                Err(e) => e@ == Fault::ParseError && single(*json) is None,
            },
    {
        match json {
            Json::Object(entries) => {
                if entries.len() == 1 {
                    Ok(&entries[0])
                } else {
                    Err(refusal("Expected exactly 1 entry"))
                }
            },
            _ => Err(refusal("Expected an object")),
        }
    }
}

/// Reads a string.
pub fn read_text(json: &Json) -> (r: Result<String, EngineError>)
    ensures
        match r {
            Ok(s) => reads_text(*json, s),
            Err(e) => e@ == Fault::ParseError && forall|s: String| !reads_text(*json, s),
        },
{
    match json {
        Json::Text(t) => Ok(t.clone()),
        _ => Err(refusal("Expected a string")),
    }
}

/// Reads an array of strings.
pub fn read_texts(json: &Json) -> (r: Result<Vec<String>, EngineError>)
    ensures
        match r {
            Ok(list) => reads_texts(*json, list),
            Err(e) => e@ == Fault::ParseError && forall|list: Vec<String>| !reads_texts(*json, list),
        },
{
    let items = match json {
        Json::Array(items) => items,
        _ => {
            return Err(refusal("Expected an array of strings"));
        },
    };
    let mut out: Vec<String> = Vec::new();
    let mut i: usize = 0;
    while i < items.len()
        invariant
            i <= items@.len(),
            out@.len() == i,
            *json == Json::Array(*items),
            forall|x: int| 0 <= x < i ==> reads_text(#[trigger] items@[x], out@[x]),
        decreases items@.len() - i,
    {
        match read_text(&items[i]) {
            Ok(s) => {
                out.push(s);
            },
            Err(e) => {
                assert forall|list: Vec<String>| !reads_texts(*json, list) by {
                    if reads_texts(*json, list) {
                        assert(reads_text(items@[i as int], list@[i as int]));
                    }
                }
                return Err(e);
            },
        }
        i = i + 1;
    }
    Ok(out)
}

/// Reads a column and the number to compare it with.
pub fn read_comparison(json: &Json) -> (r: Result<KVPair<Num>, EngineError>)
    ensures
        match r {
            Ok(pair) => reads_comparison(*json, pair),
            Err(e) => e@ == Fault::ParseError && forall|pair: KVPair<Num>|
                !reads_comparison(*json, pair),
        },
{
    let entry = match KVPair::<Json>::deserialize(json) {
        Ok(entry) => entry,
        Err(e) => {
            return Err(e);
        },
    };
    match &entry.value {
        Json::Number(n) => Ok(KVPair { key: entry.key.clone(), value: *n }),
        _ => Err(refusal("Expected a number")),
    }
}

/// Reads a column and the pattern to match it with.
pub fn read_pattern(json: &Json) -> (r: Result<KVPair<String>, EngineError>)
    ensures
        match r {
            Ok(pair) => reads_pattern(*json, pair),
            Err(e) => e@ == Fault::ParseError && forall|pair: KVPair<String>|
                !reads_pattern(*json, pair),
        },
{
    let entry = match KVPair::<Json>::deserialize(json) {
        Ok(entry) => entry,
        Err(e) => {
            return Err(e);
        },
    };
    match read_text(&entry.value) {
        Ok(s) => Ok(KVPair { key: entry.key.clone(), value: s }),
        Err(e) => Err(e),
    }
}

/// The JSON value is some filter.
pub open spec fn spells_filter(json: Json) -> bool {
    exists|f: Filter| reads_filter(json, f)
}

/// The JSON value is a non-empty array of filters.
pub open spec fn spells_filters(json: Json) -> bool {
    &&& json matches Json::Array(items)
    &&& items@.len() > 0
    &&& forall|i: int| 0 <= i < items@.len() ==> spells_filter(#[trigger] items@[i])
}

/// Reads a non-empty array of filters.
pub fn read_filters(json: &Json) -> (r: Result<Vec<Filter>, EngineError>)
    ensures
        match r {
            Ok(parts) => {
                &&& *json matches Json::Array(items)
                &&& items@.len() > 0
                &&& items@.len() == parts@.len()
                &&& forall|i: int|
                    0 <= i < items@.len() ==> reads_filter(#[trigger] items@[i], parts@[i])
            },
            Err(e) => e@ == Fault::ParseError && !spells_filters(*json),
        },
    decreases json, 0int,
{
    let items = match json {
        Json::Array(items) => items,
        _ => {
            return Err(refusal("Expected an array of filters"));
        },
    };
    if items.len() == 0 {
        return Err(refusal("Expected at least one filter"));
    }
    let mut out: Vec<Filter> = Vec::new();
    let mut i: usize = 0;
    while i < items.len()
        invariant
            i <= items@.len(),
            out@.len() == i,
            *json == Json::Array(*items),
            forall|x: int| 0 <= x < i ==> reads_filter(#[trigger] items@[x], out@[x]),
        decreases items@.len() - i,
    {
        match read_filter(&items[i]) {
            Ok(f) => {
                out.push(f);
            },
            Err(e) => {
                assert(!spells_filter(items@[i as int]));
                return Err(e);
            },
        }
        i = i + 1;
    }
    Ok(out)
}

/// Reads a filter.
pub fn read_filter(json: &Json) -> (r: Result<Filter, EngineError>)
    ensures
        match r {
            Ok(f) => reads_filter(*json, f),
            Err(e) => e@ == Fault::ParseError && forall|f: Filter| !reads_filter(*json, f),
        },
    decreases json, 1int,
{
    let entries = match json {
        Json::Object(entries) => entries,
        _ => {
            return Err(refusal("Expected a filter"));
        },
    };
    if entries.len() == 0 {
        return Ok(Filter::EMPTY {  });
    }
    if entries.len() != 1 {
        assert forall|f: Filter| !reads_filter(*json, f) by {}
        return Err(refusal("Expected exactly 1 entry"));
    }
    let key = entries[0].key.as_str();
    let body = &entries[0].value;
    if str_equal(key, "AND") {
        match read_filters(body) {
            Ok(and) => Ok(Filter::AND { and }),
            Err(e) => {
                assert forall|f: Filter| !reads_filter(*json, f) by {
                    if reads_filter(*json, f) {
                        let items = body->Array_0;
                        let parts = f->and;
                        assert forall|i: int| 0 <= i < items@.len() implies spells_filter(
                            #[trigger] items@[i],
                        ) by {
                            assert(reads_filter(items@[i], parts@[i]));
                        }
                        assert(spells_filters(*body));
                    }
                }
                Err(e)
            },
        }
    } else if str_equal(key, "OR") {
        match read_filters(body) {
            Ok(or) => Ok(Filter::OR { or }),
            Err(e) => {
                assert forall|f: Filter| !reads_filter(*json, f) by {
                    if reads_filter(*json, f) {
                        let items = body->Array_0;
                        let parts = f->or;
                        assert forall|i: int| 0 <= i < items@.len() implies spells_filter(
                            #[trigger] items@[i],
                        ) by {
                            assert(reads_filter(items@[i], parts@[i]));
                        }
                        assert(spells_filters(*body));
                    }
                }
                Err(e)
            },
        }
    } else if str_equal(key, "NOT") {
        match read_filter(body) {
            Ok(inner) => Ok(Filter::NOT { not: Box::new(inner) }),
            Err(e) => {
                assert forall|f: Filter| !reads_filter(*json, f) by {
                    if reads_filter(*json, f) {
                        let inner = *f->not;
                        assert(reads_filter(*body, inner));
                    }
                }
                Err(e)
            },
        }
    } else if str_equal(key, "LT") {
        match read_comparison(body) {
            Ok(lt) => Ok(Filter::LT { lt }),
            Err(e) => {
                assert forall|f: Filter| !reads_filter(*json, f) by {
                    if reads_filter(*json, f) {
                        assert(entries@[0].value == *body);
                    }
                }
                Err(e)
            },
        }
    } else if str_equal(key, "GT") {
        match read_comparison(body) {
            Ok(gt) => Ok(Filter::GT { gt }),
            Err(e) => {
                assert forall|f: Filter| !reads_filter(*json, f) by {
                    if reads_filter(*json, f) {
                        assert(entries@[0].value == *body);
                    }
                }
                Err(e)
            },
        }
    } else if str_equal(key, "EQ") {
        match read_comparison(body) {
            Ok(eq) => Ok(Filter::EQ { eq }),
            Err(e) => {
                assert forall|f: Filter| !reads_filter(*json, f) by {
                    if reads_filter(*json, f) {
                        assert(entries@[0].value == *body);
                    }
                }
                Err(e)
            },
        }
    } else if str_equal(key, "IS") {
        match read_pattern(body) {
            Ok(is) => Ok(Filter::IS { is }),
            Err(e) => {
                assert forall|f: Filter| !reads_filter(*json, f) by {
                    if reads_filter(*json, f) {
                        assert(entries@[0].value == *body);
                    }
                }
                Err(e)
            },
        }
    } else {
        assert forall|f: Filter| !reads_filter(*json, f) by {}
        Err(refusal("Unknown filter"))
    }
}

/// Reads an order.
pub fn read_order(json: &Json) -> (r: Result<Order, EngineError>)
    ensures
        match r {
            Ok(order) => reads_order(*json, order),
            Err(e) => e@ == Fault::ParseError && forall|order: Order| !reads_order(*json, order),
        },
{
    match json {
        Json::Text(s) => Ok(Order::ONE(s.clone())),
        Json::Object(_) => {
            let entries = match object_fields(json, "dir", "keys", "keys") {
                Some(entries) => entries,
                None => {
                    return Err(refusal("Unknown or repeated key in ORDER"));
                },
            };
            let dir = match member(entries, "dir") {
                Some(d) => match read_text(d) {
                    Ok(dir) => dir,
                    Err(e) => {
                        return Err(e);
                    },
                },
                None => {
                    return Err(refusal("Missing dir"));
                },
            };
            let keys = match member(entries, "keys") {
                Some(k) => match read_texts(k) {
                    Ok(keys) => keys,
                    Err(e) => {
                        return Err(e);
                    },
                },
                None => {
                    return Err(refusal("Missing keys"));
                },
            };
            Ok(Order::MANY { dir, keys })
        },
        _ => Err(refusal("Expected an order")),
    }
}

/// Reads options.
pub fn read_options(json: &Json) -> (r: Result<Options, EngineError>)
    ensures
        match r {
            Ok(options) => reads_options(*json, options),
            Err(e) => e@ == Fault::ParseError && forall|options: Options|
                !reads_options(*json, options),
        },
{
    let entries = match object_fields(json, "COLUMNS", "ORDER", "ORDER") {
        Some(entries) => entries,
        None => {
            return Err(refusal("Unknown or repeated key in OPTIONS"));
        },
    };
    let columns = match member(entries, "COLUMNS") {
        Some(c) => match read_texts(c) {
            Ok(columns) => columns,
            Err(e) => {
                return Err(e);
            },
        },
        None => {
            return Err(refusal("Missing COLUMNS"));
        },
    };
    let order = match member(entries, "ORDER") {
        Some(o) => match read_order(o) {
            Ok(order) => Some(order),
            Err(e) => {
                return Err(e);
            },
        },
        None => None,
    };
    Ok(Options { columns, order })
}

/// Reads a rule.
pub fn read_rule(json: &Json) -> (r: Result<KVPair<KVPair<String>>, EngineError>)
    ensures
        match r {
            Ok(rule) => reads_rule(*json, rule),
            Err(e) => e@ == Fault::ParseError && forall|rule: KVPair<KVPair<String>>|
                !reads_rule(*json, rule),
        },
{
    let outer = match KVPair::<Json>::deserialize(json) {
        Ok(entry) => entry,
        Err(e) => {
            return Err(e);
        },
    };
    let inner = match KVPair::<Json>::deserialize(&outer.value) {
        Ok(entry) => entry,
        Err(e) => {
            return Err(e);
        },
    };
    if Aggregator::named(inner.key.as_str()).is_none() {
        return Err(refusal("Unknown function"));
    }
    match read_text(&inner.value) {
        Ok(column) => Ok(
            KVPair { key: outer.key.clone(), value: KVPair { key: inner.key.clone(), value: column } },
        ),
        Err(e) => Err(e),
    }
}

/// Reads an array of rules.
pub fn read_rules(json: &Json) -> (r: Result<Vec<KVPair<KVPair<String>>>, EngineError>)
    ensures
        match r {
            Ok(rules) => reads_rules(*json, rules),
            Err(e) => e@ == Fault::ParseError && forall|rules: Vec<KVPair<KVPair<String>>>|
                !reads_rules(*json, rules),
        },
{
    let items = match json {
        Json::Array(items) => items,
        _ => {
            return Err(refusal("Expected an array of rules"));
        },
    };
    let mut out: Vec<KVPair<KVPair<String>>> = Vec::new();
    let mut i: usize = 0;
    while i < items.len()
        invariant
            i <= items@.len(),
            out@.len() == i,
            *json == Json::Array(*items),
            rules_distinct(out@),
            forall|x: int| 0 <= x < i ==> reads_rule(#[trigger] items@[x], out@[x]),
        decreases items@.len() - i,
    {
        let rule = match read_rule(&items[i]) {
            Ok(rule) => rule,
            Err(e) => {
                assert forall|rules: Vec<KVPair<KVPair<String>>>| !reads_rules(*json, rules) by {
                    if reads_rules(*json, rules) {
                        assert(reads_rule(items@[i as int], rules@[i as int]));
                    }
                }
                return Err(e);
            },
        };
        let mut j: usize = 0;
        while j < i
            invariant
                j <= i,
                i < items@.len(),
                out@.len() == i,
                *json == Json::Array(*items),
                reads_rule(items@[i as int], rule),
                forall|x: int| 0 <= x < i ==> reads_rule(#[trigger] items@[x], out@[x]),
                forall|x: int| 0 <= x < j ==> #[trigger] out@[x].key@ != rule.key@,
            decreases i - j,
        {
            if out[j].key == rule.key {
                assert forall|rules: Vec<KVPair<KVPair<String>>>| !reads_rules(*json, rules) by {
                    if reads_rules(*json, rules) {
                        assert(reads_rule(items@[i as int], rules@[i as int]));
                        assert(reads_rule(items@[j as int], rules@[j as int]));
                        assert(rules@[j as int].key@ != rules@[i as int].key@);
                    }
                }
                return Err(refusal("Repeated name of a new column"));
            }
            j = j + 1;
        }
        out.push(rule);
        i = i + 1;
    }
    Ok(out)
}

/// Reads transformations.
pub fn read_transformations(json: &Json) -> (r: Result<Transformations, EngineError>)
    ensures
        match r {
            Ok(t) => reads_transformations(*json, t),
            Err(e) => e@ == Fault::ParseError && forall|t: Transformations|
                !reads_transformations(*json, t),
        },
{
    let entries = match object_fields(json, "GROUP", "APPLY", "APPLY") {
        Some(entries) => entries,
        None => {
            return Err(refusal("Unknown or repeated key in TRANSFORMATIONS"));
        },
    };
    let group = match member(entries, "GROUP") {
        Some(g) => match read_texts(g) {
            Ok(group) => group,
            Err(e) => {
                return Err(e);
            },
        },
        None => {
            return Err(refusal("Missing GROUP"));
        },
    };
    let apply = match member(entries, "APPLY") {
        Some(a) => match read_rules(a) {
            Ok(apply) => apply,
            Err(e) => {
                return Err(e);
            },
        },
        None => {
            return Err(refusal("Missing APPLY"));
        },
    };
    Ok(Transformations { group, apply })
}

/// Reads a query.
pub fn read_query(json: &Json) -> (r: Result<Query, EngineError>)
    ensures
        match r {
            Ok(query) => reads_query(*json, query),
            Err(e) => e@ == Fault::ParseError && forall|query: Query| !reads_query(*json, query),
        },
{
    let entries = match object_fields(json, "WHERE", "OPTIONS", "TRANSFORMATIONS") {
        Some(entries) => entries,
        None => {
            return Err(refusal("Unknown or repeated key in the query"));
        },
    };
    let filter = match member(entries, "WHERE") {
        Some(w) => match read_filter(w) {
            Ok(filter) => filter,
            Err(e) => {
                return Err(e);
            },
        },
        None => Filter::EMPTY {  },
    };
    let options = match member(entries, "OPTIONS") {
        Some(o) => match read_options(o) {
            Ok(options) => options,
            Err(e) => {
                return Err(e);
            },
        },
        None => {
            return Err(refusal("Missing OPTIONS"));
        },
    };
    let transformations = match member(entries, "TRANSFORMATIONS") {
        Some(t) => match read_transformations(t) {
            Ok(transformations) => Some(transformations),
            Err(e) => {
                return Err(e);
            },
        },
        None => None,
    };
    Ok(Query { filter, options, transformations })
}

} // verus!
