use campus_query::dataset::Section;
use campus_query::errors::EngineError;
use campus_query::filter::wildcard_match;
use campus_query::number::Num;
use campus_query::query::{execute_query, Filter, Options, Order, Query, Transformations};
use campus_query::types::{Dataset, KVPair, Row, Value};

fn num(x: f32) -> Num {
    Num::from_bits(x.to_bits()).unwrap()
}

fn text(s: &str) -> String {
    s.to_string()
}

fn section(dept: &str, avg: f32) -> Section {
    Section {
        uuid: text("1"),
        id: text("310"),
        title: text("title"),
        instructor: text("someone"),
        dept: text(dept),
        year: num(2015.0),
        avg: num(avg),
        pass: num(10.0),
        fail: num(1.0),
        audit: num(0.0),
    }
}

fn labelled(uuid: &str, dept: &str, avg: f32) -> Section {
    let mut s = section(dept, avg);
    s.uuid = text(uuid);
    s
}

fn row(entries: &[(&str, Value)]) -> Row {
    let mut r = Row::new();
    for (k, v) in entries {
        r.insert(text(k), v.clone());
    }
    r
}

fn n(x: f32) -> Value {
    Value::Num(num(x))
}

fn s(x: &str) -> Value {
    Value::Str(text(x))
}

fn columns(names: &[&str]) -> Vec<String> {
    names.iter().map(|c| text(c)).collect()
}

fn compare(kind: &str, column: &str, value: f32) -> Filter {
    let pair = KVPair { key: text(column), value: num(value) };
    match kind {
        "LT" => Filter::LT { lt: pair },
        "GT" => Filter::GT { gt: pair },
        _ => Filter::EQ { eq: pair },
    }
}

fn is(column: &str, pattern: &str) -> Filter {
    Filter::IS { is: KVPair { key: text(column), value: text(pattern) } }
}

fn plain(filter: Filter, cols: &[&str], order: Option<Order>) -> Query {
    Query { filter, options: Options { columns: columns(cols), order }, transformations: None }
}

fn rule(out: &str, function: &str, column: &str) -> KVPair<KVPair<String>> {
    KVPair { key: text(out), value: KVPair { key: text(function), value: text(column) } }
}

fn depts(rows: &[Row]) -> Vec<String> {
    rows.iter()
        .map(|r| match r.get("sections_dept") {
            Some(Value::Str(d)) => d.clone(),
            _ => panic!("no dept"),
        })
        .collect()
}

fn uuids(rows: &[Row]) -> Vec<String> {
    rows.iter()
        .map(|r| match r.get("sections_uuid") {
            Some(Value::Str(d)) => d.clone(),
            _ => panic!("no uuid"),
        })
        .collect()
}

#[test]
fn greater_than_keeps_the_higher_average() {
    let data = vec![section("cpsc", 98.0), section("math", 90.0)];
    let query = plain(
        compare("GT", "sections_avg", 95.0),
        &["sections_dept", "sections_avg"],
        Some(Order::ONE(text("sections_avg"))),
    );
    let result = execute_query(&query, &data).unwrap();
    assert_eq!(result, vec![row(&[("sections_dept", s("cpsc")), ("sections_avg", n(98.0))])]);
}

#[test]
fn equality_has_a_tolerance() {
    let data = vec![section("cpsc", 98.0), section("math", 90.0), section("cpsc", 95.0)];
    let query = plain(compare("EQ", "sections_avg", 95.0), &["sections_dept", "sections_avg"], None);
    let result = execute_query(&query, &data).unwrap();
    assert_eq!(result, vec![row(&[("sections_dept", s("cpsc")), ("sections_avg", n(95.0))])]);
    let close = vec![section("a", 95.00005), section("b", 95.0002), section("c", 94.99995)];
    let result = execute_query(&query, &close).unwrap();
    assert_eq!(depts(&result), vec!["a", "c"]);
}

#[test]
fn less_than_and_the_empty_filter() {
    let data = vec![section("cpsc", 98.0), section("math", 90.0), section("biol", -1.5)];
    let query = plain(compare("LT", "sections_avg", 90.0), &["sections_dept"], None);
    assert_eq!(depts(&execute_query(&query, &data).unwrap()), vec!["biol"]);
    let all = plain(Filter::EMPTY {}, &["sections_dept"], None);
    assert_eq!(depts(&execute_query(&all, &data).unwrap()), vec!["cpsc", "math", "biol"]);
    let none: Vec<Section> = Vec::new();
    assert_eq!(execute_query(&all, &none).unwrap(), Vec::<Row>::new());
}

#[test]
fn patterns_with_wildcards_at_the_ends() {
    let data = vec![section("adhe", 1.0), section("anth", 2.0), section("biol", 3.0)];
    let run = |p: &str| execute_query(&plain(is("sections_dept", p), &["sections_dept"], None), &data);
    assert_eq!(depts(&run("a*").unwrap()), vec!["adhe", "anth"]);
    assert_eq!(depts(&run("*l").unwrap()), vec!["biol"]);
    assert_eq!(depts(&run("*d*").unwrap()), vec!["adhe"]);
    assert_eq!(depts(&run("*").unwrap()), vec!["adhe", "anth", "biol"]);
    assert_eq!(depts(&run("**").unwrap()), vec!["adhe", "anth", "biol"]);
    assert_eq!(depts(&run("anth").unwrap()), vec!["anth"]);
    assert_eq!(depts(&run("ant").unwrap()), Vec::<String>::new());
    assert_eq!(depts(&run("").unwrap()), Vec::<String>::new());
    assert_eq!(depts(&run("a.*").unwrap()), Vec::<String>::new());
    assert_eq!(run("a*e"), Err(EngineError::InvalidPattern(text("a*e"))));
    assert_eq!(run("*a*e*"), Err(EngineError::InvalidPattern(text("*a*e*"))));
    assert_eq!(run("***"), Err(EngineError::InvalidPattern(text("***"))));
}

#[test]
fn wildcard_matching_alone() {
    assert_eq!(wildcard_match("a*", "adhe"), Ok(true));
    assert_eq!(wildcard_match("a*", "biol"), Ok(false));
    assert_eq!(wildcard_match("*he", "adhe"), Ok(true));
    assert_eq!(wildcard_match("*he", "he"), Ok(true));
    assert_eq!(wildcard_match("*he", "e"), Ok(false));
    assert_eq!(wildcard_match("*dh*", "adhe"), Ok(true));
    assert_eq!(wildcard_match("*hd*", "adhe"), Ok(false));
    assert_eq!(wildcard_match("adhe", "adhe"), Ok(true));
    assert_eq!(wildcard_match("adhe", "adhes"), Ok(false));
    assert_eq!(wildcard_match("", ""), Ok(true));
    assert_eq!(wildcard_match("*", ""), Ok(true));
    assert_eq!(wildcard_match("caf\u{e9}*", "caf\u{e9}s"), Ok(true));
    assert_eq!(wildcard_match("a*b", "ab"), Err(EngineError::InvalidPattern(text("a*b"))));
}

#[test]
fn errors_of_leaves() {
    let data = vec![section("cpsc", 98.0)];
    let run = |f: Filter| execute_query(&plain(f, &["sections_dept"], None), &data);
    assert_eq!(
        run(compare("GT", "sections_dept", 1.0)),
        Err(EngineError::TypeError { operation: "gt", field: text("sections_dept") })
    );
    assert_eq!(
        run(compare("LT", "sections_dept", 1.0)),
        Err(EngineError::TypeError { operation: "lt", field: text("sections_dept") })
    );
    assert_eq!(
        run(compare("EQ", "sections_dept", 1.0)),
        Err(EngineError::TypeError { operation: "eq", field: text("sections_dept") })
    );
    assert_eq!(
        run(is("sections_avg", "a")),
        Err(EngineError::TypeError { operation: "is", field: text("sections_avg") })
    );
    assert_eq!(
        run(compare("GT", "courses_avg", 1.0)),
        Err(EngineError::FieldNotFound(text("courses_avg")))
    );
    assert_eq!(run(is("rooms_name", "a")), Err(EngineError::FieldNotFound(text("rooms_name"))));
    assert_eq!(run(is("sections_avg", "a*b")).is_err(), true);
}

#[test]
fn the_first_error_wins_and_or_does_not_swallow_it() {
    let data = vec![section("cpsc", 98.0)];
    let run = |f: Filter| execute_query(&plain(f, &["sections_dept"], None), &data);
    let good = || compare("GT", "sections_avg", 1.0);
    let bad = || compare("GT", "nothing", 1.0);
    let worse = || is("sections_avg", "x");
    assert_eq!(
        run(Filter::OR { or: vec![good(), bad()] }),
        Err(EngineError::FieldNotFound(text("nothing")))
    );
    assert_eq!(
        run(Filter::AND { and: vec![compare("LT", "sections_avg", 1.0), bad(), worse()] }),
        Err(EngineError::FieldNotFound(text("nothing")))
    );
    assert_eq!(
        run(Filter::AND { and: vec![worse(), bad()] }),
        Err(EngineError::TypeError { operation: "is", field: text("sections_avg") })
    );
    assert_eq!(
        run(Filter::NOT { not: Box::new(bad()) }),
        Err(EngineError::FieldNotFound(text("nothing")))
    );
    assert_eq!(depts(&run(Filter::NOT { not: Box::new(good()) }).unwrap()), Vec::<String>::new());
    assert_eq!(depts(&run(Filter::AND { and: vec![] }).unwrap()), vec!["cpsc"]);
    assert_eq!(depts(&run(Filter::OR { or: vec![] }).unwrap()), Vec::<String>::new());
}

#[test]
fn a_filter_twice_is_the_filter() {
    let data = vec![section("adhe", 98.0), section("math", 90.0), section("anth", 70.0)];
    let base = || compare("GT", "sections_avg", 80.0);
    let run = |f: Filter| execute_query(&plain(f, &["sections_dept"], None), &data).unwrap();
    let once = run(base());
    assert_eq!(depts(&once), vec!["adhe", "math"]);
    assert_eq!(run(Filter::AND { and: vec![base(), base()] }), once);
    assert_eq!(run(Filter::OR { or: vec![base(), base()] }), once);
    assert_eq!(run(Filter::NOT { not: Box::new(Filter::NOT { not: Box::new(base()) }) }), once);
}

#[test]
fn grouping_with_an_average() {
    let data = vec![section("A", 90.0), section("A", 70.0), section("B", 80.0)];
    let query = Query {
        filter: Filter::EMPTY {},
        options: Options {
            columns: columns(&["sections_dept", "overall"]),
            order: Some(Order::ONE(text("sections_dept"))),
        },
        transformations: Some(Transformations {
            group: columns(&["sections_dept"]),
            apply: vec![rule("overall", "AVG", "sections_avg")],
        }),
    };
    let result = execute_query(&query, &data).unwrap();
    assert_eq!(
        result,
        vec![
            row(&[("sections_dept", s("A")), ("overall", n(80.0))]),
            row(&[("sections_dept", s("B")), ("overall", n(80.0))]),
        ]
    );
}

#[test]
fn every_aggregate() {
    let data = vec![
        section("B", 80.25),
        section("A", 90.5),
        section("A", 70.125),
        section("A", 70.125),
        section("B", -3.0),
    ];
    let query = Query {
        filter: Filter::EMPTY {},
        options: Options { columns: columns(&["sections_dept"]), order: None },
        transformations: Some(Transformations {
            group: columns(&["sections_dept"]),
            apply: vec![
                rule("count", "COUNT", "sections_title"),
                rule("sum", "SUM", "sections_avg"),
                rule("avg", "AVG", "sections_avg"),
                rule("max", "MAX", "sections_avg"),
                rule("min", "MIN", "sections_avg"),
            ],
        }),
    };
    let result = execute_query(&query, &data).unwrap();
    let cents = |x: f32| n((x * 100.0).round() / 100.0);
    let avg_a = 0.0f32 + 90.5f32 / 3.0 + 70.125f32 / 3.0 + 70.125f32 / 3.0;
    let avg_b = 0.0f32 + 80.25f32 / 2.0 + -3.0f32 / 2.0;
    assert_eq!(
        result,
        vec![
            row(&[
                ("sections_dept", s("B")),
                ("count", n(2.0)),
                ("sum", cents(77.25)),
                ("avg", cents(avg_b)),
                ("max", cents(80.25)),
                ("min", n(-3.0)),
            ]),
            row(&[
                ("sections_dept", s("A")),
                ("count", n(3.0)),
                ("sum", cents(90.5 + 70.125 + 70.125)),
                ("avg", cents(avg_a)),
                ("max", cents(90.5)),
                ("min", cents(70.125)),
            ]),
        ]
    );
    assert_eq!(result[1].get("sum"), Some(&n(230.75)));
    assert_eq!(result[1].get("avg"), Some(&n(76.92)));
    assert_eq!(result[1].get("min"), Some(&n(70.13)));
}

#[test]
fn groups_come_in_the_order_of_their_first_rows() {
    let data = vec![
        labelled("1", "c", 1.0),
        labelled("2", "a", 1.0),
        labelled("3", "c", 2.0),
        labelled("4", "b", 1.0),
        labelled("5", "a", 0.0),
        labelled("6", "a", -0.0),
    ];
    let query = Query {
        filter: Filter::EMPTY {},
        options: Options { columns: columns(&["sections_dept", "n"]), order: None },
        transformations: Some(Transformations {
            group: columns(&["sections_dept"]),
            apply: vec![rule("n", "COUNT", "sections_uuid")],
        }),
    };
    let result = execute_query(&query, &data).unwrap();
    assert_eq!(
        result,
        vec![
            row(&[("sections_dept", s("c")), ("n", n(2.0))]),
            row(&[("sections_dept", s("a")), ("n", n(3.0))]),
            row(&[("sections_dept", s("b")), ("n", n(1.0))]),
        ]
    );
    let by_both = Query {
        filter: Filter::EMPTY {},
        options: Options { columns: columns(&["n"]), order: None },
        transformations: Some(Transformations {
            group: columns(&["sections_dept", "sections_avg"]),
            apply: vec![rule("n", "COUNT", "sections_uuid")],
        }),
    };
    let result = execute_query(&by_both, &data).unwrap();
    let counts: Vec<Value> = result.iter().map(|r| r.get("n").unwrap().clone()).collect();
    assert_eq!(counts, vec![n(1.0), n(1.0), n(1.0), n(1.0), n(2.0)]);
}

#[test]
fn rows_have_the_columns_that_the_query_names() {
    let data = vec![section("A", 90.0), section("B", 80.0)];
    let narrow = plain(Filter::EMPTY {}, &["sections_avg", "sections_dept", "sections_avg"], None);
    for r in execute_query(&narrow, &data).unwrap() {
        let keys: Vec<&str> = r.pairs().iter().map(|p| p.key.as_str()).collect();
        assert_eq!(keys, vec!["sections_avg", "sections_dept"]);
    }
    let grouped = Query {
        filter: Filter::EMPTY {},
        options: Options { columns: columns(&["top"]), order: None },
        transformations: Some(Transformations {
            group: columns(&["sections_dept", "sections_id"]),
            apply: vec![rule("top", "MAX", "sections_avg"), rule("low", "MIN", "sections_avg")],
        }),
    };
    for r in execute_query(&grouped, &data).unwrap() {
        let keys: Vec<&str> = r.pairs().iter().map(|p| p.key.as_str()).collect();
        assert_eq!(keys, vec!["low", "sections_dept", "sections_id", "top"]);
    }
}

#[test]
fn a_later_rule_replaces_an_earlier_one_of_the_same_name() {
    let data = vec![section("A", 90.0), section("A", 70.0)];
    let query = Query {
        filter: Filter::EMPTY {},
        options: Options { columns: columns(&["x"]), order: None },
        transformations: Some(Transformations {
            group: columns(&["sections_dept"]),
            apply: vec![rule("x", "MAX", "sections_avg"), rule("x", "MIN", "sections_avg")],
        }),
    };
    let result = execute_query(&query, &data).unwrap();
    assert_eq!(result, vec![row(&[("sections_dept", s("A")), ("x", n(70.0))])]);
}

#[test]
fn errors_of_transformations() {
    let data = vec![section("A", 90.0), section("A", 70.0)];
    let run = |group: &[&str], apply: Vec<KVPair<KVPair<String>>>, cols: &[&str]| {
        execute_query(
            &Query {
                filter: Filter::EMPTY {},
                options: Options { columns: columns(cols), order: None },
                transformations: Some(Transformations { group: columns(group), apply }),
            },
            &data,
        )
    };
    assert_eq!(
        run(&["sections_dept", "nothing", "nil"], vec![], &[]),
        Err(EngineError::FieldNotFound(text("nothing")))
    );
    assert_eq!(
        run(&["sections_dept"], vec![rule("x", "SUM", "sections_title")], &["x"]),
        Err(EngineError::TypeError { operation: "sum", field: text("sections_title") })
    );
    assert_eq!(
        run(&["sections_dept"], vec![rule("x", "AVG", "sections_title")], &["x"]),
        Err(EngineError::TypeError { operation: "avg", field: text("sections_title") })
    );
    assert_eq!(
        run(&["sections_dept"], vec![rule("x", "MAX", "sections_title")], &["x"]),
        Err(EngineError::TypeError { operation: "max", field: text("sections_title") })
    );
    assert_eq!(
        run(&["sections_dept"], vec![rule("x", "MIN", "sections_title")], &["x"]),
        Err(EngineError::TypeError { operation: "min", field: text("sections_title") })
    );
    assert_eq!(
        run(&["sections_dept"], vec![rule("x", "MIN", "nothing")], &["x"]),
        Err(EngineError::FieldNotFound(text("nothing")))
    );
    assert_eq!(
        run(&["sections_dept"], vec![rule("x", "COUNT", "nothing")], &["x"]),
        Ok(vec![row(&[("sections_dept", s("A")), ("x", n(2.0))])])
    );
    assert!(matches!(
        run(&["sections_dept"], vec![rule("x", "MEDIAN", "sections_avg")], &["x"]),
        Err(EngineError::ParseError(_))
    ));
    assert_eq!(
        run(&["sections_dept"], vec![rule("x", "MAX", "sections_avg")], &["x", "sections_avg"]),
        Err(EngineError::FieldNotFound(text("sections_avg")))
    );
    let huge = vec![section("A", 3.0e38), section("A", 3.0e38)];
    let overflow = execute_query(
        &Query {
            filter: Filter::EMPTY {},
            options: Options { columns: columns(&["x"]), order: None },
            transformations: Some(Transformations {
                group: columns(&["sections_dept"]),
                apply: vec![rule("x", "SUM", "sections_avg")],
            }),
        },
        &huge,
    );
    assert_eq!(
        overflow,
        Err(EngineError::TypeError { operation: "sum", field: text("sections_avg") })
    );
}

#[test]
fn unknown_columns_of_a_plain_query() {
    let data = vec![section("A", 90.0)];
    let query = plain(Filter::EMPTY {}, &["sections_dept", "overall", "more"], None);
    assert_eq!(execute_query(&query, &data), Err(EngineError::FieldNotFound(text("overall"))));
    let none: Vec<Section> = Vec::new();
    assert_eq!(execute_query(&query, &none), Ok(vec![]));
}

#[test]
fn order_by_several_keys_down() {
    let data = vec![
        labelled("1", "b", 90.0),
        labelled("2", "a", 95.0),
        labelled("3", "c", 90.0),
        labelled("4", "a", 90.0),
        labelled("5", "z", 70.0),
    ];
    let order = |dir: &str, keys: &[&str]| {
        plain(
            Filter::EMPTY {},
            &["sections_uuid", "sections_dept", "sections_avg"],
            Some(Order::MANY { dir: text(dir), keys: columns(keys) }),
        )
    };
    let down = execute_query(&order("DOWN", &["sections_avg", "sections_dept"]), &data).unwrap();
    assert_eq!(uuids(&down), vec!["2", "3", "1", "4", "5"]);
    let up = execute_query(&order("UP", &["sections_avg", "sections_dept"]), &data).unwrap();
    assert_eq!(uuids(&up), vec!["5", "4", "1", "3", "2"]);
    let mixed = execute_query(&order("UP", &["sections_dept", "sections_avg"]), &data).unwrap();
    assert_eq!(uuids(&mixed), vec!["4", "2", "1", "3", "5"]);
    let nothing = execute_query(&order("UP", &[]), &data).unwrap();
    assert_eq!(uuids(&nothing), vec!["1", "2", "3", "4", "5"]);
}

#[test]
fn ordering_is_stable() {
    let data = vec![
        labelled("1", "b", 90.0),
        labelled("2", "a", 90.0),
        labelled("3", "b", 80.0),
        labelled("4", "a", 90.0),
        labelled("5", "b", 90.0),
        labelled("6", "a", 80.0),
    ];
    let order = |o: Order| {
        plain(Filter::EMPTY {}, &["sections_uuid", "sections_dept", "sections_avg"], Some(o))
    };
    let one = execute_query(&order(Order::ONE(text("sections_avg"))), &data).unwrap();
    assert_eq!(uuids(&one), vec!["3", "6", "1", "2", "4", "5"]);
    let up = execute_query(
        &order(Order::MANY { dir: text("UP"), keys: columns(&["sections_dept"]) }),
        &data,
    )
    .unwrap();
    assert_eq!(uuids(&up), vec!["2", "4", "6", "1", "3", "5"]);
    let down = execute_query(
        &order(Order::MANY { dir: text("DOWN"), keys: columns(&["sections_avg"]) }),
        &data,
    )
    .unwrap();
    assert_eq!(uuids(&down), vec!["1", "2", "4", "5", "3", "6"]);
    let both = execute_query(
        &order(Order::MANY { dir: text("DOWN"), keys: columns(&["sections_avg", "sections_dept"]) }),
        &data,
    )
    .unwrap();
    assert_eq!(uuids(&both), vec!["1", "5", "2", "4", "3", "6"]);
}

#[test]
fn errors_of_ordering() {
    let data = vec![section("A", 90.0), section("B", 80.0)];
    let run = |cols: &[&str], o: Order| execute_query(&plain(Filter::EMPTY {}, cols, Some(o)), &data);
    assert_eq!(
        run(&["sections_dept"], Order::ONE(text("sections_avg"))),
        Err(EngineError::InvalidOrder(text("sections_avg")))
    );
    assert_eq!(
        run(&["sections_dept"], Order::MANY { dir: text("SIDEWAYS"), keys: columns(&["nothing"]) }),
        Err(EngineError::InvalidOrder(text("SIDEWAYS")))
    );
    assert_eq!(
        run(&["sections_dept"], Order::MANY { dir: text("up"), keys: vec![] }),
        Err(EngineError::InvalidOrder(text("up")))
    );
    assert_eq!(
        run(
            &["sections_dept"],
            Order::MANY { dir: text("UP"), keys: columns(&["sections_dept", "b", "a"]) }
        ),
        Err(EngineError::InvalidOrder(text("b")))
    );
    let none: Vec<Section> = Vec::new();
    assert_eq!(
        execute_query(
            &plain(Filter::EMPTY {}, &["sections_dept"], Some(Order::ONE(text("nothing")))),
            &none
        ),
        Ok(vec![])
    );
}

struct Loose {
    key: Value,
}

impl Dataset for Loose {
    fn get(&self, field_name: &str) -> Result<Value, String> {
        if field_name == "loose_key" {
            Ok(self.key.clone())
        } else {
            Err(format!("Field '{}' not found. Fields must start with prefix 'loose_'", field_name))
        }
    }

    fn get_all(&self) -> &'static [&'static str] {
        &["loose_key"]
    }
}

#[test]
fn a_column_of_numbers_and_strings_cannot_be_ordered() {
    let data = vec![Loose { key: n(1.0) }, Loose { key: s("one") }];
    let query = plain(Filter::EMPTY {}, &["loose_key"], Some(Order::ONE(text("loose_key"))));
    assert_eq!(
        execute_query(&query, &data),
        Err(EngineError::TypeError { operation: "order", field: text("loose_key") })
    );
    let alone = vec![Loose { key: s("one") }];
    assert_eq!(execute_query(&query, &alone), Ok(vec![row(&[("loose_key", s("one"))])]));
}

struct Copy {
    inner: Section,
}

impl Dataset for Copy {
    fn get(&self, field_name: &str) -> Result<Value, String> {
        self.inner.get(field_name)
    }

    fn get_all(&self) -> &'static [&'static str] {
        self.inner.get_all()
    }
}

#[test]
fn the_answer_depends_on_the_capability_only() {
    let make = || vec![section("b", 90.0), section("a", 95.0), section("c", 90.0)];
    let wrapped: Vec<Copy> = make().into_iter().map(|inner| Copy { inner }).collect();
    let queries = vec![
        plain(
            compare("GT", "sections_avg", 80.0),
            &["sections_dept", "sections_avg"],
            Some(Order::ONE(text("sections_dept"))),
        ),
        plain(compare("GT", "courses_avg", 80.0), &["sections_dept"], None),
        Query {
            filter: Filter::EMPTY {},
            options: Options { columns: columns(&["m"]), order: None },
            transformations: Some(Transformations {
                group: columns(&["sections_avg"]),
                apply: vec![rule("m", "COUNT", "sections_dept")],
            }),
        },
    ];
    for q in &queries {
        assert_eq!(execute_query(q, &make()), execute_query(q, &wrapped));
        assert_eq!(execute_query(q, &make()), execute_query(q, &make()));
    }
}

#[test]
fn more_than_the_cap_is_too_large() {
    let mut data: Vec<Section> = (0..5000).map(|i| section("cpsc", i as f32)).collect();
    let query = plain(compare("GT", "sections_avg", -1.0), &["sections_avg"], None);
    assert_eq!(execute_query(&query, &data).unwrap().len(), 5000);
    data.push(section("cpsc", 1.0));
    assert_eq!(execute_query(&query, &data), Err(EngineError::ResultToLargeError));
    let few = plain(compare("GT", "sections_avg", 4000.0), &["sections_avg"], None);
    assert_eq!(execute_query(&few, &data).unwrap().len(), 999);
}

#[test]
fn an_error_after_the_cap_is_not_seen_and_one_before_it_is() {
    let mut data: Vec<Loose> = (0..5001).map(|i| Loose { key: n(i as f32) }).collect();
    data.push(Loose { key: s("late") });
    let query = plain(compare("GT", "loose_key", -1.0), &["loose_key"], None);
    assert_eq!(execute_query(&query, &data), Err(EngineError::ResultToLargeError));
    data.insert(5000, Loose { key: s("early") });
    assert_eq!(
        execute_query(&query, &data),
        Err(EngineError::TypeError { operation: "gt", field: text("loose_key") })
    );
}

#[test]
fn grouping_many_rows_stays_within_the_cap() {
    let data: Vec<Section> = (0..5000).map(|i| section("cpsc", (i % 7) as f32)).collect();
    let query = Query {
        filter: Filter::EMPTY {},
        options: Options {
            columns: columns(&["sections_avg", "n"]),
            order: Some(Order::MANY { dir: text("DOWN"), keys: columns(&["sections_avg"]) }),
        },
        transformations: Some(Transformations {
            group: columns(&["sections_avg"]),
            apply: vec![rule("n", "COUNT", "sections_dept")],
        }),
    };
    let result = execute_query(&query, &data).unwrap();
    assert_eq!(result.len(), 7);
    assert_eq!(result[0], row(&[("sections_avg", n(6.0)), ("n", n(714.0))]));
    assert_eq!(result[6], row(&[("sections_avg", n(0.0)), ("n", n(715.0))]));
}

#[test]
fn a_response_holds_rows_or_a_message() {
    use_response();
}

fn use_response() {
    let data = vec![section("cpsc", 98.0), section("math", 90.0)];
    let ok = campus_query::types::QueryResult::from_outcome(execute_query(
        &plain(Filter::EMPTY {}, &["sections_dept"], None),
        &data,
    ));
    assert!(
        matches!(ok, campus_query::types::QueryResult::OK { result } if depts(&result) == vec!["cpsc", "math"])
    );
    let bad = campus_query::types::QueryResult::from_outcome(execute_query(
        &plain(Filter::EMPTY {}, &["nothing"], None),
        &data,
    ));
    assert!(
        matches!(bad, campus_query::types::QueryResult::ERROR { error } if error == "Invalid field nothing")
    );
}

#[test]
fn a_case_accepts_what_it_expects() {
    let case = |valid: bool, expected: Vec<Row>| campus_query::testing::Test {
        title: text("case"),
        query: plain(Filter::EMPTY {}, &["sections_dept"], None),
        is_query_valid: valid,
        result: expected,
    };
    let a = row(&[("sections_dept", s("a"))]);
    let b = row(&[("sections_dept", s("b"))]);
    let c = row(&[("sections_dept", s("c"))]);
    let actual = Ok(vec![b.duplicate(), a.duplicate()]);
    assert!(case(true, vec![a.duplicate(), b.duplicate()]).accepts(&actual));
    assert!(case(true, vec![a.duplicate()]).accepts(&actual));
    assert!(case(true, vec![]).accepts(&actual));
    assert!(!case(true, vec![a.duplicate(), c.duplicate()]).accepts(&actual));
    assert!(!case(false, vec![]).accepts(&actual));
    let failed = Err(EngineError::ResultToLargeError);
    assert!(case(false, vec![a.duplicate()]).accepts(&failed));
    assert!(!case(true, vec![]).accepts(&failed));
}

#[test]
fn ordering_many_rows_the_wrong_way_round() {
    let data: Vec<Section> =
        (0..2500).map(|i| labelled(&format!("{:05}", 2499 - i), "cpsc", (2499 - i) as f32)).collect();
    let by_text = plain(
        Filter::EMPTY {},
        &["sections_uuid", "sections_avg"],
        Some(Order::ONE(text("sections_uuid"))),
    );
    let result = execute_query(&by_text, &data).unwrap();
    assert_eq!(result.len(), 2500);
    assert_eq!(uuids(&result[..3]), vec!["00000", "00001", "00002"]);
    assert_eq!(uuids(&result[2498..]), vec!["02498", "02499"]);
    let by_number = plain(
        Filter::EMPTY {},
        &["sections_uuid", "sections_avg"],
        Some(Order::MANY { dir: text("UP"), keys: columns(&["sections_avg", "sections_uuid"]) }),
    );
    let result = execute_query(&by_number, &data).unwrap();
    assert_eq!(uuids(&result[..2]), vec!["00000", "00001"]);
}
