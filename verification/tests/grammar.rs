use campus_query::dataset::Section;
use campus_query::errors::EngineError;
use campus_query::grammar::{read_filter, read_query};
use campus_query::json::Json;
use campus_query::number::Num;
use campus_query::query::{execute_query, query_courses, Filter, Order, Query};
use campus_query::types::QueryResult;
use campus_query::types::{KVPair, Row, Value};

fn num(x: f32) -> Num {
    Num::from_bits(x.to_bits()).unwrap()
}

fn to_json(value: &serde_json::Value) -> Json {
    match value {
        serde_json::Value::Null => Json::Null,
        serde_json::Value::Bool(b) => Json::Bool(*b),
        serde_json::Value::Number(n) => Json::Number(num(n.as_f64().unwrap() as f32)),
        serde_json::Value::String(s) => Json::Text(s.clone()),
        serde_json::Value::Array(items) => Json::Array(items.iter().map(to_json).collect()),
        serde_json::Value::Object(entries) => Json::Object(
            entries.iter().map(|(k, v)| KVPair { key: k.clone(), value: to_json(v) }).collect(),
        ),
    }
}

fn from_str(json: &str) -> Result<Query, String> {
    let value: serde_json::Value = serde_json::from_str(json).map_err(|e| e.to_string())?;
    read_query(&to_json(&value)).map_err(|e| e.message())
}

fn filter_of(json: &str) -> Result<Filter, EngineError> {
    let value: serde_json::Value = serde_json::from_str(json).unwrap();
    read_filter(&to_json(&value))
}

fn section(dept: &str, id: &str, avg: f32) -> Section {
    Section {
        uuid: "1".to_string(),
        id: id.to_string(),
        title: "title".to_string(),
        instructor: "someone".to_string(),
        dept: dept.to_string(),
        year: num(2015.0),
        avg: num(avg),
        pass: num(10.0),
        fail: num(1.0),
        audit: num(0.0),
    }
}

#[test]
fn test_simple() {
    let json = r#"{
    "WHERE":{
       "GT":{
          "courses_avg":97
       }
    },
    "OPTIONS":{
       "COLUMNS":[
          "courses_dept",
          "courses_avg"
       ],
       "ORDER":"courses_avg"
    }
} "#;
    let deserialized: Query = from_str(&json).unwrap();
    let expected = KVPair { key: "courses_avg".to_string(), value: num(97f32) };
    let actual = match deserialized.filter {
        Filter::GT { gt: ref g } => g,
        _ => panic!("not gt"),
    };
    assert_eq!(*actual, expected);

    let expected = ["courses_dept".to_string(), "courses_avg".to_string()];
    let actual = deserialized.options.columns.as_slice();
    assert_eq!(actual, expected.as_slice());

    assert!(matches!(deserialized.options.order, Some(Order::ONE(ref c)) if c == "courses_avg"));
    assert!(deserialized.transformations.is_none());

    println!("{:#?}", deserialized);

    let dataset = vec![section("cpsc", "310", 98.0)];
    let result = execute_query(&deserialized, &dataset);
    println!("result {:#?}", result);
    assert_eq!(result, Err(EngineError::FieldNotFound("courses_avg".to_string())));
}

#[test]
fn test_complex() {
    let json = r#"{
    "WHERE":{
       "OR":[
          {
             "AND":[
                {
                   "GT":{
                      "courses_avg":90
                   }
                },
                {
                   "IS":{
                      "courses_dept":"adhe"
                   }
                }
             ]
          },
          {
             "EQ":{
                "courses_avg":95
             }
          }
       ]
    },
    "OPTIONS":{
       "COLUMNS":[
          "courses_dept",
          "courses_id",
          "courses_avg"
       ],
       "ORDER":"courses_avg"
    }
} "#;
    let query: Query = from_str(&json).unwrap();
    assert_eq!(
        format!("{:?}", query),
        format!(
            "Query {{ filter: OR {{ or: [AND {{ and: [GT {{ gt: KVPair {{ key: \"courses_avg\", value: {:?} }} }}, IS {{ is: KVPair {{ key: \"courses_dept\", value: \"adhe\" }} }}] }}, EQ {{ eq: KVPair {{ key: \"courses_avg\", value: {:?} }} }}] }}, options: Options {{ columns: [\"courses_dept\", \"courses_id\", \"courses_avg\"], order: Some(ONE(\"courses_avg\")) }}, transformations: None }}",
            num(90.0),
            num(95.0)
        )
    );

    let dataset = vec![section("adhe", "329", 92.0)];
    let result = execute_query(&query, &dataset);
    println!("{:#?}", result);
    assert_eq!(result, Err(EngineError::FieldNotFound("courses_avg".to_string())));
}

#[test]
#[should_panic]
fn test_no_options() {
    let json = r#"{
    "WHERE":{
       "GT":{
          "courses_avg":97
       }
    }
} "#;
    from_str(&json).unwrap();
}

#[test]
#[should_panic]
fn test_cmp_string() {
    let json = r#"{
    "WHERE":{
       "GT":{
          "courses_avg": "adhe"
       }
    },
    "OPTIONS":{
       "COLUMNS":[
          "courses_dept",
          "courses_avg"
       ],
       "ORDER":"courses_avg"
    }
} "#;
    from_str(&json).unwrap();
}

#[test]
#[should_panic]
fn test_unknown_fields() {
    let json = r#"{
    "WHERE":{
       "GT":{
          "courses_avg": "adhe"
       }
    },
    "OPTIONS":{
       "COLUMNS":[
          "courses_dept",
          "courses_avg"
       ],
       "ORDER":"courses_avg"
    },
    "HAVING": "blank"
} "#;
    from_str(&json).unwrap();
}

#[test]
fn an_unknown_key_alone_makes_a_query_fail() {
    let good = r#"{"WHERE":{},"OPTIONS":{"COLUMNS":["sections_dept"]}}"#;
    assert!(from_str(good).is_ok());
    let bad = r#"{"WHERE":{},"OPTIONS":{"COLUMNS":["sections_dept"]},"HAVING":"blank"}"#;
    assert_eq!(from_str(bad).err(), Some("Invalid query: Unknown or repeated key in the query".to_string()));
    let nested = r#"{"OPTIONS":{"COLUMNS":["sections_dept"],"LIMIT":3}}"#;
    assert!(from_str(nested).is_err());
    let twice = Json::Object(vec![
        KVPair { key: "OPTIONS".to_string(), value: Json::Object(vec![]) },
        KVPair { key: "OPTIONS".to_string(), value: Json::Object(vec![]) },
    ]);
    assert!(matches!(read_query(&twice), Err(EngineError::ParseError(_))));
}

#[test]
fn where_may_be_missing() {
    let query = from_str(r#"{"OPTIONS":{"COLUMNS":["sections_dept"]}}"#).unwrap();
    assert!(matches!(query.filter, Filter::EMPTY {}));
    assert!(query.options.order.is_none());
    let data = vec![section("cpsc", "310", 98.0), section("math", "100", 50.0)];
    assert_eq!(execute_query(&query, &data).unwrap().len(), 2);
}

#[test]
fn filters_of_every_kind() {
    assert!(matches!(filter_of("{}"), Ok(Filter::EMPTY {})));
    assert!(matches!(filter_of(r#"{"NOT":{}}"#), Ok(Filter::NOT { .. })));
    assert!(
        matches!(filter_of(r#"{"AND":[{},{"LT":{"a":1.5}}]}"#), Ok(Filter::AND { and }) if and.len() == 2)
    );
    assert!(matches!(filter_of(r#"{"OR":[{}]}"#), Ok(Filter::OR { or }) if or.len() == 1));
    assert!(
        matches!(filter_of(r#"{"LT":{"a":1.5}}"#), Ok(Filter::LT { lt }) if lt.key == "a" && lt.value == num(1.5))
    );
    assert!(
        matches!(filter_of(r#"{"EQ":{"a":-2}}"#), Ok(Filter::EQ { eq }) if eq.key == "a" && eq.value == num(-2.0))
    );
    assert!(
        matches!(filter_of(r#"{"IS":{"a":"b*"}}"#), Ok(Filter::IS { is }) if is.key == "a" && is.value == "b*")
    );
}

#[test]
fn what_is_no_filter() {
    for bad in [
        r#"{"AND":[]}"#,
        r#"{"OR":[]}"#,
        r#"{"AND":{}}"#,
        r#"{"AND":[{},{"XOR":[]}]}"#,
        r#"{"NOT":[]}"#,
        r#"{"NOT":{"LT":{}}}"#,
        r#"{"LT":{"a":1,"b":2}}"#,
        r#"{"LT":{}}"#,
        r#"{"GT":{"a":"1"}}"#,
        r#"{"EQ":{"a":null}}"#,
        r#"{"IS":{"a":1}}"#,
        r#"{"IS":{"a":"x","b":"y"}}"#,
        r#"{"LT":{"a":1},"GT":{"a":0}}"#,
        r#"{"lt":{"a":1}}"#,
        r#"[]"#,
        r#""LT""#,
        r#"3"#,
        r#"null"#,
        r#"true"#,
    ] {
        assert!(matches!(filter_of(bad), Err(EngineError::ParseError(_))), "{bad}");
    }
}

#[test]
fn orders_of_both_kinds() {
    let one = from_str(r#"{"OPTIONS":{"COLUMNS":[],"ORDER":"a"}}"#).unwrap();
    assert!(matches!(one.options.order, Some(Order::ONE(c)) if c == "a"));
    let many =
        from_str(r#"{"OPTIONS":{"COLUMNS":[],"ORDER":{"dir":"DOWN","keys":["a","b"]}}}"#).unwrap();
    assert!(
        matches!(many.options.order, Some(Order::MANY { dir, keys }) if dir == "DOWN" && keys == vec!["a", "b"])
    );
    let odd = from_str(r#"{"OPTIONS":{"COLUMNS":[],"ORDER":{"dir":"LEFT","keys":[]}}}"#).unwrap();
    assert!(matches!(odd.options.order, Some(Order::MANY { dir, .. }) if dir == "LEFT"));
    for bad in [
        r#"{"OPTIONS":{"COLUMNS":[],"ORDER":{"dir":"UP"}}}"#,
        r#"{"OPTIONS":{"COLUMNS":[],"ORDER":{"keys":["a"]}}}"#,
        r#"{"OPTIONS":{"COLUMNS":[],"ORDER":{"dir":1,"keys":["a"]}}}"#,
        r#"{"OPTIONS":{"COLUMNS":[],"ORDER":{"dir":"UP","keys":"a"}}}"#,
        r#"{"OPTIONS":{"COLUMNS":[],"ORDER":{"dir":"UP","keys":["a"],"then":1}}}"#,
        r#"{"OPTIONS":{"COLUMNS":[],"ORDER":["a"]}}"#,
        r#"{"OPTIONS":{"COLUMNS":[],"ORDER":null}}"#,
        r#"{"OPTIONS":{"COLUMNS":"a"}}"#,
        r#"{"OPTIONS":{"COLUMNS":["a",1]}}"#,
        r#"{"OPTIONS":{"ORDER":"a"}}"#,
        r#"{"OPTIONS":[]}"#,
        r#"[]"#,
    ] {
        assert!(from_str(bad).is_err(), "{bad}");
    }
}

#[test]
fn transformations_and_their_rules() {
    let query = from_str(
        r#"{"OPTIONS":{"COLUMNS":["sections_dept","overall"],"ORDER":"sections_dept"},
            "TRANSFORMATIONS":{"GROUP":["sections_dept"],
                               "APPLY":[{"overall":{"AVG":"sections_avg"}},{"n":{"COUNT":"sections_id"}}]}}"#,
    )
    .unwrap();
    let t = query.transformations.as_ref().unwrap();
    assert_eq!(t.group, vec!["sections_dept"]);
    assert_eq!(t.apply.len(), 2);
    assert_eq!(
        t.apply[0],
        KVPair {
            key: "overall".to_string(),
            value: KVPair { key: "AVG".to_string(), value: "sections_avg".to_string() }
        }
    );
    let data =
        vec![section("A", "1", 90.0), section("A", "2", 70.0), section("B", "3", 80.0)];
    let result = execute_query(&query, &data).unwrap();
    let mut first = Row::new();
    first.insert("sections_dept".to_string(), Value::Str("A".to_string()));
    first.insert("overall".to_string(), Value::Num(num(80.0)));
    first.insert("n".to_string(), Value::Num(num(2.0)));
    let mut second = Row::new();
    second.insert("n".to_string(), Value::Num(num(1.0)));
    second.insert("overall".to_string(), Value::Num(num(80.0)));
    second.insert("sections_dept".to_string(), Value::Str("B".to_string()));
    assert_eq!(result, vec![first, second]);
    for bad in [
        r#"{"OPTIONS":{"COLUMNS":[]},"TRANSFORMATIONS":{"GROUP":["a"]}}"#,
        r#"{"OPTIONS":{"COLUMNS":[]},"TRANSFORMATIONS":{"APPLY":[]}}"#,
        r#"{"OPTIONS":{"COLUMNS":[]},"TRANSFORMATIONS":{"GROUP":"a","APPLY":[]}}"#,
        r#"{"OPTIONS":{"COLUMNS":[]},"TRANSFORMATIONS":{"GROUP":["a"],"APPLY":{}}}"#,
        r#"{"OPTIONS":{"COLUMNS":[]},"TRANSFORMATIONS":{"GROUP":["a"],"APPLY":[{}]}}"#,
        r#"{"OPTIONS":{"COLUMNS":[]},"TRANSFORMATIONS":{"GROUP":["a"],"APPLY":[{"x":{"MEDIAN":"a"}}]}}"#,
        r#"{"OPTIONS":{"COLUMNS":[]},"TRANSFORMATIONS":{"GROUP":["a"],"APPLY":[{"x":{"MAX":1}}]}}"#,
        r#"{"OPTIONS":{"COLUMNS":[]},"TRANSFORMATIONS":{"GROUP":["a"],"APPLY":[{"x":{"MAX":"a","MIN":"a"}}]}}"#,
        r#"{"OPTIONS":{"COLUMNS":[]},"TRANSFORMATIONS":{"GROUP":["a"],"APPLY":[{"x":{"MAX":"a"},"y":{"MIN":"a"}}]}}"#,
        r#"{"OPTIONS":{"COLUMNS":[]},"TRANSFORMATIONS":{"GROUP":["a"],"APPLY":[{"x":{"MAX":"a"}},{"x":{"MIN":"a"}}]}}"#,
        r#"{"OPTIONS":{"COLUMNS":[]},"TRANSFORMATIONS":{"GROUP":["a"],"APPLY":[],"HAVING":{}}}"#,
        r#"{"OPTIONS":{"COLUMNS":[]},"TRANSFORMATIONS":null}"#,
    ] {
        assert!(from_str(bad).is_err(), "{bad}");
    }
    assert!(from_str(
        r#"{"OPTIONS":{"COLUMNS":[]},"TRANSFORMATIONS":{"GROUP":[],"APPLY":[]}}"#
    )
    .is_ok());
}

#[test]
fn the_entry_of_an_object_with_one_entry() {
    let one = to_json(&serde_json::from_str(r#"{"a":1}"#).unwrap());
    let entry = KVPair::<Json>::deserialize(&one).unwrap();
    assert_eq!(entry.key, "a");
    assert!(matches!(entry.value, Json::Number(n) if n == num(1.0)));
    let none = to_json(&serde_json::from_str(r#"{}"#).unwrap());
    assert!(matches!(KVPair::<Json>::deserialize(&none), Err(EngineError::ParseError(_))));
    let two = to_json(&serde_json::from_str(r#"{"a":1,"b":2}"#).unwrap());
    assert_eq!(
        KVPair::<Json>::deserialize(&two).map(|_| ()).map_err(|e| e.message()),
        Err("Invalid query: Expected exactly 1 entry".to_string())
    );
    assert!(KVPair::<Json>::deserialize(&Json::Array(vec![Json::Null])).is_err());
}

#[test]
fn a_query_is_read_and_run() {
    let data = vec![section("cpsc", "310", 98.0), section("math", "100", 90.0)];
    let ask = |text: &str| {
        let value: serde_json::Value = serde_json::from_str(text).unwrap();
        query_courses(&to_json(&value), &data)
    };
    let found = ask(
        r#"{"WHERE":{"GT":{"sections_avg":95}},"OPTIONS":{"COLUMNS":["sections_dept","sections_avg"],"ORDER":"sections_avg"}}"#,
    );
    let mut expected = Row::new();
    expected.insert("sections_dept".to_string(), Value::Str("cpsc".to_string()));
    expected.insert("sections_avg".to_string(), Value::Num(num(98.0)));
    assert!(matches!(found, QueryResult::OK { result } if result == vec![expected]));
    assert!(
        matches!(ask(r#"{"WHERE":{"GT":{"sections_avg":95}}}"#), QueryResult::ERROR { error } if error == "Invalid query: Missing OPTIONS")
    );
    assert!(
        matches!(ask(r#"{"WHERE":{"GT":{"courses_avg":95}},"OPTIONS":{"COLUMNS":[]}}"#), QueryResult::ERROR { error } if error == "Invalid field courses_avg")
    );
    assert!(
        matches!(ask(r#"{"WHERE":{"IS":{"sections_dept":"c*s*"}},"OPTIONS":{"COLUMNS":[]}}"#), QueryResult::ERROR { error } if error == "Invalid pattern c*s*")
    );
    assert!(
        matches!(ask(r#"{"OPTIONS":{"COLUMNS":[],"ORDER":{"dir":"LEFT","keys":[]}}}"#), QueryResult::ERROR { error } if error == "Invalid order LEFT")
    );
}
