use campus_query::dataset::Section;
use campus_query::errors::EngineError;
use campus_query::number::Num;
use campus_query::text::{chars_of, joined, str_equal, str_less};
use campus_query::types::{Dataset, Row, Value};

fn num(x: f32) -> Num {
    Num::from_bits(x.to_bits()).unwrap()
}

fn s(x: &str) -> Value {
    Value::Str(x.to_string())
}

#[test]
fn a_row_keeps_its_entries_in_the_order_of_their_keys() {
    let mut row = Row::new();
    assert_eq!(row.len(), 0);
    assert_eq!(row.get("a"), None);
    for key in ["m", "b", "z", "a", "mm", "", "B", "\u{e9}"] {
        row.insert(key.to_string(), s(key));
    }
    let keys: Vec<&str> = row.pairs().iter().map(|p| p.key.as_str()).collect();
    assert_eq!(keys, vec!["", "B", "a", "b", "m", "mm", "z", "\u{e9}"]);
    assert_eq!(row.len(), 8);
    for key in ["m", "b", "z", "a", "mm", "", "B", "\u{e9}"] {
        assert_eq!(row.get(key), Some(&s(key)));
        assert!(row.contains_key(key));
    }
    assert!(!row.contains_key("c"));
    row.insert("b".to_string(), Value::Num(num(2.0)));
    assert_eq!(row.len(), 8);
    assert_eq!(row.get("b"), Some(&Value::Num(num(2.0))));
    assert_eq!(row.get("a"), Some(&s("a")));
    let copy = row.duplicate();
    assert_eq!(copy, row);
    let mut other = Row::new();
    for key in ["\u{e9}", "B", "", "mm", "a", "z", "m"] {
        other.insert(key.to_string(), s(key));
    }
    other.insert("b".to_string(), Value::Num(num(2.0)));
    assert_eq!(other, row);
    other.insert("b".to_string(), Value::Num(num(3.0)));
    assert_ne!(other, row);
}

#[test]
fn rows_are_compared_by_their_values() {
    let mut a = Row::new();
    a.insert("x".to_string(), Value::Num(num(0.0)));
    a.insert("y".to_string(), s("t"));
    let mut b = Row::new();
    b.insert("y".to_string(), s("t"));
    b.insert("x".to_string(), Value::Num(num(-0.0)));
    assert!(a.same_as(&b));
    assert_eq!(a, b);
    b.insert("z".to_string(), s("more"));
    assert!(!a.same_as(&b));
    assert!(!b.same_as(&a));
    a.insert("w".to_string(), s("other"));
    assert!(!a.same_as(&b));
    let mut c = Row::new();
    c.insert("x".to_string(), s("0"));
    c.insert("y".to_string(), s("t"));
    let mut d = Row::new();
    d.insert("x".to_string(), Value::Num(num(0.0)));
    d.insert("y".to_string(), s("t"));
    assert!(!c.same_as(&d));
    assert!(Row::new().same_as(&Row::new()));
}

#[test]
fn the_two_zeros_are_equal() {
    assert_eq!(num(0.0), num(-0.0));
    assert_ne!(num(0.0).to_bits(), num(-0.0).to_bits());
    assert_ne!(num(1.0), num(-1.0));
    assert_eq!(Value::Num(num(0.0)), Value::Num(num(-0.0)));
}

#[test]
fn values_of_different_kinds_are_never_equal() {
    assert_ne!(Value::Num(num(1.0)), s("1"));
    assert_eq!(Value::Num(num(1.0)), Value::Num(num(1.0)));
    assert_eq!(s("x").duplicate(), s("x"));
    assert_eq!(Value::Num(num(-2.5)).duplicate(), Value::Num(num(-2.5)));
}

#[test]
fn a_section_gives_each_of_its_columns_and_no_other() {
    let section = Section {
        uuid: "17".to_string(),
        id: "310".to_string(),
        title: "intr sftwr eng".to_string(),
        instructor: "palyart".to_string(),
        dept: "cpsc".to_string(),
        year: num(2014.0),
        avg: num(78.69),
        pass: num(156.0),
        fail: num(0.0),
        audit: num(1.0),
    };
    assert_eq!(
        section.get_all(),
        &[
            "sections_uuid",
            "sections_id",
            "sections_title",
            "sections_instructor",
            "sections_dept",
            "sections_year",
            "sections_avg",
            "sections_pass",
            "sections_fail",
            "sections_audit"
        ]
    );
    for column in section.get_all() {
        assert!(section.get(column).is_ok(), "{column}");
    }
    assert_eq!(section.get("sections_uuid"), Ok(s("17")));
    assert_eq!(section.get("sections_id"), Ok(s("310")));
    assert_eq!(section.get("sections_title"), Ok(s("intr sftwr eng")));
    assert_eq!(section.get("sections_instructor"), Ok(s("palyart")));
    assert_eq!(section.get("sections_dept"), Ok(s("cpsc")));
    assert_eq!(section.get("sections_year"), Ok(Value::Num(num(2014.0))));
    assert_eq!(section.get("sections_avg"), Ok(Value::Num(num(78.69))));
    assert_eq!(section.get("sections_pass"), Ok(Value::Num(num(156.0))));
    assert_eq!(section.get("sections_fail"), Ok(Value::Num(num(0.0))));
    assert_eq!(section.get("sections_audit"), Ok(Value::Num(num(1.0))));
    assert_eq!(
        section.get("courses_avg"),
        Err("Field 'courses_avg' not found. Fields must start with prefix 'sections_'".to_string())
    );
    assert!(section.get("avg").is_err());
    assert!(section.get("sections_AVG").is_err());
    assert!(section.get("sections_avg ").is_err());
    assert!(section.get("rooms_seats").is_err());
}

#[test]
fn messages_of_errors() {
    assert_eq!(EngineError::ResultToLargeError.message(), "Too many results, maximum 5000");
    assert_eq!(
        EngineError::TypeError { operation: "gt", field: "sections_dept".to_string() }.message(),
        "Invalid operation gt for sections_dept"
    );
    assert_eq!(EngineError::FieldNotFound("x".to_string()).message(), "Invalid field x");
    assert_eq!(EngineError::InvalidPattern("a*b".to_string()).message(), "Invalid pattern a*b");
    assert_eq!(EngineError::InvalidOrder("SIDE".to_string()).message(), "Invalid order SIDE");
    assert_eq!(EngineError::ParseError("why".to_string()).message(), "Invalid query: why");
    assert_eq!(EngineError::InternalError("why".to_string()).message(), "Internal error: why");
}

#[test]
fn helpers_on_text() {
    assert!(str_equal("abc", "abc"));
    assert!(!str_equal("abc", "abd"));
    assert!(!str_equal("abc", "ab"));
    assert_eq!(chars_of("a\u{e9}z"), vec!['a', '\u{e9}', 'z']);
    assert_eq!(chars_of(""), vec![]);
    assert_eq!(joined("ab", "cd"), "abcd");
}

#[test]
fn strings_are_ordered_as_the_standard_library_orders_them() {
    let all = [
        "", "a", "A", "aa", "ab", "b", "B", "a ", " a", "\u{e9}", "e\u{301}", "z", "\u{10000}", "\u{ffff}",
        "\u{d7ff}", "\u{e000}", "abc", "abd", "abcd", "10", "9", "cpsc", "math", "\u{7f}", "\u{80}",
        "\u{7ff}", "\u{800}",
    ];
    for a in all {
        for b in all {
            assert_eq!(str_less(a, b), a < b, "{a:?} < {b:?}");
        }
    }
}
