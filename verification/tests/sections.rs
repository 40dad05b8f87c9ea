use campus_query::dataset::{decimal, gather_sections, Section, SectionRecord};
use campus_query::number::Num;

fn num(x: f32) -> Num {
    Num::from_bits(x.to_bits()).unwrap()
}

fn record(uuid: i32, dept: &str, avg: f32) -> SectionRecord {
    SectionRecord {
        uuid,
        id: "310".to_string(),
        title: "title".to_string(),
        instructor: "someone".to_string(),
        dept: dept.to_string(),
        year: num(2014.0),
        avg: num(avg),
        pass: num(3.0),
        fail: num(2.0),
        audit: num(1.0),
    }
}

#[test]
fn integers_in_decimal() {
    for n in [0, 1, 9, 10, 11, 99, 100, 12345, 2147483647, -1, -9, -10, -2147483647, i32::MIN, 1000000] {
        assert_eq!(decimal(n), n.to_string());
    }
}

#[test]
fn a_record_becomes_a_section() {
    let section: Section = record(-42, "cpsc", 71.5).to_section();
    assert_eq!(section.uuid, "-42");
    assert_eq!(section.id, "310");
    assert_eq!(section.title, "title");
    assert_eq!(section.instructor, "someone");
    assert_eq!(section.dept, "cpsc");
    assert_eq!(section.year, num(2014.0));
    assert_eq!(section.avg, num(71.5));
    assert_eq!(section.pass, num(3.0));
    assert_eq!(section.fail, num(2.0));
    assert_eq!(section.audit, num(1.0));
}

#[test]
fn sections_come_in_the_order_of_the_files() {
    let files = vec![
        Some(vec![record(1, "a", 1.0), record(2, "b", 2.0)]),
        None,
        Some(vec![]),
        Some(vec![record(3, "c", 3.0)]),
        None,
    ];
    let sections = gather_sections(&files);
    let seen: Vec<(&str, &str)> =
        sections.iter().map(|s| (s.uuid.as_str(), s.dept.as_str())).collect();
    assert_eq!(seen, vec![("1", "a"), ("2", "b"), ("3", "c")]);
    assert_eq!(gather_sections(&vec![]).len(), 0);
    assert_eq!(gather_sections(&vec![None]).len(), 0);
}
