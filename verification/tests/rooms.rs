use campus_query::number::Num;
use campus_query::query::{execute_query, Filter, Options, Order, Query};
use campus_query::pages::{
    attributes, first_texts, pick_attributes, pick_first_texts, pick_whole_texts, trim, whole_texts,
};
use campus_query::rooms_dataset::{
    buildings_from, extract_filename_from_link, parse_building_address, parse_building_rooms,
    parse_index_for_buildings, room_capacities, rooms_from, Room,
};
use campus_query::types::{Dataset, KVPair, Value};

fn num(x: f32) -> Num {
    Num::from_bits(x.to_bits()).unwrap()
}

const INDEX: &str = r#"<html><body>
<table class="views-table"><thead><tr><th>Code</th></tr></thead><tbody>
<tr><td class="views-field-field-building-code">
  ACU </td><td class="views-field-title"><a href="./campus/discover/buildings-and-classrooms/ACU.htm">Acute <b>Care</b> Unit</a></td></tr>
<tr><td class="views-field-field-building-code">NONE</td><td class="views-field-title">no link here</td></tr>
<tr><td class="views-field-title"><a>  Plain </a></td></tr>
</tbody></table>
<table class="other"><tbody><tr><td class="views-field-title"><a href="x">Elsewhere</a></td></tr></tbody></table>
</body></html>"#;

const BUILDING: &str = r#"<html><body>
<div id="building-info"><h2>Acute Care Unit</h2>
<div class="building-field"><div class="field-content"> 2211 Wesbrook Mall </div></div>
<div class="building-field"><div class="field-content">Hours</div></div></div>
<table class="views-table"><tbody>
<tr><td class="views-field-field-room-number"><a href="http://rooms/ACU-101"> 101 </a></td>
    <td class="views-field-field-room-capacity"> 40 </td>
    <td class="views-field-field-room-furniture"> Classroom-Movable Tables </td>
    <td class="views-field-field-room-type"> Small Group </td></tr>
<tr><td class="views-field-field-room-number"><a>202</a></td>
    <td class="views-field-field-room-capacity">many</td>
    <td class="views-field-field-room-type">Open</td></tr>
<tr><td class="views-field-field-room-number">303</td></tr>
</tbody></table></body></html>"#;

#[test]
fn the_file_name_is_the_last_segment_of_a_link() {
    assert_eq!(
        extract_filename_from_link("./campus/discover/buildings-and-classrooms/ACU.htm"),
        "ACU.htm"
    );
    assert_eq!(extract_filename_from_link("ACU.htm"), "ACU.htm");
    assert_eq!(extract_filename_from_link("a/b/"), "");
    assert_eq!(extract_filename_from_link("/"), "");
    assert_eq!(extract_filename_from_link(""), "");
    assert_eq!(extract_filename_from_link("//x"), "x");
    assert_eq!(extract_filename_from_link("caf\u{e9}/na\u{ef}ve.htm"), "na\u{ef}ve.htm");
}

#[test]
fn trimming_takes_white_space_from_both_ends() {
    for text in [
        "",
        " ",
        "a",
        "  a b  ",
        "\t\n a\u{a0}",
        "\u{2003}x\u{3000}",
        "x\u{200b}",
        " \r\n",
        "\u{85}y\u{1680}",
        "\u{feff}z",
        "\u{1c}q",
    ] {
        assert_eq!(trim(text), text.trim(), "{text:?}");
    }
}

#[test]
fn buildings_of_an_index() {
    assert_eq!(
        parse_index_for_buildings(INDEX),
        vec![
            (
                "ACU".to_string(),
                "Acute Care Unit".to_string(),
                "./campus/discover/buildings-and-classrooms/ACU.htm".to_string()
            ),
            ("".to_string(), "Plain".to_string(), "".to_string()),
        ]
    );
    assert_eq!(parse_index_for_buildings(""), vec![]);
    assert_eq!(parse_index_for_buildings("<p>no table</p>"), vec![]);
}

#[test]
fn the_address_of_a_building() {
    assert_eq!(parse_building_address(BUILDING), "2211 Wesbrook Mall");
    assert_eq!(
        parse_building_address(
            r#"<div id="building-info"><section><p class="building-field"><em><span class="field-content">
            6245 Agronomy Road </span></em></p></section></div>"#
        ),
        "6245 Agronomy Road"
    );
    assert_eq!(
        parse_building_address(r#"<div class="building-field"><div class="field-content">x</div></div>"#),
        ""
    );
    assert_eq!(parse_building_address(INDEX), "");
    assert_eq!(parse_building_address(""), "");
}

#[test]
fn the_rooms_of_a_building() {
    assert_eq!(
        room_capacities(BUILDING),
        vec![Some("40".to_string()), Some("many".to_string()), None]
    );
    let seats: Vec<Option<Num>> = room_capacities(BUILDING)
        .iter()
        .map(|cell| {
            cell.as_ref()
                .and_then(|s| s.parse::<f32>().ok())
                .and_then(|x| Num::from_bits(x.to_bits()))
        })
        .collect();
    let rooms = parse_building_rooms(BUILDING, &seats, "ACU", "Acute Care Unit", "2211 Wesbrook Mall");
    assert_eq!(rooms.len(), 3);
    let r = &rooms[0];
    assert_eq!(r.fullname, "Acute Care Unit");
    assert_eq!(r.shortname, "ACU");
    assert_eq!(r.number, "101");
    assert_eq!(r.name, "ACU_101");
    assert_eq!(r.address, "2211 Wesbrook Mall");
    assert_eq!(r.seats, num(40.0));
    assert_eq!(r.room_type, "Small Group");
    assert_eq!(r.furniture, "Classroom-Movable Tables");
    assert_eq!(r.href, "http://rooms/ACU-101");
    let r = &rooms[1];
    assert_eq!(r.number, "202");
    assert_eq!(r.name, "ACU_202");
    assert_eq!(r.seats, num(0.0));
    assert_eq!(r.room_type, "Open");
    assert_eq!(r.furniture, "");
    assert_eq!(r.href, "");
    let r = &rooms[2];
    assert_eq!(r.number, "");
    assert_eq!(r.name, "ACU_");
    assert_eq!(r.seats, num(0.0));
    let short = parse_building_rooms(BUILDING, &vec![], "A", "B", "C");
    assert_eq!(short.len(), 3);
    assert_eq!(short[0].seats, num(0.0));
    assert_eq!(parse_building_rooms("", &seats, "A", "B", "C").len(), 0);
}

fn room(name: &str, seats: f32, kind: &str) -> Room {
    Room {
        fullname: "Hall".to_string(),
        shortname: "HALL".to_string(),
        number: "1".to_string(),
        name: name.to_string(),
        address: "1 Main".to_string(),
        seats: num(seats),
        room_type: kind.to_string(),
        furniture: "Chairs".to_string(),
        href: "http://x".to_string(),
    }
}

#[test]
fn a_room_gives_each_of_its_columns_and_no_other() {
    let r = room("HALL_1", 25.0, "Lab");
    assert_eq!(
        r.get_all(),
        &[
            "rooms_fullname",
            "rooms_shortname",
            "rooms_number",
            "rooms_name",
            "rooms_address",
            "rooms_seats",
            "rooms_type",
            "rooms_furniture",
            "rooms_href"
        ]
    );
    for column in r.get_all() {
        assert!(r.get(column).is_ok(), "{column}");
    }
    assert_eq!(r.get("rooms_seats"), Ok(Value::Num(num(25.0))));
    assert_eq!(r.get("rooms_type"), Ok(Value::Str("Lab".to_string())));
    assert_eq!(r.get("rooms_name"), Ok(Value::Str("HALL_1".to_string())));
    assert_eq!(
        r.get("seats"),
        Err("Field 'seats' not found. Fields must start with prefix 'rooms_'".to_string())
    );
    assert!(r.get("rooms_Seats").is_err());
    assert!(r.get("sections_avg").is_err());
    assert!(r.get("rooms_room_type").is_err());
    assert!(r.get("").is_err());
}

#[test]
fn rooms_can_be_queried() {
    let data = vec![room("A_1", 25.0, "Lab"), room("A_2", 250.0, "Hall"), room("B_1", 60.0, "Lab")];
    let query = Query {
        filter: Filter::AND {
            and: vec![
                Filter::GT { gt: KVPair { key: "rooms_seats".to_string(), value: num(30.0) } },
                Filter::IS { is: KVPair { key: "rooms_name".to_string(), value: "*_*".to_string() } },
            ],
        },
        options: Options {
            columns: vec!["rooms_name".to_string()],
            order: Some(Order::MANY { dir: "DOWN".to_string(), keys: vec!["rooms_name".to_string()] }),
        },
        transformations: None,
    };
    let names: Vec<Value> =
        execute_query(&query, &data).unwrap().iter().map(|r| r.get("rooms_name").unwrap().clone()).collect();
    assert_eq!(names, vec![Value::Str("B_1".to_string()), Value::Str("A_2".to_string())]);
}

fn t(x: &str) -> String {
    x.to_string()
}

#[test]
fn picking_from_what_a_page_holds() {
    let found = vec![
        vec![vec![t(" a "), t("b")], vec![t("c")]],
        vec![],
        vec![vec![], vec![t("d")]],
        vec![vec![t("")]],
    ];
    assert_eq!(pick_first_texts(&found), vec![Some(t(" a ")), None, None, Some(t(""))]);
    assert_eq!(pick_whole_texts(&found), vec![Some(t(" a b")), None, Some(t("")), Some(t(""))]);
    let marks = vec![vec![Some(t("x")), None], vec![], vec![None, Some(t("y"))]];
    assert_eq!(pick_attributes(&marks), vec![Some(t("x")), None, None]);
    assert_eq!(pick_first_texts(&vec![]), vec![]);
}

#[test]
fn cells_of_a_page() {
    let page = r#"<ul><li><b>one</b> and <i>two</i></li><li></li><li><b id="k"> </b><b>x</b></li></ul><p><b>out</b></p>"#;
    assert_eq!(first_texts(page, "li", "b"), vec![Some(t("one")), None, Some(t(" "))]);
    assert_eq!(whole_texts(page, "li", "li b, li i"), vec![Some(t("one")), None, Some(t(" "))]);
    assert_eq!(whole_texts(page, "ul", "li"), vec![Some(t("one and two"))]);
    assert_eq!(attributes(page, "li", "b", "id"), vec![None, None, Some(t("k"))]);
    assert_eq!(first_texts(page, "li", "b["), vec![]);
    assert_eq!(first_texts(page, "", "b"), vec![]);
    assert_eq!(attributes(page, "li[", "b", "id"), vec![]);
    assert_eq!(first_texts(page, "td", "b"), vec![]);
}

#[test]
fn buildings_and_rooms_from_cells() {
    let codes = vec![Some(t(" A ")), None];
    let titles = vec![Some(t(" Alpha ")), None, Some(t("Gamma"))];
    let links = vec![Some(t(" a.htm ")), Some(t("b.htm"))];
    assert_eq!(
        buildings_from(&codes, &titles, &links),
        vec![(t("A"), t("Alpha"), t(" a.htm ")), (t(""), t("Gamma"), t(""))]
    );
    let rooms = rooms_from(
        "A",
        "Alpha",
        "1 Main",
        &vec![Some(t(" 1 ")), None],
        &vec![Num::from_bits(12.0f32.to_bits())],
        &vec![Some(t("Lab"))],
        &vec![],
        &vec![None, Some(t(" h "))],
    );
    assert_eq!(rooms.len(), 2);
    assert_eq!(rooms[0].name, "A_1");
    assert_eq!(rooms[0].seats, num(12.0));
    assert_eq!(rooms[0].room_type, "Lab");
    assert_eq!(rooms[0].furniture, "");
    assert_eq!(rooms[0].href, "");
    assert_eq!(rooms[1].name, "A_");
    assert_eq!(rooms[1].number, "");
    assert_eq!(rooms[1].seats, num(0.0));
    assert_eq!(rooms[1].room_type, "");
    assert_eq!(rooms[1].href, " h ");
}
