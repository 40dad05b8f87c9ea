//! Campus rooms.

use vstd::prelude::*;
use vstd::string::*;
use crate::dataset::unknown_field;
use crate::number::Num;
use crate::pages::{
    attributes, attributes_of, cells, first_texts, first_texts_of, trim, trimmed, whole_texts,
    whole_texts_of,
};
use crate::text::{str_equal, chars_of, joined};
use crate::types::{Dataset, Datum, Table, Value};

verus! {

/// One room of a building.
#[derive(Debug, Clone)]
pub struct Room {
    pub fullname: String,
    pub shortname: String,
    pub number: String,
    pub name: String,
    pub address: String,
    pub seats: Num,
    pub room_type: String,
    pub furniture: String,
    pub href: String,
}

impl Dataset for Room {
    open spec fn table(&self) -> Table {
        Map::new(
            |k: Seq<char>| self.columns().contains(k),
            |k: Seq<char>|
                if k == "rooms_fullname"@ {
                    Datum::Str(self.fullname@)
                } else if k == "rooms_shortname"@ {
                    Datum::Str(self.shortname@)
                } else if k == "rooms_number"@ {
                    Datum::Str(self.number@)
                } else if k == "rooms_name"@ {
                    Datum::Str(self.name@)
                } else if k == "rooms_address"@ {
                    Datum::Str(self.address@)
                } else if k == "rooms_seats"@ {
                    Datum::Num(self.seats)
                } else if k == "rooms_type"@ {
                    Datum::Str(self.room_type@)
                } else if k == "rooms_furniture"@ {
                    Datum::Str(self.furniture@)
                } else {
                    Datum::Str(self.href@)
                },
        )
    }

    open spec fn columns(&self) -> Seq<Seq<char>> {
        seq![
            "rooms_fullname"@,
            "rooms_shortname"@,
            "rooms_number"@,
            "rooms_name"@,
            "rooms_address"@,
            "rooms_seats"@,
            "rooms_type"@,
            "rooms_furniture"@,
            "rooms_href"@,
        ]
    }

    fn get(&self, field_name: &str) -> (r: Result<Value, String>)
        ensures
            r matches Err(why) ==> why@ == "Field '"@ + field_name@
                + "' not found. Fields must start with prefix '"@ + "rooms_"@ + "'"@,
    {
        proof {
            reveal_strlit("rooms_fullname");
            reveal_strlit("rooms_shortname");
            reveal_strlit("rooms_number");
            reveal_strlit("rooms_name");
            reveal_strlit("rooms_address");
            reveal_strlit("rooms_seats");
            reveal_strlit("rooms_type");
            reveal_strlit("rooms_furniture");
            reveal_strlit("rooms_href");
            let c = self.columns();
            assert(c[0] == "rooms_fullname"@ && c[1] == "rooms_shortname"@ && c[2]
                == "rooms_number"@ && c[3] == "rooms_name"@ && c[4] == "rooms_address"@ && c[5]
                == "rooms_seats"@ && c[6] == "rooms_type"@ && c[7] == "rooms_furniture"@ && c[8]
                == "rooms_href"@);
        }
        if str_equal(field_name, "rooms_fullname") {
            Ok(Value::Str(self.fullname.clone()))
        } else if str_equal(field_name, "rooms_shortname") {
            Ok(Value::Str(self.shortname.clone()))
        } else if str_equal(field_name, "rooms_number") {
            Ok(Value::Str(self.number.clone()))
        } else if str_equal(field_name, "rooms_name") {
            Ok(Value::Str(self.name.clone()))
        } else if str_equal(field_name, "rooms_address") {
            Ok(Value::Str(self.address.clone()))
        } else if str_equal(field_name, "rooms_seats") {
            Ok(Value::Num(self.seats))
        } else if str_equal(field_name, "rooms_type") {
            Ok(Value::Str(self.room_type.clone()))
        } else if str_equal(field_name, "rooms_furniture") {
            Ok(Value::Str(self.furniture.clone()))
        } else if str_equal(field_name, "rooms_href") {
            Ok(Value::Str(self.href.clone()))
        } else {
            Err(unknown_field(field_name, "rooms_"))
        }
    }

    fn get_all(&self) -> (r: &'static [&'static str]) {
        let all: &'static [&'static str] = &[
            "rooms_fullname",
            "rooms_shortname",
            "rooms_number",
            "rooms_name",
            "rooms_address",
            "rooms_seats",
            "rooms_type",
            "rooms_furniture",
            "rooms_href",
        ];
        all
    }
}

/// Where the last segment of a path begins among its first `n` characters:
/// after the last `/`, or at the start if there is none.
pub open spec fn segment_start(path: Seq<char>, n: int) -> int
    decreases n,
{
    if n <= 0 {
        0
    } else if path[n - 1] == '/' {
        n
    } else {
        segment_start(path, n - 1)
    }
}

/// The last segment of a path: what follows its last `/`, or all of it.
pub open spec fn last_segment(path: Seq<char>) -> Seq<char> {
    path.subrange(segment_start(path, path.len() as int), path.len() as int)
}

/// The last segment holds no `/`, and a `/` stands before it unless it is
/// the whole path.
pub proof fn law_last_segment(path: Seq<char>, n: int)
    requires
        0 <= n <= path.len(),
    ensures
        0 <= segment_start(path, n) <= n,
        segment_start(path, n) > 0 ==> path[segment_start(path, n) - 1] == '/',
        forall|i: int| segment_start(path, n) <= i < n ==> path[i] != '/',
    decreases n,
{
    if n > 0 && path[n - 1] != '/' {
        law_last_segment(path, n - 1);
    }
}

/// The name of the file that a link points to: the last segment of its path.
pub fn extract_filename_from_link(link: &str) -> (r: String)
    ensures
        r@ == last_segment(link@),
{
    let chars = chars_of(link);
    let n = chars.len();
    let mut start: usize = n;
    while start > 0 && chars[start - 1] != '/'
        invariant
            start <= n,
            n == chars@.len(),
            chars@ == link@,
            segment_start(link@, n as int) == segment_start(link@, start as int),
        decreases start,
    {
        start = start - 1;
    }
    String::from_str(link.substring_char(start, n))
}

/// The cell at a position, trimmed; the empty text where there is none.
pub open spec fn cell_text(column: Seq<Option<Seq<char>>>, i: int) -> Seq<char> {
    if 0 <= i < column.len() && column[i] is Some {
        trimmed(column[i]->Some_0)
    } else {
        Seq::<char>::empty()
    }
}

/// The cell at a position as it is; the empty text where there is none.
pub open spec fn cell_raw(column: Seq<Option<Seq<char>>>, i: int) -> Seq<char> {
    if 0 <= i < column.len() && column[i] is Some {
        column[i]->Some_0
    } else {
        Seq::<char>::empty()
    }
}

fn text_at(column: &Vec<Option<String>>, i: usize) -> (r: String)
    ensures
        r@ == cell_text(cells(column@), i as int),
{
    if i < column.len() {
        match &column[i] {
            Some(s) => trim(s.as_str()),
            None => String::new(),
        }
    } else {
        String::new()
    }
}

fn raw_at(column: &Vec<Option<String>>, i: usize) -> (r: String)
    ensures
        r@ == cell_raw(cells(column@), i as int),
{
    if i < column.len() {
        match &column[i] {
            Some(s) => s.clone(),
            None => String::new(),
        }
    } else {
        String::new()
    }
}

/// A building of the index as contracts speak of it: its code, its name and
/// the link to its page.
pub struct Listing {
    pub code: Seq<char>,
    pub name: Seq<char>,
    pub link: Seq<char>,
}

/// The buildings of the first `n` rows of an index: a row without a name
/// cell is left out.
pub open spec fn listed(
    codes: Seq<Option<Seq<char>>>,
    titles: Seq<Option<Seq<char>>>,
    links: Seq<Option<Seq<char>>>,
    n: int,
) -> Seq<Listing>
    decreases n,
{
    if n <= 0 {
        seq![]
    } else {
        let before = listed(codes, titles, links, n - 1);
        if n <= titles.len() && titles[n - 1] is Some {
            before.push(
                Listing {
                    code: cell_text(codes, n - 1),
                    name: cell_text(titles, n - 1),
                    link: cell_raw(links, n - 1),
                },
            )
        } else {
            before
        }
    }
}

/// Buildings as contracts speak of them.
pub open spec fn listings(list: Seq<(String, String, String)>) -> Seq<Listing> {
    Seq::new(list.len(), |i: int| Listing { code: list[i].0@, name: list[i].1@, link: list[i].2@ })
}

/// The buildings that the cells of an index name.
pub fn buildings_from(
    codes: &Vec<Option<String>>,
    titles: &Vec<Option<String>>,
    links: &Vec<Option<String>>,
) -> (r: Vec<(String, String, String)>)
    ensures
        listings(r@) == listed(cells(codes@), cells(titles@), cells(links@), titles@.len() as int),
{
    let mut out: Vec<(String, String, String)> = Vec::new();
    let mut i: usize = 0;
    assert(listings(out@) =~= Seq::<Listing>::empty());
    while i < titles.len()
        invariant
            i <= titles@.len(),
            listings(out@) == listed(cells(codes@), cells(titles@), cells(links@), i as int),
        decreases titles@.len() - i,
    {
        assert(cells(titles@)[i as int] is Some == titles@[i as int] is Some);
        if titles[i].is_some() {
            let ghost before = listings(out@);
            let entry = (text_at(codes, i), text_at(titles, i), raw_at(links, i));
            out.push(entry);
            assert(listings(out@) =~= before.push(
                Listing { code: entry.0@, name: entry.1@, link: entry.2@ },
            ));
        }
        i = i + 1;
    }
    out
}

/// The buildings of an index page: for each row of its table that has a
/// name cell, the building's code, its name and the link to its page.
pub fn parse_index_for_buildings(html_content: &str) -> (r: Vec<(String, String, String)>)
    ensures
        listings(r@) == ({
            let titles = whole_texts_of(
                html_content@,
                "table.views-table tbody tr"@,
                "td.views-field-title a"@,
            );
            listed(
                first_texts_of(
                    html_content@,
                    "table.views-table tbody tr"@,
                    "td.views-field-field-building-code"@,
                ),
                titles,
                attributes_of(
                    html_content@,
                    "table.views-table tbody tr"@,
                    "td.views-field-title a"@,
                    "href"@,
                ),
                titles.len() as int,
            )
        }),
{
    let codes = first_texts(
        html_content,
        "table.views-table tbody tr",
        "td.views-field-field-building-code",
    );
    let titles = whole_texts(html_content, "table.views-table tbody tr", "td.views-field-title a");
    let links = attributes(
        html_content,
        "table.views-table tbody tr",
        "td.views-field-title a",
        "href",
    );
    assert(cells(titles@).len() == titles@.len());
    buildings_from(&codes, &titles, &links)
}

/// The address on a building's page: the first text of the first field of
/// the building's information, trimmed, or the empty text.
pub fn parse_building_address(html: &str) -> (r: String)
    ensures
        r@ == cell_text(
            first_texts_of(
                html@,
                "html"@,
                "#building-info .building-field .field-content"@,
            ),
            0,
        ),
{
    let found = first_texts(
        html,
        "html",
        "#building-info .building-field .field-content",
    );
    text_at(&found, 0)
}

/// The capacities in the rows of a building's page, trimmed; a row without
/// one gives `None`.
pub fn room_capacities(html: &str) -> (r: Vec<Option<String>>)
    ensures
        r@.len() == first_texts_of(
            html@,
            "table.views-table tbody tr"@,
            "td.views-field-field-room-capacity"@,
        ).len(),
        forall|i: int|
            0 <= i < r@.len() ==> (#[trigger] cells(r@)[i]) == (match first_texts_of(
                html@,
                "table.views-table tbody tr"@,
                "td.views-field-field-room-capacity"@,
            )[i] {
                Some(s) => Some(trimmed(s)),
                None => None,
            }),
{
    let found = first_texts(
        html,
        "table.views-table tbody tr",
        "td.views-field-field-room-capacity",
    );
    let ghost given = cells(found@);
    let mut out: Vec<Option<String>> = Vec::new();
    let mut i: usize = 0;
    while i < found.len()
        invariant
            i <= found@.len(),
            out@.len() == i,
            given == cells(found@),
            forall|x: int|
                0 <= x < i ==> (#[trigger] cells(out@)[x]) == (match given[x] {
                    Some(s) => Some(trimmed(s)),
                    None => None,
                }),
        decreases found@.len() - i,
    {
        let ghost before = out@;
        let cell = match &found[i] {
            Some(s) => Some(trim(s.as_str())),
            None => None,
        };
        out.push(cell);
        assert forall|x: int| 0 <= x < i + 1 implies (#[trigger] cells(out@)[x]) == (match given[x] {
            Some(s) => Some(trimmed(s)),
            None => None,
        }) by {
            if x < i {
                assert(cells(before)[x] == cells(out@)[x]);
            } else {
                assert(given[x] == cells(found@)[x]);
            }
        }
        i = i + 1;
    }
    assert(cells(found@).len() == found@.len());
    out
}

/// A room as contracts speak of it.
pub struct RoomView {
    pub fullname: Seq<char>,
    pub shortname: Seq<char>,
    pub number: Seq<char>,
    pub name: Seq<char>,
    pub address: Seq<char>,
    pub seats: Num,
    pub room_type: Seq<char>,
    pub furniture: Seq<char>,
    pub href: Seq<char>,
}

impl View for Room {
    type V = RoomView;

    open spec fn view(&self) -> RoomView {
        RoomView {
            fullname: self.fullname@,
            shortname: self.shortname@,
            number: self.number@,
            name: self.name@,
            address: self.address@,
            seats: self.seats,
            room_type: self.room_type@,
            furniture: self.furniture@,
            href: self.href@,
        }
    }
}

/// The cells of the rows of a building's page, column by column.
pub struct RoomCells {
    pub numbers: Seq<Option<Seq<char>>>,
    pub seats: Seq<Option<Num>>,
    pub types: Seq<Option<Seq<char>>>,
    pub furniture: Seq<Option<Seq<char>>>,
    pub hrefs: Seq<Option<Seq<char>>>,
}

/// The room of the `i`-th row: its number, type and furniture trimmed, its
/// name the building's code, an underscore and the number, and no seats
/// where the row gives no capacity.
pub open spec fn room_of(
    code: Seq<char>,
    fullname: Seq<char>,
    address: Seq<char>,
    given: RoomCells,
    i: int,
) -> RoomView {
    RoomView {
        fullname,
        shortname: code,
        number: cell_text(given.numbers, i),
        name: code + "_"@ + cell_text(given.numbers, i),
        address,
        seats: if 0 <= i < given.seats.len() && given.seats[i] is Some {
            given.seats[i]->Some_0
        } else {
            Num::of_bits(0)
        },
        room_type: cell_text(given.types, i),
        furniture: cell_text(given.furniture, i),
        href: cell_raw(given.hrefs, i),
    }
}

/// Rooms as contracts speak of them.
pub open spec fn room_views(rooms: Seq<Room>) -> Seq<RoomView> {
    Seq::new(rooms.len(), |i: int| rooms[i]@)
}

/// The rooms that the cells of a building's page name, one for each row.
pub fn rooms_from(
    building_code: &str,
    building_name: &str,
    building_address: &str,
    numbers: &Vec<Option<String>>,
    seats: &Vec<Option<Num>>,
    types: &Vec<Option<String>>,
    furniture: &Vec<Option<String>>,
    hrefs: &Vec<Option<String>>,
) -> (r: Vec<Room>)
    ensures
        r@.len() == numbers@.len(),
        forall|i: int|
            0 <= i < r@.len() ==> (#[trigger] r@[i])@ == room_of(
                building_code@,
                building_name@,
                building_address@,
                RoomCells {
                    numbers: cells(numbers@),
                    seats: seats@,
                    types: cells(types@),
                    furniture: cells(furniture@),
                    hrefs: cells(hrefs@),
                },
                i,
            ),
{
    let ghost given = RoomCells {
        numbers: cells(numbers@),
        seats: seats@,
        types: cells(types@),
        furniture: cells(furniture@),
        hrefs: cells(hrefs@),
    };
    let mut rooms: Vec<Room> = Vec::new();
    let mut i: usize = 0;
    while i < numbers.len()
        invariant
            i <= numbers@.len(),
            rooms@.len() == i,
            given == (RoomCells {
                numbers: cells(numbers@),
                seats: seats@,
                types: cells(types@),
                furniture: cells(furniture@),
                hrefs: cells(hrefs@),
            }),
            forall|x: int|
                0 <= x < i ==> (#[trigger] rooms@[x])@ == room_of(
                    building_code@,
                    building_name@,
                    building_address@,
                    given,
                    x,
                ),
        decreases numbers@.len() - i,
    {
        let number = text_at(numbers, i);
        let head = joined(building_code, "_");
        let name = joined(head.as_str(), number.as_str());
        let capacity = if i < seats.len() {
            match seats[i] {
                Some(n) => n,
                None => Num::zero(),
            }
        } else {
            Num::zero()
        };
        let ghost before = rooms@;
        rooms.push(
            Room {
                fullname: String::from_str(building_name),
                shortname: String::from_str(building_code),
                number,
                name,
                address: String::from_str(building_address),
                seats: capacity,
                room_type: text_at(types, i),
                furniture: text_at(furniture, i),
                href: raw_at(hrefs, i),
            },
        );
        assert forall|x: int| 0 <= x < i + 1 implies (#[trigger] rooms@[x])@ == room_of(
            building_code@,
            building_name@,
            building_address@,
            given,
            x,
        ) by {
            if x < i {
                assert(rooms@[x] == before[x]);
            }
        }
        i = i + 1;
    }
    rooms
}

/// The rooms of a building's page, one for each row of its table. The
/// capacities come from the caller, who reads them as numbers from what
/// `room_capacities` gives.
pub fn parse_building_rooms(
    html: &str,
    seats: &Vec<Option<Num>>,
    building_code: &str,
    building_name: &str,
    building_address: &str,
) -> (r: Vec<Room>)
    ensures
        room_views(r@) == ({
            let given = RoomCells {
                numbers: first_texts_of(
                    html@,
                    "table.views-table tbody tr"@,
                    "td.views-field-field-room-number a"@,
                ),
                seats: seats@,
                types: first_texts_of(
                    html@,
                    "table.views-table tbody tr"@,
                    "td.views-field-field-room-type"@,
                ),
                furniture: first_texts_of(
                    html@,
                    "table.views-table tbody tr"@,
                    "td.views-field-field-room-furniture"@,
                ),
                hrefs: attributes_of(
                    html@,
                    "table.views-table tbody tr"@,
                    "td.views-field-field-room-number a"@,
                    "href"@,
                ),
            };
            Seq::new(
                given.numbers.len(),
                |i: int| room_of(building_code@, building_name@, building_address@, given, i),
            )
        }),
{
    let numbers = first_texts(
        html,
        "table.views-table tbody tr",
        "td.views-field-field-room-number a",
    );
    let types = first_texts(html, "table.views-table tbody tr", "td.views-field-field-room-type");
    let furniture = first_texts(
        html,
        "table.views-table tbody tr",
        "td.views-field-field-room-furniture",
    );
    let hrefs = attributes(
        html,
        "table.views-table tbody tr",
        "td.views-field-field-room-number a",
        "href",
    );
    let rooms = rooms_from(
        building_code,
        building_name,
        building_address,
        &numbers,
        seats,
        &types,
        &furniture,
        &hrefs,
    );
    proof {
        let given = RoomCells {
            numbers: cells(numbers@),
            seats: seats@,
            types: cells(types@),
            furniture: cells(furniture@),
            hrefs: cells(hrefs@),
        };
        assert(cells(numbers@).len() == numbers@.len());
        assert(room_views(rooms@) =~= Seq::new(
            given.numbers.len(),
            |i: int| room_of(building_code@, building_name@, building_address@, given, i),
        ));
    }
    rooms
}

} // verus!
