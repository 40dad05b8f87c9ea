//! Course sections.

use vstd::prelude::*;
use vstd::string::*;
use crate::number::Num;
use crate::text::{str_equal, joined};
use crate::types::{Dataset, Datum, Table, Value};

verus! {

/// One section of a course.
#[derive(Debug, Clone)]
pub struct Section {
    pub uuid: String,
    pub id: String,
    pub title: String,
    pub instructor: String,
    pub dept: String,
    pub year: Num,
    pub avg: Num,
    pub pass: Num,
    pub fail: Num,
    pub audit: Num,
}

/// The diagnostic for a name that is no column of a record type.
pub fn unknown_field(field_name: &str, prefix: &str) -> (r: String)
    ensures
        r@ == "Field '"@ + field_name@ + "' not found. Fields must start with prefix '"@ + prefix@
            + "'"@,
{
    let a = joined("Field '", field_name);
    let b = joined(a.as_str(), "' not found. Fields must start with prefix '");
    let c = joined(b.as_str(), prefix);
    joined(c.as_str(), "'")
}

impl Dataset for Section {
    open spec fn table(&self) -> Table {
        Map::new(
            |k: Seq<char>| self.columns().contains(k),
            |k: Seq<char>|
                if k == "sections_uuid"@ {
                    Datum::Str(self.uuid@)
                } else if k == "sections_id"@ {
                    Datum::Str(self.id@)
                } else if k == "sections_title"@ {
                    Datum::Str(self.title@)
                } else if k == "sections_instructor"@ {
                    Datum::Str(self.instructor@)
                } else if k == "sections_dept"@ {
                    Datum::Str(self.dept@)
                } else if k == "sections_year"@ {
                    Datum::Num(self.year)
                } else if k == "sections_avg"@ {
                    Datum::Num(self.avg)
                } else if k == "sections_pass"@ {
                    Datum::Num(self.pass)
                } else if k == "sections_fail"@ {
                    Datum::Num(self.fail)
                } else {
                    Datum::Num(self.audit)
                },
        )
    }

    open spec fn columns(&self) -> Seq<Seq<char>> {
        seq![
            "sections_uuid"@,
            "sections_id"@,
            "sections_title"@,
            "sections_instructor"@,
            "sections_dept"@,
            "sections_year"@,
            "sections_avg"@,
            "sections_pass"@,
            "sections_fail"@,
            "sections_audit"@,
        ]
    }

    fn get(&self, field_name: &str) -> (r: Result<Value, String>)
        ensures
            r matches Err(why) ==> why@ == "Field '"@ + field_name@
                + "' not found. Fields must start with prefix '"@ + "sections_"@ + "'"@,
    {
        proof {
            reveal_strlit("sections_uuid");
            reveal_strlit("sections_id");
            reveal_strlit("sections_title");
            reveal_strlit("sections_instructor");
            reveal_strlit("sections_dept");
            reveal_strlit("sections_year");
            reveal_strlit("sections_avg");
            reveal_strlit("sections_pass");
            reveal_strlit("sections_fail");
            reveal_strlit("sections_audit");
            let c = self.columns();
            assert(c[0] == "sections_uuid"@ && c[1] == "sections_id"@ && c[2] == "sections_title"@
                && c[3] == "sections_instructor"@ && c[4] == "sections_dept"@ && c[5]
                == "sections_year"@ && c[6] == "sections_avg"@ && c[7] == "sections_pass"@ && c[8]
                == "sections_fail"@ && c[9] == "sections_audit"@);
        }
        if str_equal(field_name, "sections_uuid") {
            Ok(Value::Str(self.uuid.clone()))
        } else if str_equal(field_name, "sections_id") {
            Ok(Value::Str(self.id.clone()))
        } else if str_equal(field_name, "sections_title") {
            Ok(Value::Str(self.title.clone()))
        } else if str_equal(field_name, "sections_instructor") {
            Ok(Value::Str(self.instructor.clone()))
        } else if str_equal(field_name, "sections_dept") {
            Ok(Value::Str(self.dept.clone()))
        } else if str_equal(field_name, "sections_year") {
            Ok(Value::Num(self.year))
        } else if str_equal(field_name, "sections_avg") {
            Ok(Value::Num(self.avg))
        } else if str_equal(field_name, "sections_pass") {
            Ok(Value::Num(self.pass))
        } else if str_equal(field_name, "sections_fail") {
            Ok(Value::Num(self.fail))
        } else if str_equal(field_name, "sections_audit") {
            Ok(Value::Num(self.audit))
        } else {
            Err(unknown_field(field_name, "sections_"))
        }
    }

    fn get_all(&self) -> (r: &'static [&'static str]) {
        let all: &'static [&'static str] = &[
            "sections_uuid",
            "sections_id",
            "sections_title",
            "sections_instructor",
            "sections_dept",
            "sections_year",
            "sections_avg",
            "sections_pass",
            "sections_fail",
            "sections_audit",
        ];
        all
    }
}

/// A section as a file of the corpus gives it, its numbers already read.
#[derive(Debug, Clone)]
pub struct SectionRecord {
    pub uuid: i32,
    pub id: String,
    pub title: String,
    pub instructor: String,
    pub dept: String,
    pub year: Num,
    pub avg: Num,
    pub pass: Num,
    pub fail: Num,
    pub audit: Num,
}

/// A section as contracts speak of it.
pub struct SectionView {
    pub uuid: Seq<char>,
    pub id: Seq<char>,
    pub title: Seq<char>,
    pub instructor: Seq<char>,
    pub dept: Seq<char>,
    pub year: Num,
    pub avg: Num,
    pub pass: Num,
    pub fail: Num,
    pub audit: Num,
}

impl View for Section {
    type V = SectionView;

    open spec fn view(&self) -> SectionView {
        SectionView {
            uuid: self.uuid@,
            id: self.id@,
            title: self.title@,
            instructor: self.instructor@,
            dept: self.dept@,
            year: self.year,
            avg: self.avg,
            pass: self.pass,
            fail: self.fail,
            audit: self.audit,
        }
    }
}

/// The character of a decimal digit.
pub open spec fn digit_of(d: int) -> char {
    if d == 0 {
        '0'
    } else if d == 1 {
        '1'
    } else if d == 2 {
        '2'
    } else if d == 3 {
        '3'
    } else if d == 4 {
        '4'
    } else if d == 5 {
        '5'
    } else if d == 6 {
        '6'
    } else if d == 7 {
        '7'
    } else if d == 8 {
        '8'
    } else {
        '9'
    }
}

/// The decimal digits of a natural number, without leading zeros.
pub open spec fn digits_of(n: nat) -> Seq<char>
    decreases n,
{
    if n < 10 {
        seq![digit_of(n as int)]
    } else {
        digits_of(n / 10).push(digit_of((n % 10) as int))
    }
}

/// An integer in decimal, with a minus sign if it is negative.
pub open spec fn decimal_of(n: int) -> Seq<char> {
    if n < 0 {
        seq!['-'] + digits_of((-n) as nat)
    } else {
        digits_of(n as nat)
    }
}

fn digit(d: u64) -> (r: &'static str)
    requires
        d < 10,
    ensures
        r@ == seq![digit_of(d as int)],
{
    proof {
        reveal_strlit("0");
        reveal_strlit("1");
        reveal_strlit("2");
        reveal_strlit("3");
        reveal_strlit("4");
        reveal_strlit("5");
        reveal_strlit("6");
        reveal_strlit("7");
        reveal_strlit("8");
        reveal_strlit("9");
    }
    let r = if d == 0 {
        "0"
    } else if d == 1 {
        "1"
    } else if d == 2 {
        "2"
    } else if d == 3 {
        "3"
    } else if d == 4 {
        "4"
    } else if d == 5 {
        "5"
    } else if d == 6 {
        "6"
    } else if d == 7 {
        "7"
    } else if d == 8 {
        "8"
    } else {
        "9"
    };
    assert(r@ =~= seq![digit_of(d as int)]);
    r
}

fn digits(n: u64) -> (r: String)
    ensures
        r@ == digits_of(n as nat),
    decreases n,
{
    if n < 10 {
        String::from_str(digit(n))
    } else {
        let head = digits(n / 10);
        let r = head.concat(digit(n % 10));
        assert(r@ =~= digits_of((n / 10) as nat).push(digit_of((n % 10) as int)));
        r
    }
}

/// An integer in decimal.
pub fn decimal(n: i32) -> (r: String)
    ensures
        r@ == decimal_of(n as int),
{
    if n < 0 {
        let magnitude: u64 = (-(n as i64)) as u64;
        let tail = digits(magnitude);
        proof {
            reveal_strlit("-");
            assert("-"@ =~= seq!['-']);
        }
        joined("-", tail.as_str())
    } else {
        digits(n as u64)
    }
}

impl SectionRecord {
    /// The section that the record becomes: its identifier in decimal, and
    /// everything else as it is.
    pub open spec fn section(self) -> SectionView {
        SectionView {
            uuid: decimal_of(self.uuid as int),
            id: self.id@,
            title: self.title@,
            instructor: self.instructor@,
            dept: self.dept@,
            year: self.year,
            avg: self.avg,
            pass: self.pass,
            fail: self.fail,
            audit: self.audit,
        }
    }

    /// The section that the record becomes.
    pub fn to_section(&self) -> (r: Section)
        ensures
            r@ == self.section(),
    {
        Section {
            uuid: decimal(self.uuid),
            id: self.id.clone(),
            title: self.title.clone(),
            instructor: self.instructor.clone(),
            dept: self.dept.clone(),
            year: self.year,
            avg: self.avg,
            pass: self.pass,
            fail: self.fail,
            audit: self.audit,
        }
    }
}

/// The sections of the records.
pub open spec fn sections_of(records: Seq<SectionRecord>) -> Seq<SectionView> {
    Seq::new(records.len(), |i: int| records[i].section())
}

/// The sections of the first `n` files, in the order of the files and, in
/// each, of its records. A file that could not be read as sections is
/// `None` and gives none.
pub open spec fn gathered_sections(files: Seq<Option<Vec<SectionRecord>>>, n: int) -> Seq<
    SectionView,
>
    decreases n,
{
    if n <= 0 {
        seq![]
    } else {
        let before = gathered_sections(files, n - 1);
        match files[n - 1] {
            Some(records) => before + sections_of(records@),
            None => before,
        }
    }
}

/// Sections as contracts speak of them.
pub open spec fn section_views(sections: Seq<Section>) -> Seq<SectionView> {
    Seq::new(sections.len(), |i: int| sections[i]@)
}

/// The sections of a corpus, from what each of its files gave.
pub fn gather_sections(files: &Vec<Option<Vec<SectionRecord>>>) -> (r: Vec<Section>)
    ensures
        section_views(r@) == gathered_sections(files@, files@.len() as int),
{
    let mut out: Vec<Section> = Vec::new();
    let mut i: usize = 0;
    assert(section_views(out@) =~= Seq::<SectionView>::empty());
    while i < files.len()
        invariant
            i <= files@.len(),
            section_views(out@) == gathered_sections(files@, i as int),
        decreases files@.len() - i,
    {
        if let Some(records) = &files[i] {
            let ghost before = section_views(out@);
            let mut j: usize = 0;
            while j < records.len()
                invariant
                    j <= records@.len(),
                    section_views(out@) == before + sections_of(records@).subrange(0, j as int),
                decreases records@.len() - j,
            {
                let ghost so_far = section_views(out@);
                let section = records[j].to_section();
                out.push(section);
                assert(section_views(out@) =~= so_far.push(records@[j as int].section()));
                assert(sections_of(records@).subrange(0, j + 1) =~= sections_of(records@).subrange(
                    0,
                    j as int,
                ).push(records@[j as int].section()));
                j = j + 1;
            }
            assert(sections_of(records@).subrange(0, records@.len() as int) =~= sections_of(
                records@,
            ));
        }
        i = i + 1;
    }
    out
}

} // verus!
