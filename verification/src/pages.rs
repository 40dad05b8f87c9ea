//! What an HTML page holds: the texts and attributes of the elements that
//! selectors pick, and text without the white space at its ends.

use vstd::prelude::*;
use vstd::string::*;
use scraper::{Html, Selector};
use crate::rows::names;
use crate::text::{chars_of, joined};

verus! {

/// Whether a character is white space, as Unicode defines it.
pub open spec fn is_space(c: char) -> bool {
    let n = c as int;
    (0x09 <= n <= 0x0d) || n == 0x20 || n == 0x85 || n == 0xa0 || n == 0x1680 || (0x2000 <= n
        <= 0x200a) || n == 0x2028 || n == 0x2029 || n == 0x202f || n == 0x205f || n == 0x3000
}

/// Where the text without leading white space begins, looking from `i` on.
pub open spec fn trim_start(s: Seq<char>, i: int) -> int
    decreases s.len() - i,
{
    if i < 0 || i >= s.len() {
        s.len() as int
    } else if is_space(s[i]) {
        trim_start(s, i + 1)
    } else {
        i
    }
}

/// Where the text without trailing white space ends, looking at the first
/// `n` characters.
pub open spec fn trim_end(s: Seq<char>, n: int) -> int
    decreases n,
{
    if n <= 0 {
        0
    } else if is_space(s[n - 1]) {
        trim_end(s, n - 1)
    } else {
        n
    }
}

/// The text without the white space at its ends.
pub open spec fn trimmed(s: Seq<char>) -> Seq<char> {
    let from = trim_start(s, 0);
    let to = trim_end(s, s.len() as int);
    if from <= to {
        s.subrange(from, to)
    } else {
        Seq::<char>::empty()
    }
}

fn space(c: char) -> (r: bool)
    ensures
        r == is_space(c),
{
    let n = c as u32;
    (0x09 <= n && n <= 0x0d) || n == 0x20 || n == 0x85 || n == 0xa0 || n == 0x1680 || (0x2000 <= n
        && n <= 0x200a) || n == 0x2028 || n == 0x2029 || n == 0x202f || n == 0x205f || n == 0x3000
}

/// The text without the white space at its ends.
pub fn trim(text: &str) -> (r: String)
    ensures
        r@ == trimmed(text@),
{
    let chars = chars_of(text);
    let n = chars.len();
    let mut from: usize = 0;
    while from < n && space(chars[from])
        invariant
            from <= n,
            n == chars@.len(),
            chars@ == text@,
            trim_start(text@, 0) == trim_start(text@, from as int),
        decreases n - from,
    {
        from = from + 1;
    }
    let mut to: usize = n;
    while to > 0 && space(chars[to - 1])
        invariant
            to <= n,
            n == chars@.len(),
            chars@ == text@,
            trim_end(text@, n as int) == trim_end(text@, to as int),
        decreases to,
    {
        to = to - 1;
    }
    if from <= to {
        String::from_str(text.substring_char(from, to))
    } else {
        String::new()
    }
}

/// Texts that may be missing, as contracts speak of them.
pub open spec fn cells(list: Seq<Option<String>>) -> Seq<Option<Seq<char>>> {
    Seq::new(
        list.len(),
        |i: int|
            match list[i] {
                Some(s) => Some(s@),
                None => None,
            },
    )
}

/// Texts in three levels, as contracts speak of them.
pub open spec fn nested_texts(list: Seq<Vec<Vec<String>>>) -> Seq<Seq<Seq<Seq<char>>>> {
    Seq::new(
        list.len(),
        |i: int|
            Seq::new(
                list[i]@.len(),
                |j: int| Seq::new(list[i]@[j]@.len(), |k: int| list[i]@[j]@[k]@),
            ),
    )
}

/// Texts that may be missing, in two levels, as contracts speak of them.
pub open spec fn nested_cells(list: Seq<Vec<Option<String>>>) -> Seq<Seq<Option<Seq<char>>>> {
    Seq::new(list.len(), |i: int| cells(list[i]@))
}

/// For each element of the document that matches `scope`, for each element
/// below it that matches `target`: the text nodes below that element. Each
/// level is in the order in which the document, once parsed, gives it.
pub uninterp spec fn texts_below_of(html: Seq<char>, scope: Seq<char>, target: Seq<char>) -> Seq<
    Seq<Seq<Seq<char>>>,
>;

/// For each element of the document that matches `scope`, for each element
/// below it that matches `target`: the value of that element's attribute
/// `name`, if it has one.
pub uninterp spec fn attributes_below_of(
    html: Seq<char>,
    scope: Seq<char>,
    target: Seq<char>,
    name: Seq<char>,
) -> Seq<Seq<Option<Seq<char>>>>;

/// Parses the document with `scraper::Html::parse_document` and the two
/// selectors with `scraper::Selector::parse`, and hands out, for each
/// element that `Html::select` gives for `scope` and each element that
/// `ElementRef::select` gives below it for `target`, the items of
/// `ElementRef::text`. The contract claims only that the result is a
/// function of the three texts. A selector that does not parse gives
/// nothing.
#[verifier::external_body]
fn texts_below(html: &str, scope: &str, target: &str) -> (r: Vec<Vec<Vec<String>>>)
    ensures
        nested_texts(r@) == texts_below_of(html@, scope@, target@),
{
    let document = Html::parse_document(html);
    let (outer, inner) = match (Selector::parse(scope), Selector::parse(target)) {
        (Ok(outer), Ok(inner)) => (outer, inner),
        _ => return Vec::new(),
    };
    document.select(&outer).map(
        |e| e.select(&inner).map(|c| c.text().map(|t| t.to_string()).collect()).collect(),
    ).collect()
}

/// As `texts_below`, but hands out for each element what `Element::attr`
/// gives for `name`. The contract claims only that the result is a function
/// of the four texts.
#[verifier::external_body]
fn attributes_below(html: &str, scope: &str, target: &str, name: &str) -> (r: Vec<
    Vec<Option<String>>,
>)
    ensures
        nested_cells(r@) == attributes_below_of(html@, scope@, target@, name@),
{
    let document = Html::parse_document(html);
    let (outer, inner) = match (Selector::parse(scope), Selector::parse(target)) {
        (Ok(outer), Ok(inner)) => (outer, inner),
        _ => return Vec::new(),
    };
    document.select(&outer).map(
        |e| e.select(&inner).map(|c| c.value().attr(name).map(|t| t.to_string())).collect(),
    ).collect()
}

/// The first `n` of the texts, one after the other.
pub open spec fn spliced(parts: Seq<Seq<char>>, n: int) -> Seq<char>
    decreases n,
{
    if n <= 0 {
        Seq::<char>::empty()
    } else {
        spliced(parts, n - 1) + parts[n - 1]
    }
}

/// The first text of the first element, if there is one.
pub open spec fn first_text_in(found: Seq<Seq<Seq<char>>>) -> Option<Seq<char>> {
    if found.len() > 0 && found[0].len() > 0 {
        Some(found[0][0])
    } else {
        None
    }
}

/// All the text of the first element, if there is an element.
pub open spec fn whole_text_in(found: Seq<Seq<Seq<char>>>) -> Option<Seq<char>> {
    if found.len() > 0 {
        Some(spliced(found[0], found[0].len() as int))
    } else {
        None
    }
}

/// The attribute of the first element, if there is an element and it has
/// the attribute.
pub open spec fn first_attribute_in(found: Seq<Option<Seq<char>>>) -> Option<Seq<char>> {
    if found.len() > 0 {
        found[0]
    } else {
        None
    }
}

/// For each group of elements: the first text of its first element.
pub open spec fn first_texts_in(found: Seq<Seq<Seq<Seq<char>>>>) -> Seq<Option<Seq<char>>> {
    Seq::new(found.len(), |i: int| first_text_in(found[i]))
}

/// For each group of elements: all the text of its first element.
pub open spec fn whole_texts_in(found: Seq<Seq<Seq<Seq<char>>>>) -> Seq<Option<Seq<char>>> {
    Seq::new(found.len(), |i: int| whole_text_in(found[i]))
}

/// For each group of elements: the attribute of its first element.
pub open spec fn first_attributes_in(found: Seq<Seq<Option<Seq<char>>>>) -> Seq<Option<Seq<char>>> {
    Seq::new(found.len(), |i: int| first_attribute_in(found[i]))
}

/// For each element of the document that matches `scope`: the first text
/// node under the first element below it that matches `target`.
pub open spec fn first_texts_of(html: Seq<char>, scope: Seq<char>, target: Seq<char>) -> Seq<
    Option<Seq<char>>,
> {
    first_texts_in(texts_below_of(html, scope, target))
}

/// For each element of the document that matches `scope`: all the text
/// under the first element below it that matches `target`.
pub open spec fn whole_texts_of(html: Seq<char>, scope: Seq<char>, target: Seq<char>) -> Seq<
    Option<Seq<char>>,
> {
    whole_texts_in(texts_below_of(html, scope, target))
}

/// For each element of the document that matches `scope`: the value of the
/// attribute `name` of the first element below it that matches `target`.
pub open spec fn attributes_of(
    html: Seq<char>,
    scope: Seq<char>,
    target: Seq<char>,
    name: Seq<char>,
) -> Seq<Option<Seq<char>>> {
    first_attributes_in(attributes_below_of(html, scope, target, name))
}

fn splice(parts: &Vec<String>) -> (r: String)
    ensures
        r@ == spliced(names(parts@), parts@.len() as int),
{
    let mut out = String::new();
    let mut i: usize = 0;
    while i < parts.len()
        invariant
            i <= parts@.len(),
            out@ == spliced(names(parts@), i as int),
        decreases parts@.len() - i,
    {
        assert(names(parts@)[i as int] == parts@[i as int]@);
        out = joined(out.as_str(), parts[i].as_str());
        i = i + 1;
    }
    out
}

/// For each group of elements: the first text of its first element.
pub fn pick_first_texts(found: &Vec<Vec<Vec<String>>>) -> (r: Vec<Option<String>>)
    ensures
        cells(r@) == first_texts_in(nested_texts(found@)),
{
    let ghost given = nested_texts(found@);
    let mut out: Vec<Option<String>> = Vec::new();
    let mut i: usize = 0;
    while i < found.len()
        invariant
            i <= found@.len(),
            out@.len() == i,
            given == nested_texts(found@),
            forall|x: int| 0 <= x < i ==> #[trigger] cells(out@)[x] == first_text_in(given[x]),
        decreases found@.len() - i,
    {
        let ghost before = out@;
        let below = &found[i];
        let cell = if below.len() > 0 && below[0].len() > 0 {
            Some(below[0][0].clone())
        } else {
            None
        };
        proof {
            let g = given[i as int];
            assert(g.len() == below@.len());
            if below@.len() > 0 {
                assert(g[0].len() == below@[0]@.len());
                if below@[0]@.len() > 0 {
                    assert(g[0][0] == below@[0]@[0]@);
                }
            }
        }
        out.push(cell);
        assert forall|x: int| 0 <= x < i + 1 implies #[trigger] cells(out@)[x] == first_text_in(
            given[x],
        ) by {
            if x < i {
                assert(cells(before)[x] == cells(out@)[x]);
            }
        }
        i = i + 1;
    }
    assert(cells(out@) =~= first_texts_in(given));
    out
}

/// For each group of elements: all the text of its first element.
pub fn pick_whole_texts(found: &Vec<Vec<Vec<String>>>) -> (r: Vec<Option<String>>)
    ensures
        cells(r@) == whole_texts_in(nested_texts(found@)),
{
    let ghost given = nested_texts(found@);
    let mut out: Vec<Option<String>> = Vec::new();
    let mut i: usize = 0;
    while i < found.len()
        invariant
            i <= found@.len(),
            out@.len() == i,
            given == nested_texts(found@),
            forall|x: int| 0 <= x < i ==> #[trigger] cells(out@)[x] == whole_text_in(given[x]),
        decreases found@.len() - i,
    {
        let ghost before = out@;
        let below = &found[i];
        let cell = if below.len() > 0 {
            Some(splice(&below[0]))
        } else {
            None
        };
        proof {
            let g = given[i as int];
            assert(g.len() == below@.len());
            if below@.len() > 0 {
                assert(g[0] =~= names(below@[0]@));
            }
        }
        out.push(cell);
        assert forall|x: int| 0 <= x < i + 1 implies #[trigger] cells(out@)[x] == whole_text_in(
            given[x],
        ) by {
            if x < i {
                assert(cells(before)[x] == cells(out@)[x]);
            }
        }
        i = i + 1;
    }
    assert(cells(out@) =~= whole_texts_in(given));
    out
}

/// For each group of elements: the attribute of its first element.
pub fn pick_attributes(found: &Vec<Vec<Option<String>>>) -> (r: Vec<Option<String>>)
    ensures
        cells(r@) == first_attributes_in(nested_cells(found@)),
{
    let ghost given = nested_cells(found@);
    let mut out: Vec<Option<String>> = Vec::new();
    let mut i: usize = 0;
    while i < found.len()
        invariant
            i <= found@.len(),
            out@.len() == i,
            given == nested_cells(found@),
            forall|x: int| 0 <= x < i ==> #[trigger] cells(out@)[x] == first_attribute_in(given[x]),
        decreases found@.len() - i,
    {
        let ghost before = out@;
        let below = &found[i];
        let cell = if below.len() > 0 {
            match &below[0] {
                Some(value) => Some(value.clone()),
                None => None,
            }
        } else {
            None
        };
        proof {
            let g = given[i as int];
            assert(g == cells(below@));
            if below@.len() > 0 {
                assert(g[0] == cells(below@)[0]);
            }
        }
        out.push(cell);
        assert forall|x: int| 0 <= x < i + 1 implies #[trigger] cells(out@)[x]
            == first_attribute_in(given[x]) by {
            if x < i {
                assert(cells(before)[x] == cells(out@)[x]);
            }
        }
        i = i + 1;
    }
    assert(cells(out@) =~= first_attributes_in(given));
    out
}

/// For each element of the document that matches `scope`: the first text
/// node under the first element below it that matches `target`.
pub fn first_texts(html: &str, scope: &str, target: &str) -> (r: Vec<Option<String>>)
    ensures
        cells(r@) == first_texts_of(html@, scope@, target@),
{
    pick_first_texts(&texts_below(html, scope, target))
}

/// For each element of the document that matches `scope`: all the text
/// under the first element below it that matches `target`.
pub fn whole_texts(html: &str, scope: &str, target: &str) -> (r: Vec<Option<String>>)
    ensures
        cells(r@) == whole_texts_of(html@, scope@, target@),
{
    pick_whole_texts(&texts_below(html, scope, target))
}

/// For each element of the document that matches `scope`: the value of the
/// attribute `name` of the first element below it that matches `target`.
pub fn attributes(html: &str, scope: &str, target: &str, name: &str) -> (r: Vec<Option<String>>)
    ensures
        cells(r@) == attributes_of(html@, scope@, target@, name@),
{
    pick_attributes(&attributes_below(html, scope, target, name))
}

} // verus!
