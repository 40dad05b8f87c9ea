//! Conditions on records: patterns for strings and the evaluation of a
//! filter against a record.

use vstd::prelude::*;
use vstd::string::*;
use crate::errors::{EngineError, Fault};
use crate::number::Num;
use crate::query::Filter;
use crate::text::chars_of;
use crate::types::{Dataset, Datum, KVPair, Table, Value};

verus! {

/// A result as contracts speak of it, with the error by its kind.
pub open spec fn lifted<T>(r: Result<T, EngineError>) -> Result<T, Fault> {
    match r {
        Ok(v) => Ok(v),
        Err(e) => Err(e@),
    }
}

/// A pattern may hold `*` only as its first or its last character.
pub open spec fn valid_pattern(p: Seq<char>) -> bool {
    forall|i: int| 0 < i < p.len() - 1 ==> p[i] != '*'
}

/// Whether the pattern begins with a wildcard.
pub open spec fn leading(p: Seq<char>) -> bool {
    p.len() >= 1 && p[0] == '*'
}

/// Whether the pattern ends with a wildcard that is not also its beginning.
pub open spec fn trailing(p: Seq<char>) -> bool {
    p.len() >= 2 && p[p.len() - 1] == '*'
}

/// The pattern without its wildcards.
pub open spec fn literal_part(p: Seq<char>) -> Seq<char> {
    p.subrange(
        if leading(p) {
            1
        } else {
            0
        },
        if trailing(p) {
            p.len() - 1
        } else {
            p.len() as int
        },
    )
}

/// Whether `word` stands in `text` at position `k`.
pub open spec fn occurs_at(text: Seq<char>, word: Seq<char>, k: int) -> bool {
    0 <= k && k + word.len() <= text.len() && text.subrange(k, k + word.len()) == word
}

/// Whether the whole of `text` matches a valid pattern: a wildcard stands for
/// any run of characters, everything else for itself.
pub open spec fn pattern_matches(p: Seq<char>, text: Seq<char>) -> bool {
    let word = literal_part(p);
    if leading(p) && trailing(p) {
        exists|k: int| occurs_at(text, word, k)
    } else if leading(p) {
        occurs_at(text, word, text.len() - word.len())
    } else if trailing(p) {
        occurs_at(text, word, 0)
    } else {
        text == word
    }
}

/// What matching `text` against a pattern gives.
pub open spec fn wildcard(p: Seq<char>, text: Seq<char>) -> Result<bool, Fault> {
    if valid_pattern(p) {
        Ok(pattern_matches(p, text))
    } else {
        Err(Fault::InvalidPattern(p))
    }
}

fn stands_at(text: &Vec<char>, word: &Vec<char>, from: usize, to: usize, k: usize) -> (r: bool)
    requires
        from <= to <= word@.len(),
    ensures
        r == occurs_at(text@, word@.subrange(from as int, to as int), k as int),
{
    let n = to - from;
    let size = text.len();
    if k > size || n > size - k {
        return false;
    }
    let ghost w = word@.subrange(from as int, to as int);
    let mut i: usize = 0;
    while i < n
        invariant
            i <= n,
            n == to - from,
            from <= to <= word@.len(),
            k + n <= size,
            size == text@.len(),
            w == word@.subrange(from as int, to as int),
            forall|j: int| 0 <= j < i ==> text@[k + j] == w[j],
        decreases n - i,
    {
        if text[k + i] != word[from + i] {
            assert(text@.subrange(k as int, k + n)[i as int] != w[i as int]);
            return false;
        }
        i = i + 1;
    }
    assert(text@.subrange(k as int, k + n) =~= w);
    true
}

/// Matches `text` against a pattern with wildcards at its ends.
pub fn wildcard_match(pattern: &str, text: &str) -> (r: Result<bool, EngineError>)
    ensures
        lifted(r) == wildcard(pattern@, text@),
{
    let p = chars_of(pattern);
    let s = chars_of(text);
    let n = p.len();
    let mut i: usize = 1;
    while i < n && i + 1 < n
        invariant
            1 <= i,
            n == p@.len(),
            p@ == pattern@,
            forall|j: int| 0 < j < i ==> p@[j] != '*',
        decreases n - i,
    {
        if p[i] == '*' {
            return Err(EngineError::InvalidPattern(String::from_str(pattern)));
        }
        i = i + 1;
    }
    let lead = n >= 1 && p[0] == '*';
    let trail = n >= 2 && p[n - 1] == '*';
    let from: usize = if lead {
        1
    } else {
        0
    };
    let to: usize = if trail {
        n - 1
    } else {
        n
    };
    let ghost word = literal_part(p@);
    if lead && trail {
        let m = to - from;
        if m > s.len() {
            assert(forall|k: int| !occurs_at(s@, word, k));
            return Ok(false);
        }
        let last = s.len() - m;
        let mut k: usize = 0;
        while k < last
            invariant
                k <= last,
                last + m == s@.len(),
                m == word.len(),
                from <= to <= p@.len(),
                word == p@.subrange(from as int, to as int),
                wildcard(pattern@, text@) == Ok::<bool, Fault>(exists|j: int| occurs_at(s@, word, j)),
                forall|j: int| 0 <= j < k ==> !occurs_at(s@, word, j),
            decreases last - k,
        {
            if stands_at(&s, &p, from, to, k) {
                return Ok(true);
            }
            k = k + 1;
        }
        let hit = stands_at(&s, &p, from, to, last);
        assert(!hit ==> forall|j: int| !occurs_at(s@, word, j));
        Ok(hit)
    } else if lead {
        let m = to - from;
        if m > s.len() {
            Ok(false)
        } else {
            Ok(stands_at(&s, &p, from, to, s.len() - m))
        }
    } else if trail {
        Ok(stands_at(&s, &p, from, to, 0))
    } else {
        let hit = s.len() == n && stands_at(&s, &p, from, to, 0);
        proof {
            if s@.len() == n {
                assert(s@.subrange(0, n as int) =~= s@);
            }
        }
        Ok(hit)
    }
}

/// The number in a column of a record, for a comparison.
pub open spec fn operand(t: Table, column: Seq<char>, operation: Seq<char>) -> Result<Num, Fault> {
    if !t.contains_key(column) {
        Err(Fault::FieldNotFound(column))
    } else {
        match t[column] {
            Datum::Num(x) => Ok(x),
            Datum::Str(_) => Err(Fault::TypeError { operation, field: column }),
        }
    }
}

/// The string in a column of a record, for a pattern.
pub open spec fn subject(t: Table, column: Seq<char>) -> Result<Seq<char>, Fault> {
    if !t.contains_key(column) {
        Err(Fault::FieldNotFound(column))
    } else {
        match t[column] {
            Datum::Str(s) => Ok(s),
            Datum::Num(_) => Err(Fault::TypeError { operation: "is"@, field: column }),
        }
    }
}

/// What the parts of a conjunction from the `i`-th on give together: the
/// first error among them, else whether all of them hold.
pub open spec fn every(parts: Vec<Filter>, t: Table, i: int) -> Result<bool, Fault>
    decreases parts, parts@.len() - i,
{
    if i < 0 || i >= parts@.len() {
        Ok(true)
    } else {
        match parts[i].verdict(t) {
            Err(e) => Err(e),
            Ok(b) => match every(parts, t, i + 1) {
                Err(e) => Err(e),
                Ok(rest) => Ok(b && rest),
            },
        }
    }
}

/// What the parts of a disjunction from the `i`-th on give together: the
/// first error among them, else whether one of them holds.
pub open spec fn some(parts: Vec<Filter>, t: Table, i: int) -> Result<bool, Fault>
    decreases parts, parts@.len() - i,
{
    if i < 0 || i >= parts@.len() {
        Ok(false)
    } else {
        match parts[i].verdict(t) {
            Err(e) => Err(e),
            Ok(b) => match some(parts, t, i + 1) {
                Err(e) => Err(e),
                Ok(rest) => Ok(b || rest),
            },
        }
    }
}

impl Filter {
    /// What the filter says of a record: whether it passes, or the first
    /// error met while deciding.
    pub open spec fn verdict(self, t: Table) -> Result<bool, Fault>
        decreases self, 0int,
    {
        match self {
            Filter::AND { and } => every(and, t, 0),
            Filter::OR { or } => some(or, t, 0),
            Filter::NOT { not } => match not.verdict(t) {
                Err(e) => Err(e),
                Ok(b) => Ok(!b),
            },
            Filter::LT { lt } => match operand(t, lt.key@, "lt"@) {
                Err(e) => Err(e),
                Ok(x) => Ok(x.key() < lt.value.key()),
            },
            Filter::GT { gt } => match operand(t, gt.key@, "gt"@) {
                Err(e) => Err(e),
                Ok(x) => Ok(x.key() > gt.value.key()),
            },
            Filter::EQ { eq } => match operand(t, eq.key@, "eq"@) {
                Err(e) => Err(e),
                Ok(x) => Ok(x.close_to(eq.value)),
            },
            Filter::IS { is } => match subject(t, is.key@) {
                Err(e) => Err(e),
                Ok(s) => wildcard(is.value@, s),
            },
            Filter::EMPTY {  } => Ok(true),
        }
    }
}

/// Evaluates a conjunction: every part in turn, stopping at the first error.
pub fn parse_and<D: Dataset>(and: &Vec<Filter>, course: &D) -> (r: Result<bool, EngineError>)
    ensures
        lifted(r) == every(*and, course.table(), 0),
    decreases and,
{
    let mut all = true;
    let mut i: usize = 0;
    while i < and.len()
        invariant
            i <= and@.len(),
            every(*and, course.table(), 0) == match every(*and, course.table(), i as int) {
                Err(e) => Err(e),
                Ok(rest) => Ok(all && rest),
            },
        decreases and@.len() - i,
    {
        match parse_filter(&and[i], course) {
            Err(e) => {
                return Err(e);
            },
            Ok(b) => {
                all = all && b;
            },
        }
        i = i + 1;
    }
    Ok(all)
}

/// Evaluates a disjunction: every part in turn, stopping at the first error.
pub fn parse_or<D: Dataset>(or: &Vec<Filter>, course: &D) -> (r: Result<bool, EngineError>)
    ensures
        lifted(r) == some(*or, course.table(), 0),
    decreases or,
{
    let mut any = false;
    let mut i: usize = 0;
    while i < or.len()
        invariant
            i <= or@.len(),
            some(*or, course.table(), 0) == match some(*or, course.table(), i as int) {
                Err(e) => Err(e),
                Ok(rest) => Ok(any || rest),
            },
        decreases or@.len() - i,
    {
        match parse_filter(&or[i], course) {
            Err(e) => {
                return Err(e);
            },
            Ok(b) => {
                any = any || b;
            },
        }
        i = i + 1;
    }
    Ok(any)
}

/// Fetches the number that a comparison is about.
pub fn parse_comparison<D: Dataset>(args: &KVPair<Num>, course: &D, op: &'static str) -> (r: Result<
    Num,
    EngineError,
>)
    ensures
        lifted(r) == operand(course.table(), args.key@, op@),
{
    match course.get(args.key.as_str()) {
        Ok(Value::Num(x)) => Ok(x),
        Ok(Value::Str(_)) => Err(EngineError::TypeError { operation: op, field: args.key.clone() }),
        Err(_) => Err(EngineError::FieldNotFound(args.key.clone())),
    }
}

/// Evaluates a filter against a record.
pub fn parse_filter<D: Dataset>(filter: &Filter, course: &D) -> (r: Result<bool, EngineError>)
    ensures
        lifted(r) == filter.verdict(course.table()),
    decreases filter,
{
    match filter {
        Filter::AND { and } => parse_and(and, course),
        Filter::OR { or } => parse_or(or, course),
        Filter::NOT { not } => match parse_filter(not, course) {
            Err(e) => Err(e),
            Ok(b) => Ok(!b),
        },
        Filter::LT { lt } => match parse_comparison(lt, course, "lt") {
            Err(e) => Err(e),
            Ok(x) => Ok(x.less(lt.value)),
        },
        Filter::GT { gt } => match parse_comparison(gt, course, "gt") {
            Err(e) => Err(e),
            Ok(x) => Ok(gt.value.less(x)),
        },
        Filter::EQ { eq } => match parse_comparison(eq, course, "eq") {
            Err(e) => Err(e),
            Ok(x) => Ok(x.near(eq.value)),
        },
        Filter::IS { is } => match course.get(is.key.as_str()) {
            Ok(Value::Str(s)) => wildcard_match(is.value.as_str(), s.as_str()),
            Ok(Value::Num(_)) => Err(
                EngineError::TypeError { operation: "is", field: is.key.clone() },
            ),
            Err(_) => Err(EngineError::FieldNotFound(is.key.clone())),
        },
        Filter::EMPTY {  } => Ok(true),
    }
}

} // verus!
