use vstd::prelude::*;
use vstd::string::*;

use crate::date::{
    is_canonical_date_text, is_digit, lemma_date_round_trip, lemma_date_text_round_trip,
    lemma_render_chars, parse_date_spec, render_date_spec, Date,
};
use crate::errors::InputParseError;

verus! {

/// The first index at or after `i` where the text holds `..`, or -1.
pub open spec fn find_dots_from(s: Seq<char>, i: int) -> int
    decreases s.len() - i,
{
    if i < 0 || i + 1 >= s.len() {
        -1
    } else if s[i] == '.' && s[i + 1] == '.' {
        i
    } else {
        find_dots_from(s, i + 1)
    }
}

/// The dates from `start` to `end`, both included.
#[derive(Debug, Clone, Copy, PartialEq, Eq, Structural, Hash)]
pub struct DateRange {
    pub start: Date,
    pub end: Date,
}

/// What parsing `<start>..<end>` gives: the text is cut at the first `..`.
pub open spec fn parse_range_spec(s: Seq<char>) -> Result<DateRange, InputParseError> {
    let i = find_dots_from(s, 0);
    if i < 0 {
        Err(InputParseError::MissingRangeDelimiter)
    } else {
        let a = parse_date_spec(s.subrange(0, i));
        let b = parse_date_spec(s.subrange(i + 2, s.len() as int));
        if a is Err {
            Err(a->Err_0)
        } else if b is Err {
            Err(b->Err_0)
        } else if b->Ok_0.spec_lt(a->Ok_0) {
            Err(InputParseError::StartAfterEnd)
        } else {
            Ok(DateRange { start: a->Ok_0, end: b->Ok_0 })
        }
    }
}

proof fn lemma_find_dots_bounds(s: Seq<char>, i: int)
    requires
        0 <= i,
    ensures
        find_dots_from(s, i) == -1 || (i <= find_dots_from(s, i) && find_dots_from(s, i) + 1
            < s.len()),
    decreases s.len() - i,
{
    if i + 1 < s.len() && !(s[i] == '.' && s[i + 1] == '.') {
        lemma_find_dots_bounds(s, i + 1);
    }
}

/// The text of a range: both dates, joined by `..`.
pub open spec fn render_range_spec(r: DateRange) -> Seq<char> {
    render_date_spec(r.start) + seq!['.', '.'] + render_date_spec(r.end)
}

impl DateRange {
    pub open spec fn wf(self) -> bool {
        self.start.spec_le(self.end)
    }

    pub open spec fn spec_contains(self, d: Date) -> bool {
        self.start.spec_le(d) && d.spec_le(self.end)
    }

    /// The range from `start` to `end`; fails where `start` comes after `end`.
    pub fn new(start: Date, end: Date) -> (r: Result<DateRange, InputParseError>)
        ensures
            r is Err <==> end.spec_lt(start),
            r is Err ==> r->Err_0 == InputParseError::StartAfterEnd,
            r is Ok ==> r->Ok_0 == (DateRange { start, end }),
    {
        if !start.at_or_before(&end) {
            return Err(InputParseError::StartAfterEnd);
        }
        Ok(DateRange { start, end })
    }

    /// Whether `date` lies in the range, both ends included.
    pub fn contains(&self, date: Date) -> (r: bool)
        ensures
            r == self.spec_contains(date),
    {
        self.start.at_or_before(&date) && date.at_or_before(&self.end)
    }

    /// The range's text, `<start>..<end>`.
    pub fn render(&self) -> (r: String)
        ensures
            r@ == render_range_spec(*self),
    {
        let mut s = self.start.render();
        s.append("..");
        let e = self.end.render();
        s.append(e.as_str());
        proof {
            reveal_strlit("..");
        }
        s
    }

    /// Parses `<start>..<end>`, cutting at the first `..`.
    pub fn parse(text: &str) -> (r: Result<DateRange, InputParseError>)
        ensures
            r == parse_range_spec(text@),
            r is Ok ==> r->Ok_0.wf() && r->Ok_0.start.wf() && r->Ok_0.end.wf(),
    {
        let n = text.unicode_len();
        let mut i: usize = 0;
        let mut found = false;
        while i < n && !found
            invariant
                n == text@.len(),
                0 <= i <= n,
                !found ==> find_dots_from(text@, 0) == find_dots_from(text@, i as int),
                found ==> find_dots_from(text@, 0) == i && i + 1 < n,
            decreases n - i + (if found { 0int } else { 1int }),
        {
            if i + 1 < n && text.get_char(i) == '.' && text.get_char(i + 1) == '.' {
                found = true;
            } else {
                i = i + 1;
            }
        }
        proof {
            lemma_find_dots_bounds(text@, 0);
        }
        if !found {
            return Err(InputParseError::MissingRangeDelimiter);
        }
        let first = text.substring_char(0, i);
        let second = text.substring_char(i + 2, n);
        let start = match Date::parse(first) {
            Ok(d) => d,
            Err(e) => return Err(e),
        };
        let end = match Date::parse(second) {
            Ok(d) => d,
            Err(e) => return Err(e),
        };
        DateRange::new(start, end)
    }
}

proof fn lemma_find_dots_at(s: Seq<char>, i: int, k: int)
    requires
        0 <= i <= k,
        k + 1 < s.len(),
        s[k] == '.',
        s[k + 1] == '.',
        forall|t: int| i <= t < k ==> s[t] != '.',
    ensures
        find_dots_from(s, i) == k,
    decreases k - i,
{
    if i < k {
        lemma_find_dots_at(s, i + 1, k);
    }
}

/// Reading the text of a valid range gives the range back.
pub proof fn lemma_range_round_trip(r: DateRange)
    requires
        r.wf(),
        r.start.wf(),
        r.end.wf(),
    ensures
        parse_range_spec(render_range_spec(r)) == Ok::<DateRange, InputParseError>(r),
{
    let a = render_date_spec(r.start);
    let b = render_date_spec(r.end);
    let t = render_range_spec(r);
    lemma_render_chars(r.start);
    assert forall|k: int| 0 <= k < a.len() implies t[k] != '.' by {
        assert(t[k] == a[k]);
        assert(is_digit(a[k]) || a[k] == '-');
    }
    lemma_find_dots_at(t, 0, a.len() as int);
    assert(t.subrange(0, a.len() as int) =~= a);
    assert(t.subrange(a.len() as int + 2, t.len() as int) =~= b);
    lemma_date_round_trip(r.start);
    lemma_date_round_trip(r.end);
}

/// A range's text in the form `YYYY-MM-DD..YYYY-MM-DD`.
pub open spec fn is_canonical_range_text(t: Seq<char>) -> bool {
    t.len() == 22 && t[10] == '.' && t[11] == '.' && is_canonical_date_text(t.subrange(0, 10))
        && is_canonical_date_text(t.subrange(12, 22))
}

/// A text in the form `YYYY-MM-DD..YYYY-MM-DD` that reads as a range is that
/// range's text, letter for letter.
pub proof fn lemma_range_text_round_trip(t: Seq<char>)
    requires
        is_canonical_range_text(t),
        parse_range_spec(t) is Ok,
    ensures
        render_range_spec(parse_range_spec(t)->Ok_0) == t,
{
    let a = t.subrange(0, 10);
    let b = t.subrange(12, 22);
    assert forall|k: int| 0 <= k < 10 implies t[k] != '.' by {
        assert(t[k] == a[k]);
        if k < 4 {
            assert(a.subrange(0, 4)[k] == a[k]);
        } else if 4 < k < 7 {
            assert(a.subrange(5, 7)[k - 5] == a[k]);
        } else if k > 7 {
            assert(a.subrange(8, 10)[k - 8] == a[k]);
        }
    }
    lemma_find_dots_at(t, 0, 10);
    assert(t.subrange(12, t.len() as int) =~= b);
    lemma_date_text_round_trip(a);
    lemma_date_text_round_trip(b);
    assert(t =~= a + seq!['.', '.'] + b);
}

} // verus!
