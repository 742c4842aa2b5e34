use vstd::prelude::*;
use vstd::string::*;

use crate::errors::InputParseError;

verus! {

pub open spec fn is_digit(c: char) -> bool {
    '0' <= c && c <= '9'
}

pub open spec fn all_digits(s: Seq<char>) -> bool {
    forall|i: int| 0 <= i < s.len() ==> is_digit(#[trigger] s[i])
}

pub open spec fn digit_value(c: char) -> int {
    c as int - '0' as int
}

/// The number that a string of decimal digits denotes.
pub open spec fn digits_value(s: Seq<char>) -> int
    decreases s.len(),
{
    if s.len() == 0 {
        0
    } else {
        digits_value(s.drop_last()) * 10 + digit_value(s.last())
    }
}

/// The digits of a number's text: an optional leading `+` is dropped.
pub open spec fn number_digits(s: Seq<char>) -> Seq<char> {
    if s.len() > 0 && s[0] == '+' {
        s.drop_first()
    } else {
        s
    }
}

/// The value of an unsigned number's text that must not exceed `max`:
/// an optional `+`, then one digit or more.
pub open spec fn number_of(s: Seq<char>, max: int) -> Option<int> {
    let d = number_digits(s);
    if d.len() > 0 && all_digits(d) && digits_value(d) <= max {
        Some(digits_value(d))
    } else {
        None
    }
}

/// The pieces of a text between the separators, in order; a text with `k`
/// separators has `k + 1` pieces.
pub open spec fn split_on(s: Seq<char>, sep: char) -> Seq<Seq<char>>
    decreases s.len(),
{
    if s.len() == 0 {
        seq![Seq::<char>::empty()]
    } else {
        let p = split_on(s.drop_last(), sep);
        if s.last() == sep {
            p.push(Seq::<char>::empty())
        } else {
            p.update(p.len() - 1, p.last().push(s.last()))
        }
    }
}

/// A calendar date. The day is checked against 1..=31 only, whatever the
/// month.
#[derive(Debug, Clone, Copy, PartialEq, Eq, Structural, Hash)]
pub struct Date {
    pub year: u16,
    pub month: u8,
    pub day: u8,
}

impl Date {
    pub open spec fn wf(self) -> bool {
        1 <= self.month <= 12 && 1 <= self.day <= 31
    }

    /// `self` comes strictly before `o`: by year, then month, then day.
    pub open spec fn spec_lt(self, o: Date) -> bool {
        self.year < o.year || (self.year == o.year && (self.month < o.month || (self.month
            == o.month && self.day < o.day)))
    }

    pub open spec fn spec_le(self, o: Date) -> bool {
        self.spec_lt(o) || self == o
    }

    /// `self` is on or before `o`.
    pub fn at_or_before(&self, o: &Date) -> (r: bool)
        ensures
            r == self.spec_le(*o),
    {
        self.year < o.year || (self.year == o.year && (self.month < o.month || (self.month
            == o.month && self.day <= o.day)))
    }

    /// Builds a date from its parts; `None` where the month is outside 1..=12
    /// or the day outside 1..=31.
    pub fn new(year: u16, month: u8, day: u8) -> (r: Option<Date>)
        ensures
            r == (if 1 <= month <= 12 && 1 <= day <= 31 {
                Some(Date { year, month, day })
            } else {
                None
            }),
    {
        if 1 <= month && month <= 12 && 1 <= day && day <= 31 {
            Some(Date { year, month, day })
        } else {
            None
        }
    }
}

/// The decimal digit that stands for `n` (0 to 9).
pub open spec fn digit_char(n: int) -> char {
    if n == 0 {
        '0'
    } else if n == 1 {
        '1'
    } else if n == 2 {
        '2'
    } else if n == 3 {
        '3'
    } else if n == 4 {
        '4'
    } else if n == 5 {
        '5'
    } else if n == 6 {
        '6'
    } else if n == 7 {
        '7'
    } else if n == 8 {
        '8'
    } else {
        '9'
    }
}

/// The last `w` decimal digits of `n`, zeros in front where `n` is shorter.
pub open spec fn padded(n: nat, w: nat) -> Seq<char>
    decreases w,
{
    if w == 0 {
        Seq::empty()
    } else {
        padded(n / 10, (w - 1) as nat).push(digit_char((n % 10) as int))
    }
}

/// A year as text: at least four digits.
pub open spec fn year_text(y: nat) -> Seq<char> {
    if y >= 10000 {
        padded(y, 5)
    } else {
        padded(y, 4)
    }
}

/// A month or a day as text: at least two digits.
pub open spec fn two_digit_text(n: nat) -> Seq<char> {
    if n >= 100 {
        padded(n, 3)
    } else {
        padded(n, 2)
    }
}

/// The text of a date: `YYYY-MM-DD`, zero-padded.
pub open spec fn render_date_spec(d: Date) -> Seq<char> {
    year_text(d.year as nat) + seq!['-'] + two_digit_text(d.month as nat) + seq!['-']
        + two_digit_text(d.day as nat)
}

fn digit_str(d: u32) -> (r: &'static str)
    requires
        d < 10,
    ensures
        r@ == seq![digit_char(d as int)],
{
    proof {
        reveal_strlit("0");
        reveal_strlit("1");
        reveal_strlit("2");
        reveal_strlit("3");
        reveal_strlit("4");
        reveal_strlit("5");
        reveal_strlit("6");
        reveal_strlit("7");
        reveal_strlit("8");
        reveal_strlit("9");
    }
    if d == 0 {
        "0"
    } else if d == 1 {
        "1"
    } else if d == 2 {
        "2"
    } else if d == 3 {
        "3"
    } else if d == 4 {
        "4"
    } else if d == 5 {
        "5"
    } else if d == 6 {
        "6"
    } else if d == 7 {
        "7"
    } else if d == 8 {
        "8"
    } else {
        "9"
    }
}

/// Appends the last `w` digits of `n`.
fn append_padded(s: &mut String, n: u32, w: usize)
    ensures
        final(s)@ == old(s)@ + padded(n as nat, w as nat),
    decreases w,
{
    if w == 0 {
        proof {
            assert(final(s)@ =~= old(s)@ + padded(n as nat, w as nat));
        }
        return;
    }
    append_padded(s, n / 10, w - 1);
    s.append(digit_str(n % 10));
    proof {
        assert(final(s)@ =~= old(s)@ + padded(n as nat, w as nat));
    }
}

impl Date {
    /// The date's text, `YYYY-MM-DD`: the year has four digits or more, the
    /// month and the day two or more.
    pub fn render(&self) -> (r: String)
        ensures
            r@ == render_date_spec(*self),
    {
        let mut s = String::new();
        if self.year >= 10000 {
            append_padded(&mut s, self.year as u32, 5);
        } else {
            append_padded(&mut s, self.year as u32, 4);
        }
        s.append("-");
        if self.month >= 100 {
            append_padded(&mut s, self.month as u32, 3);
        } else {
            append_padded(&mut s, self.month as u32, 2);
        }
        s.append("-");
        if self.day >= 100 {
            append_padded(&mut s, self.day as u32, 3);
        } else {
            append_padded(&mut s, self.day as u32, 2);
        }
        proof {
            reveal_strlit("-");
            assert(s@ =~= render_date_spec(*self));
        }
        s
    }
}

/// What parsing a date's text gives: the pieces between dashes are year,
/// month and day, checked in that order.
pub open spec fn parse_date_spec(s: Seq<char>) -> Result<Date, InputParseError> {
    let p = split_on(s, '-');
    let y = number_of(p[0], 65535);
    if y is None {
        Err(InputParseError::InvalidYear)
    } else if p.len() < 2 {
        Err(InputParseError::MissingMonth)
    } else if number_of(p[1], 255) is None {
        Err(InputParseError::InvalidMonth)
    } else if p.len() < 3 {
        Err(InputParseError::MissingDay)
    } else if number_of(p[2], 255) is None {
        Err(InputParseError::InvalidDay)
    } else if p.len() > 3 {
        Err(InputParseError::TooManyComponents)
    } else {
        let m = number_of(p[1], 255)->Some_0;
        let d = number_of(p[2], 255)->Some_0;
        if !(1 <= m <= 12) {
            Err(InputParseError::MonthOutOfRange)
        } else if !(1 <= d <= 31) {
            Err(InputParseError::DayOutOfRange)
        } else {
            Ok(Date { year: y->Some_0 as u16, month: m as u8, day: d as u8 })
        }
    }
}

pub proof fn lemma_split_on_len(s: Seq<char>, sep: char)
    ensures
        split_on(s, sep).len() >= 1,
    decreases s.len(),
{
    if s.len() > 0 {
        lemma_split_on_len(s.drop_last(), sep);
    }
}

proof fn lemma_digits_value_nonneg(s: Seq<char>)
    requires
        all_digits(s),
    ensures
        digits_value(s) >= 0,
    decreases s.len(),
{
    if s.len() > 0 {
        lemma_digits_value_nonneg(s.drop_last());
    }
}

/// Splits a text at each `sep`.
fn split_chars(text: &str, sep: char) -> (r: Vec<Vec<char>>)
    ensures
        r@.len() == split_on(text@, sep).len(),
        forall|j: int| 0 <= j < r@.len() ==> (#[trigger] r@[j])@ == split_on(text@, sep)[j],
{
    let n = text.unicode_len();
    let mut done: Vec<Vec<char>> = Vec::new();
    let mut cur: Vec<char> = Vec::new();
    let mut i: usize = 0;
    proof {
        assert(text@.subrange(0, 0) =~= Seq::<char>::empty());
    }
    while i < n
        invariant
            n == text@.len(),
            0 <= i <= n,
            done@.len() + 1 == split_on(text@.subrange(0, i as int), sep).len(),
            forall|j: int|
                0 <= j < done@.len() ==> (#[trigger] done@[j])@ == split_on(
                    text@.subrange(0, i as int),
                    sep,
                )[j],
            cur@ == split_on(text@.subrange(0, i as int), sep).last(),
        decreases n - i,
    {
        let c = text.get_char(i);
        let ghost pre = text@.subrange(0, i as int);
        let ghost next = text@.subrange(0, i + 1);
        proof {
            assert(next.drop_last() =~= pre);
            lemma_split_on_len(pre, sep);
        }
        if c == sep {
            done.push(cur);
            cur = Vec::new();
            proof {
                assert(cur@ =~= Seq::<char>::empty());
            }
        } else {
            cur.push(c);
        }
        i = i + 1;
    }
    proof {
        assert(text@.subrange(0, n as int) =~= text@);
    }
    done.push(cur);
    done
}

/// Reads the text of an unsigned number no greater than `max`.
fn parse_number(piece: &Vec<char>, max: u32) -> (r: Option<u32>)
    ensures
        match r {
            Some(v) => number_of(piece@, max as int) == Some(v as int),
            None => number_of(piece@, max as int) is None,
        },
{
    let len = piece.len();
    let mut start: usize = 0;
    if len > 0 && piece[0] == '+' {
        start = 1;
    }
    proof {
        assert(number_digits(piece@) =~= piece@.subrange(start as int, len as int));
    }
    if start >= len {
        return None;
    }
    let mut acc: u32 = 0;
    let mut big = false;
    let mut i: usize = start;
    proof {
        assert(piece@.subrange(start as int, start as int) =~= Seq::<char>::empty());
    }
    while i < len
        invariant
            len == piece@.len(),
            start <= i <= len,
            number_digits(piece@) == piece@.subrange(start as int, len as int),
            all_digits(piece@.subrange(start as int, i as int)),
            !big ==> acc as int == digits_value(piece@.subrange(start as int, i as int)) && acc
                <= max,
            big ==> digits_value(piece@.subrange(start as int, i as int)) > max,
        decreases len - i,
    {
        let c = piece[i];
        let ghost pre = piece@.subrange(start as int, i as int);
        let ghost next = piece@.subrange(start as int, i + 1);
        if !('0' <= c && c <= '9') {
            proof {
                let d = number_digits(piece@);
                assert(d[i - start] == c);
                assert(!is_digit(d[i - start]));
            }
            return None;
        }
        proof {
            assert(next.drop_last() =~= pre);
            assert(next.last() == c);
            assert(all_digits(next)) by {
                assert forall|k: int| 0 <= k < next.len() implies is_digit(#[trigger] next[k]) by {
                    if k < pre.len() {
                        assert(next[k] == pre[k]);
                    }
                }
            }
            lemma_digits_value_nonneg(pre);
        }
        let dv = (c as u32) - ('0' as u32);
        if !big {
            let v: u64 = acc as u64 * 10 + dv as u64;
            if v > max as u64 {
                big = true;
            } else {
                acc = v as u32;
            }
        }
        i = i + 1;
    }
    proof {
        assert(piece@.subrange(start as int, len as int) =~= number_digits(piece@));
    }
    if big {
        None
    } else {
        Some(acc)
    }
}

impl Date {
    /// Parses `YYYY-MM-DD`: exactly three pieces between dashes, each an
    /// unsigned number (year up to 65535), month in 1..=12, day in 1..=31.
    pub fn parse(text: &str) -> (r: Result<Date, InputParseError>)
        ensures
            r == parse_date_spec(text@),
            r is Ok ==> r->Ok_0.wf(),
    {
        let pieces = split_chars(text, '-');
        proof {
            lemma_split_on_len(text@, '-');
        }
        let y = parse_number(&pieces[0], 65535);
        if y.is_none() {
            return Err(InputParseError::InvalidYear);
        }
        if pieces.len() < 2 {
            return Err(InputParseError::MissingMonth);
        }
        let m = parse_number(&pieces[1], 255);
        if m.is_none() {
            return Err(InputParseError::InvalidMonth);
        }
        if pieces.len() < 3 {
            return Err(InputParseError::MissingDay);
        }
        let d = parse_number(&pieces[2], 255);
        if d.is_none() {
            return Err(InputParseError::InvalidDay);
        }
        if pieces.len() > 3 {
            return Err(InputParseError::TooManyComponents);
        }
        let year = y.unwrap();
        let month = m.unwrap();
        let day = d.unwrap();
        if !(1 <= month && month <= 12) {
            return Err(InputParseError::MonthOutOfRange);
        }
        if !(1 <= day && day <= 31) {
            return Err(InputParseError::DayOutOfRange);
        }
        Ok(Date { year: year as u16, month: month as u8, day: day as u8 })
    }
}

/// Ten to the power `w`.
pub open spec fn pow10(w: nat) -> nat
    decreases w,
{
    if w == 0 {
        1
    } else {
        10 * pow10((w - 1) as nat)
    }
}

/// A date's text in the form `YYYY-MM-DD`: ten characters, all digits but
/// the two dashes.
pub open spec fn is_canonical_date_text(t: Seq<char>) -> bool {
    t.len() == 10 && t[4] == '-' && t[7] == '-' && all_digits(t.subrange(0, 4)) && all_digits(
        t.subrange(5, 7),
    ) && all_digits(t.subrange(8, 10))
}

proof fn lemma_padded_digits(n: nat, w: nat)
    ensures
        padded(n, w).len() == w,
        all_digits(padded(n, w)),
    decreases w,
{
    if w > 0 {
        lemma_padded_digits(n / 10, (w - 1) as nat);
        let p = padded(n, w);
        assert forall|i: int| 0 <= i < p.len() implies is_digit(#[trigger] p[i]) by {
            if i < w - 1 {
                assert(p[i] == padded(n / 10, (w - 1) as nat)[i]);
            }
        }
    }
}

proof fn lemma_padded_value(n: nat, w: nat)
    requires
        n < pow10(w),
    ensures
        digits_value(padded(n, w)) == n,
    decreases w,
{
    if w > 0 {
        let p = pow10((w - 1) as nat);
        assert(n / 10 < p) by (nonlinear_arith)
            requires
                n < 10 * p,
        ;
        lemma_padded_value(n / 10, (w - 1) as nat);
        assert(padded(n, w).drop_last() =~= padded(n / 10, (w - 1) as nat));
    }
}

proof fn lemma_digits_bound(s: Seq<char>)
    requires
        all_digits(s),
    ensures
        0 <= digits_value(s) < pow10(s.len()),
    decreases s.len(),
{
    if s.len() > 0 {
        let p = s.drop_last();
        assert(all_digits(p)) by {
            assert forall|i: int| 0 <= i < p.len() implies is_digit(#[trigger] p[i]) by {
                assert(p[i] == s[i]);
            }
        }
        lemma_digits_bound(p);
        let v = digits_value(p);
        let q = pow10(p.len());
        let d = digit_value(s.last());
        assert(is_digit(s[s.len() - 1]));
        assert(v * 10 + d < 10 * q) by (nonlinear_arith)
            requires
                0 <= v < q,
                0 <= d < 10,
        ;
    }
}

proof fn lemma_padded_of_digits(s: Seq<char>)
    requires
        all_digits(s),
    ensures
        padded(digits_value(s) as nat, s.len()) == s,
    decreases s.len(),
{
    if s.len() > 0 {
        let p = s.drop_last();
        assert(all_digits(p)) by {
            assert forall|i: int| 0 <= i < p.len() implies is_digit(#[trigger] p[i]) by {
                assert(p[i] == s[i]);
            }
        }
        lemma_padded_of_digits(p);
        lemma_digits_bound(p);
        assert(is_digit(s[s.len() - 1]));
        let v = digits_value(s);
        assert(v / 10 == digits_value(p));
        assert(v % 10 == digit_value(s.last()));
        assert(s =~= p.push(s.last()));
    }
}

proof fn lemma_split_no_sep_suffix(t: Seq<char>, a: Seq<char>, sep: char)
    requires
        forall|k: int| 0 <= k < a.len() ==> a[k] != sep,
    ensures
        split_on(t + a, sep) == split_on(t, sep).update(
            split_on(t, sep).len() - 1,
            split_on(t, sep).last() + a,
        ),
    decreases a.len(),
{
    lemma_split_on_len(t, sep);
    if a.len() == 0 {
        assert(t + a =~= t);
        assert(split_on(t, sep).last() + a =~= split_on(t, sep).last());
        assert(split_on(t, sep).update(split_on(t, sep).len() - 1, split_on(t, sep).last())
            =~= split_on(t, sep));
    } else {
        let b = a.drop_last();
        lemma_split_no_sep_suffix(t, b, sep);
        assert((t + a).drop_last() =~= t + b);
        assert((t + a).last() == a[a.len() - 1]);
        let p = split_on(t, sep);
        let q = split_on(t + b, sep);
        assert(q.len() == p.len());
        assert(q.last() == p.last() + b);
        assert(a.last() != sep);
        assert(split_on(t + a, sep) == q.update(q.len() - 1, q.last().push(a.last())));
        assert((p.last() + b).push(a.last()) =~= p.last() + a);
        assert(split_on(t + a, sep) =~= split_on(t, sep).update(
            split_on(t, sep).len() - 1,
            split_on(t, sep).last() + a,
        ));
    }
}

/// The pieces of `y-m-d` between dashes, where no piece holds a dash.
proof fn lemma_split_three(y: Seq<char>, m: Seq<char>, d: Seq<char>)
    requires
        forall|k: int| 0 <= k < y.len() ==> y[k] != '-',
        forall|k: int| 0 <= k < m.len() ==> m[k] != '-',
        forall|k: int| 0 <= k < d.len() ==> d[k] != '-',
    ensures
        split_on(y + seq!['-'] + m + seq!['-'] + d, '-') == seq![y, m, d],
{
    let e = Seq::<char>::empty();
    lemma_split_no_sep_suffix(e, y, '-');
    assert(e + y =~= y);
    assert(split_on(y, '-') =~= seq![y]);
    let y1 = y + seq!['-'];
    assert(y1.drop_last() =~= y);
    assert(split_on(y1, '-') =~= seq![y, e]);
    lemma_split_no_sep_suffix(y1, m, '-');
    assert(split_on(y1 + m, '-') =~= seq![y, m]);
    let m1 = y1 + m + seq!['-'];
    assert(m1.drop_last() =~= y1 + m);
    assert(split_on(m1, '-') =~= seq![y, m, e]);
    lemma_split_no_sep_suffix(m1, d, '-');
    assert(split_on(m1 + d, '-') =~= seq![y, m, d]);
}

proof fn lemma_number_of_digits(s: Seq<char>, max: int)
    requires
        s.len() > 0,
        all_digits(s),
        digits_value(s) <= max,
    ensures
        number_of(s, max) == Some(digits_value(s)),
{
    assert(is_digit(s[0]));
    assert(number_digits(s) == s);
}

/// Reading the text of a valid date gives the date back.
pub proof fn lemma_date_round_trip(d: Date)
    requires
        d.wf(),
    ensures
        parse_date_spec(render_date_spec(d)) == Ok::<Date, InputParseError>(d),
{
    let y = year_text(d.year as nat);
    let m = two_digit_text(d.month as nat);
    let dd = two_digit_text(d.day as nat);
    let yw: nat = if d.year >= 10000 { 5 } else { 4 };
    lemma_padded_digits(d.year as nat, yw);
    lemma_padded_digits(d.month as nat, 2);
    lemma_padded_digits(d.day as nat, 2);
    assert(pow10(2) == 100 && pow10(4) == 10000 && pow10(5) == 100000) by {
        reveal_with_fuel(pow10, 6);
    }
    lemma_padded_value(d.year as nat, yw);
    lemma_padded_value(d.month as nat, 2);
    lemma_padded_value(d.day as nat, 2);
    assert forall|k: int| 0 <= k < y.len() implies y[k] != '-' by {
        assert(is_digit(y[k]));
    }
    assert forall|k: int| 0 <= k < m.len() implies m[k] != '-' by {
        assert(is_digit(m[k]));
    }
    assert forall|k: int| 0 <= k < dd.len() implies dd[k] != '-' by {
        assert(is_digit(dd[k]));
    }
    lemma_split_three(y, m, dd);
    lemma_number_of_digits(y, 65535);
    lemma_number_of_digits(m, 255);
    lemma_number_of_digits(dd, 255);
}

/// A text in the form `YYYY-MM-DD` that reads as a date is that date's text,
/// letter for letter.
pub proof fn lemma_date_text_round_trip(t: Seq<char>)
    requires
        is_canonical_date_text(t),
        parse_date_spec(t) is Ok,
    ensures
        render_date_spec(parse_date_spec(t)->Ok_0) == t,
{
    let y = t.subrange(0, 4);
    let m = t.subrange(5, 7);
    let dd = t.subrange(8, 10);
    assert(t =~= y + seq!['-'] + m + seq!['-'] + dd);
    assert forall|k: int| 0 <= k < y.len() implies y[k] != '-' by {
        assert(is_digit(y[k]));
    }
    assert forall|k: int| 0 <= k < m.len() implies m[k] != '-' by {
        assert(is_digit(m[k]));
    }
    assert forall|k: int| 0 <= k < dd.len() implies dd[k] != '-' by {
        assert(is_digit(dd[k]));
    }
    lemma_split_three(y, m, dd);
    lemma_digits_bound(y);
    lemma_digits_bound(m);
    lemma_digits_bound(dd);
    assert(pow10(2) == 100 && pow10(4) == 10000) by {
        reveal_with_fuel(pow10, 5);
    }
    lemma_number_of_digits(y, 65535);
    lemma_number_of_digits(m, 255);
    lemma_number_of_digits(dd, 255);
    lemma_padded_of_digits(y);
    lemma_padded_of_digits(m);
    lemma_padded_of_digits(dd);
}

/// A date's text holds only digits and dashes.
pub proof fn lemma_render_chars(d: Date)
    ensures
        forall|k: int|
            0 <= k < render_date_spec(d).len() ==> is_digit(#[trigger] render_date_spec(d)[k])
                || render_date_spec(d)[k] == '-',
{
    let yw: nat = if d.year >= 10000 { 5 } else { 4 };
    let mw: nat = if d.month >= 100 { 3 } else { 2 };
    let dw: nat = if d.day >= 100 { 3 } else { 2 };
    lemma_padded_digits(d.year as nat, yw);
    lemma_padded_digits(d.month as nat, mw);
    lemma_padded_digits(d.day as nat, dw);
    let y = year_text(d.year as nat);
    let m = two_digit_text(d.month as nat);
    let dd = two_digit_text(d.day as nat);
    let r = render_date_spec(d);
    assert forall|k: int| 0 <= k < r.len() implies is_digit(#[trigger] r[k]) || r[k] == '-' by {
        if k < y.len() {
            assert(r[k] == y[k]);
        } else if k == y.len() {
        } else if k < y.len() + 1 + m.len() {
            assert(r[k] == m[k - y.len() - 1]);
        } else if k == y.len() + 1 + m.len() {
        } else {
            assert(r[k] == dd[k - y.len() - 2 - m.len()]);
        }
    }
}

/// `a` comes before `b` in the order of strings: it is smaller at the first
/// place where they differ, or is a proper prefix of `b`.
pub open spec fn text_lt(a: Seq<char>, b: Seq<char>) -> bool
    decreases a.len(),
{
    if a.len() == 0 {
        b.len() > 0
    } else if b.len() == 0 {
        false
    } else if a[0] != b[0] {
        a[0] < b[0]
    } else {
        text_lt(a.drop_first(), b.drop_first())
    }
}

proof fn lemma_text_lt_concat(x: Seq<char>, y: Seq<char>, u: Seq<char>, v: Seq<char>)
    requires
        x.len() == u.len(),
    ensures
        text_lt(x + y, u + v) == (text_lt(x, u) || (x == u && text_lt(y, v))),
    decreases x.len(),
{
    if x.len() == 0 {
        assert(x + y =~= y);
        assert(u + v =~= v);
        assert(x =~= u);
    } else {
        assert((x + y)[0] == x[0]);
        assert((u + v)[0] == u[0]);
        if x[0] == u[0] {
            lemma_text_lt_concat(x.drop_first(), y, u.drop_first(), v);
            assert((x + y).drop_first() =~= x.drop_first() + y);
            assert((u + v).drop_first() =~= u.drop_first() + v);
            assert(x == u <==> x.drop_first() == u.drop_first()) by {
                if x.drop_first() == u.drop_first() {
                    assert forall|k: int| 0 <= k < x.len() implies x[k] == u[k] by {
                        if k > 0 {
                            assert(x[k] == x.drop_first()[k - 1]);
                            assert(u[k] == u.drop_first()[k - 1]);
                        }
                    }
                    assert(x =~= u);
                }
            }
        } else {
            assert(x != u);
        }
    }
}

proof fn lemma_digits_value_front(s: Seq<char>)
    requires
        s.len() > 0,
        all_digits(s),
    ensures
        digits_value(s) == digit_value(s[0]) * pow10((s.len() - 1) as nat) + digits_value(
            s.drop_first(),
        ),
    decreases s.len(),
{
    if s.len() > 1 {
        let p = s.drop_last();
        assert(all_digits(p)) by {
            assert forall|i: int| 0 <= i < p.len() implies is_digit(#[trigger] p[i]) by {
                assert(p[i] == s[i]);
            }
        }
        lemma_digits_value_front(p);
        let f = s.drop_first();
        assert(p.drop_first() =~= f.drop_last());
        assert(f.last() == s.last());
        let d0 = digit_value(s[0]);
        let q = pow10((p.len() - 1) as nat);
        let x = digits_value(f.drop_last());
        let l = digit_value(s.last());
        assert(pow10((s.len() - 1) as nat) == 10 * q);
        assert(p[0] == s[0]);
        assert(digits_value(s) == digits_value(p) * 10 + l);
        assert(digits_value(f) == x * 10 + l);
        assert(digits_value(p) == d0 * q + x);
        let w = pow10((s.len() - 1) as nat);
        let vs = digits_value(s);
        let vp = digits_value(p);
        let vf = digits_value(f);
        assert(vs == d0 * w + vf) by (nonlinear_arith)
            requires
                vs == vp * 10 + l,
                vp == d0 * q + x,
                vf == x * 10 + l,
                w == 10 * q,
        ;

    } else {
        assert(s.drop_first().len() == 0);
        assert(s.drop_last().len() == 0);
        assert(digits_value(s.drop_first()) == 0);
        assert(digits_value(s.drop_last()) == 0);
        assert(s.last() == s[0]);
        assert(pow10(0) == 1);
        let z = pow10((s.len() - 1) as nat);
        let c = digit_value(s[0]);
        assert(c * z == c) by (nonlinear_arith)
            requires
                z == 1,
        ;
    }
}

proof fn lemma_digits_order(s: Seq<char>, t: Seq<char>)
    requires
        s.len() == t.len(),
        all_digits(s),
        all_digits(t),
    ensures
        text_lt(s, t) == (digits_value(s) < digits_value(t)),
    decreases s.len(),
{
    if s.len() > 0 {
        let sf = s.drop_first();
        let tf = t.drop_first();
        assert(all_digits(sf)) by {
            assert forall|i: int| 0 <= i < sf.len() implies is_digit(#[trigger] sf[i]) by {
                assert(sf[i] == s[i + 1]);
            }
        }
        assert(all_digits(tf)) by {
            assert forall|i: int| 0 <= i < tf.len() implies is_digit(#[trigger] tf[i]) by {
                assert(tf[i] == t[i + 1]);
            }
        }
        lemma_digits_value_front(s);
        lemma_digits_value_front(t);
        lemma_digits_bound(sf);
        lemma_digits_bound(tf);
        lemma_digits_order(sf, tf);
        assert(is_digit(s[0]) && is_digit(t[0]));
        let p = pow10((s.len() - 1) as nat);
        let a = digit_value(s[0]);
        let b = digit_value(t[0]);
        let x = digits_value(sf);
        let y = digits_value(tf);
        if a < b {
            assert(a * p + x < b * p + y) by (nonlinear_arith)
                requires
                    a + 1 <= b,
                    0 <= x < p,
                    0 <= y,
            ;
        } else if b < a {
            assert(b * p + y < a * p + x) by (nonlinear_arith)
                requires
                    b + 1 <= a,
                    0 <= y < p,
                    0 <= x,
            ;
        }
    }
}

/// For dates with years of at most four digits, one date comes before
/// another exactly when its text comes before the other's as a string.
pub proof fn lemma_order_matches_text(a: Date, b: Date)
    requires
        a.wf(),
        b.wf(),
        a.year <= 9999,
        b.year <= 9999,
    ensures
        a.spec_lt(b) <==> text_lt(render_date_spec(a), render_date_spec(b)),
{
    assert(pow10(2) == 100 && pow10(4) == 10000) by {
        reveal_with_fuel(pow10, 5);
    }
    let ya = padded(a.year as nat, 4);
    let yb = padded(b.year as nat, 4);
    let ma = padded(a.month as nat, 2);
    let mb = padded(b.month as nat, 2);
    let da = padded(a.day as nat, 2);
    let db = padded(b.day as nat, 2);
    lemma_padded_digits(a.year as nat, 4);
    lemma_padded_digits(b.year as nat, 4);
    lemma_padded_digits(a.month as nat, 2);
    lemma_padded_digits(b.month as nat, 2);
    lemma_padded_digits(a.day as nat, 2);
    lemma_padded_digits(b.day as nat, 2);
    lemma_padded_value(a.year as nat, 4);
    lemma_padded_value(b.year as nat, 4);
    lemma_padded_value(a.month as nat, 2);
    lemma_padded_value(b.month as nat, 2);
    lemma_padded_value(a.day as nat, 2);
    lemma_padded_value(b.day as nat, 2);
    lemma_digits_order(ya, yb);
    lemma_digits_order(ma, mb);
    lemma_digits_order(da, db);
    let dash = seq!['-'];
    let ra = ya + (dash + (ma + (dash + da)));
    let rb = yb + (dash + (mb + (dash + db)));
    assert(render_date_spec(a) =~= ra);
    assert(render_date_spec(b) =~= rb);
    lemma_text_lt_concat(ya, dash + (ma + (dash + da)), yb, dash + (mb + (dash + db)));
    lemma_text_lt_concat(dash, ma + (dash + da), dash, mb + (dash + db));
    lemma_text_lt_concat(ma, dash + da, mb, dash + db);
    lemma_text_lt_concat(dash, da, dash, db);
    assert(dash.drop_first() =~= Seq::<char>::empty());
    assert(!text_lt(dash, dash)) by {
        reveal_with_fuel(text_lt, 2);
    }
    assert(ya == yb <==> a.year == b.year);
    assert(ma == mb <==> a.month == b.month);
}

} // verus!
