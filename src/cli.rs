use vstd::prelude::*;
use vstd::string::*;

use crate::date::{lemma_split_on_len, parse_date_spec, split_on, Date};
use crate::errors::InputParseError;
use crate::range::{parse_range_spec, DateRange};
use crate::store::{ReadQuery, WriteQuery};
use crate::subject::{subject_named, Subject};

verus! {

/// A text without its leading and trailing whitespace.
pub uninterp spec fn trimmed(s: Seq<char>) -> Seq<char>;

/// Relies on `str::trim`: the text without leading and trailing whitespace,
/// which depends on the text alone.
#[verifier::external_body]
fn trim_text(s: &str) -> (r: String)
    ensures
        r@ == trimmed(s@),
{
    s.trim().to_string()
}

/// What reading a comma-separated list of subjects gives: each piece,
/// trimmed, must name a subject.
pub open spec fn subject_list_spec(s: Seq<char>) -> Result<Seq<Subject>, InputParseError> {
    let p = split_on(s, ',');
    if forall|k: int| 0 <= k < p.len() ==> (#[trigger] subject_named(trimmed(p[k]))) is Some {
        Ok(p.map_values(|x: Seq<char>| subject_named(trimmed(x))->Some_0))
    } else {
        Err(InputParseError::UnknownSubject)
    }
}

/// Reads a comma-separated list of subjects; each piece is trimmed first.
pub fn parse_subject_list(text: &str) -> (r: Result<Vec<Subject>, InputParseError>)
    ensures
        r is Ok <==> subject_list_spec(text@) is Ok,
        r is Ok ==> r->Ok_0@ == subject_list_spec(text@)->Ok_0,
        r is Err ==> r->Err_0 == InputParseError::UnknownSubject,
{
    let n = text.unicode_len();
    let mut out: Vec<Subject> = Vec::new();
    let mut start: usize = 0;
    let mut i: usize = 0;
    let mut bad = false;
    let ghost mut done: Seq<Seq<char>> = Seq::empty();
    proof {
        assert(text@.subrange(0, 0) =~= Seq::<char>::empty());
        assert(split_on(text@.subrange(0, 0), ',') =~= done.push(text@.subrange(0, 0)));
    }
    while i < n
        invariant
            n == text@.len(),
            0 <= start <= i <= n,
            split_on(text@.subrange(0, i as int), ',') == done.push(
                text@.subrange(start as int, i as int),
            ),
            !bad ==> out@.len() == done.len() && forall|k: int|
                0 <= k < done.len() ==> subject_named(trimmed(#[trigger] done[k])) == Some(
                    out@[k],
                ),
            bad ==> exists|k: int|
                0 <= k < done.len() && (#[trigger] subject_named(trimmed(done[k]))) is None,
        decreases n - i,
    {
        let c = text.get_char(i);
        let ghost pre = text@.subrange(0, i as int);
        proof {
            assert(text@.subrange(0, i + 1).drop_last() =~= pre);
            assert(text@.subrange(0, i + 1).last() == c);
            assert(text@.subrange(i + 1, i + 1) =~= Seq::<char>::empty());
            assert(text@.subrange(start as int, i + 1) =~= text@.subrange(start as int, i as int).push(c));
            lemma_split_on_len(pre, ',');
        }
        if c == ',' {
            let piece = text.substring_char(start, i);
            let t = trim_text(piece);
            let ghost old_done = done;
            proof {
                done = done.push(piece@);
                assert(split_on(text@.subrange(0, i + 1), ',') =~= done.push(
                    text@.subrange(i + 1, i + 1),
                ));
            }
            match Subject::parse(t.as_str()) {
                Ok(s) => {
                    if !bad {
                        out.push(s);
                        proof {
                            assert forall|k: int| 0 <= k < done.len() implies subject_named(
                                trimmed(#[trigger] done[k]),
                            ) == Some(out@[k]) by {
                                if k < old_done.len() {
                                    assert(done[k] == old_done[k]);
                                }
                            }
                        }
                    } else {
                        proof {
                            let k = choose|k: int|
                                0 <= k < old_done.len() && (#[trigger] subject_named(
                                    trimmed(old_done[k]),
                                )) is None;
                            assert(done[k] == old_done[k]);
                        }
                    }
                },
                Err(_) => {
                    proof {
                        assert(done[old_done.len() as int] == piece@);
                    }
                    bad = true;
                },
            }
            start = i + 1;
        } else {
            proof {
                assert(split_on(text@.subrange(0, i + 1), ',') =~= done.push(
                    text@.subrange(start as int, i + 1),
                ));
            }
        }
        i = i + 1;
    }
    let piece = text.substring_char(start, n);
    let t = trim_text(piece);
    let ghost old_done = done;
    proof {
        done = done.push(piece@);
        assert(text@.subrange(0, n as int) =~= text@);
        assert(split_on(text@, ',') == done);
    }
    let last = Subject::parse(t.as_str());
    if bad {
        proof {
            let k = choose|k: int|
                0 <= k < old_done.len() && (#[trigger] subject_named(trimmed(old_done[k]))) is None;
            assert(done[k] == old_done[k]);
        }
        return Err(InputParseError::UnknownSubject);
    }
    match last {
        Ok(s) => {
            out.push(s);
            proof {
                assert forall|k: int| 0 <= k < done.len() implies (#[trigger] subject_named(
                    trimmed(done[k]),
                )) is Some by {
                    if k < old_done.len() {
                        assert(done[k] == old_done[k]);
                    }
                }
                assert(out@ =~= done.map_values(
                    |x: Seq<char>| subject_named(trimmed(x))->Some_0,
                )) by {
                    assert forall|k: int| 0 <= k < done.len() implies out@[k] == subject_named(
                        trimmed(#[trigger] done[k]),
                    )->Some_0 by {
                        if k < old_done.len() {
                            assert(done[k] == old_done[k]);
                        }
                    }
                }
            }
            Ok(out)
        },
        Err(_) => {
            proof {
                assert(done[old_done.len() as int] == piece@);
            }
            Err(InputParseError::UnknownSubject)
        },
    }
}

/// How entries are listed.
pub enum ListMode {
    All,
    Date { date: String },
    Range { range: String },
    Subject { subject: String },
}

/// What the tool is asked to do.
pub enum Commands {
    Add { date: String, subjects: String },
    List { mode: ListMode },
}

/// The tool's invocation.
pub struct App {
    pub command: Commands,
}

/// The store operation that a command asks for.
pub enum Request {
    Write(WriteQuery),
    Read(ReadQuery),
}

/// Whether `r` is what command `c` asks for, or the error its input gives.
pub open spec fn request_for(c: Commands, r: Result<Request, InputParseError>) -> bool {
    match c {
        Commands::Add { date, subjects } => {
            let d = parse_date_spec(date@);
            let l = subject_list_spec(subjects@);
            if d is Err {
                r == Err::<Request, InputParseError>(d->Err_0)
            } else if l is Err {
                r == Err::<Request, InputParseError>(l->Err_0)
            } else {
                match r {
                    Ok(Request::Write(WriteQuery::AtDate(x, v))) => x == d->Ok_0 && v@ == l->Ok_0,
                    _ => false,
                }
            }
        },
        Commands::List { mode } => match mode {
            ListMode::All => r == Ok::<Request, InputParseError>(Request::Read(ReadQuery::All)),
            ListMode::Date { date } => {
                let d = parse_date_spec(date@);
                if d is Err {
                    r == Err::<Request, InputParseError>(d->Err_0)
                } else {
                    r == Ok::<Request, InputParseError>(Request::Read(ReadQuery::ByDate(d->Ok_0)))
                }
            },
            ListMode::Range { range } => {
                let g = parse_range_spec(range@);
                if g is Err {
                    r == Err::<Request, InputParseError>(g->Err_0)
                } else {
                    r == Ok::<Request, InputParseError>(
                        Request::Read(ReadQuery::ByRange(g->Ok_0)),
                    )
                }
            },
            ListMode::Subject { subject } => {
                let s = subject_named(subject@);
                if s is None {
                    r == Err::<Request, InputParseError>(InputParseError::UnknownSubject)
                } else {
                    r == Ok::<Request, InputParseError>(
                        Request::Read(ReadQuery::BySubject(s->Some_0)),
                    )
                }
            },
        },
    }
}

impl Commands {
    /// The store operation that the command asks for. Every piece of input is
    /// parsed first, so that bad input leaves the store untouched.
    pub fn into_request(self) -> (r: Result<Request, InputParseError>)
        ensures
            request_for(self, r),
    {
        match self {
            Commands::Add { date, subjects } => {
                let d = match Date::parse(date.as_str()) {
                    Ok(d) => d,
                    Err(e) => return Err(e),
                };
                let l = match parse_subject_list(subjects.as_str()) {
                    Ok(l) => l,
                    Err(e) => return Err(e),
                };
                Ok(Request::Write(WriteQuery::AtDate(d, l)))
            },
            Commands::List { mode } => match mode {
                ListMode::All => Ok(Request::Read(ReadQuery::All)),
                ListMode::Date { date } => match Date::parse(date.as_str()) {
                    Ok(d) => Ok(Request::Read(ReadQuery::ByDate(d))),
                    Err(e) => Err(e),
                },
                ListMode::Range { range } => match DateRange::parse(range.as_str()) {
                    Ok(g) => Ok(Request::Read(ReadQuery::ByRange(g))),
                    Err(e) => Err(e),
                },
                ListMode::Subject { subject } => match Subject::parse(subject.as_str()) {
                    Ok(s) => Ok(Request::Read(ReadQuery::BySubject(s))),
                    Err(e) => Err(e),
                },
            },
        }
    }
}

} // verus!
