use vstd::prelude::*;

use crate::date::Date;
use crate::range::DateRange;
use crate::subject::Subject;

verus! {

broadcast use vstd::seq_lib::group_to_multiset_ensures;

/// One day's attendance: the date and the subjects attended on it.
#[derive(Debug, Clone, PartialEq, Eq)]
pub struct Entry {
    pub date: Date,
    pub subjects: Vec<Subject>,
}

impl View for Entry {
    type V = (Date, Seq<Subject>);

    open spec fn view(&self) -> (Date, Seq<Subject>) {
        (self.date, self.subjects@)
    }
}

/// What a sequence of entries holds: each entry as its date and subjects.
pub open spec fn entries_view(s: Seq<Entry>) -> Seq<(Date, Seq<Subject>)> {
    s.map_values(|e: Entry| e@)
}

/// Dates never go down along the sequence.
pub open spec fn sorted_by_date(s: Seq<(Date, Seq<Subject>)>) -> bool {
    forall|i: int, j: int| 0 <= i < j < s.len() ==> (#[trigger] s[i]).0.spec_le((#[trigger] s[j]).0)
}

/// Dates go strictly up along the sequence.
pub open spec fn strictly_sorted_by_date(s: Seq<(Date, Seq<Subject>)>) -> bool {
    forall|i: int, j: int| 0 <= i < j < s.len() ==> (#[trigger] s[i]).0.spec_lt((#[trigger] s[j]).0)
}

/// No two entries have the same date.
pub open spec fn unique_dates(s: Seq<(Date, Seq<Subject>)>) -> bool {
    forall|i: int, j: int|
        0 <= i < s.len() && 0 <= j < s.len() && i != j ==> (#[trigger] s[i]).0 != (#[trigger] s[j]).0
}

/// Which entries a read selects.
pub enum ReadQuery {
    All,
    ByDate(Date),
    ByRange(DateRange),
    BySubject(Subject),
}

pub open spec fn selects(q: ReadQuery, e: (Date, Seq<Subject>)) -> bool {
    match q {
        ReadQuery::All => true,
        ReadQuery::ByDate(d) => e.0 == d,
        ReadQuery::ByRange(r) => r.spec_contains(e.0),
        ReadQuery::BySubject(s) => e.1.contains(s),
    }
}

/// The entries that a read returns: those that the query selects, in order.
pub open spec fn select(s: Seq<(Date, Seq<Subject>)>, q: ReadQuery) -> Seq<(Date, Seq<Subject>)> {
    s.filter(|e: (Date, Seq<Subject>)| selects(q, e))
}

proof fn lemma_select_step(s: Seq<(Date, Seq<Subject>)>, q: ReadQuery)
    requires
        s.len() > 0,
    ensures
        select(s, q) == (if selects(q, s.last()) {
            select(s.drop_last(), q).push(s.last())
        } else {
            select(s.drop_last(), q)
        }),
{
    reveal(Seq::filter);
}

/// Whether a list of subjects holds `s`.
fn has_subject(v: &Vec<Subject>, s: Subject) -> (r: bool)
    ensures
        r == v@.contains(s),
{
    let mut i: usize = 0;
    while i < v.len()
        invariant
            0 <= i <= v@.len(),
            forall|k: int| 0 <= k < i ==> v@[k] != s,
        decreases v@.len() - i,
    {
        if v[i] == s {
            return true;
        }
        i = i + 1;
    }
    false
}

fn query_selects(q: &ReadQuery, e: &Entry) -> (r: bool)
    ensures
        r == selects(*q, e@),
{
    match q {
        ReadQuery::All => true,
        ReadQuery::ByDate(d) => e.date == *d,
        ReadQuery::ByRange(r) => r.contains(e.date),
        ReadQuery::BySubject(s) => has_subject(&e.subjects, *s),
    }
}

/// A list of subjects with each later repeat of a subject left out.
pub open spec fn dedup(s: Seq<Subject>) -> Seq<Subject>
    decreases s.len(),
{
    if s.len() == 0 {
        s
    } else {
        let d = dedup(s.drop_last());
        if d.contains(s.last()) {
            d
        } else {
            d.push(s.last())
        }
    }
}

/// The subjects of a day after `added` are merged into `existing`: their
/// union, in order of first appearance, without repeats.
pub open spec fn merge_subjects(existing: Seq<Subject>, added: Seq<Subject>) -> Seq<Subject> {
    dedup(existing + added)
}

/// The first index at or after `i` whose entry has date `d`, or -1.
pub open spec fn index_of_date(s: Seq<(Date, Seq<Subject>)>, d: Date, i: int) -> int
    decreases s.len() - i,
{
    if i < 0 || i >= s.len() {
        -1
    } else if s[i].0 == d {
        i
    } else {
        index_of_date(s, d, i + 1)
    }
}

/// The entries after the subjects `added` are merged in at date `d`: the first
/// entry of that date takes them in, or a new entry is added at the end.
pub open spec fn merge_at(s: Seq<(Date, Seq<Subject>)>, d: Date, added: Seq<Subject>) -> Seq<
    (Date, Seq<Subject>),
> {
    let i = index_of_date(s, d, 0);
    if i >= 0 {
        s.update(i, (d, merge_subjects(s[i].1, added)))
    } else {
        s.push((d, merge_subjects(Seq::empty(), added)))
    }
}

/// A change to the store.
pub enum WriteQuery {
    All(Vec<Entry>),
    AtDate(Date, Vec<Subject>),
}

/// The entries after a change, before they are put in date order.
pub open spec fn written(s: Seq<(Date, Seq<Subject>)>, q: WriteQuery) -> Seq<(Date, Seq<Subject>)> {
    match q {
        WriteQuery::All(items) => entries_view(items@),
        WriteQuery::AtDate(d, added) => merge_at(s, d, added@),
    }
}

proof fn lemma_index_of_date_bounds(s: Seq<(Date, Seq<Subject>)>, d: Date, i: int)
    requires
        0 <= i,
    ensures
        index_of_date(s, d, i) == -1 ==> forall|k: int| i <= k < s.len() ==> (#[trigger] s[k]).0 != d,
        index_of_date(s, d, i) != -1 ==> i <= index_of_date(s, d, i) < s.len() && s[index_of_date(
            s,
            d,
            i,
        )].0 == d,
        forall|k: int| i <= k < index_of_date(s, d, i) ==> (#[trigger] s[k]).0 != d,
    decreases s.len() - i,
{
    if i < s.len() && s[i].0 != d {
        lemma_index_of_date_bounds(s, d, i + 1);
    }
}

proof fn lemma_index_of_date_first(s: Seq<(Date, Seq<Subject>)>, d: Date, i: int, k: int)
    requires
        0 <= i <= k < s.len(),
        s[k].0 == d,
        forall|t: int| i <= t < k ==> (#[trigger] s[t]).0 != d,
    ensures
        index_of_date(s, d, i) == k,
    decreases k - i,
{
    if i < k {
        lemma_index_of_date_first(s, d, i + 1, k);
    }
}

/// No subject stands twice in the list.
pub open spec fn no_repeats(s: Seq<Subject>) -> bool {
    forall|i: int, j: int| 0 <= i < j < s.len() ==> s[i] != s[j]
}

proof fn lemma_dedup_contains(s: Seq<Subject>, x: Subject)
    ensures
        dedup(s).contains(x) <==> s.contains(x),
    decreases s.len(),
{
    broadcast use vstd::seq_lib::group_seq_properties;

    if s.len() > 0 {
        lemma_dedup_contains(s.drop_last(), x);
        lemma_dedup_contains(s.drop_last(), s.last());
        assert(s =~= s.drop_last().push(s.last()));
    }
}

proof fn lemma_dedup_no_repeats(s: Seq<Subject>)
    ensures
        no_repeats(dedup(s)),
    decreases s.len(),
{
    if s.len() > 0 {
        lemma_dedup_no_repeats(s.drop_last());
    }
}

proof fn lemma_dedup_of_no_repeats(s: Seq<Subject>)
    requires
        no_repeats(s),
    ensures
        dedup(s) == s,
    decreases s.len(),
{
    if s.len() > 0 {
        let p = s.drop_last();
        assert(no_repeats(p));
        lemma_dedup_of_no_repeats(p);
        assert(!p.contains(s.last())) by {
            if p.contains(s.last()) {
                let k = choose|k: int| 0 <= k < p.len() && p[k] == s.last();
                assert(s[k] == s[s.len() - 1]);
            }
        }
        assert(s =~= p.push(s.last()));
    }
}

proof fn lemma_dedup_absorbs(s: Seq<Subject>, t: Seq<Subject>)
    requires
        forall|k: int| 0 <= k < t.len() ==> s.contains(#[trigger] t[k]),
    ensures
        dedup(s + t) == dedup(s),
    decreases t.len(),
{
    if t.len() == 0 {
        assert(s + t =~= s);
    } else {
        let u = t.drop_last();
        assert forall|k: int| 0 <= k < u.len() implies s.contains(#[trigger] u[k]) by {
            assert(u[k] == t[k]);
        }
        lemma_dedup_absorbs(s, u);
        assert((s + t).drop_last() =~= s + u);
        assert((s + t).last() == t.last());
        assert(s.contains(t[t.len() - 1]));
        let k = choose|k: int| 0 <= k < s.len() && s[k] == t.last();
        assert((s + u)[k] == t.last());
        lemma_dedup_contains(s + u, t.last());
    }
}

/// Merging the same subjects twice leaves what merging them once gave.
pub proof fn lemma_merge_idempotent(existing: Seq<Subject>, added: Seq<Subject>)
    ensures
        merge_subjects(merge_subjects(existing, added), added) == merge_subjects(existing, added),
{
    let all = existing + added;
    let m = dedup(all);
    assert forall|k: int| 0 <= k < added.len() implies m.contains(#[trigger] added[k]) by {
        assert(all[existing.len() + k] == added[k]);
        lemma_dedup_contains(all, added[k]);
    }
    lemma_dedup_absorbs(m, added);
    lemma_dedup_no_repeats(all);
    lemma_dedup_of_no_repeats(m);
}

/// Merged subjects hold no repeats, and hold exactly the subjects that were
/// there or were added.
pub proof fn lemma_merge_is_union(existing: Seq<Subject>, added: Seq<Subject>, x: Subject)
    ensures
        no_repeats(merge_subjects(existing, added)),
        merge_subjects(existing, added).contains(x) <==> (existing.contains(x) || added.contains(x)),
{
    broadcast use vstd::seq_lib::group_seq_properties;

    lemma_dedup_no_repeats(existing + added);
    lemma_dedup_contains(existing + added, x);
}

/// Merging the same subjects at the same date twice leaves what merging them
/// once gave.
pub proof fn lemma_merge_at_idempotent(s: Seq<(Date, Seq<Subject>)>, d: Date, added: Seq<Subject>)
    ensures
        merge_at(merge_at(s, d, added), d, added) == merge_at(s, d, added),
{
    let m = merge_at(s, d, added);
    lemma_index_of_date_bounds(s, d, 0);
    let i = index_of_date(s, d, 0);
    if i >= 0 {
        assert forall|t: int| 0 <= t < i implies (#[trigger] m[t]).0 != d by {
            assert(m[t] == s[t]);
        }
        lemma_index_of_date_first(m, d, 0, i);
        lemma_merge_idempotent(s[i].1, added);
        assert(m.update(i, (d, merge_subjects(m[i].1, added))) =~= m);
    } else {
        let k = s.len() as int;
        assert forall|t: int| 0 <= t < k implies (#[trigger] m[t]).0 != d by {
            assert(m[t] == s[t]);
        }
        lemma_index_of_date_first(m, d, 0, k);
        lemma_merge_idempotent(Seq::empty(), added);
        assert(m.update(k, (d, merge_subjects(m[k].1, added))) =~= m);
    }
}

/// Merging the same subjects at the same date into the store that a write of
/// that merge produced changes nothing: the store written once is a fixed
/// point of the merge.
pub proof fn lemma_write_at_date_idempotent(
    s: Seq<(Date, Seq<Subject>)>,
    d: Date,
    added: Seq<Subject>,
    once: Seq<(Date, Seq<Subject>)>,
)
    requires
        once.to_multiset() == merge_at(s, d, added).to_multiset(),
        strictly_sorted_by_date(once),
    ensures
        merge_at(once, d, added) == once,
        merge_at(once, d, added).to_multiset() == once.to_multiset(),
{
    let m = merge_at(s, d, added);
    lemma_index_of_date_bounds(s, d, 0);
    let i = index_of_date(s, d, 0);
    let x = if i >= 0 { s[i].1 } else { Seq::<Subject>::empty() };
    let e = (d, merge_subjects(x, added));
    let i0 = if i >= 0 { i } else { s.len() as int };
    assert(m[i0] == e);
    assert(m.contains(e));
    assert(m.to_multiset().count(e) > 0);
    assert(once.to_multiset().count(e) > 0);
    assert(once.contains(e));
    let j = choose|j: int| 0 <= j < once.len() && once[j] == e;
    assert forall|t: int| 0 <= t < j implies (#[trigger] once[t]).0 != d by {
        assert(once[t].0.spec_lt(once[j].0));
    }
    lemma_index_of_date_first(once, d, 0, j);
    lemma_merge_idempotent(x, added);
    assert(once.update(j, (d, merge_subjects(once[j].1, added))) =~= once);
}

/// A change keeps dates unique: a replacement whose entries have unique
/// dates, or a merge into a store whose dates are unique.
pub proof fn lemma_written_unique(s: Seq<(Date, Seq<Subject>)>, q: WriteQuery)
    requires
        match q {
            WriteQuery::All(items) => unique_dates(entries_view(items@)),
            WriteQuery::AtDate(_, _) => unique_dates(s),
        },
    ensures
        unique_dates(written(s, q)),
{
    match q {
        WriteQuery::All(items) => {},
        WriteQuery::AtDate(d, added) => {
            lemma_index_of_date_bounds(s, d, 0);
            let w = written(s, q);
            assert forall|a: int, b: int|
                0 <= a < w.len() && 0 <= b < w.len() && a != b implies (#[trigger] w[a]).0 != (
            #[trigger] w[b]).0 by {
                if a < s.len() && b < s.len() {
                    assert(w[a].0 == s[a].0 && w[b].0 == s[b].0);
                } else if a < s.len() {
                    assert(w[a] == s[a]);
                } else {
                    assert(w[b] == s[b]);
                }
            }
        },
    }
}

proof fn lemma_select_all(s: Seq<(Date, Seq<Subject>)>)
    ensures
        select(s, ReadQuery::All) == s,
    decreases s.len(),
{
    if s.len() > 0 {
        lemma_select_step(s, ReadQuery::All);
        lemma_select_all(s.drop_last());
        assert(s.drop_last().push(s.last()) =~= s);
    }
}

/// After a write, reading every entry gives them in strictly increasing date
/// order, so no two share a date, provided that the entries written had
/// unique dates (a replacement's own, or those of the store that is merged
/// into).
pub proof fn lemma_write_orders_dates(
    s: Seq<(Date, Seq<Subject>)>,
    q: WriteQuery,
    after: Seq<(Date, Seq<Subject>)>,
)
    requires
        match q {
            WriteQuery::All(items) => unique_dates(entries_view(items@)),
            WriteQuery::AtDate(_, _) => unique_dates(s),
        },
        sorted_by_date(after),
        after.to_multiset() == written(s, q).to_multiset(),
        unique_dates(written(s, q)) ==> strictly_sorted_by_date(after),
    ensures
        select(after, ReadQuery::All) == after,
        strictly_sorted_by_date(after),
        unique_dates(after),
{
    lemma_written_unique(s, q);
    lemma_select_all(after);
    assert forall|a: int, b: int|
        0 <= a < after.len() && 0 <= b < after.len() && a != b implies (#[trigger] after[a]).0 != (
    #[trigger] after[b]).0 by {
        if a < b {
            assert(after[a].0.spec_lt(after[b].0));
        } else {
            assert(after[b].0.spec_lt(after[a].0));
        }
    }
}

/// Reading by a range gives exactly the entries of a read of all whose date
/// the range contains, in the same order.
pub proof fn lemma_range_read_is_filter_of_all(s: Seq<(Date, Seq<Subject>)>, r: DateRange)
    ensures
        select(s, ReadQuery::ByRange(r)) == select(s, ReadQuery::All).filter(
            |e: (Date, Seq<Subject>)| r.spec_contains(e.0),
        ),
    decreases s.len(),
{
    lemma_select_all(s);
    reveal(Seq::filter);
    if s.len() > 0 {
        lemma_select_step(s, ReadQuery::ByRange(r));
        lemma_range_read_is_filter_of_all(s.drop_last(), r);
        lemma_select_all(s.drop_last());
    }
}

/// The merged list of subjects: `existing` then `added`, without repeats.
fn merge_subject_lists(existing: Vec<Subject>, added: Vec<Subject>) -> (r: Vec<Subject>)
    ensures
        r@ == merge_subjects(existing@, added@),
{
    let mut all = existing;
    let mut more = added;
    all.append(&mut more);
    let ghost s = all@;
    let mut out: Vec<Subject> = Vec::new();
    let mut i: usize = 0;
    proof {
        assert(s.subrange(0, 0) =~= Seq::<Subject>::empty());
    }
    while i < all.len()
        invariant
            all@ == s,
            0 <= i <= s.len(),
            out@ == dedup(s.subrange(0, i as int)),
        decreases s.len() - i,
    {
        let x = all[i];
        proof {
            assert(s.subrange(0, i + 1).drop_last() =~= s.subrange(0, i as int));
            assert(s.subrange(0, i + 1).last() == x);
        }
        if !has_subject(&out, x) {
            out.push(x);
        }
        i = i + 1;
    }
    proof {
        assert(s.subrange(0, s.len() as int) =~= s);
    }
    out
}

/// Puts entries in date order.
fn sort_by_date(items: Vec<Entry>) -> (r: Vec<Entry>)
    ensures
        sorted_by_date(entries_view(r@)),
        entries_view(r@).to_multiset() == entries_view(items@).to_multiset(),
        unique_dates(entries_view(items@)) ==> strictly_sorted_by_date(entries_view(r@)),
{
    let ghost all = entries_view(items@);
    let mut rest = items;
    let len0: usize = rest.len();
    let ghost n = len0 as int;
    let mut out: Vec<Entry> = Vec::new();
    let mut i: usize = 0;
    proof {
        assert(all.subrange(0, 0) =~= Seq::<(Date, Seq<Subject>)>::empty());
        assert(entries_view(out@) =~= Seq::<(Date, Seq<Subject>)>::empty());
        assert(entries_view(rest@) =~= all.subrange(0, n));
    }
    while rest.len() > 0
        invariant
            n == all.len(),
            n <= usize::MAX,
            0 <= i <= n,
            rest@.len() == n - i,
            entries_view(rest@) == all.subrange(i as int, n),
            entries_view(out@).to_multiset() == all.subrange(0, i as int).to_multiset(),
            sorted_by_date(entries_view(out@)),
            unique_dates(all) ==> strictly_sorted_by_date(entries_view(out@)),
        decreases rest@.len(),
    {
        let ghost before = rest@;
        let e = rest.remove(0);
        proof {
            assert(entries_view(before)[0] == e@);
            assert(e@ == all[i as int]);
            assert forall|k: int| 0 <= k < rest@.len() implies entries_view(rest@)[k] == all[i + 1
                + k] by {
                assert(rest@[k] == before[k + 1]);
                assert(entries_view(before)[k + 1] == all.subrange(i as int, n)[k + 1]);
            }
            assert(entries_view(rest@) =~= all.subrange(i + 1, n));
            assert(all.subrange(0, i + 1) =~= all.subrange(0, i as int).push(e@));
        }
        let ghost ov = entries_view(out@);
        let mut j: usize = 0;
        while j < out.len() && out[j].date.at_or_before(&e.date)
            invariant
                ov == entries_view(out@),
                0 <= j <= out@.len(),
                forall|t: int| 0 <= t < j ==> (#[trigger] ov[t]).0.spec_le(e.date),
            decreases out@.len() - j,
        {
            j = j + 1;
        }
        proof {
            assert(j < ov.len() ==> e.date.spec_lt(ov[j as int].0));
            assert forall|t: int| j <= t < ov.len() implies e.date.spec_lt((#[trigger] ov[t]).0) by {
                if t > j {
                    assert(ov[j as int].0.spec_le(ov[t].0));
                }
            }
            if unique_dates(all) {
                assert forall|t: int| 0 <= t < ov.len() implies (#[trigger] ov[t]).0 != e.date by {
                    let x = ov[t];
                    assert(ov.contains(x));
                    assert(all.subrange(0, i as int).to_multiset().count(x) > 0);
                    let k = choose|k: int| 0 <= k < i && all.subrange(0, i as int)[k] == x;
                    assert(all[k] == x);
                }
            }
        }
        out.insert(j, e);
        proof {
            let nv = entries_view(out@);
            assert(nv =~= ov.insert(j as int, e@));
            assert(nv.to_multiset() == ov.to_multiset().insert(e@)) by {
                vstd::seq_lib::to_multiset_insert(ov, j as int, e@);
            }
            assert forall|a: int, b: int| 0 <= a < b < nv.len() implies (#[trigger] nv[a]).0.spec_le(
                (#[trigger] nv[b]).0,
            ) by {
                if b < j {
                    assert(nv[a] == ov[a] && nv[b] == ov[b]);
                } else if b == j {
                    assert(nv[a] == ov[a]);
                } else if a == j {
                    assert(nv[b] == ov[b - 1]);
                } else if a < j {
                    assert(nv[a] == ov[a] && nv[b] == ov[b - 1]);
                } else {
                    assert(nv[a] == ov[a - 1] && nv[b] == ov[b - 1]);
                }
            }
            if unique_dates(all) {
                assert forall|a: int, b: int| 0 <= a < b < nv.len() implies (#[trigger] nv[a]).0.spec_lt(
                    (#[trigger] nv[b]).0,
                ) by {
                    if b < j {
                        assert(nv[a] == ov[a] && nv[b] == ov[b]);
                    } else if b == j {
                        assert(nv[a] == ov[a]);
                    } else if a == j {
                        assert(nv[b] == ov[b - 1]);
                    } else if a < j {
                        assert(nv[a] == ov[a] && nv[b] == ov[b - 1]);
                    } else {
                        assert(nv[a] == ov[a - 1] && nv[b] == ov[b - 1]);
                    }
                }
            }
        }
        i = i + 1;
    }
    proof {
        assert(all.subrange(0, n) =~= all);
    }
    out
}

/// The entries after the subjects `added` are merged in at date `d`.
fn merge_entry_at(entries: Vec<Entry>, d: Date, added: Vec<Subject>) -> (r: Vec<Entry>)
    ensures
        entries_view(r@) == merge_at(entries_view(entries@), d, added@),
{
    let ghost v = entries_view(entries@);
    let mut es = entries;
    let mut j: usize = 0;
    while j < es.len() && es[j].date != d
        invariant
            v == entries_view(es@),
            0 <= j <= es@.len(),
            index_of_date(v, d, 0) == index_of_date(v, d, j as int),
        decreases es@.len() - j,
    {
        j = j + 1;
    }
    proof {
        lemma_index_of_date_bounds(v, d, 0);
    }
    if j < es.len() {
        let old_entry = es.remove(j);
        let merged = merge_subject_lists(old_entry.subjects, added);
        es.insert(j, Entry { date: d, subjects: merged });
        proof {
            assert(entries_view(es@) =~= merge_at(v, d, added@));
        }
    } else {
        let merged = merge_subject_lists(Vec::new(), added);
        es.push(Entry { date: d, subjects: merged });
        proof {
            assert(entries_view(es@) =~= merge_at(v, d, added@));
        }
    }
    es
}

/// The whole collection of entries, in the order in which it is kept.
pub struct DataStore(pub Vec<Entry>);

impl View for DataStore {
    type V = Seq<(Date, Seq<Subject>)>;

    open spec fn view(&self) -> Seq<(Date, Seq<Subject>)> {
        entries_view(self.0@)
    }
}

impl DataStore {
    /// A store that holds `entries`, as they are.
    pub fn new(entries: Vec<Entry>) -> (r: DataStore)
        ensures
            r@ == entries_view(entries@),
    {
        DataStore(entries)
    }

    /// The store with no entries, as read from a file that does not exist.
    pub fn empty() -> (r: DataStore)
        ensures
            r@ == Seq::<(Date, Seq<Subject>)>::empty(),
    {
        let r = DataStore(Vec::new());
        proof {
            assert(r@ =~= Seq::<(Date, Seq<Subject>)>::empty());
        }
        r
    }

    /// The entries, in the order in which they are kept.
    pub fn into_entries(self) -> (r: Vec<Entry>)
        ensures
            entries_view(r@) == self@,
    {
        self.0
    }

    /// The entries that `query` selects, in the order of the store.
    pub fn read(self, query: ReadQuery) -> (r: Vec<Entry>)
        ensures
            entries_view(r@) == select(self@, query),
    {
        let ghost all = self@;
        let mut rest = self.0;
        let mut out: Vec<Entry> = Vec::new();
        let len0: usize = rest.len();
        let ghost n = len0 as int;
        let mut i: usize = 0;
        proof {
            assert(all.subrange(0, 0) =~= Seq::<(Date, Seq<Subject>)>::empty());
            assert(entries_view(out@) =~= Seq::<(Date, Seq<Subject>)>::empty());
            assert(entries_view(rest@) =~= all.subrange(0, n as int));
        }
        while rest.len() > 0
            invariant
                n == all.len(),
                n <= usize::MAX,
                0 <= i <= n,
                rest@.len() == n - i,
                entries_view(rest@) == all.subrange(i as int, n as int),
                entries_view(out@) == select(all.subrange(0, i as int), query),
            decreases rest@.len(),
        {
            let ghost before = rest@;
            let e = rest.remove(0);
            proof {
                assert(entries_view(before)[0] == e@);
                assert(e@ == all[i as int]);
                assert forall|k: int| 0 <= k < rest@.len() implies entries_view(rest@)[k] == all[i
                    + 1 + k] by {
                    assert(rest@[k] == before[k + 1]);
                    assert(entries_view(before)[k + 1] == all.subrange(i as int, n as int)[k + 1]);
                }
                assert(entries_view(rest@) =~= all.subrange(i + 1, n as int));
                assert(all.subrange(0, i + 1).drop_last() =~= all.subrange(0, i as int));
                assert(all.subrange(0, i + 1).last() == e@);
                lemma_select_step(all.subrange(0, i + 1), query);
            }
            if query_selects(&query, &e) {
                let ghost o = out@;
                out.push(e);
                proof {
                    assert(entries_view(out@) =~= entries_view(o).push(e@));
                }
            }
            i = i + 1;
        }
        proof {
            assert(all.subrange(0, n as int) =~= all);
        }
        out
    }

    /// The store after `query`: every entry replaced, or subjects merged in at
    /// a date; then put in date order.
    pub fn write(self, query: WriteQuery) -> (r: DataStore)
        ensures
            sorted_by_date(r@),
            r@.to_multiset() == written(self@, query).to_multiset(),
            unique_dates(written(self@, query)) ==> strictly_sorted_by_date(r@),
    {
        let changed = match query {
            WriteQuery::All(items) => items,
            WriteQuery::AtDate(d, added) => merge_entry_at(self.0, d, added),
        };
        DataStore(sort_by_date(changed))
    }
}

impl Entry {
    /// The entry of `date` with `subjects`.
    pub fn new(date: Date, subjects: Vec<Subject>) -> (r: Entry)
        ensures
            r@ == (date, subjects@),
    {
        Entry { date, subjects }
    }

    /// The first entry of the store with date `date`, if there is one.
    pub fn read_from_store(store: DataStore, date: Date) -> (r: Option<Entry>)
        ensures
            index_of_date(store@, date, 0) == -1 <==> r is None,
            r is Some ==> r->Some_0@ == store@[index_of_date(store@, date, 0)],
    {
        let ghost v = store@;
        let mut es = store.0;
        let mut j: usize = 0;
        while j < es.len() && es[j].date != date
            invariant
                v == entries_view(es@),
                0 <= j <= es@.len(),
                index_of_date(v, date, 0) == index_of_date(v, date, j as int),
            decreases es@.len() - j,
        {
            j = j + 1;
        }
        proof {
            lemma_index_of_date_bounds(v, date, 0);
        }
        if j < es.len() {
            let e = es.remove(j);
            Some(e)
        } else {
            None
        }
    }

    /// Whether the store holds an entry of `date`.
    pub fn entry_exists(store: &DataStore, date: Date) -> (r: bool)
        ensures
            r == exists|k: int| 0 <= k < store@.len() && (#[trigger] store@[k]).0 == date,
    {
        let mut j: usize = 0;
        while j < store.0.len()
            invariant
                0 <= j <= store@.len(),
                forall|k: int| 0 <= k < j ==> (#[trigger] store@[k]).0 != date,
            decreases store@.len() - j,
        {
            if store.0[j].date == date {
                assert(store@[j as int].0 == date);
                return true;
            }
            j = j + 1;
        }
        false
    }

    /// The entries of the store dated from `start_date` to `end_date`, both
    /// included, in the order of the store.
    pub fn read_from_store_range(store: DataStore, start_date: Date, end_date: Date) -> (r: Vec<
        Entry,
    >)
        ensures
            entries_view(r@) == select(
                store@,
                ReadQuery::ByRange(DateRange { start: start_date, end: end_date }),
            ),
    {
        store.read(ReadQuery::ByRange(DateRange { start: start_date, end: end_date }))
    }

    /// The store after `entry`'s subjects are merged in at its date.
    pub fn write_to_store(store: DataStore, entry: Entry) -> (r: DataStore)
        ensures
            sorted_by_date(r@),
            r@.to_multiset() == merge_at(store@, entry.date, entry.subjects@).to_multiset(),
            unique_dates(store@) ==> strictly_sorted_by_date(r@),
    {
        let ghost s = store@;
        let r = store.write(WriteQuery::AtDate(entry.date, entry.subjects));
        proof {
            if unique_dates(s) {
                lemma_written_unique(s, WriteQuery::AtDate(entry.date, entry.subjects));
            }
        }
        r
    }
}

} // verus!
