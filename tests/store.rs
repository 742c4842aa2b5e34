use attendance::cli::{parse_subject_list, Commands, ListMode, Request};
use attendance::date::Date;
use attendance::errors::InputParseError;
use attendance::range::DateRange;
use attendance::store::{DataStore, Entry, ReadQuery, WriteQuery};
use attendance::subject::Subject;

fn date(y: u16, m: u8, d: u8) -> Date {
    Date::new(y, m, d).unwrap()
}

fn entry(d: Date, subjects: &[Subject]) -> Entry {
    Entry::new(d, subjects.to_vec())
}

fn store_of(entries: Vec<Entry>) -> DataStore {
    DataStore::new(entries)
}

fn add(store: DataStore, date_text: &str, subjects: &str) -> Result<DataStore, InputParseError> {
    let cmd = Commands::Add { date: date_text.to_string(), subjects: subjects.to_string() };
    match cmd.into_request()? {
        Request::Write(q) => Ok(store.write(q)),
        Request::Read(_) => panic!("an add asks for a write"),
    }
}

fn list(store: DataStore, mode: ListMode) -> Result<Vec<Entry>, InputParseError> {
    match (Commands::List { mode }).into_request()? {
        Request::Read(q) => Ok(store.read(q)),
        Request::Write(_) => panic!("a list asks for a read"),
    }
}

fn same_set(a: &[Subject], b: &[Subject]) -> bool {
    a.len() == b.len() && a.iter().all(|x| b.contains(x))
}

#[test]
fn add_to_empty_store_then_list_all() {
    let s = add(DataStore::empty(), "2026-01-01", "Dms, Tc").unwrap();
    let all = list(s, ListMode::All).unwrap();
    assert_eq!(all, vec![entry(date(2026, 1, 1), &[Subject::Dms, Subject::Tc])]);
}

#[test]
fn add_merges_into_existing_date() {
    let s = store_of(vec![
        entry(date(2026, 1, 1), &[Subject::Dms, Subject::Tc]),
        entry(date(2026, 1, 3), &[Subject::Toc]),
    ]);
    let s = add(s, "2026-01-01", "Mpi").unwrap();
    let all = s.into_entries();
    assert_eq!(all.len(), 2);
    assert!(same_set(&all[0].subjects, &[Subject::Dms, Subject::Tc, Subject::Mpi]));
    assert_eq!(all[1], entry(date(2026, 1, 3), &[Subject::Toc]));
    let s = DataStore::new(all);
    let one = list(s, ListMode::Date { date: "2026-01-01".to_string() }).unwrap();
    assert_eq!(one.len(), 1);
    assert_eq!(one[0].date, date(2026, 1, 1));
    assert!(same_set(&one[0].subjects, &[Subject::Dms, Subject::Tc, Subject::Mpi]));
}

#[test]
fn list_range_returns_ascending_subsequence() {
    let s = store_of(vec![
        entry(date(2026, 1, 1), &[Subject::Dms]),
        entry(date(2026, 1, 2), &[Subject::Tc]),
        entry(date(2026, 1, 5), &[Subject::Mpi]),
    ]);
    let got = list(s, ListMode::Range { range: "2026-01-01..2026-01-02".to_string() }).unwrap();
    assert_eq!(
        got,
        vec![entry(date(2026, 1, 1), &[Subject::Dms]), entry(date(2026, 1, 2), &[Subject::Tc])]
    );
}

#[test]
fn add_with_bad_date_fails_and_writes_nothing() {
    let cmd = Commands::Add { date: "2026-13-40".to_string(), subjects: "Dms".to_string() };
    assert!(matches!(cmd.into_request(), Err(InputParseError::MonthOutOfRange)));
    let cmd = Commands::Add { date: "2026-01-01".to_string(), subjects: "Dms, Nope".to_string() };
    assert!(matches!(cmd.into_request(), Err(InputParseError::UnknownSubject)));
}

#[test]
fn list_all_on_empty_store_is_empty() {
    assert_eq!(list(DataStore::empty(), ListMode::All).unwrap(), Vec::<Entry>::new());
}

#[test]
fn list_by_subject() {
    let s = store_of(vec![
        entry(date(2026, 1, 1), &[Subject::Dms, Subject::Tc]),
        entry(date(2026, 1, 2), &[Subject::Mpi]),
        entry(date(2026, 1, 3), &[Subject::Tc]),
    ]);
    let got = list(s, ListMode::Subject { subject: "Tc".to_string() }).unwrap();
    assert_eq!(
        got,
        vec![
            entry(date(2026, 1, 1), &[Subject::Dms, Subject::Tc]),
            entry(date(2026, 1, 3), &[Subject::Tc]),
        ]
    );
    let s = store_of(vec![]);
    assert!(matches!(
        list(s, ListMode::Subject { subject: "tc".to_string() }),
        Err(InputParseError::UnknownSubject)
    ));
}

#[test]
fn list_by_date_with_no_entry_is_empty() {
    let s = store_of(vec![entry(date(2026, 1, 1), &[Subject::Dms])]);
    assert!(list(s, ListMode::Date { date: "2026-01-02".to_string() }).unwrap().is_empty());
}

#[test]
fn merge_twice_is_merge_once() {
    let s = store_of(vec![entry(date(2026, 1, 1), &[Subject::Dms])]);
    let once = add(s, "2026-01-01", "Tc, Mpi, Tc").unwrap().into_entries();
    let twice = add(DataStore::new(once.clone()), "2026-01-01", "Tc, Mpi, Tc").unwrap().into_entries();
    assert_eq!(once, twice);
    assert_eq!(once, vec![entry(date(2026, 1, 1), &[Subject::Dms, Subject::Tc, Subject::Mpi])]);
}

#[test]
fn write_sorts_by_date() {
    let s = store_of(vec![]);
    let items = vec![
        entry(date(2026, 3, 1), &[Subject::Dms]),
        entry(date(2025, 12, 31), &[Subject::Tc]),
        entry(date(2026, 1, 15), &[Subject::Toc]),
    ];
    let all = s.write(WriteQuery::All(items)).into_entries();
    let dates: Vec<Date> = all.iter().map(|e| e.date).collect();
    assert_eq!(dates, vec![date(2025, 12, 31), date(2026, 1, 15), date(2026, 3, 1)]);
}

#[test]
fn write_at_new_date_inserts_in_order() {
    let s = store_of(vec![
        entry(date(2026, 1, 1), &[Subject::Dms]),
        entry(date(2026, 1, 3), &[Subject::Tc]),
    ]);
    let all = s.write(WriteQuery::AtDate(date(2026, 1, 2), vec![Subject::Mpi, Subject::Mpi])).into_entries();
    assert_eq!(
        all,
        vec![
            entry(date(2026, 1, 1), &[Subject::Dms]),
            entry(date(2026, 1, 2), &[Subject::Mpi]),
            entry(date(2026, 1, 3), &[Subject::Tc]),
        ]
    );
}

#[test]
fn read_by_range_is_filter_of_all() {
    let entries = vec![
        entry(date(2026, 1, 1), &[Subject::Dms]),
        entry(date(2026, 2, 1), &[Subject::Tc]),
        entry(date(2026, 3, 1), &[Subject::Toc]),
    ];
    let r = DateRange::new(date(2026, 1, 15), date(2026, 3, 1)).unwrap();
    let all = store_of(entries.clone()).read(ReadQuery::All);
    let by_range = store_of(entries).read(ReadQuery::ByRange(r));
    let filtered: Vec<Entry> = all.into_iter().filter(|e| r.contains(e.date)).collect();
    assert_eq!(by_range, filtered);
}

#[test]
fn entry_store_helpers() {
    let mk = || {
        store_of(vec![
            entry(date(2026, 1, 1), &[Subject::Dms]),
            entry(date(2026, 1, 4), &[Subject::Tc]),
        ])
    };
    assert_eq!(Entry::read_from_store(mk(), date(2026, 1, 4)), Some(entry(date(2026, 1, 4), &[Subject::Tc])));
    assert_eq!(Entry::read_from_store(mk(), date(2026, 1, 2)), None);
    assert!(Entry::entry_exists(&mk(), date(2026, 1, 1)));
    assert!(!Entry::entry_exists(&mk(), date(2026, 1, 2)));
    assert_eq!(
        Entry::read_from_store_range(mk(), date(2026, 1, 2), date(2026, 1, 9)),
        vec![entry(date(2026, 1, 4), &[Subject::Tc])]
    );
    let s = Entry::write_to_store(mk(), entry(date(2026, 1, 1), &[Subject::Tc, Subject::Dms]));
    assert_eq!(s.into_entries()[0], entry(date(2026, 1, 1), &[Subject::Dms, Subject::Tc]));
}

#[test]
fn subject_list_trims_pieces() {
    assert_eq!(parse_subject_list(" Dms ,Tc,\tMpi "), Ok(vec![Subject::Dms, Subject::Tc, Subject::Mpi]));
    assert_eq!(parse_subject_list("Dms,,Tc"), Err(InputParseError::UnknownSubject));
    assert_eq!(parse_subject_list(""), Err(InputParseError::UnknownSubject));
}
