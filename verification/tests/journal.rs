use docserver::change::Change;
use docserver::journal::{Journal, JournalError};
use docserver::value::{Number, Value};

fn put(target: &str, n: u64) -> Change {
    Change::new(target.to_string(), Some(Value::Number(Number::PosInt(n))))
}

fn drop_at(target: &str) -> Change {
    Change::new(target.to_string(), None)
}

fn three_updates() -> Journal {
    let mut journal = Journal::new();
    assert_eq!(journal.append_update(1, vec![put("/a", 1), put("/b", 2)]), Ok(()));
    assert_eq!(journal.append_update(2, vec![drop_at("/a")]), Ok(()));
    assert_eq!(journal.append_update(3, vec![put("/c", 3), put("/d", 4)]), Ok(()));
    journal
}

#[test]
fn a_new_journal_is_at_version_zero() {
    let journal = Journal::new();
    assert_eq!(journal.load_version(), 0);
    assert_eq!(journal.load_changes(0), vec![]);
    assert_eq!(journal.load_changes(1), vec![]);
    assert_eq!(journal.load_changes(7), vec![]);
}

#[test]
fn append_gives_out_versions_from_one() {
    let mut journal = Journal::new();
    assert_eq!(journal.append(vec![put("/a", 1)]), 1);
    assert_eq!(journal.append(vec![]), 2);
    assert_eq!(journal.append(vec![put("/b", 2)]), 3);
    assert_eq!(journal.load_version(), 3);
}

#[test]
fn append_update_takes_the_next_version_only() {
    let mut journal = Journal::new();
    assert_eq!(journal.append_update(0, vec![put("/a", 1)]), Err(JournalError::VersionOutOfOrder));
    assert_eq!(journal.append_update(2, vec![put("/a", 1)]), Err(JournalError::VersionOutOfOrder));
    assert_eq!(journal.load_version(), 0);
    assert_eq!(journal.append_update(1, vec![put("/a", 1)]), Ok(()));
    // neither a rewrite nor a gap
    assert_eq!(journal.append_update(1, vec![put("/a", 9)]), Err(JournalError::VersionOutOfOrder));
    assert_eq!(journal.append_update(3, vec![put("/a", 9)]), Err(JournalError::VersionOutOfOrder));
    assert_eq!(journal.append_update(usize::MAX, vec![]), Err(JournalError::VersionOutOfOrder));
    assert_eq!(journal.load_version(), 1);
    assert_eq!(journal.load_changes(0), vec![put("/a", 1)]);
}

#[test]
fn load_changes_from_zero_is_the_whole_history() {
    let journal = three_updates();
    let all = vec![put("/a", 1), put("/b", 2), drop_at("/a"), put("/c", 3), put("/d", 4)];
    assert_eq!(journal.load_changes(0), all);
    assert_eq!(journal.load_changes(1), all);
}

#[test]
fn load_changes_leaves_out_older_versions() {
    let journal = three_updates();
    assert_eq!(journal.load_changes(2), vec![drop_at("/a"), put("/c", 3), put("/d", 4)]);
    assert_eq!(journal.load_changes(3), vec![put("/c", 3), put("/d", 4)]);
    assert_eq!(journal.load_changes(4), vec![]);
    assert_eq!(journal.load_changes(usize::MAX), vec![]);
}

#[test]
fn load_version_is_the_highest_version() {
    assert_eq!(three_updates().load_version(), 3);
}
