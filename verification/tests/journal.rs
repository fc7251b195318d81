use punch::codec::{decode_log, encode_log, kind_name, write_entry};
use punch::error::Error;
use punch::journal::{Journal, JournalEntry};
use punch::operation::{is_reversible, push_timing, Operation, OperationKind, PushTiming};

fn strings(items: &[&str]) -> Vec<String> {
    items.iter().map(|s| s.to_string()).collect()
}

fn op(kind: OperationKind, args: &[&str]) -> Operation {
    Operation::new(kind, strings(args))
}

const KINDS: [OperationKind; 7] = [
    OperationKind::Create,
    OperationKind::Delete,
    OperationKind::CreateIn,
    OperationKind::DeleteIn,
    OperationKind::Trash,
    OperationKind::Move,
    OperationKind::Rename,
];

#[test]
fn what_creates_is_recorded_after_and_everything_else_before() {
    assert_eq!(push_timing(OperationKind::Create), PushTiming::After);
    assert_eq!(push_timing(OperationKind::CreateIn), PushTiming::After);
    assert_eq!(push_timing(OperationKind::Delete), PushTiming::Before);
    assert_eq!(push_timing(OperationKind::DeleteIn), PushTiming::Before);
    assert_eq!(push_timing(OperationKind::Trash), PushTiming::Before);
    assert_eq!(push_timing(OperationKind::Move), PushTiming::Before);
    assert_eq!(push_timing(OperationKind::Rename), PushTiming::Before);
}

#[test]
fn only_what_was_deleted_for_good_cannot_be_taken_back() {
    for kind in KINDS {
        let expected = !matches!(kind, OperationKind::Delete | OperationKind::DeleteIn);
        assert_eq!(is_reversible(kind), expected, "{:?}", kind);
    }
}

#[test]
fn an_operation_needs_the_arguments_of_its_kind() {
    assert!(!op(OperationKind::Create, &[]).is_valid());
    assert!(op(OperationKind::Create, &["a"]).is_valid());
    assert!(!op(OperationKind::CreateIn, &["dir"]).is_valid());
    assert!(op(OperationKind::CreateIn, &["dir", "a"]).is_valid());
    assert!(!op(OperationKind::DeleteIn, &["dir"]).is_valid());
    assert!(op(OperationKind::DeleteIn, &["dir", "a", "b"]).is_valid());
    assert!(!op(OperationKind::Rename, &["a"]).is_valid());
    assert!(op(OperationKind::Rename, &["a", "b"]).is_valid());
    assert!(op(OperationKind::Trash, &["a"]).is_valid());
    assert!(op(OperationKind::Delete, &["a"]).is_valid());
    assert!(op(OperationKind::Move, &["a"]).is_valid());
    let o = op(OperationKind::Move, &["a", "b"]);
    assert_eq!(o.clone(), o);
}

#[test]
fn push_records_valid_operations_only() {
    let mut j = Journal::new();
    assert!(j.is_empty());
    assert_eq!(j.push(op(OperationKind::Create, &[]), 1), Err(Error::InvalidPath));
    assert_eq!(j.push(op(OperationKind::CreateIn, &["d"]), 1), Err(Error::InvalidPath));
    assert_eq!(j.len(), 0);
    assert_eq!(j.push(op(OperationKind::Create, &["a"]), 5), Ok(()));
    assert_eq!(j.len(), 1);
    assert_eq!(j.entry(0).unwrap().timestamp, 5);
    assert_eq!(j.entry(0).unwrap().operation, op(OperationKind::Create, &["a"]));
    assert!(j.entry(1).is_none());
}

#[test]
fn undo_takes_the_newest_entry_first() {
    let a = op(OperationKind::Create, &["a"]);
    let b = op(OperationKind::Trash, &["b"]);
    let mut j = Journal::new();
    j.push(a.clone(), 1).unwrap();
    j.push(b.clone(), 2).unwrap();
    assert_eq!(j.begin_undo(), Ok(b.clone()));
    assert_eq!(j.len(), 2);
    j.finish_undo(true);
    assert_eq!(j.len(), 1);
    assert_eq!(j.begin_undo(), Ok(a.clone()));
    j.finish_undo(true);
    assert_eq!(j.begin_undo(), Err(Error::JournalEmpty));
    assert_eq!(j.begin_undo(), Err(Error::JournalEmpty));
    j.finish_undo(true);
    assert!(j.is_empty());
}

#[test]
fn an_undo_that_failed_leaves_its_entry() {
    let a = op(OperationKind::Move, &["a", "b"]);
    let mut j = Journal::new();
    j.push(a.clone(), 1).unwrap();
    assert_eq!(j.begin_undo(), Ok(a.clone()));
    j.finish_undo(false);
    assert_eq!(j.len(), 1);
    assert_eq!(j.begin_undo(), Ok(a));
}

#[test]
fn an_entry_that_cannot_be_undone_is_reported_and_removed() {
    for kind in [OperationKind::Delete, OperationKind::DeleteIn] {
        let a = op(OperationKind::Create, &["keep"]);
        let mut j = Journal::new();
        j.push(a.clone(), 1).unwrap();
        j.push(op(kind, &["x", "y"]), 2).unwrap();
        assert_eq!(j.begin_undo(), Err(Error::Unrecoverable));
        assert_eq!(j.len(), 1);
        assert_eq!(j.begin_undo(), Ok(a));
    }
}

#[test]
fn show_gives_all_entries_oldest_first_and_changes_nothing() {
    let mut j = Journal::new();
    assert_eq!(j.show(), Err(Error::JournalEmpty));
    j.push(op(OperationKind::Create, &["a"]), 1).unwrap();
    j.push(op(OperationKind::Delete, &["b"]), 2).unwrap();
    j.push(op(OperationKind::Trash, &["c"]), 3).unwrap();
    let shown = j.show().unwrap();
    let stamps: Vec<u64> = shown.iter().map(|e| e.timestamp).collect();
    assert_eq!(stamps, vec![1, 2, 3]);
    assert_eq!(shown[1].operation, op(OperationKind::Delete, &["b"]));
    assert_eq!(j.show().unwrap(), shown);
    assert_eq!(j.len(), 3);
}

#[test]
fn recording_follows_the_timing_of_the_kind() {
    let create = op(OperationKind::Create, &["a"]);
    let trash = op(OperationKind::Trash, &["a"]);
    let mut j = Journal::new();
    j.record_before(&create, 1);
    assert_eq!(j.len(), 0);
    j.record_after(&create, 1, false);
    assert_eq!(j.len(), 0);
    j.record_after(&create, 1, true);
    assert_eq!(j.len(), 1);
    j.record_before(&trash, 2);
    assert_eq!(j.len(), 2);
    j.record_after(&trash, 2, true);
    assert_eq!(j.len(), 2);
    j.record_before(&op(OperationKind::Trash, &[]), 3);
    j.record_after(&op(OperationKind::Create, &[]), 3, true);
    assert_eq!(j.len(), 2);
}

#[test]
fn an_entry_is_written_as_one_line() {
    let entry =
        JournalEntry { operation: op(OperationKind::Trash, &["draft.md", "notes"]), timestamp: 1700000000 };
    let mut text = String::new();
    write_entry(&mut text, &entry);
    assert_eq!(text, "1700000000 Trash 2 8:draft.md 5:notes\n");
    let bare = JournalEntry { operation: op(OperationKind::Create, &[]), timestamp: 0 };
    let mut text = String::from("# ");
    write_entry(&mut text, &bare);
    assert_eq!(text, "# 0 Create 0\n");
    let names: Vec<&str> = KINDS.iter().map(|k| kind_name(*k)).collect();
    assert_eq!(names, vec!["Create", "Delete", "CreateIn", "DeleteIn", "Trash", "Move", "Rename"]);
}

#[test]
fn a_journal_is_read_back_as_it_was_written() {
    let mut entries = Vec::new();
    for (i, kind) in KINDS.iter().enumerate() {
        entries.push(JournalEntry {
            operation: op(*kind, &["a b", "two\nlines", "", "ünï/cödé", "5:x 3:y"]),
            timestamp: (i as u64) * 1_000_000_007,
        });
    }
    entries.push(JournalEntry { operation: op(OperationKind::Move, &[]), timestamp: u64::MAX });
    let text = encode_log(&entries);
    assert_eq!(decode_log(&text), Ok(entries));
    assert_eq!(decode_log(""), Ok(vec![]));
    assert_eq!(encode_log(&vec![]), "");
}

#[test]
fn text_that_writes_no_journal_is_refused() {
    for bad in [
        "x",
        "1 Trash 1 1:a",
        "1 Trash 1 2:a\n",
        "1 Trash 2 1:a\n",
        "1 Trash 1 1:a 1:b\n",
        "01 Trash 1 1:a\n",
        "1 Trashed 1 1:a\n",
        "1 trash 1 1:a\n",
        "1  Trash 1 1:a\n",
        "1 Trash 1 1a\n",
        "1 Trash 1  1:a\n",
        "1 Trash 01 1:a\n",
        "18446744073709551616 Trash 0\n",
        "1 Trash 0\n\n",
        " 1 Trash 0\n",
        "1 Trash\n",
        "1\n",
    ] {
        assert_eq!(decode_log(bad), Err(Error::IoFailure), "{:?}", bad);
    }
}

#[test]
fn a_journal_survives_being_kept_as_text() {
    let mut j = Journal::new();
    j.push(op(OperationKind::CreateIn, &["dir", "a", "sub/"]), 10).unwrap();
    j.push(op(OperationKind::Rename, &["old name", "new name"]), 20).unwrap();
    let text = j.encode();
    assert_eq!(text, "10 CreateIn 3 3:dir 1:a 4:sub/\n20 Rename 2 8:old name 8:new name\n");
    let mut back = Journal::decode(&text).unwrap();
    assert_eq!(back.show(), j.show());
    assert_eq!(back.begin_undo(), Ok(op(OperationKind::Rename, &["old name", "new name"])));
    assert_eq!(Journal::decode("").unwrap().len(), 0);
    assert_eq!(Journal::decode("garbage").err(), Some(Error::IoFailure));
    assert_eq!(Journal::decode("1 CreateIn 1 1:a\n").err(), Some(Error::InvalidPath));
    assert_eq!(Journal::decode("1 Trash 0\n").err(), Some(Error::InvalidPath));
}

#[test]
fn a_journal_from_entries_checks_every_operation() {
    let good = JournalEntry { operation: op(OperationKind::Trash, &["a"]), timestamp: 1 };
    let bad = JournalEntry { operation: op(OperationKind::Rename, &["a"]), timestamp: 2 };
    assert_eq!(Journal::from_entries(vec![good.clone(), good.clone()]).unwrap().len(), 2);
    assert_eq!(Journal::from_entries(vec![good, bad]).err(), Some(Error::InvalidPath));
    assert_eq!(Journal::from_entries(vec![]).unwrap().len(), 0);
}
