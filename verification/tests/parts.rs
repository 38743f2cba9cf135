use replicated_log::cache::State;
use replicated_log::decimal::render;
use replicated_log::gossip::Inner;
use replicated_log::keys::{make_commit_key, make_counter_key, make_entry_key};
use replicated_log::store::{reply_for_error, MemStore, StoreReply, StoreRequest};
use replicated_log::txn::{OpType, ParseOpTypeError};

#[test]
fn render_writes_decimal_numerals() {
    assert_eq!(render(0), "0");
    assert_eq!(render(7), "7");
    assert_eq!(render(10), "10");
    assert_eq!(render(109), "109");
    assert_eq!(render(1234567890), "1234567890");
    assert_eq!(render(usize::MAX), usize::MAX.to_string());
}

#[test]
fn keys_are_the_topic_and_a_suffix() {
    assert_eq!(make_counter_key("x"), "x-offset");
    assert_eq!(make_commit_key("x"), "x-commit");
    assert_eq!(make_entry_key("x", 0), "x-0");
    assert_eq!(make_entry_key("x", 120), "x-120");
    assert_eq!(make_counter_key(""), "-offset");
    assert_eq!(make_entry_key("a-b", 3), "a-b-3");
}

#[test]
fn store_reads_what_was_written() {
    let mut store = MemStore::new();
    let get = StoreRequest::Get { key: "k".to_string() };
    assert_eq!(store.execute(&get), StoreReply::NotFound);
    assert_eq!(
        store.execute(&StoreRequest::Put { key: "k".to_string(), value: 3 }),
        StoreReply::Done
    );
    assert_eq!(store.execute(&get), StoreReply::Value(3));
    assert_eq!(
        store.execute(&StoreRequest::Put { key: "k".to_string(), value: 8 }),
        StoreReply::Done
    );
    assert_eq!(store.execute(&get), StoreReply::Value(8));
    assert_eq!(store.lookup("k"), Some(8));
    assert_eq!(store.lookup("other"), None);
}

#[test]
fn store_swaps_only_what_it_expects() {
    let mut store = MemStore::new();
    let cas = |expected, new, create_if_missing| StoreRequest::Cas {
        key: "k".to_string(),
        expected,
        new,
        create_if_missing,
    };
    assert_eq!(store.execute(&cas(0, 1, false)), StoreReply::NotFound);
    assert_eq!(store.lookup("k"), None);
    assert_eq!(store.execute(&cas(5, 1, true)), StoreReply::Done);
    assert_eq!(store.lookup("k"), Some(1));
    assert_eq!(store.execute(&cas(5, 2, true)), StoreReply::PreconditionFailed);
    assert_eq!(store.lookup("k"), Some(1));
    assert_eq!(store.execute(&cas(1, 2, false)), StoreReply::Done);
    assert_eq!(store.lookup("k"), Some(2));
}

#[test]
fn store_errors_become_replies() {
    assert_eq!(
        reply_for_error(&maelstrom::Error::PreconditionFailed),
        StoreReply::PreconditionFailed
    );
    assert_eq!(reply_for_error(&maelstrom::Error::KeyDoesNotExist), StoreReply::NotFound);
    assert_eq!(reply_for_error(&maelstrom::Error::Timeout), StoreReply::Failed);
    assert_eq!(reply_for_error(&maelstrom::Error::TemporarilyUnavailable), StoreReply::Failed);
    assert_eq!(reply_for_error(&maelstrom::Error::Crash), StoreReply::Failed);
    assert_eq!(reply_for_error(&maelstrom::Error::KeyAlreadyExists), StoreReply::Failed);
    assert_eq!(
        reply_for_error(&maelstrom::Error::Custom(22, "made up".to_string())),
        StoreReply::Failed
    );
}

#[test]
fn state_keeps_the_last_offset_of_each_topic() {
    let mut state = State::default();
    assert_eq!(state.get("x"), None);
    state.insert("x".to_string(), 3);
    state.insert("y".to_string(), 0);
    assert_eq!(state.get("x"), Some(3));
    assert_eq!(state.get("y"), Some(0));
    state.insert("x".to_string(), 4);
    assert_eq!(state.get("x"), Some(4));
    assert_eq!(state.get("z"), None);
}

#[test]
fn a_new_node_knows_nobody() {
    let inner = Inner::new();
    assert!(!inner.knows("n1"));
    let inner = Inner::default();
    assert!(!inner.knows("n1"));
}

#[test]
fn a_node_learns_and_forgets_its_links() {
    let mut inner = Inner::new();
    inner.connect("n1".to_string(), vec!["n2".to_string(), "n3".to_string()]);
    inner.connect("n2".to_string(), vec!["n1".to_string()]);
    assert!(inner.knows("n1"));
    assert!(inner.knows("n2"));
    assert!(!inner.knows("n3"));
    assert_eq!(inner.neighbors("n1"), &vec!["n2".to_string(), "n3".to_string()]);
    inner.connect("n1".to_string(), vec![]);
    assert_eq!(inner.neighbors("n1"), &Vec::<String>::new());
    assert_eq!(inner.neighbors("n2"), &vec!["n1".to_string()]);
    inner.disconnect();
    assert!(!inner.knows("n1"));
    assert!(!inner.knows("n2"));
}

#[test]
fn a_node_counts_its_identifiers_from_zero() {
    let mut inner = Inner::new();
    assert_eq!(inner.generate(), Some(0));
    assert_eq!(inner.generate(), Some(1));
    assert_eq!(inner.generate(), Some(2));
}

#[test]
fn a_node_relays_what_it_has_heard_and_not_yet_relayed() {
    let mut inner = Inner::new();
    assert_eq!(inner.messages(), Vec::<usize>::new());
    assert_eq!(inner.unrelayed(), Vec::<usize>::new());
    inner.hear(5);
    inner.hear(5);
    inner.hear_all(&vec![7, 9, 7]);
    let mut all = inner.messages();
    all.sort();
    assert_eq!(all, vec![5, 7, 9]);
    let mut pending = inner.unrelayed();
    pending.sort();
    assert_eq!(pending, vec![5, 7, 9]);
    inner.mark_relayed(&vec![9, 5]);
    assert_eq!(inner.unrelayed(), vec![7]);
    inner.hear(11);
    inner.mark_relayed(&vec![7, 100]);
    assert_eq!(inner.unrelayed(), vec![11]);
    let mut all = inner.messages();
    all.sort();
    assert_eq!(all, vec![5, 7, 9, 11]);
}

#[test]
fn operations_are_named_r_and_w() {
    assert_eq!(OpType::from_str("r"), Ok(OpType::Read));
    assert_eq!(OpType::from_str("w"), Ok(OpType::Write));
    assert_eq!(OpType::from_str(""), Err(ParseOpTypeError));
    assert_eq!(OpType::from_str("rw"), Err(ParseOpTypeError));
    assert_eq!(OpType::from_str("R"), Err(ParseOpTypeError));
    assert_eq!(OpType::from_str("x"), Err(ParseOpTypeError));
    assert_eq!(OpType::Read.to_string(), "r");
    assert_eq!(OpType::Write.to_string(), "w");
    assert_eq!(OpType::from_str(&OpType::Write.to_string()), Ok(OpType::Write));
    assert_eq!(ParseOpTypeError.to_string(), "Operation type error");
}
