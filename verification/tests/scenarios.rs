use replicated_log::protocol::{Log, LogError, Request, Response};
use replicated_log::service::serve;
use replicated_log::store::{MemStore, StoreReply, StoreRequest};
use replicated_log::task::Task;

fn send(store: &mut MemStore, topic: &str, payload: usize) -> Result<Response, LogError> {
    serve(store, Request::Send { key: topic.to_string(), msg: payload })
}

fn poll(store: &mut MemStore, topic: &str, from: usize) -> Result<Response, LogError> {
    serve(store, Request::Poll { offsets: vec![(topic.to_string(), from)] })
}

fn commit(store: &mut MemStore, topic: &str, offset: usize) -> Result<Response, LogError> {
    serve(store, Request::CommitOffsets { offsets: vec![(topic.to_string(), offset)] })
}

fn list(store: &mut MemStore, topics: &[&str]) -> Result<Response, LogError> {
    serve(
        store,
        Request::ListCommittedOffsets { keys: topics.iter().map(|t| t.to_string()).collect() },
    )
}

#[test]
fn send_poll_commit_list_on_one_topic() {
    let mut store = MemStore::new();
    assert_eq!(send(&mut store, "x", 1), Ok(Response::SendOk { offset: 0 }));
    assert_eq!(send(&mut store, "x", 2), Ok(Response::SendOk { offset: 1 }));
    assert_eq!(
        poll(&mut store, "x", 0),
        Ok(Response::PollOk { msgs: vec![("x".to_string(), vec![Log(0, 1), Log(1, 2)])] })
    );
    assert_eq!(commit(&mut store, "x", 1), Ok(Response::CommitOffsetsOk));
    assert_eq!(
        list(&mut store, &["x"]),
        Ok(Response::ListCommittedOffsetsOk { offsets: vec![("x".to_string(), 1)] })
    );
}

#[test]
fn list_of_a_topic_never_committed_is_empty() {
    let mut store = MemStore::new();
    assert_eq!(
        list(&mut store, &["y"]),
        Ok(Response::ListCommittedOffsetsOk { offsets: vec![] })
    );
    assert_eq!(send(&mut store, "y", 7), Ok(Response::SendOk { offset: 0 }));
    assert_eq!(
        list(&mut store, &["y"]),
        Ok(Response::ListCommittedOffsetsOk { offsets: vec![] })
    );
}

#[test]
fn send_leaves_counter_and_entry_in_the_store() {
    let mut store = MemStore::new();
    assert_eq!(send(&mut store, "orders", 41), Ok(Response::SendOk { offset: 0 }));
    assert_eq!(send(&mut store, "orders", 42), Ok(Response::SendOk { offset: 1 }));
    assert_eq!(store.lookup("orders-offset"), Some(2));
    assert_eq!(store.lookup("orders-0"), Some(41));
    assert_eq!(store.lookup("orders-1"), Some(42));
    assert_eq!(store.lookup("orders-2"), None);
    assert_eq!(store.lookup("orders-commit"), None);
}

#[test]
fn topics_do_not_share_offsets() {
    let mut store = MemStore::new();
    assert_eq!(send(&mut store, "a", 1), Ok(Response::SendOk { offset: 0 }));
    assert_eq!(send(&mut store, "b", 2), Ok(Response::SendOk { offset: 0 }));
    assert_eq!(send(&mut store, "a", 3), Ok(Response::SendOk { offset: 1 }));
    assert_eq!(send(&mut store, "a-1", 4), Ok(Response::SendOk { offset: 0 }));
    assert_eq!(store.lookup("a-1"), Some(3));
    assert_eq!(store.lookup("a-1-0"), Some(4));
    assert_eq!(
        poll(&mut store, "a", 0),
        Ok(Response::PollOk { msgs: vec![("a".to_string(), vec![Log(0, 1), Log(1, 3)])] })
    );
}

#[test]
fn poll_reads_from_the_offset_asked_for() {
    let mut store = MemStore::new();
    for payload in 10..15 {
        send(&mut store, "t", payload).unwrap();
    }
    assert_eq!(
        poll(&mut store, "t", 3),
        Ok(Response::PollOk { msgs: vec![("t".to_string(), vec![Log(3, 13), Log(4, 14)])] })
    );
}

#[test]
fn poll_leaves_out_a_topic_without_entries() {
    let mut store = MemStore::new();
    send(&mut store, "full", 5).unwrap();
    let polled = serve(
        &mut store,
        Request::Poll {
            offsets: vec![("empty".to_string(), 0), ("full".to_string(), 0)],
        },
    );
    assert_eq!(
        polled,
        Ok(Response::PollOk { msgs: vec![("full".to_string(), vec![Log(0, 5)])] })
    );
}

#[test]
fn poll_beyond_the_last_entry_gives_an_empty_list() {
    let mut store = MemStore::new();
    send(&mut store, "t", 5).unwrap();
    assert_eq!(
        poll(&mut store, "t", 1),
        Ok(Response::PollOk { msgs: vec![("t".to_string(), vec![])] })
    );
    assert_eq!(
        poll(&mut store, "t", 9),
        Ok(Response::PollOk { msgs: vec![("t".to_string(), vec![])] })
    );
}

#[test]
fn poll_of_nothing_gives_nothing() {
    let mut store = MemStore::new();
    assert_eq!(
        serve(&mut store, Request::Poll { offsets: vec![] }),
        Ok(Response::PollOk { msgs: vec![] })
    );
    assert_eq!(
        serve(&mut store, Request::CommitOffsets { offsets: vec![] }),
        Ok(Response::CommitOffsetsOk)
    );
    assert_eq!(
        serve(&mut store, Request::ListCommittedOffsets { keys: vec![] }),
        Ok(Response::ListCommittedOffsetsOk { offsets: vec![] })
    );
}

#[test]
fn poll_fails_on_a_hole() {
    let mut store = MemStore::new();
    send(&mut store, "t", 5).unwrap();
    let claimed = store.execute(&StoreRequest::Cas {
        key: "t-offset".to_string(),
        expected: 1,
        new: 2,
        create_if_missing: true,
    });
    assert_eq!(claimed, StoreReply::Done);
    send(&mut store, "t", 7).unwrap();
    assert_eq!(
        poll(&mut store, "t", 0),
        Err(LogError::MissingEntry { topic: "t".to_string(), offset: 1 })
    );
    assert_eq!(
        poll(&mut store, "t", 2),
        Ok(Response::PollOk { msgs: vec![("t".to_string(), vec![Log(2, 7)])] })
    );
}

#[test]
fn commit_never_moves_a_marker_back() {
    let mut store = MemStore::new();
    assert_eq!(commit(&mut store, "t", 5), Ok(Response::CommitOffsetsOk));
    assert_eq!(store.lookup("t-commit"), Some(5));
    assert_eq!(commit(&mut store, "t", 3), Ok(Response::CommitOffsetsOk));
    assert_eq!(store.lookup("t-commit"), Some(5));
    assert_eq!(commit(&mut store, "t", 5), Ok(Response::CommitOffsetsOk));
    assert_eq!(store.lookup("t-commit"), Some(5));
    assert_eq!(commit(&mut store, "t", 8), Ok(Response::CommitOffsetsOk));
    assert_eq!(store.lookup("t-commit"), Some(8));
}

#[test]
fn commit_behind_the_marker_asks_the_store_once() {
    let mut store = MemStore::new();
    commit(&mut store, "t", 5).unwrap();
    let task = Task::start(Request::CommitOffsets { offsets: vec![("t".to_string(), 3)] });
    assert_eq!(task.pending(), Some(StoreRequest::Get { key: "t-commit".to_string() }));
    let task = task.resume(StoreReply::Value(5));
    assert_eq!(task.pending(), None);
    assert_eq!(task.outcome(), Some(Ok(Response::CommitOffsetsOk)));
}

#[test]
fn commit_at_zero_sets_a_marker() {
    let mut store = MemStore::new();
    assert_eq!(commit(&mut store, "t", 0), Ok(Response::CommitOffsetsOk));
    assert_eq!(store.lookup("t-commit"), Some(0));
    assert_eq!(
        list(&mut store, &["t", "u"]),
        Ok(Response::ListCommittedOffsetsOk { offsets: vec![("t".to_string(), 0)] })
    );
}

#[test]
fn commit_serves_every_topic_of_the_request() {
    let mut store = MemStore::new();
    commit(&mut store, "b", 9).unwrap();
    let done = serve(
        &mut store,
        Request::CommitOffsets {
            offsets: vec![("a".to_string(), 4), ("b".to_string(), 2), ("c".to_string(), 6)],
        },
    );
    assert_eq!(done, Ok(Response::CommitOffsetsOk));
    assert_eq!(
        list(&mut store, &["c", "b", "a", "d"]),
        Ok(Response::ListCommittedOffsetsOk {
            offsets: vec![("c".to_string(), 6), ("b".to_string(), 9), ("a".to_string(), 4)]
        })
    );
}

#[test]
fn serving_is_driving_a_task_to_its_end() {
    let requests = vec![
        Request::Send { key: "t".to_string(), msg: 3 },
        Request::Send { key: "t".to_string(), msg: 4 },
        Request::CommitOffsets { offsets: vec![("t".to_string(), 1), ("u".to_string(), 0)] },
        Request::Poll { offsets: vec![("t".to_string(), 0), ("u".to_string(), 0)] },
        Request::ListCommittedOffsets { keys: vec!["u".to_string(), "t".to_string()] },
    ];
    let mut served = MemStore::new();
    let mut driven = MemStore::new();
    for request in requests {
        let mut task = Task::start(request.clone());
        while let Some(op) = task.pending() {
            let reply = driven.execute(&op);
            task = task.resume(reply);
        }
        assert_eq!(task.outcome(), Some(serve(&mut served, request)));
    }
    for key in ["t-offset", "t-0", "t-1", "t-commit", "u-commit", "u-offset"] {
        assert_eq!(served.lookup(key), driven.lookup(key));
    }
    assert_eq!(served.lookup("t-offset"), Some(2));
    assert_eq!(served.lookup("u-commit"), Some(0));
}
