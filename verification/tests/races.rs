use replicated_log::protocol::{Log, LogError, Request, Response};
use replicated_log::store::{MemStore, StoreReply, StoreRequest};
use replicated_log::task::Task;

fn deliver(store: &mut MemStore, task: Task) -> Task {
    match task.pending() {
        Some(op) => {
            let reply = store.execute(&op);
            task.resume(reply)
        }
        None => task,
    }
}

fn offset_of(task: Task) -> usize {
    match task.outcome() {
        Some(Ok(Response::SendOk { offset })) => offset,
        other => panic!("send did not succeed: {:?}", other),
    }
}

fn race_in_lock_step(senders: usize) -> Vec<usize> {
    let mut store = MemStore::new();
    let mut tasks: Vec<Task> = (0..senders)
        .map(|i| Task::start(Request::Send { key: "t".to_string(), msg: 100 + i }))
        .collect();
    let mut rounds = 0;
    while tasks.iter().any(|t| t.pending().is_some()) {
        tasks = tasks.into_iter().map(|t| deliver(&mut store, t)).collect();
        rounds += 1;
        assert!(rounds <= 3 * senders + 3, "the race did not settle");
    }
    assert_eq!(store.lookup("t-offset"), Some(senders));
    tasks.into_iter().map(offset_of).collect()
}

#[test]
fn racing_sends_get_distinct_offsets_without_gaps() {
    for senders in [1usize, 2, 3, 8, 25] {
        let mut offsets = race_in_lock_step(senders);
        offsets.sort();
        let expected: Vec<usize> = (0..senders).collect();
        assert_eq!(offsets, expected);
    }
}

#[test]
fn a_sender_that_lags_behind_is_served_last() {
    let mut store = MemStore::new();
    let slow = Task::start(Request::Send { key: "t".to_string(), msg: 1 });
    let slow = deliver(&mut store, slow);
    let mut fast_offsets = Vec::new();
    for payload in 2..6 {
        let mut fast = Task::start(Request::Send { key: "t".to_string(), msg: payload });
        while fast.pending().is_some() {
            fast = deliver(&mut store, fast);
        }
        fast_offsets.push(offset_of(fast));
    }
    assert_eq!(fast_offsets, vec![0, 1, 2, 3]);
    let slow = deliver(&mut store, slow);
    assert_eq!(slow.pending(), Some(StoreRequest::Get { key: "t-offset".to_string() }));
    let mut slow = slow;
    while slow.pending().is_some() {
        slow = deliver(&mut store, slow);
    }
    assert_eq!(offset_of(slow), 4);
    let mut reader = Task::start(Request::Poll { offsets: vec![("t".to_string(), 0)] });
    while reader.pending().is_some() {
        reader = deliver(&mut store, reader);
    }
    assert_eq!(
        reader.outcome(),
        Some(Ok(Response::PollOk {
            msgs: vec![(
                "t".to_string(),
                vec![Log(0, 2), Log(1, 3), Log(2, 4), Log(3, 5), Log(4, 1)]
            )]
        }))
    );
}

#[test]
fn a_sender_that_is_held_up_at_every_claim_still_gets_through() {
    let mut store = MemStore::new();
    let mut held = Task::start(Request::Send { key: "t".to_string(), msg: 9 });
    for round in 0..5 {
        held = deliver(&mut store, held);
        let claim = held.pending();
        let mut other = Task::start(Request::Send { key: "t".to_string(), msg: round });
        while other.pending().is_some() {
            other = deliver(&mut store, other);
        }
        assert_eq!(offset_of(other), round);
        assert_eq!(store.execute(&claim.unwrap()), StoreReply::PreconditionFailed);
        held = held.resume(StoreReply::PreconditionFailed);
    }
    while held.pending().is_some() {
        held = deliver(&mut store, held);
    }
    assert_eq!(offset_of(held), 5);
}

#[test]
fn racing_commits_leave_the_highest_marker() {
    let mut store = MemStore::new();
    let offsets = [4usize, 9, 2, 7, 9, 1];
    let mut tasks: Vec<Task> = offsets
        .iter()
        .map(|o| Task::start(Request::CommitOffsets { offsets: vec![("t".to_string(), *o)] }))
        .collect();
    let mut last_marker = None;
    let mut rounds = 0;
    while tasks.iter().any(|t| t.pending().is_some()) {
        let mut next = Vec::new();
        for task in tasks {
            next.push(deliver(&mut store, task));
            let marker = store.lookup("t-commit");
            assert!(marker >= last_marker, "the marker moved back");
            last_marker = marker;
        }
        tasks = next;
        rounds += 1;
        assert!(rounds <= 30, "the race did not settle");
    }
    assert_eq!(store.lookup("t-commit"), Some(9));
    for task in tasks {
        assert_eq!(task.outcome(), Some(Ok(Response::CommitOffsetsOk)));
    }
}

#[test]
fn a_claim_whose_reply_is_lost_uses_up_its_offset() {
    let mut store = MemStore::new();
    let unlucky = Task::start(Request::Send { key: "t".to_string(), msg: 1 });
    let unlucky = deliver(&mut store, unlucky);
    let claim = unlucky.pending().unwrap();
    assert_eq!(store.execute(&claim), StoreReply::Done);
    let unlucky = unlucky.resume(StoreReply::Failed);
    assert_eq!(unlucky.outcome(), Some(Err(LogError::StoreFailed)));

    let mut next = Task::start(Request::Send { key: "t".to_string(), msg: 2 });
    while next.pending().is_some() {
        next = deliver(&mut store, next);
    }
    assert_eq!(offset_of(next), 1);

    let mut reader = Task::start(Request::Poll { offsets: vec![("t".to_string(), 0)] });
    while reader.pending().is_some() {
        reader = deliver(&mut store, reader);
    }
    assert_eq!(
        reader.outcome(),
        Some(Err(LogError::MissingEntry { topic: "t".to_string(), offset: 0 }))
    );
}

#[test]
fn a_claim_that_never_reached_the_store_uses_up_nothing() {
    let mut store = MemStore::new();
    let unlucky = Task::start(Request::Send { key: "t".to_string(), msg: 1 });
    let unlucky = deliver(&mut store, unlucky).resume(StoreReply::Failed);
    assert_eq!(unlucky.outcome(), Some(Err(LogError::StoreFailed)));
    let mut next = Task::start(Request::Send { key: "t".to_string(), msg: 2 });
    while next.pending().is_some() {
        next = deliver(&mut store, next);
    }
    assert_eq!(offset_of(next), 0);
}
