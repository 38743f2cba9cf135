use replicated_log::protocol::{Log, LogError, Request, Response};
use replicated_log::store::{StoreReply, StoreRequest};
use replicated_log::task::Task;

fn get(key: &str) -> Option<StoreRequest> {
    Some(StoreRequest::Get { key: key.to_string() })
}

fn cas(key: &str, expected: usize, new: usize) -> Option<StoreRequest> {
    Some(StoreRequest::Cas { key: key.to_string(), expected, new, create_if_missing: true })
}

fn put(key: &str, value: usize) -> Option<StoreRequest> {
    Some(StoreRequest::Put { key: key.to_string(), value })
}

fn sending(topic: &str, payload: usize) -> Task {
    Task::start(Request::Send { key: topic.to_string(), msg: payload })
}

#[test]
fn send_reads_claims_and_writes() {
    let task = sending("x", 9);
    assert_eq!(task.pending(), get("x-offset"));
    let task = task.resume(StoreReply::Value(4));
    assert_eq!(task.pending(), cas("x-offset", 4, 5));
    let task = task.resume(StoreReply::Done);
    assert_eq!(task.pending(), put("x-4", 9));
    let task = task.resume(StoreReply::Done);
    assert_eq!(task.pending(), None);
    assert_eq!(task.outcome(), Some(Ok(Response::SendOk { offset: 4 })));
}

#[test]
fn send_takes_an_absent_counter_for_zero() {
    let task = sending("x", 9).resume(StoreReply::NotFound);
    assert_eq!(task.pending(), cas("x-offset", 0, 1));
}

#[test]
fn send_reads_again_after_a_lost_race() {
    let task = sending("x", 9).resume(StoreReply::Value(4));
    assert_eq!(task.pending(), cas("x-offset", 4, 5));
    let task = task.resume(StoreReply::PreconditionFailed);
    assert_eq!(task.pending(), get("x-offset"));
    let task = task.resume(StoreReply::Value(6));
    assert_eq!(task.pending(), cas("x-offset", 6, 7));
    let task = task.resume(StoreReply::Done).resume(StoreReply::Done);
    assert_eq!(task.outcome(), Some(Ok(Response::SendOk { offset: 6 })));
}

#[test]
fn send_fails_when_the_store_fails() {
    let reading = sending("x", 9).resume(StoreReply::Failed);
    assert_eq!(reading.pending(), None);
    assert_eq!(reading.outcome(), Some(Err(LogError::StoreFailed)));
    let claiming = sending("x", 9).resume(StoreReply::Value(4)).resume(StoreReply::Failed);
    assert_eq!(claiming.outcome(), Some(Err(LogError::StoreFailed)));
}

#[test]
fn send_reports_an_entry_that_was_not_written() {
    let task = sending("x", 9)
        .resume(StoreReply::Value(4))
        .resume(StoreReply::Done)
        .resume(StoreReply::Failed);
    assert_eq!(
        task.outcome(),
        Some(Err(LogError::EntryNotWritten { topic: "x".to_string(), offset: 4 }))
    );
}

#[test]
fn send_fails_when_the_counter_is_exhausted() {
    let task = sending("x", 9).resume(StoreReply::Value(usize::MAX));
    assert_eq!(task.pending(), None);
    assert_eq!(task.outcome(), Some(Err(LogError::OffsetsExhausted)));
    let task = sending("x", 9).resume(StoreReply::Value(usize::MAX - 1));
    assert_eq!(task.pending(), cas("x-offset", usize::MAX - 1, usize::MAX));
}

#[test]
fn a_reply_of_the_wrong_kind_ends_the_task() {
    let reading = sending("x", 9).resume(StoreReply::Done);
    assert_eq!(reading.outcome(), Some(Err(LogError::UnexpectedReply)));
    let claiming = sending("x", 9).resume(StoreReply::Value(4)).resume(StoreReply::Value(4));
    assert_eq!(claiming.outcome(), Some(Err(LogError::UnexpectedReply)));
    let writing = sending("x", 9)
        .resume(StoreReply::Value(4))
        .resume(StoreReply::Done)
        .resume(StoreReply::NotFound);
    assert_eq!(writing.outcome(), Some(Err(LogError::UnexpectedReply)));
}

#[test]
fn a_task_that_has_ended_stays_as_it_is() {
    let task = sending("x", 9).resume(StoreReply::Failed).resume(StoreReply::Value(3));
    assert_eq!(task.pending(), None);
    assert_eq!(task.outcome(), Some(Err(LogError::StoreFailed)));
    let task = Task::start(Request::Poll { offsets: vec![] }).resume(StoreReply::Value(3));
    assert_eq!(task.outcome(), Some(Ok(Response::PollOk { msgs: vec![] })));
}

#[test]
fn a_task_under_way_has_no_outcome() {
    assert_eq!(sending("x", 9).outcome(), None);
    assert_eq!(sending("x", 9).resume(StoreReply::Value(1)).outcome(), None);
}

#[test]
fn poll_reads_the_counter_then_each_entry() {
    let task = Task::start(Request::Poll {
        offsets: vec![("a".to_string(), 1), ("b".to_string(), 0)],
    });
    assert_eq!(task.pending(), get("a-offset"));
    let task = task.resume(StoreReply::Value(3));
    assert_eq!(task.pending(), get("a-1"));
    let task = task.resume(StoreReply::Value(11));
    assert_eq!(task.pending(), get("a-2"));
    let task = task.resume(StoreReply::Value(12));
    assert_eq!(task.pending(), get("b-offset"));
    let task = task.resume(StoreReply::NotFound);
    assert_eq!(task.pending(), None);
    assert_eq!(
        task.outcome(),
        Some(Ok(Response::PollOk { msgs: vec![("a".to_string(), vec![Log(1, 11), Log(2, 12)])] }))
    );
}

#[test]
fn poll_fails_on_a_missing_entry_and_on_a_failing_store() {
    let task = Task::start(Request::Poll { offsets: vec![("a".to_string(), 1)] });
    let hole = task.resume(StoreReply::Value(3)).resume(StoreReply::NotFound);
    assert_eq!(
        hole.outcome(),
        Some(Err(LogError::MissingEntry { topic: "a".to_string(), offset: 1 }))
    );
    let task = Task::start(Request::Poll { offsets: vec![("a".to_string(), 1)] });
    assert_eq!(task.resume(StoreReply::Failed).outcome(), Some(Err(LogError::StoreFailed)));
    let task = Task::start(Request::Poll { offsets: vec![("a".to_string(), 1)] });
    let failed = task.resume(StoreReply::Value(3)).resume(StoreReply::Failed);
    assert_eq!(failed.outcome(), Some(Err(LogError::StoreFailed)));
}

#[test]
fn commit_claims_from_what_it_read() {
    let task = Task::start(Request::CommitOffsets { offsets: vec![("a".to_string(), 7)] });
    assert_eq!(task.pending(), get("a-commit"));
    let task = task.resume(StoreReply::Value(3));
    assert_eq!(task.pending(), cas("a-commit", 3, 7));
    let task = task.resume(StoreReply::PreconditionFailed);
    assert_eq!(task.pending(), get("a-commit"));
    let task = task.resume(StoreReply::Value(9));
    assert_eq!(task.outcome(), Some(Ok(Response::CommitOffsetsOk)));
}

#[test]
fn commit_creates_a_marker_that_is_absent() {
    let task = Task::start(Request::CommitOffsets { offsets: vec![("a".to_string(), 7)] });
    let task = task.resume(StoreReply::NotFound);
    assert_eq!(task.pending(), cas("a-commit", 0, 7));
    let task = task.resume(StoreReply::Done);
    assert_eq!(task.outcome(), Some(Ok(Response::CommitOffsetsOk)));
}

#[test]
fn commit_fails_when_the_store_fails() {
    let task = Task::start(Request::CommitOffsets { offsets: vec![("a".to_string(), 7)] });
    let task = task.resume(StoreReply::Value(3)).resume(StoreReply::Failed);
    assert_eq!(task.outcome(), Some(Err(LogError::StoreFailed)));
}

#[test]
fn list_reports_what_it_finds() {
    let task = Task::start(Request::ListCommittedOffsets {
        keys: vec!["a".to_string(), "b".to_string(), "c".to_string()],
    });
    assert_eq!(task.pending(), get("a-commit"));
    let task = task.resume(StoreReply::Value(0));
    assert_eq!(task.pending(), get("b-commit"));
    let task = task.resume(StoreReply::NotFound);
    assert_eq!(task.pending(), get("c-commit"));
    let task = task.resume(StoreReply::Value(12));
    assert_eq!(
        task.outcome(),
        Some(Ok(Response::ListCommittedOffsetsOk {
            offsets: vec![("a".to_string(), 0), ("c".to_string(), 12)]
        }))
    );
}

#[test]
fn list_fails_when_the_store_fails() {
    let task = Task::start(Request::ListCommittedOffsets { keys: vec!["a".to_string()] });
    assert_eq!(task.resume(StoreReply::Failed).outcome(), Some(Err(LogError::StoreFailed)));
}
