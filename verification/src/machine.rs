//! The rules of the log: for each request, which store operation comes next
//! and what follows from each reply.
//!
//! The functions here are mathematical. [`crate::task::Task`] is the
//! executable machine that follows them step for step.

use crate::keys::{commit_key, counter_key, entry_key};
use crate::protocol::{Log, LogErrorView, RequestView, ResponseView};
use crate::store::{StoreOp, StoreReply};
use vstd::prelude::*;

verus! {

/// Where the work on one request stands.
pub enum TaskView {
    /// Allocating: the counter of `topic` is being read.
    ReadCounter { topic: Seq<char>, payload: usize },
    /// Allocating: the counter read `current`, and the step from `current`
    /// to its successor is being claimed.
    ClaimOffset { topic: Seq<char>, payload: usize, current: usize },
    /// `offset` was allocated, and the entry is being written there.
    WriteEntry { topic: Seq<char>, payload: usize, offset: usize },
    /// Polling: the counter of the topic of `requests[index]` is being read.
    /// `done` holds what was read of the topics before it.
    ReadLast { requests: Seq<(Seq<char>, usize)>, index: int, done: Seq<(Seq<char>, Seq<Log>)> },
    /// Polling: the entry at `next` of the topic of `requests[index]` is
    /// being read, `last` being the first offset not yet allocated. `logs`
    /// holds the entries of this topic read so far.
    FetchEntry {
        requests: Seq<(Seq<char>, usize)>,
        index: int,
        done: Seq<(Seq<char>, Seq<Log>)>,
        last: usize,
        next: usize,
        logs: Seq<Log>,
    },
    /// Committing: the marker of the topic of `requests[index]` is being read.
    ReadMarker { requests: Seq<(Seq<char>, usize)>, index: int },
    /// Committing: the marker was read as `held`, which is absent or below
    /// the offset asked for, and the step up to that offset is being claimed.
    AdvanceMarker { requests: Seq<(Seq<char>, usize)>, index: int, held: Option<usize> },
    /// Listing: the marker of the topic `keys[index]` is being read. `found`
    /// holds the markers found of the topics before it.
    ReportMarker { keys: Seq<Seq<char>>, index: int, found: Seq<(Seq<char>, usize)> },
    /// The request was served.
    Finished { response: ResponseView },
    /// The request cannot be served.
    Failed { error: LogErrorView },
}

/// The state in which the topics of a poll from `index` on remain to be read.
pub open spec fn poll_from(
    requests: Seq<(Seq<char>, usize)>,
    index: int,
    done: Seq<(Seq<char>, Seq<Log>)>,
) -> TaskView {
    if index < requests.len() {
        TaskView::ReadLast { requests, index, done }
    } else {
        TaskView::Finished { response: ResponseView::PollOk { msgs: done } }
    }
}

/// The state in which the commits from `index` on remain to be made.
pub open spec fn commit_from(requests: Seq<(Seq<char>, usize)>, index: int) -> TaskView {
    if index < requests.len() {
        TaskView::ReadMarker { requests, index }
    } else {
        TaskView::Finished { response: ResponseView::CommitOffsetsOk }
    }
}

/// The state in which the markers from `index` on remain to be reported.
pub open spec fn list_from(
    keys: Seq<Seq<char>>,
    index: int,
    found: Seq<(Seq<char>, usize)>,
) -> TaskView {
    if index < keys.len() {
        TaskView::ReportMarker { keys, index, found }
    } else {
        TaskView::Finished { response: ResponseView::ListCommittedOffsetsOk { offsets: found } }
    }
}

/// The state in which the work on `request` begins.
pub open spec fn start(request: RequestView) -> TaskView {
    match request {
        RequestView::Send { key, msg } => TaskView::ReadCounter { topic: key, payload: msg },
        RequestView::Poll { offsets } => poll_from(offsets, 0, Seq::empty()),
        RequestView::CommitOffsets { offsets } => commit_from(offsets, 0),
        RequestView::ListCommittedOffsets { keys } => list_from(keys, 0, Seq::empty()),
    }
}

/// The store operation whose reply the task waits for; none once the task
/// has ended.
pub open spec fn pending(task: TaskView) -> Option<StoreOp> {
    match task {
        TaskView::ReadCounter { topic, payload } => Some(StoreOp::Get { key: counter_key(topic) }),
        TaskView::ClaimOffset { topic, payload, current } => Some(
            StoreOp::Cas {
                key: counter_key(topic),
                expected: current,
                new: (current + 1) as usize,
                create_if_missing: true,
            },
        ),
        TaskView::WriteEntry { topic, payload, offset } => Some(
            StoreOp::Put { key: entry_key(topic, offset as nat), value: payload },
        ),
        TaskView::ReadLast { requests, index, done } => Some(
            StoreOp::Get { key: counter_key(requests[index].0) },
        ),
        TaskView::FetchEntry { requests, index, done, last, next, logs } => Some(
            StoreOp::Get { key: entry_key(requests[index].0, next as nat) },
        ),
        TaskView::ReadMarker { requests, index } => Some(
            StoreOp::Get { key: commit_key(requests[index].0) },
        ),
        TaskView::AdvanceMarker { requests, index, held } => Some(
            StoreOp::Cas {
                key: commit_key(requests[index].0),
                expected: match held {
                    Some(c) => c,
                    None => 0,
                },
                new: requests[index].1,
                create_if_missing: true,
            },
        ),
        TaskView::ReportMarker { keys, index, found } => Some(
            StoreOp::Get { key: commit_key(keys[index]) },
        ),
        TaskView::Finished { response } => None,
        TaskView::Failed { error } => None,
    }
}

/// The end of a task whose store operation was answered by `reply`, which
/// is a failure or a reply that the operation cannot have.
pub open spec fn fault(reply: StoreReply) -> TaskView {
    if reply == StoreReply::Failed {
        TaskView::Failed { error: LogErrorView::StoreFailed }
    } else {
        TaskView::Failed { error: LogErrorView::UnexpectedReply }
    }
}

/// What allocation does once the counter is known to stand at `current`.
pub open spec fn claim(topic: Seq<char>, payload: usize, current: usize) -> TaskView {
    if current < usize::MAX {
        TaskView::ClaimOffset { topic, payload, current }
    } else {
        TaskView::Failed { error: LogErrorView::OffsetsExhausted }
    }
}

/// What a poll does once the counter of the topic at `index` is known to
/// stand at `last`.
pub open spec fn read_range(
    requests: Seq<(Seq<char>, usize)>,
    index: int,
    done: Seq<(Seq<char>, Seq<Log>)>,
    last: usize,
) -> TaskView {
    let (topic, from) = requests[index];
    if last == 0 {
        poll_from(requests, index + 1, done)
    } else if from < last {
        TaskView::FetchEntry { requests, index, done, last, next: from, logs: Seq::empty() }
    } else {
        poll_from(requests, index + 1, done.push((topic, Seq::empty())))
    }
}

/// The state of `task` after the store answered its pending operation by
/// `reply`. A task that has ended stays as it is.
pub open spec fn step(task: TaskView, reply: StoreReply) -> TaskView {
    match task {
        TaskView::ReadCounter { topic, payload } => match reply {
            StoreReply::Value(current) => claim(topic, payload, current),
            StoreReply::NotFound => claim(topic, payload, 0),
            _ => fault(reply),
        },
        TaskView::ClaimOffset { topic, payload, current } => match reply {
            StoreReply::Done => TaskView::WriteEntry { topic, payload, offset: current },
            StoreReply::PreconditionFailed => TaskView::ReadCounter { topic, payload },
            _ => fault(reply),
        },
        TaskView::WriteEntry { topic, payload, offset } => match reply {
            StoreReply::Done => TaskView::Finished { response: ResponseView::SendOk { offset } },
            StoreReply::Failed => TaskView::Failed {
                error: LogErrorView::EntryNotWritten { topic, offset },
            },
            _ => fault(reply),
        },
        TaskView::ReadLast { requests, index, done } => match reply {
            StoreReply::Value(last) => read_range(requests, index, done, last),
            StoreReply::NotFound => read_range(requests, index, done, 0),
            _ => fault(reply),
        },
        TaskView::FetchEntry { requests, index, done, last, next, logs } => match reply {
            StoreReply::Value(payload) => {
                let logs = logs.push(Log(next, payload));
                if next + 1 < last {
                    TaskView::FetchEntry {
                        requests,
                        index,
                        done,
                        last,
                        next: (next + 1) as usize,
                        logs,
                    }
                } else {
                    poll_from(requests, index + 1, done.push((requests[index].0, logs)))
                }
            },
            StoreReply::NotFound => TaskView::Failed {
                error: LogErrorView::MissingEntry { topic: requests[index].0, offset: next },
            },
            _ => fault(reply),
        },
        TaskView::ReadMarker { requests, index } => match reply {
            StoreReply::Value(current) => {
                if current >= requests[index].1 {
                    commit_from(requests, index + 1)
                } else {
                    TaskView::AdvanceMarker { requests, index, held: Some(current) }
                }
            },
            StoreReply::NotFound => TaskView::AdvanceMarker { requests, index, held: None },
            _ => fault(reply),
        },
        TaskView::AdvanceMarker { requests, index, held } => match reply {
            StoreReply::Done => commit_from(requests, index + 1),
            StoreReply::PreconditionFailed => TaskView::ReadMarker { requests, index },
            _ => fault(reply),
        },
        TaskView::ReportMarker { keys, index, found } => match reply {
            StoreReply::Value(marker) => list_from(
                keys,
                index + 1,
                found.push((keys[index], marker)),
            ),
            StoreReply::NotFound => list_from(keys, index + 1, found),
            _ => fault(reply),
        },
        TaskView::Finished { response } => task,
        TaskView::Failed { error } => task,
    }
}

/// What holds of every state that a task can be in.
pub open spec fn well_formed(task: TaskView) -> bool {
    match task {
        TaskView::ReadCounter { topic, payload } => true,
        TaskView::ClaimOffset { topic, payload, current } => current < usize::MAX,
        TaskView::WriteEntry { topic, payload, offset } => offset < usize::MAX,
        TaskView::ReadLast { requests, index, done } => 0 <= index < requests.len(),
        TaskView::FetchEntry { requests, index, done, last, next, logs } => {
            &&& 0 <= index < requests.len()
            &&& requests[index].1 <= next < last
        },
        TaskView::ReadMarker { requests, index } => 0 <= index < requests.len(),
        TaskView::AdvanceMarker { requests, index, held } => {
            &&& 0 <= index < requests.len()
            &&& held matches Some(c) ==> c < requests[index].1
        },
        TaskView::ReportMarker { keys, index, found } => 0 <= index < keys.len(),
        TaskView::Finished { response } => true,
        TaskView::Failed { error } => true,
    }
}

/// Work begins in a well-formed state.
pub proof fn lemma_start_well_formed(request: RequestView)
    ensures
        well_formed(start(request)),
{
}

/// Every reply leads from a well-formed state to a well-formed state.
pub proof fn lemma_step_well_formed(task: TaskView, reply: StoreReply)
    requires
        well_formed(task),
    ensures
        well_formed(step(task, reply)),
{
}

/// A task waits for the store exactly as long as it has not ended.
pub proof fn lemma_pending_until_ended(task: TaskView)
    ensures
        pending(task) is None <==> (task is Finished || task is Failed),
{
}

/// Whether `logs` are consecutive entries that begin at the offset `from`.
pub open spec fn run_from(logs: Seq<Log>, from: int) -> bool {
    forall|k: int| 0 <= k < logs.len() ==> (#[trigger] logs[k]).0 == from + k
}

/// Whether `entry` answers one of `requests`: it bears the topic of that
/// request, and its entries are consecutive from the offset of that request.
pub open spec fn answers_one(
    requests: Seq<(Seq<char>, usize)>,
    entry: (Seq<char>, Seq<Log>),
) -> bool {
    exists|r: int|
        0 <= r < requests.len() && (#[trigger] requests[r]).0 == entry.0 && run_from(
            entry.1,
            requests[r].1 as int,
        )
}

/// Whether each of `msgs` answers one of `requests`.
pub open spec fn poll_answers(
    requests: Seq<(Seq<char>, usize)>,
    msgs: Seq<(Seq<char>, Seq<Log>)>,
) -> bool {
    forall|j: int| 0 <= j < msgs.len() ==> answers_one(requests, #[trigger] msgs[j])
}

/// Whether `topic` is among the topics of `requests`.
pub open spec fn names(requests: Seq<(Seq<char>, usize)>, topic: Seq<char>) -> bool {
    exists|j: int| 0 <= j < requests.len() && (#[trigger] requests[j]).0 == topic
}

/// Whether each topic of `found` is one of `keys`.
pub open spec fn list_answers(keys: Seq<Seq<char>>, found: Seq<(Seq<char>, usize)>) -> bool {
    forall|j: int| 0 <= j < found.len() ==> keys.contains((#[trigger] found[j]).0)
}

/// Whether `task` is a state on the way of `request`: it works on what
/// was asked, and what it has gathered so far answers what was asked.
pub open spec fn serves(request: RequestView, task: TaskView) -> bool {
    match request {
        RequestView::Send { key, msg } => match task {
            TaskView::ReadCounter { topic, payload } => topic == key && payload == msg,
            TaskView::ClaimOffset { topic, payload, current } => topic == key && payload == msg,
            TaskView::WriteEntry { topic, payload, offset } => topic == key && payload == msg,
            TaskView::Finished { response } => response is SendOk,
            TaskView::Failed { error } => error matches LogErrorView::EntryNotWritten {
                topic,
                offset,
            } ==> topic == key,
            _ => false,
        },
        RequestView::Poll { offsets } => match task {
            TaskView::ReadLast { requests, index, done } => {
                &&& requests == offsets
                &&& poll_answers(offsets, done)
            },
            TaskView::FetchEntry { requests, index, done, last, next, logs } => {
                &&& requests == offsets
                &&& poll_answers(offsets, done)
                &&& run_from(logs, requests[index].1 as int)
                &&& next == requests[index].1 + logs.len()
            },
            TaskView::Finished { response } => response matches ResponseView::PollOk { msgs }
                && poll_answers(offsets, msgs),
            TaskView::Failed { error } => true,
            _ => false,
        },
        RequestView::CommitOffsets { offsets } => match task {
            TaskView::ReadMarker { requests, index } => requests == offsets,
            TaskView::AdvanceMarker { requests, index, held } => requests == offsets,
            TaskView::Finished { response } => response is CommitOffsetsOk,
            TaskView::Failed { error } => true,
            _ => false,
        },
        RequestView::ListCommittedOffsets { keys } => match task {
            TaskView::ReportMarker { keys: asked, index, found } => {
                &&& asked == keys
                &&& list_answers(keys, found)
            },
            TaskView::Finished { response } => response matches ResponseView::ListCommittedOffsetsOk {
                offsets,
            } && list_answers(keys, offsets),
            TaskView::Failed { error } => true,
            _ => false,
        },
    }
}

/// Work on a request begins in a state that serves it.
pub proof fn lemma_start_serves(request: RequestView)
    ensures
        serves(request, start(request)),
{
}

proof fn lemma_poll_answers_more(
    requests: Seq<(Seq<char>, usize)>,
    done: Seq<(Seq<char>, Seq<Log>)>,
    index: int,
    logs: Seq<Log>,
)
    requires
        poll_answers(requests, done),
        0 <= index < requests.len(),
        run_from(logs, requests[index].1 as int),
    ensures
        poll_answers(requests, done.push((requests[index].0, logs))),
{
    let more = done.push((requests[index].0, logs));
    assert forall|j: int| 0 <= j < more.len() implies answers_one(requests, #[trigger] more[j]) by {
        if j < done.len() {
            assert(more[j] == done[j]);
        } else {
            assert(requests[index].0 == more[j].0);
        }
    }
}

/// Whatever the store replies, a task that serves a request goes on
/// serving it. In particular a poll that ends well answers what was asked:
/// topic by topic, consecutive entries from the offset asked for.
pub proof fn lemma_step_serves(request: RequestView, task: TaskView, reply: StoreReply)
    requires
        well_formed(task),
        serves(request, task),
    ensures
        serves(request, step(task, reply)),
{
    match task {
        TaskView::ReadLast { requests, index, done } => {
            lemma_poll_answers_more(requests, done, index, Seq::empty());
        },
        TaskView::FetchEntry { requests, index, done, last, next, logs } => {
            match reply {
                StoreReply::Value(payload) => {
                    let read = logs.push(Log(next, payload));
                    assert forall|k: int| 0 <= k < read.len() implies (#[trigger] read[k]).0
                        == requests[index].1 + k by {
                        if k < logs.len() {
                            assert(read[k] == logs[k]);
                        }
                    }
                    lemma_poll_answers_more(requests, done, index, read);
                },
                _ => {},
            }
        },
        TaskView::ReportMarker { keys, index, found } => {
            match reply {
                StoreReply::Value(m) => {
                    let more = found.push((keys[index], m));
                    assert forall|j: int| 0 <= j < more.len() implies keys.contains(
                        (#[trigger] more[j]).0,
                    ) by {
                        if j < found.len() {
                            assert(more[j] == found[j]);
                        } else {
                            assert(keys[index] == more[j].0);
                        }
                    }
                },
                _ => {},
            }
        },
        _ => {},
    }
}

} // verus!
