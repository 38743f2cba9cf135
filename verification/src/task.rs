//! The executable state machine that serves one request.
//!
//! A [`Task`] never talks to the store. It says which operation it needs
//! ([`Task::pending`]), is handed the reply ([`Task::resume`]), and in the end
//! gives up the result ([`Task::outcome`]). Whoever drives it may run any
//! number of tasks side by side, on any replica.

use crate::keys::{make_commit_key, make_counter_key, make_entry_key};
use crate::machine::{
    claim, commit_from, fault, lemma_start_well_formed, lemma_step_well_formed, list_from,
    pending, poll_from, read_range, start, step, well_formed, TaskView,
};
use crate::protocol::{Log, LogError, LogErrorView, Request, Response, ResponseView};
use crate::store::{StoreReply, StoreRequest};
use vstd::prelude::*;

verus! {

enum Phase {
    ReadCounter { topic: String, payload: usize },
    ClaimOffset { topic: String, payload: usize, current: usize },
    WriteEntry { topic: String, payload: usize, offset: usize },
    ReadLast { requests: Vec<(String, usize)>, index: usize, done: Vec<(String, Vec<Log>)> },
    FetchEntry {
        requests: Vec<(String, usize)>,
        index: usize,
        done: Vec<(String, Vec<Log>)>,
        last: usize,
        next: usize,
        logs: Vec<Log>,
    },
    ReadMarker { requests: Vec<(String, usize)>, index: usize },
    AdvanceMarker { requests: Vec<(String, usize)>, index: usize, held: Option<usize> },
    ReportMarker { keys: Vec<String>, index: usize, found: Vec<(String, usize)> },
    Finished { response: Response },
    Failed { error: LogError },
}

impl View for Phase {
    type V = TaskView;

    closed spec fn view(&self) -> TaskView {
        match self {
            Phase::ReadCounter { topic, payload } => TaskView::ReadCounter {
                topic: topic@,
                payload: *payload,
            },
            Phase::ClaimOffset { topic, payload, current } => TaskView::ClaimOffset {
                topic: topic@,
                payload: *payload,
                current: *current,
            },
            Phase::WriteEntry { topic, payload, offset } => TaskView::WriteEntry {
                topic: topic@,
                payload: *payload,
                offset: *offset,
            },
            Phase::ReadLast { requests, index, done } => TaskView::ReadLast {
                requests: requests.deep_view(),
                index: *index as int,
                done: done.deep_view(),
            },
            Phase::FetchEntry { requests, index, done, last, next, logs } => TaskView::FetchEntry {
                requests: requests.deep_view(),
                index: *index as int,
                done: done.deep_view(),
                last: *last,
                next: *next,
                logs: logs.deep_view(),
            },
            Phase::ReadMarker { requests, index } => TaskView::ReadMarker {
                requests: requests.deep_view(),
                index: *index as int,
            },
            Phase::AdvanceMarker { requests, index, held } => TaskView::AdvanceMarker {
                requests: requests.deep_view(),
                index: *index as int,
                held: *held,
            },
            Phase::ReportMarker { keys, index, found } => TaskView::ReportMarker {
                keys: keys.deep_view(),
                index: *index as int,
                found: found.deep_view(),
            },
            Phase::Finished { response } => TaskView::Finished { response: response@ },
            Phase::Failed { error } => TaskView::Failed { error: error@ },
        }
    }
}

/// The work on one request, from the moment it is accepted until its
/// result is known.
pub struct Task {
    phase: Phase,
}

impl View for Task {
    type V = TaskView;

    closed spec fn view(&self) -> TaskView {
        self.phase@
    }
}

impl Task {
    #[verifier::type_invariant]
    spec fn sound(self) -> bool {
        well_formed(self.phase@)
    }

    fn fault(reply: StoreReply) -> (task: Task)
        ensures
            task@ == fault(reply),
    {
        match reply {
            StoreReply::Failed => Task { phase: Phase::Failed { error: LogError::StoreFailed } },
            _ => Task { phase: Phase::Failed { error: LogError::UnexpectedReply } },
        }
    }

    fn claim(topic: String, payload: usize, current: usize) -> (task: Task)
        ensures
            task@ == claim(topic@, payload, current),
    {
        if current < usize::MAX {
            Task { phase: Phase::ClaimOffset { topic, payload, current } }
        } else {
            Task { phase: Phase::Failed { error: LogError::OffsetsExhausted } }
        }
    }

    fn poll_from(
        requests: Vec<(String, usize)>,
        index: usize,
        done: Vec<(String, Vec<Log>)>,
    ) -> (task: Task)
        ensures
            task@ == poll_from(requests.deep_view(), index as int, done.deep_view()),
    {
        if index < requests.len() {
            Task { phase: Phase::ReadLast { requests, index, done } }
        } else {
            Task { phase: Phase::Finished { response: Response::PollOk { msgs: done } } }
        }
    }

    fn commit_from(requests: Vec<(String, usize)>, index: usize) -> (task: Task)
        ensures
            task@ == commit_from(requests.deep_view(), index as int),
    {
        if index < requests.len() {
            Task { phase: Phase::ReadMarker { requests, index } }
        } else {
            Task { phase: Phase::Finished { response: Response::CommitOffsetsOk } }
        }
    }

    fn list_from(keys: Vec<String>, index: usize, found: Vec<(String, usize)>) -> (task: Task)
        ensures
            task@ == list_from(keys.deep_view(), index as int, found.deep_view()),
    {
        if index < keys.len() {
            Task { phase: Phase::ReportMarker { keys, index, found } }
        } else {
            Task {
                phase: Phase::Finished {
                    response: Response::ListCommittedOffsetsOk { offsets: found },
                },
            }
        }
    }

    fn read_range(
        requests: Vec<(String, usize)>,
        index: usize,
        done: Vec<(String, Vec<Log>)>,
        last: usize,
    ) -> (task: Task)
        requires
            index < requests.len(),
        ensures
            task@ == read_range(requests.deep_view(), index as int, done.deep_view(), last),
    {
        let from = requests[index].1;
        if last == 0 {
            Task::poll_from(requests, index + 1, done)
        } else if from < last {
            let logs: Vec<Log> = Vec::new();
            assert(logs.deep_view() =~= Seq::<Log>::empty());
            Task { phase: Phase::FetchEntry { requests, index, done, last, next: from, logs } }
        } else {
            let topic = requests[index].0.clone();
            let logs: Vec<Log> = Vec::new();
            assert(logs.deep_view() =~= Seq::<Log>::empty());
            let ghost before = done.deep_view();
            let mut done = done;
            done.push((topic, logs));
            assert(done.deep_view() =~= before.push((topic@, Seq::<Log>::empty())));
            Task::poll_from(requests, index + 1, done)
        }
    }

    /// Accepts `request`: the task that will serve it, before its first
    /// store operation.
    pub fn start(request: Request) -> (task: Task)
        ensures
            task@ == start(request@),
            well_formed(task@),
    {
        proof {
            lemma_start_well_formed(request@);
        }
        match request {
            Request::Send { key, msg } => Task {
                phase: Phase::ReadCounter { topic: key, payload: msg },
            },
            Request::Poll { offsets } => {
                let done: Vec<(String, Vec<Log>)> = Vec::new();
                assert(done.deep_view() =~= Seq::<(Seq<char>, Seq<Log>)>::empty());
                Task::poll_from(offsets, 0, done)
            },
            Request::CommitOffsets { offsets } => Task::commit_from(offsets, 0),
            Request::ListCommittedOffsets { keys } => {
                let found: Vec<(String, usize)> = Vec::new();
                assert(found.deep_view() =~= Seq::<(Seq<char>, usize)>::empty());
                Task::list_from(keys, 0, found)
            },
        }
    }

    /// The store operation that the task needs next, or `None` once the
    /// task has ended.
    pub fn pending(&self) -> (request: Option<StoreRequest>)
        ensures
            match request {
                Some(r) => pending(self@) == Some(r@),
                None => pending(self@) is None,
            },
    {
        proof {
            use_type_invariant(self);
        }
        match &self.phase {
            Phase::ReadCounter { topic, payload } => Some(
                StoreRequest::Get { key: make_counter_key(topic.as_str()) },
            ),
            Phase::ClaimOffset { topic, payload, current } => Some(
                StoreRequest::Cas {
                    key: make_counter_key(topic.as_str()),
                    expected: *current,
                    new: *current + 1,
                    create_if_missing: true,
                },
            ),
            Phase::WriteEntry { topic, payload, offset } => Some(
                StoreRequest::Put { key: make_entry_key(topic.as_str(), *offset), value: *payload },
            ),
            Phase::ReadLast { requests, index, done } => Some(
                StoreRequest::Get { key: make_counter_key(requests[*index].0.as_str()) },
            ),
            Phase::FetchEntry { requests, index, done, last, next, logs } => Some(
                StoreRequest::Get { key: make_entry_key(requests[*index].0.as_str(), *next) },
            ),
            Phase::ReadMarker { requests, index } => Some(
                StoreRequest::Get { key: make_commit_key(requests[*index].0.as_str()) },
            ),
            Phase::AdvanceMarker { requests, index, held } => {
                let expected = match held {
                    Some(c) => *c,
                    None => 0,
                };
                Some(
                    StoreRequest::Cas {
                        key: make_commit_key(requests[*index].0.as_str()),
                        expected,
                        new: requests[*index].1,
                        create_if_missing: true,
                    },
                )
            },
            Phase::ReportMarker { keys, index, found } => Some(
                StoreRequest::Get { key: make_commit_key(keys[*index].as_str()) },
            ),
            Phase::Finished { response } => None,
            Phase::Failed { error } => None,
        }
    }

    /// Takes the store's `reply` to the pending operation and moves on.
    /// A task that has ended stays as it is.
    pub fn resume(self, reply: StoreReply) -> (next: Task)
        ensures
            next@ == step(self@, reply),
            well_formed(next@),
    {
        proof {
            use_type_invariant(&self);
            lemma_step_well_formed(self@, reply);
        }
        match self.phase {
            Phase::ReadCounter { topic, payload } => match reply {
                StoreReply::Value(current) => Task::claim(topic, payload, current),
                StoreReply::NotFound => Task::claim(topic, payload, 0),
                _ => Task::fault(reply),
            },
            Phase::ClaimOffset { topic, payload, current } => match reply {
                StoreReply::Done => Task {
                    phase: Phase::WriteEntry { topic, payload, offset: current },
                },
                StoreReply::PreconditionFailed => Task {
                    phase: Phase::ReadCounter { topic, payload },
                },
                _ => Task::fault(reply),
            },
            Phase::WriteEntry { topic, payload, offset } => match reply {
                StoreReply::Done => Task {
                    phase: Phase::Finished { response: Response::SendOk { offset } },
                },
                StoreReply::Failed => Task {
                    phase: Phase::Failed { error: LogError::EntryNotWritten { topic, offset } },
                },
                _ => Task::fault(reply),
            },
            Phase::ReadLast { requests, index, done } => match reply {
                StoreReply::Value(last) => Task::read_range(requests, index, done, last),
                StoreReply::NotFound => Task::read_range(requests, index, done, 0),
                _ => Task::fault(reply),
            },
            Phase::FetchEntry { requests, index, done, last, next, logs } => match reply {
                StoreReply::Value(payload) => {
                    assert(requests.deep_view().len() == requests.len());
                    let ghost read = logs.deep_view();
                    let mut logs = logs;
                    logs.push(Log(next, payload));
                    assert(logs.deep_view() =~= read.push(Log(next, payload)));
                    if next + 1 < last {
                        Task {
                            phase: Phase::FetchEntry {
                                requests,
                                index,
                                done,
                                last,
                                next: next + 1,
                                logs,
                            },
                        }
                    } else {
                        let topic = requests[index].0.clone();
                        let ghost before = done.deep_view();
                        let ghost entries = logs.deep_view();
                        let mut done = done;
                        done.push((topic, logs));
                        assert(done.deep_view() =~= before.push((topic@, entries)));
                        Task::poll_from(requests, index + 1, done)
                    }
                },
                StoreReply::NotFound => {
                    let topic = requests[index].0.clone();
                    Task { phase: Phase::Failed { error: LogError::MissingEntry { topic, offset: next } } }
                },
                _ => Task::fault(reply),
            },
            Phase::ReadMarker { requests, index } => match reply {
                StoreReply::Value(current) => {
                    assert(requests.deep_view().len() == requests.len());
                    if current >= requests[index].1 {
                        Task::commit_from(requests, index + 1)
                    } else {
                        Task {
                            phase: Phase::AdvanceMarker { requests, index, held: Some(current) },
                        }
                    }
                },
                StoreReply::NotFound => Task {
                    phase: Phase::AdvanceMarker { requests, index, held: None },
                },
                _ => Task::fault(reply),
            },
            Phase::AdvanceMarker { requests, index, held } => match reply {
                StoreReply::Done => {
                    assert(requests.deep_view().len() == requests.len());
                    Task::commit_from(requests, index + 1)
                },
                StoreReply::PreconditionFailed => Task {
                    phase: Phase::ReadMarker { requests, index },
                },
                _ => Task::fault(reply),
            },
            Phase::ReportMarker { keys, index, found } => match reply {
                StoreReply::Value(marker) => {
                    assert(keys.deep_view().len() == keys.len());
                    let topic = keys[index].clone();
                    let ghost before = found.deep_view();
                    let mut found = found;
                    found.push((topic, marker));
                    assert(found.deep_view() =~= before.push((topic@, marker)));
                    Task::list_from(keys, index + 1, found)
                },
                StoreReply::NotFound => {
                    assert(keys.deep_view().len() == keys.len());
                    Task::list_from(keys, index + 1, found)
                },
                _ => Task::fault(reply),
            },
            Phase::Finished { response } => Task { phase: Phase::Finished { response } },
            Phase::Failed { error } => Task { phase: Phase::Failed { error } },
        }
    }

    /// The result of a task that has ended; `None` while it still waits
    /// for the store.
    pub fn outcome(self) -> (result: Option<Result<Response, LogError>>)
        ensures
            match result {
                Some(Ok(response)) => self@ == (TaskView::Finished { response: response@ }),
                Some(Err(error)) => self@ == (TaskView::Failed { error: error@ }),
                None => pending(self@) is Some,
            },
    {
        match self.phase {
            Phase::Finished { response } => Some(Ok(response)),
            Phase::Failed { error } => Some(Err(error)),
            _ => None,
        }
    }
}

} // verus!
