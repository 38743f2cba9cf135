//! What each request comes to when nothing else touches the store while
//! it is served, and a server that serves requests one after the other
//! from a store in memory.
//!
//! The functions [`sent`], [`polled`], [`committed`] and [`listed`] say what
//! a request does to the store and what it returns. [`serve`] drives a
//! [`Task`] to its end and is proved to come to exactly that.

use crate::cluster::{counter, marker};
use crate::keys::{commit_key, counter_key, entry_key};
use crate::machine::{pending, start, step, well_formed, TaskView};
use crate::protocol::{Log, LogError, LogErrorView, Request, RequestView, Response, ResponseView};
use crate::store::{answer, effect, MemStore, StoreReply};
use crate::task::Task;
use vstd::prelude::*;

verus! {

/// What the store holds after a send of `msg` to the topic `key`: the
/// counter has moved on by one, and the entry stands where the counter was.
/// Nothing changes once the counter can move no further.
pub open spec fn sent(store: Map<Seq<char>, usize>, key: Seq<char>, msg: usize) -> Map<
    Seq<char>,
    usize,
> {
    let offset = counter(store, key);
    if offset < usize::MAX {
        store.insert(counter_key(key), (offset + 1) as usize).insert(entry_key(key, offset), msg)
    } else {
        store
    }
}

/// Whether the store holds every entry of `topic` from `from` up to, and
/// without, `upto`.
pub open spec fn written(
    store: Map<Seq<char>, usize>,
    topic: Seq<char>,
    from: nat,
    upto: nat,
) -> bool {
    forall|n: nat| from <= n < upto ==> store.contains_key(#[trigger] entry_key(topic, n))
}

/// Whether `offset` is the first offset of `topic`, counting from `from`,
/// at which the store holds no entry.
pub open spec fn is_first_hole(
    store: Map<Seq<char>, usize>,
    topic: Seq<char>,
    from: nat,
    offset: nat,
) -> bool {
    &&& from <= offset
    &&& written(store, topic, from, offset)
    &&& !store.contains_key(entry_key(topic, offset))
}

/// The entries of `topic` from `from` up to, and without, `upto`, as
/// the store holds them.
pub open spec fn entries(
    store: Map<Seq<char>, usize>,
    topic: Seq<char>,
    from: nat,
    upto: nat,
) -> Seq<Log> {
    Seq::new(
        (upto - from) as nat,
        |k: int| Log((from + k) as usize, store[entry_key(topic, (from + k) as nat)]),
    )
}

/// What a poll of `requests` returns: for each topic in turn that has an
/// offset allocated, its entries from the offset asked for up to the
/// counter. The first allocated offset without an entry fails the poll.
pub open spec fn polled(
    store: Map<Seq<char>, usize>,
    requests: Seq<(Seq<char>, usize)>,
) -> Result<Seq<(Seq<char>, Seq<Log>)>, LogErrorView>
    decreases requests.len(),
{
    if requests.len() == 0 {
        Ok(Seq::empty())
    } else {
        match polled(store, requests.drop_last()) {
            Err(error) => Err(error),
            Ok(done) => {
                let (topic, from) = requests.last();
                let last = counter(store, topic);
                if last == 0 {
                    Ok(done)
                } else if from >= last {
                    Ok(done.push((topic, Seq::empty())))
                } else if written(store, topic, from as nat, last) {
                    Ok(done.push((topic, entries(store, topic, from as nat, last))))
                } else {
                    Err(
                        LogErrorView::MissingEntry {
                            topic,
                            offset: choose|n: usize|
                                is_first_hole(store, topic, from as nat, n as nat) && n < last,
                        },
                    )
                }
            },
        }
    }
}

/// What the store holds after a commit of `topic` at `offset`: the
/// marker stands at `offset`, unless it stood there or higher already.
pub open spec fn committed_one(
    store: Map<Seq<char>, usize>,
    topic: Seq<char>,
    offset: usize,
) -> Map<Seq<char>, usize> {
    match marker(store, topic) {
        Some(current) => if current >= offset {
            store
        } else {
            store.insert(commit_key(topic), offset)
        },
        None => store.insert(commit_key(topic), offset),
    }
}

/// What the store holds after the commits of `requests`, made in turn.
pub open spec fn committed(
    store: Map<Seq<char>, usize>,
    requests: Seq<(Seq<char>, usize)>,
) -> Map<Seq<char>, usize>
    decreases requests.len(),
{
    if requests.len() == 0 {
        store
    } else {
        committed_one(
            committed(store, requests.drop_last()),
            requests.last().0,
            requests.last().1,
        )
    }
}

/// What a listing of `keys` returns: for each topic in turn that has a
/// marker, the topic and its marker.
pub open spec fn listed(store: Map<Seq<char>, usize>, keys: Seq<Seq<char>>) -> Seq<
    (Seq<char>, usize),
>
    decreases keys.len(),
{
    if keys.len() == 0 {
        Seq::empty()
    } else {
        let found = listed(store, keys.drop_last());
        match marker(store, keys.last()) {
            Some(current) => found.push((keys.last(), current)),
            None => found,
        }
    }
}

/// What the store holds after `request` was served with nothing else
/// touching the store.
pub open spec fn stored(store: Map<Seq<char>, usize>, request: RequestView) -> Map<
    Seq<char>,
    usize,
> {
    match request {
        RequestView::Send { key, msg } => sent(store, key, msg),
        RequestView::Poll { offsets } => store,
        RequestView::CommitOffsets { offsets } => committed(store, offsets),
        RequestView::ListCommittedOffsets { keys } => store,
    }
}

/// What `request` returns when it is served with nothing else touching
/// the store.
pub open spec fn returned(store: Map<Seq<char>, usize>, request: RequestView) -> Result<
    ResponseView,
    LogErrorView,
> {
    match request {
        RequestView::Send { key, msg } => {
            if counter(store, key) < usize::MAX {
                Ok(ResponseView::SendOk { offset: counter(store, key) as usize })
            } else {
                Err(LogErrorView::OffsetsExhausted)
            }
        },
        RequestView::Poll { offsets } => match polled(store, offsets) {
            Ok(msgs) => Ok(ResponseView::PollOk { msgs }),
            Err(error) => Err(error),
        },
        RequestView::CommitOffsets { offsets } => Ok(ResponseView::CommitOffsetsOk),
        RequestView::ListCommittedOffsets { keys } => Ok(
            ResponseView::ListCommittedOffsetsOk { offsets: listed(store, keys) },
        ),
    }
}

/// The result of a task that has ended.
pub open spec fn outcome(task: TaskView) -> Option<Result<ResponseView, LogErrorView>> {
    match task {
        TaskView::Finished { response } => Some(Ok(response)),
        TaskView::Failed { error } => Some(Err(error)),
        _ => None,
    }
}

/// Whether `task` and `store` are where the work on `request` stands at
/// some moment, if the work began on the store `origin` and nothing else
/// has touched the store since.
pub open spec fn on_track(
    origin: Map<Seq<char>, usize>,
    request: RequestView,
    store: Map<Seq<char>, usize>,
    task: TaskView,
) -> bool {
    match request {
        RequestView::Send { key, msg } => match task {
            TaskView::ReadCounter { topic, payload } => {
                &&& topic == key
                &&& payload == msg
                &&& store == origin
            },
            TaskView::ClaimOffset { topic, payload, current } => {
                &&& topic == key
                &&& payload == msg
                &&& store == origin
                &&& current == counter(origin, key)
            },
            TaskView::WriteEntry { topic, payload, offset } => {
                &&& topic == key
                &&& payload == msg
                &&& offset == counter(origin, key)
                &&& store == origin.insert(counter_key(key), (offset + 1) as usize)
            },
            _ => {
                &&& store == stored(origin, request)
                &&& outcome(task) == Some(returned(origin, request))
            },
        },
        RequestView::Poll { offsets } => match task {
            TaskView::ReadLast { requests, index, done } => {
                &&& requests == offsets
                &&& store == origin
                &&& polled(origin, offsets.take(index)) == Ok::<_, LogErrorView>(done)
            },
            TaskView::FetchEntry { requests, index, done, last, next, logs } => {
                &&& requests == offsets
                &&& store == origin
                &&& polled(origin, offsets.take(index)) == Ok::<_, LogErrorView>(done)
                &&& last == counter(origin, offsets[index].0)
                &&& written(origin, offsets[index].0, offsets[index].1 as nat, next as nat)
                &&& logs == entries(origin, offsets[index].0, offsets[index].1 as nat, next as nat)
            },
            _ => {
                &&& store == stored(origin, request)
                &&& outcome(task) == Some(returned(origin, request))
            },
        },
        RequestView::CommitOffsets { offsets } => match task {
            TaskView::ReadMarker { requests, index } => {
                &&& requests == offsets
                &&& store == committed(origin, offsets.take(index))
            },
            TaskView::AdvanceMarker { requests, index, held } => {
                &&& requests == offsets
                &&& store == committed(origin, offsets.take(index))
                &&& held == marker(store, offsets[index].0)
            },
            _ => {
                &&& store == stored(origin, request)
                &&& outcome(task) == Some(returned(origin, request))
            },
        },
        RequestView::ListCommittedOffsets { keys } => match task {
            TaskView::ReportMarker { keys: asked, index, found } => {
                &&& asked == keys
                &&& store == origin
                &&& found == listed(origin, keys.take(index))
            },
            _ => {
                &&& store == stored(origin, request)
                &&& outcome(task) == Some(returned(origin, request))
            },
        },
    }
}

/// How many topics of its request a task has not dealt with yet.
pub open spec fn topics_left(task: TaskView) -> int {
    match task {
        TaskView::ReadCounter { topic, payload } => 1,
        TaskView::ClaimOffset { topic, payload, current } => 1,
        TaskView::WriteEntry { topic, payload, offset } => 1,
        TaskView::ReadLast { requests, index, done } => requests.len() - index,
        TaskView::FetchEntry { requests, index, done, last, next, logs } => requests.len() - index,
        TaskView::ReadMarker { requests, index } => requests.len() - index,
        TaskView::AdvanceMarker { requests, index, held } => requests.len() - index,
        TaskView::ReportMarker { keys, index, found } => keys.len() - index,
        TaskView::Finished { response } => 0,
        TaskView::Failed { error } => 0,
    }
}

/// How many operations on the store a task that is on track still needs
/// for the topic that it deals with, entries apart.
pub open spec fn steps_left(task: TaskView) -> int {
    match task {
        TaskView::ReadCounter { topic, payload } => 2,
        TaskView::ClaimOffset { topic, payload, current } => 1,
        TaskView::ReadLast { requests, index, done } => 1,
        TaskView::ReadMarker { requests, index } => 1,
        _ => 0,
    }
}

/// How many entries a task has still to read of the topic that it
/// deals with.
pub open spec fn entries_left(task: TaskView) -> int {
    match task {
        TaskView::FetchEntry { requests, index, done, last, next, logs } => last - next,
        _ => 0,
    }
}

proof fn lemma_polled_next(
    store: Map<Seq<char>, usize>,
    requests: Seq<(Seq<char>, usize)>,
    index: int,
)
    requires
        0 <= index < requests.len(),
    ensures
        requests.take(index + 1).drop_last() == requests.take(index),
        requests.take(index + 1).last() == requests[index],
        requests.take(requests.len() as int) == requests,
{
    assert(requests.take(index + 1).drop_last() =~= requests.take(index));
    assert(requests.take(requests.len() as int) =~= requests);
}

proof fn lemma_keys_next(keys: Seq<Seq<char>>, index: int)
    requires
        0 <= index < keys.len(),
    ensures
        keys.take(index + 1).drop_last() == keys.take(index),
        keys.take(index + 1).last() == keys[index],
        keys.take(keys.len() as int) == keys,
{
    assert(keys.take(index + 1).drop_last() =~= keys.take(index));
    assert(keys.take(keys.len() as int) =~= keys);
}

/// A poll that fails on some of its topics fails in the same way however
/// many topics follow.
proof fn lemma_polled_fails_for_good(
    store: Map<Seq<char>, usize>,
    requests: Seq<(Seq<char>, usize)>,
    index: int,
)
    requires
        0 <= index <= requests.len(),
        polled(store, requests.take(index)) is Err,
    ensures
        polled(store, requests) == polled(store, requests.take(index)),
    decreases requests.len() - index,
{
    if index < requests.len() {
        lemma_polled_next(store, requests, index);
        assert(polled(store, requests.take(index + 1)) == polled(store, requests.take(index)));
        lemma_polled_fails_for_good(store, requests, index + 1);
    } else {
        assert(requests.take(index) =~= requests);
    }
}

/// Served alone, a task stays on track: the store's reply to its pending
/// operation leads to the next moment of the same work.
pub proof fn lemma_stays_on_track(
    origin: Map<Seq<char>, usize>,
    request: RequestView,
    store: Map<Seq<char>, usize>,
    task: TaskView,
)
    requires
        well_formed(task),
        on_track(origin, request, store, task),
        pending(task) is Some,
    ensures
        on_track(
            origin,
            request,
            effect(store, pending(task).unwrap()),
            step(task, answer(store, pending(task).unwrap())),
        ),
{
    let op = pending(task).unwrap();
    let reply = answer(store, op);
    let after = effect(store, op);
    let next = step(task, reply);
    match request {
        RequestView::Send { key, msg } => {},
        RequestView::Poll { offsets } => {
            match task {
                TaskView::ReadLast { requests, index, done } => {
                    lemma_polled_next(origin, offsets, index);
                    let (topic, from) = offsets[index];
                    let last = counter(origin, topic);
                    if last != 0 && from < last {
                        assert(entries(origin, topic, from as nat, from as nat) =~= Seq::<
                            Log,
                        >::empty());
                    }
                },
                TaskView::FetchEntry { requests, index, done, last, next: at, logs } => {
                    lemma_polled_next(origin, offsets, index);
                    let (topic, from) = offsets[index];
                    if origin.contains_key(entry_key(topic, at as nat)) {
                        let payload = origin[entry_key(topic, at as nat)];
                        assert(logs.push(Log(at, payload)) =~= entries(
                            origin,
                            topic,
                            from as nat,
                            (at + 1) as nat,
                        ));
                        assert(written(origin, topic, from as nat, (at + 1) as nat));
                    } else {
                        assert(!written(origin, topic, from as nat, last as nat));
                        assert(is_first_hole(origin, topic, from as nat, at as nat) && at < last);
                        let hole = choose|n: usize|
                            is_first_hole(origin, topic, from as nat, n as nat) && n < last;
                        if hole < at {
                            assert(origin.contains_key(entry_key(topic, hole as nat)));
                        }
                        if at < hole {
                            assert(origin.contains_key(entry_key(topic, at as nat)));
                        }
                        assert(hole == at);
                        assert(polled(origin, offsets.take(index + 1)) is Err);
                        lemma_polled_fails_for_good(origin, offsets, index + 1);
                    }
                },
                _ => {},
            }
        },
        RequestView::CommitOffsets { offsets } => {
            match task {
                TaskView::ReadMarker { requests, index } => {
                    lemma_polled_next(origin, offsets, index);
                },
                TaskView::AdvanceMarker { requests, index, held } => {
                    lemma_polled_next(origin, offsets, index);
                },
                _ => {},
            }
        },
        RequestView::ListCommittedOffsets { keys } => {
            match task {
                TaskView::ReportMarker { keys: asked, index, found } => {
                    lemma_keys_next(keys, index);
                },
                _ => {},
            }
        },
    }
}

/// Served alone, a task comes nearer to its end with every reply.
pub proof fn lemma_comes_nearer(
    origin: Map<Seq<char>, usize>,
    request: RequestView,
    store: Map<Seq<char>, usize>,
    task: TaskView,
)
    requires
        well_formed(task),
        on_track(origin, request, store, task),
        pending(task) is Some,
    ensures
        ({
            let next = step(task, answer(store, pending(task).unwrap()));
            &&& 0 <= topics_left(next)
            &&& 0 <= steps_left(next)
            &&& 0 <= entries_left(next)
            &&& {
                ||| topics_left(next) < topics_left(task)
                ||| topics_left(next) == topics_left(task) && steps_left(next) < steps_left(task)
                ||| topics_left(next) == topics_left(task) && steps_left(next) == steps_left(task)
                    && entries_left(next) < entries_left(task)
            }
        }),
{
}

/// Work on a request begins on track.
pub proof fn lemma_starts_on_track(origin: Map<Seq<char>, usize>, request: RequestView)
    ensures
        on_track(origin, request, origin, start(request)),
{
    match request {
        RequestView::Poll { offsets } => {
            assert(offsets.take(0) =~= Seq::empty());
            assert(offsets.take(offsets.len() as int) =~= offsets);
        },
        RequestView::CommitOffsets { offsets } => {
            assert(offsets.take(0) =~= Seq::empty());
            assert(offsets.take(offsets.len() as int) =~= offsets);
        },
        RequestView::ListCommittedOffsets { keys } => {
            assert(keys.take(0) =~= Seq::empty());
            assert(keys.take(keys.len() as int) =~= keys);
        },
        _ => {},
    }
}

/// The view of a result.
pub open spec fn result_view(result: Result<Response, LogError>) -> Result<
    ResponseView,
    LogErrorView,
> {
    match result {
        Ok(response) => Ok(response@),
        Err(error) => Err(error@),
    }
}

/// Serves `request` from `store`, to the end, with nothing else touching
/// the store.
pub fn serve(store: &mut MemStore, request: Request) -> (result: Result<Response, LogError>)
    ensures
        final(store)@ == stored(old(store)@, request@),
        result_view(result) == returned(old(store)@, request@),
{
    let ghost origin = store@;
    let ghost asked = request@;
    proof {
        lemma_starts_on_track(origin, asked);
    }
    let mut task = Task::start(request);
    loop
        invariant
            well_formed(task@),
            on_track(origin, asked, store@, task@),
            0 <= topics_left(task@),
            0 <= steps_left(task@),
            0 <= entries_left(task@),
        ensures
            pending(task@) is None,
        decreases topics_left(task@), steps_left(task@), entries_left(task@),
    {
        match task.pending() {
            None => {
                break ;
            },
            Some(op) => {
                proof {
                    lemma_stays_on_track(origin, asked, store@, task@);
                    lemma_comes_nearer(origin, asked, store@, task@);
                }
                let reply = store.execute(&op);
                task = task.resume(reply);
            },
        }
    }
    match task.outcome() {
        Some(result) => result,
        None => {
            proof {
                assert(false);
            }
            unreached()
        },
    }
}

} // verus!
