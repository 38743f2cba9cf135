//! Any number of tasks racing against one store.
//!
//! A [`Cluster`] is the store together with every task that some replica
//! has accepted. One [`Move`] is one instant of the store: a request is
//! accepted, or the pending operation of one task takes effect and is
//! answered. Which replica runs a task plays no part, since tasks meet in
//! the store only. The lemmas of this module hold of every sequence of moves.

use crate::keys::{commit_key, counter_key, entry_key, key_of, lemma_key_of_injective, Role};
use crate::machine::{
    commit_from, lemma_start_serves, lemma_step_serves, lemma_step_well_formed, names, pending,
    poll_answers, serves, start, step, well_formed, TaskView,
};
use crate::protocol::{Log, LogErrorView, RequestView, ResponseView};
use crate::store::{answer, effect, StoreOp, StoreReply};
use vstd::prelude::*;

verus! {

/// The next offset that the store will allocate for `topic`: what its
/// counter holds, or zero while it has none.
pub open spec fn counter(store: Map<Seq<char>, usize>, topic: Seq<char>) -> nat {
    if store.contains_key(counter_key(topic)) {
        store[counter_key(topic)] as nat
    } else {
        0
    }
}

/// The commit marker that the store holds for `topic`, if it holds one.
pub open spec fn marker(store: Map<Seq<char>, usize>, topic: Seq<char>) -> Option<usize> {
    if store.contains_key(commit_key(topic)) {
        Some(store[commit_key(topic)])
    } else {
        None
    }
}

/// Whether a marker that stood at `before` may stand at `after` later on:
/// a marker stays once it is set, and never moves down.
pub open spec fn marker_at_least(before: Option<usize>, after: Option<usize>) -> bool {
    before matches Some(m) ==> (after matches Some(n) && m <= n)
}

/// Whether `after` may be the store at a later time than `before`: no
/// counter and no marker has moved down.
pub open spec fn grows(before: Map<Seq<char>, usize>, after: Map<Seq<char>, usize>) -> bool {
    &&& forall|topic: Seq<char>|
        #![trigger counter(before, topic)]
        #![trigger counter(after, topic)]
        counter(before, topic) <= counter(after, topic)
    &&& forall|topic: Seq<char>|
        #![trigger marker(before, topic)]
        #![trigger marker(after, topic)]
        marker_at_least(marker(before, topic), marker(after, topic))
}

/// A write under a key moves the counter of a topic only if the key is
/// that counter's.
pub proof fn lemma_counter_after_write(
    store: Map<Seq<char>, usize>,
    role: Role,
    value: usize,
    topic: Seq<char>,
)
    ensures
        counter(store.insert(key_of(role), value), topic) == (if role == (Role::Counter {
            topic,
        }) {
            value as nat
        } else {
            counter(store, topic)
        }),
{
    if key_of(role) == counter_key(topic) {
        lemma_key_of_injective(role, Role::Counter { topic });
    }
}

/// A write under a key moves the marker of a topic only if the key is
/// that marker's.
pub proof fn lemma_marker_after_write(
    store: Map<Seq<char>, usize>,
    role: Role,
    value: usize,
    topic: Seq<char>,
)
    ensures
        marker(store.insert(key_of(role), value), topic) == (if role == (Role::Marker { topic }) {
            Some(value)
        } else {
            marker(store, topic)
        }),
{
    if key_of(role) == commit_key(topic) {
        lemma_key_of_injective(role, Role::Marker { topic });
    }
}

/// The store never loses ground to the pending operation of a task.
pub proof fn lemma_operation_grows(store: Map<Seq<char>, usize>, task: TaskView)
    requires
        well_formed(task),
        pending(task) is Some,
    ensures
        grows(store, effect(store, pending(task).unwrap())),
{
    let after = effect(store, pending(task).unwrap());
    match task {
        TaskView::ClaimOffset { topic, payload, current } => {
            let role = Role::Counter { topic };
            let new = (current + 1) as usize;
            assert forall|t: Seq<char>| counter(store, t) <= #[trigger] counter(after, t) by {
                lemma_counter_after_write(store, role, new, t);
            }
            assert forall|t: Seq<char>|
                marker_at_least(marker(store, t), #[trigger] marker(after, t)) by {
                lemma_marker_after_write(store, role, new, t);
            }
        },
        TaskView::WriteEntry { topic, payload, offset } => {
            let role = Role::Entry { topic, offset: offset as nat };
            assert forall|t: Seq<char>| counter(store, t) <= #[trigger] counter(after, t) by {
                lemma_counter_after_write(store, role, payload, t);
            }
            assert forall|t: Seq<char>|
                marker_at_least(marker(store, t), #[trigger] marker(after, t)) by {
                lemma_marker_after_write(store, role, payload, t);
            }
        },
        TaskView::AdvanceMarker { requests, index, held } => {
            let role = Role::Marker { topic: requests[index].0 };
            let new = requests[index].1;
            assert forall|t: Seq<char>| counter(store, t) <= #[trigger] counter(after, t) by {
                lemma_counter_after_write(store, role, new, t);
            }
            assert forall|t: Seq<char>|
                marker_at_least(marker(store, t), #[trigger] marker(after, t)) by {
                lemma_marker_after_write(store, role, new, t);
            }
        },
        _ => {},
    }
}

/// A store has not lost ground to itself.
pub proof fn lemma_grows_reflexive(store: Map<Seq<char>, usize>)
    ensures
        grows(store, store),
{
}

/// Growth carries over a store in between.
pub proof fn lemma_grows_transitive(
    a: Map<Seq<char>, usize>,
    b: Map<Seq<char>, usize>,
    c: Map<Seq<char>, usize>,
)
    requires
        grows(a, b),
        grows(b, c),
    ensures
        grows(a, c),
{
    assert forall|t: Seq<char>| counter(a, t) <= #[trigger] counter(c, t) by {
        assert(counter(a, t) <= counter(b, t));
    }
    assert forall|t: Seq<char>| marker_at_least(marker(a, t), #[trigger] marker(c, t)) by {
        assert(marker_at_least(marker(a, t), marker(b, t)));
        assert(marker_at_least(marker(b, t), marker(c, t)));
    }
}

/// The store, and every request accepted so far with the task that
/// serves it.
pub struct Cluster {
    /// What the store holds under each key.
    pub store: Map<Seq<char>, usize>,
    /// The requests accepted so far, in the order of acceptance.
    pub accepted: Seq<RequestView>,
    /// For each accepted request, where the work on it stands.
    pub tasks: Seq<TaskView>,
}

/// How an operation fared on its way to the store and back.
pub enum Delivery {
    /// The operation took effect and the task got the store's reply.
    Answered,
    /// The operation never reached the store; the task was told that the
    /// store failed.
    Dropped,
    /// The operation took effect, but the reply was lost; the task was
    /// told that the store failed.
    Unacknowledged,
}

/// One instant in the life of a cluster.
pub enum Move {
    /// Some replica accepts `request`.
    Accept { request: RequestView },
    /// The pending operation of the task numbered `task` is delivered.
    Deliver { task: int, delivery: Delivery },
}

/// The cluster in which nothing has happened yet.
pub open spec fn initial() -> Cluster {
    Cluster { store: Map::empty(), accepted: Seq::empty(), tasks: Seq::empty() }
}

/// The store after `op` was delivered as `delivery` says.
pub open spec fn delivered_effect(
    store: Map<Seq<char>, usize>,
    op: StoreOp,
    delivery: Delivery,
) -> Map<Seq<char>, usize> {
    match delivery {
        Delivery::Dropped => store,
        _ => effect(store, op),
    }
}

/// What the task is told after `op` was delivered as `delivery` says.
pub open spec fn delivered_reply(
    store: Map<Seq<char>, usize>,
    op: StoreOp,
    delivery: Delivery,
) -> StoreReply {
    match delivery {
        Delivery::Answered => answer(store, op),
        _ => StoreReply::Failed,
    }
}

/// Whether `m` can be made in `cluster`: a delivery needs a task that
/// waits for the store.
pub open spec fn enabled(cluster: Cluster, m: Move) -> bool {
    match m {
        Move::Accept { request } => true,
        Move::Deliver { task, delivery } => {
            &&& 0 <= task < cluster.tasks.len()
            &&& pending(cluster.tasks[task]) is Some
        },
    }
}

/// The cluster after `m`. A move that cannot be made changes nothing.
pub open spec fn advance(cluster: Cluster, m: Move) -> Cluster {
    match m {
        Move::Accept { request } => Cluster {
            store: cluster.store,
            accepted: cluster.accepted.push(request),
            tasks: cluster.tasks.push(start(request)),
        },
        Move::Deliver { task, delivery } => {
            if enabled(cluster, m) {
                let op = pending(cluster.tasks[task]).unwrap();
                Cluster {
                    store: delivered_effect(cluster.store, op, delivery),
                    accepted: cluster.accepted,
                    tasks: cluster.tasks.update(
                        task,
                        step(cluster.tasks[task], delivered_reply(cluster.store, op, delivery)),
                    ),
                }
            } else {
                cluster
            }
        },
    }
}

/// The cluster after `moves`, made one after the other.
pub open spec fn run(cluster: Cluster, moves: Seq<Move>) -> Cluster
    decreases moves.len(),
{
    if moves.len() == 0 {
        cluster
    } else {
        advance(run(cluster, moves.drop_last()), moves.last())
    }
}

/// Whether every offset in `msgs` has been allocated in `store`.
pub open spec fn all_allocated(
    store: Map<Seq<char>, usize>,
    msgs: Seq<(Seq<char>, Seq<Log>)>,
) -> bool {
    forall|j: int, k: int|
        0 <= j < msgs.len() && 0 <= k < msgs[j].1.len() ==> (#[trigger] msgs[j].1[k]).0 < counter(
            store,
            msgs[j].0,
        )
}

/// Whether every marker in `found` has been reached in `store`.
pub open spec fn all_committed(
    store: Map<Seq<char>, usize>,
    found: Seq<(Seq<char>, usize)>,
) -> bool {
    forall|j: int|
        0 <= j < found.len() ==> marker_at_least(
            Some((#[trigger] found[j]).1),
            marker(store, found[j].0),
        )
}

/// Whether what `task` believes of the store is borne out by `store`: an
/// offset that it holds was allocated, a counter that it has read has been
/// reached, and so has a marker that it has read.
pub open spec fn consistent(store: Map<Seq<char>, usize>, task: TaskView) -> bool {
    match task {
        TaskView::ClaimOffset { topic, payload, current } => current <= counter(store, topic),
        TaskView::WriteEntry { topic, payload, offset } => offset < counter(store, topic),
        TaskView::ReadLast { requests, index, done } => all_allocated(store, done),
        TaskView::FetchEntry { requests, index, done, last, next, logs } => {
            &&& all_allocated(store, done)
            &&& last <= counter(store, requests[index].0)
            &&& forall|k: int| 0 <= k < logs.len() ==> (#[trigger] logs[k]).0 < last
        },
        TaskView::ReportMarker { keys, index, found } => all_committed(store, found),
        TaskView::Finished { response } => match response {
            ResponseView::PollOk { msgs } => all_allocated(store, msgs),
            ResponseView::ListCommittedOffsetsOk { offsets } => all_committed(store, offsets),
            _ => true,
        },
        _ => true,
    }
}

/// Whether every task of `cluster` is well-formed, serves the request
/// that it was started for, and is consistent with the store.
pub open spec fn coherent(cluster: Cluster) -> bool {
    &&& cluster.accepted.len() == cluster.tasks.len()
    &&& forall|i: int|
        0 <= i < cluster.tasks.len() ==> {
            &&& well_formed(#[trigger] cluster.tasks[i])
            &&& serves(cluster.accepted[i], cluster.tasks[i])
            &&& consistent(cluster.store, cluster.tasks[i])
        }
}

/// What a task believes of the store stays true while the store grows.
pub proof fn lemma_consistent_while_growing(
    before: Map<Seq<char>, usize>,
    after: Map<Seq<char>, usize>,
    task: TaskView,
)
    requires
        consistent(before, task),
        grows(before, after),
    ensures
        consistent(after, task),
{
    match task {
        TaskView::ClaimOffset { topic, payload, current } => {
            assert(counter(before, topic) <= counter(after, topic));
        },
        TaskView::WriteEntry { topic, payload, offset } => {
            assert(counter(before, topic) <= counter(after, topic));
        },
        TaskView::ReadLast { requests, index, done } => {
            lemma_allocated_while_growing(before, after, done);
        },
        TaskView::FetchEntry { requests, index, done, last, next, logs } => {
            lemma_allocated_while_growing(before, after, done);
            assert(counter(before, requests[index].0) <= counter(after, requests[index].0));
        },
        TaskView::ReportMarker { keys, index, found } => {
            lemma_committed_while_growing(before, after, found);
        },
        TaskView::Finished { response } => match response {
            ResponseView::PollOk { msgs } => {
                lemma_allocated_while_growing(before, after, msgs);
            },
            ResponseView::ListCommittedOffsetsOk { offsets } => {
                lemma_committed_while_growing(before, after, offsets);
            },
            _ => {},
        },
        _ => {},
    }
}

proof fn lemma_allocated_while_growing(
    before: Map<Seq<char>, usize>,
    after: Map<Seq<char>, usize>,
    msgs: Seq<(Seq<char>, Seq<Log>)>,
)
    requires
        all_allocated(before, msgs),
        grows(before, after),
    ensures
        all_allocated(after, msgs),
{
    assert forall|j: int, k: int|
        0 <= j < msgs.len() && 0 <= k < msgs[j].1.len() implies (#[trigger] msgs[j].1[k]).0
        < counter(after, msgs[j].0) by {
        assert(counter(before, msgs[j].0) <= counter(after, msgs[j].0));
    }
}

proof fn lemma_committed_while_growing(
    before: Map<Seq<char>, usize>,
    after: Map<Seq<char>, usize>,
    found: Seq<(Seq<char>, usize)>,
)
    requires
        all_committed(before, found),
        grows(before, after),
    ensures
        all_committed(after, found),
{
    assert forall|j: int| 0 <= j < found.len() implies marker_at_least(
        Some((#[trigger] found[j]).1),
        marker(after, found[j].0),
    ) by {
        assert(marker_at_least(marker(before, found[j].0), marker(after, found[j].0)));
    }
}

/// After its pending operation was delivered, a task is consistent with
/// the store as the delivery left it.
pub proof fn lemma_delivery_consistent(
    store: Map<Seq<char>, usize>,
    task: TaskView,
    delivery: Delivery,
)
    requires
        well_formed(task),
        consistent(store, task),
        pending(task) is Some,
    ensures
        consistent(
            delivered_effect(store, pending(task).unwrap(), delivery),
            step(task, delivered_reply(store, pending(task).unwrap(), delivery)),
        ),
{
    let op = pending(task).unwrap();
    let after = delivered_effect(store, op, delivery);
    let reply = delivered_reply(store, op, delivery);
    let next = step(task, reply);
    lemma_operation_grows(store, task);
    lemma_grows_reflexive(store);
    assert(grows(store, after));
    match task {
        TaskView::ReadCounter { topic, payload } => {},
        TaskView::ClaimOffset { topic, payload, current } => {
            if reply == StoreReply::Done {
                lemma_counter_after_write(
                    store,
                    Role::Counter { topic },
                    (current + 1) as usize,
                    topic,
                );
            }
        },
        TaskView::WriteEntry { topic, payload, offset } => {},
        TaskView::ReadLast { requests, index, done } => {
            let topic = requests[index].0;
            match reply {
                StoreReply::Value(last) => {
                    lemma_poll_entry_allocated(store, done, topic, Seq::empty(), last);
                },
                StoreReply::NotFound => {},
                _ => {},
            }
        },
        TaskView::FetchEntry { requests, index, done, last, next, logs } => {
            let topic = requests[index].0;
            match reply {
                StoreReply::Value(payload) => {
                    let read = logs.push(Log(next, payload));
                    assert forall|k: int| 0 <= k < read.len() implies (#[trigger] read[k]).0
                        < last by {
                        if k < logs.len() {
                            assert(read[k] == logs[k]);
                        }
                    }
                    lemma_poll_entry_allocated(store, done, topic, read, last);
                },
                _ => {},
            }
        },
        TaskView::ReportMarker { keys, index, found } => {
            match reply {
                StoreReply::Value(m) => {
                    let more = found.push((keys[index], m));
                    assert forall|j: int| 0 <= j < more.len() implies marker_at_least(
                        Some((#[trigger] more[j]).1),
                        marker(store, more[j].0),
                    ) by {
                        if j < found.len() {
                            assert(more[j] == found[j]);
                        }
                    }
                },
                _ => {},
            }
        },
        _ => {},
    }
}

proof fn lemma_poll_entry_allocated(
    store: Map<Seq<char>, usize>,
    done: Seq<(Seq<char>, Seq<Log>)>,
    topic: Seq<char>,
    logs: Seq<Log>,
    last: usize,
)
    requires
        all_allocated(store, done),
        last <= counter(store, topic),
        forall|k: int| 0 <= k < logs.len() ==> (#[trigger] logs[k]).0 < last,
    ensures
        all_allocated(store, done.push((topic, logs))),
{
    let more = done.push((topic, logs));
    assert forall|j: int, k: int|
        0 <= j < more.len() && 0 <= k < more[j].1.len() implies (#[trigger] more[j].1[k]).0
        < counter(store, more[j].0) by {
        if j < done.len() {
            assert(more[j] == done[j]);
        } else {
            assert(more[j] == (topic, logs));
        }
    }
}

/// A move leads from a coherent cluster to a coherent cluster, whose
/// store has not lost ground.
pub proof fn lemma_advance_coherent(cluster: Cluster, m: Move)
    requires
        coherent(cluster),
    ensures
        coherent(advance(cluster, m)),
        grows(cluster.store, advance(cluster, m).store),
{
    let after = advance(cluster, m);
    lemma_grows_reflexive(cluster.store);
    match m {
        Move::Accept { request } => {
            assert forall|i: int| 0 <= i < after.tasks.len() implies {
                &&& well_formed(#[trigger] after.tasks[i])
                &&& serves(after.accepted[i], after.tasks[i])
                &&& consistent(after.store, after.tasks[i])
            } by {
                if i < cluster.tasks.len() {
                    assert(after.tasks[i] == cluster.tasks[i]);
                } else {
                    assert(after.tasks[i] == start(request));
                    lemma_start_consistent(cluster.store, request);
                    lemma_start_serves(request);
                }
            }
        },
        Move::Deliver { task, delivery } => {
            if enabled(cluster, m) {
                let mover = cluster.tasks[task];
                lemma_operation_grows(cluster.store, mover);
                let reply = delivered_reply(cluster.store, pending(mover).unwrap(), delivery);
                lemma_delivery_consistent(cluster.store, mover, delivery);
                lemma_step_well_formed(mover, reply);
                lemma_step_serves(cluster.accepted[task], mover, reply);
                assert forall|i: int| 0 <= i < after.tasks.len() implies {
                    &&& well_formed(#[trigger] after.tasks[i])
                    &&& serves(after.accepted[i], after.tasks[i])
                    &&& consistent(after.store, after.tasks[i])
                } by {
                    if i != task {
                        assert(after.tasks[i] == cluster.tasks[i]);
                        lemma_consistent_while_growing(
                            cluster.store,
                            after.store,
                            cluster.tasks[i],
                        );
                    }
                }
            }
        },
    }
}

proof fn lemma_start_consistent(store: Map<Seq<char>, usize>, request: RequestView)
    ensures
        well_formed(start(request)),
        consistent(store, start(request)),
{
}

/// Moves lead from a coherent cluster to a coherent cluster, whose store
/// has not lost ground: no counter and no commit marker ever moves down,
/// whatever the tasks do and in whatever order.
pub proof fn lemma_run_coherent(cluster: Cluster, moves: Seq<Move>)
    requires
        coherent(cluster),
    ensures
        coherent(run(cluster, moves)),
        grows(cluster.store, run(cluster, moves).store),
    decreases moves.len(),
{
    if moves.len() == 0 {
        lemma_grows_reflexive(cluster.store);
    } else {
        let before = run(cluster, moves.drop_last());
        lemma_run_coherent(cluster, moves.drop_last());
        lemma_advance_coherent(before, moves.last());
        lemma_grows_transitive(cluster.store, before.store, run(cluster, moves).store);
    }
}

/// Moves made one after the other are moves made in two runs.
pub proof fn lemma_run_in_two(cluster: Cluster, first: Seq<Move>, second: Seq<Move>)
    ensures
        run(cluster, first + second) == run(run(cluster, first), second),
    decreases second.len(),
{
    if second.len() == 0 {
        assert(first + second =~= first);
    } else {
        lemma_run_in_two(cluster, first, second.drop_last());
        assert((first + second).drop_last() =~= first + second.drop_last());
        assert((first + second).last() == second.last());
    }
}

/// For any sequence of moves and any moment in it, no counter and no
/// commit marker stands lower at the end than it stood at that moment.
pub proof fn lemma_nothing_moves_down(moves: Seq<Move>, moment: int)
    requires
        0 <= moment <= moves.len(),
    ensures
        grows(run(initial(), moves.take(moment)).store, run(initial(), moves).store),
{
    let first = moves.take(moment);
    let second = moves.skip(moment);
    assert(first + second =~= moves);
    lemma_run_in_two(initial(), first, second);
    lemma_run_coherent(initial(), first);
    lemma_run_coherent(run(initial(), first), second);
}

/// A commit that asks for no more than the marker already holds changes
/// nothing: once the task has read the marker, it goes on to its next
/// topic without another operation on this one, and the store is as it was.
pub proof fn lemma_commit_behind_marker(cluster: Cluster, task: int)
    requires
        0 <= task < cluster.tasks.len(),
        well_formed(cluster.tasks[task]),
        cluster.tasks[task] matches TaskView::ReadMarker { requests, index } && (marker(
            cluster.store,
            requests[index].0,
        ) matches Some(m) && requests[index].1 <= m),
    ensures
        advance(cluster, Move::Deliver { task, delivery: Delivery::Answered }).store
            == cluster.store,
        cluster.tasks[task] matches TaskView::ReadMarker { requests, index } && advance(
            cluster,
            Move::Deliver { task, delivery: Delivery::Answered },
        ).tasks[task] == commit_from(requests, index + 1),
{
}

/// The offset that `m`, made in `cluster`, allocates for `topic`: the
/// task's claim on the counter takes effect, and the task learns of it.
pub open spec fn granted(cluster: Cluster, m: Move, topic: Seq<char>) -> Option<usize> {
    match m {
        Move::Deliver { task, delivery } => {
            if enabled(cluster, m) && delivery == Delivery::Answered {
                match cluster.tasks[task] {
                    TaskView::ClaimOffset { topic: claimed, payload, current } => {
                        if claimed == topic && answer(
                            cluster.store,
                            pending(cluster.tasks[task]).unwrap(),
                        ) == StoreReply::Done {
                            Some(current)
                        } else {
                            None
                        }
                    },
                    _ => None,
                }
            } else {
                None
            }
        },
        _ => None,
    }
}

/// Whether `m`, made in `cluster`, uses up an offset of `topic` that no
/// task will ever hold: the task's claim on the counter takes effect, but
/// the task is told that the store failed.
pub open spec fn burned(cluster: Cluster, m: Move, topic: Seq<char>) -> bool {
    match m {
        Move::Deliver { task, delivery } => {
            &&& enabled(cluster, m)
            &&& delivery == Delivery::Unacknowledged
            &&& cluster.tasks[task] matches TaskView::ClaimOffset { topic: claimed, payload, current }
            &&& claimed == topic
            &&& answer(cluster.store, pending(cluster.tasks[task]).unwrap()) == StoreReply::Done
        },
        _ => false,
    }
}

/// The offsets of `topic` that `moves` allocate, starting from `cluster`,
/// in the order of allocation.
pub open spec fn grants(cluster: Cluster, moves: Seq<Move>, topic: Seq<char>) -> Seq<usize>
    decreases moves.len(),
{
    if moves.len() == 0 {
        Seq::empty()
    } else {
        let earlier = grants(cluster, moves.drop_last(), topic);
        match granted(run(cluster, moves.drop_last()), moves.last(), topic) {
            Some(offset) => earlier.push(offset),
            None => earlier,
        }
    }
}

/// Whether no move of `moves`, starting from `cluster`, burns an offset of
/// `topic`.
pub open spec fn nothing_burned(cluster: Cluster, moves: Seq<Move>, topic: Seq<char>) -> bool {
    forall|k: int|
        0 <= k < moves.len() ==> !burned(run(cluster, #[trigger] moves.take(k)), moves[k], topic)
}

/// A task whose claim is granted holds the offset that was granted, and
/// hands out that offset once the entry is written.
pub proof fn lemma_grant_is_returned(cluster: Cluster, m: Move, topic: Seq<char>)
    requires
        granted(cluster, m, topic) is Some,
    ensures
        m matches Move::Deliver { task, delivery } && (cluster.tasks[task] matches TaskView::ClaimOffset {
            topic: claimed,
            payload,
            current,
        } && {
            let holder = TaskView::WriteEntry {
                topic,
                payload,
                offset: granted(cluster, m, topic).unwrap(),
            };
            &&& advance(cluster, m).tasks[task] == holder
            &&& step(holder, StoreReply::Done) == TaskView::Finished {
                response: ResponseView::SendOk { offset: granted(cluster, m, topic).unwrap() },
            }
        }),
{
}

/// What a move does to the counter of a topic: it allocates or burns one
/// offset, the one at which the counter stood, or it leaves the counter alone.
proof fn lemma_counter_after_move(cluster: Cluster, m: Move, topic: Seq<char>)
    requires
        coherent(cluster),
    ensures
        granted(cluster, m, topic) matches Some(offset) ==> offset == counter(
            cluster.store,
            topic,
        ),
        counter(advance(cluster, m).store, topic) == counter(cluster.store, topic) + (if granted(
            cluster,
            m,
            topic,
        ) is Some || burned(cluster, m, topic) {
            1nat
        } else {
            0nat
        }),
{
    match m {
        Move::Accept { request } => {},
        Move::Deliver { task, delivery } => {
            if enabled(cluster, m) {
                let mover = cluster.tasks[task];
                assert(well_formed(mover) && consistent(cluster.store, mover));
                match mover {
                    TaskView::ClaimOffset { topic: claimed, payload, current } => {
                        lemma_counter_after_write(
                            cluster.store,
                            Role::Counter { topic: claimed },
                            (current + 1) as usize,
                            topic,
                        );
                        lemma_counter_after_write(
                            cluster.store,
                            Role::Counter { topic: claimed },
                            (current + 1) as usize,
                            claimed,
                        );
                    },
                    TaskView::WriteEntry { topic: written, payload, offset } => {
                        lemma_counter_after_write(
                            cluster.store,
                            Role::Entry { topic: written, offset: offset as nat },
                            payload,
                            topic,
                        );
                    },
                    TaskView::AdvanceMarker { requests, index, held } => {
                        lemma_counter_after_write(
                            cluster.store,
                            Role::Marker { topic: requests[index].0 },
                            requests[index].1,
                            topic,
                        );
                    },
                    _ => {},
                }
            }
        },
    }
}

/// Allocation is linearizable. Whatever the tasks of a coherent cluster do,
/// and in whatever order, the offsets allocated for a topic are pairwise
/// distinct: each is larger than the one before, none is below the counter
/// at the start, and all are below the counter at the end.
pub proof fn lemma_allocation_distinct(cluster: Cluster, moves: Seq<Move>, topic: Seq<char>)
    requires
        coherent(cluster),
    ensures
        forall|j: int, k: int|
            0 <= j < k < grants(cluster, moves, topic).len() ==> grants(cluster, moves, topic)[j]
                < grants(cluster, moves, topic)[k],
        forall|k: int|
            0 <= k < grants(cluster, moves, topic).len() ==> counter(cluster.store, topic)
                <= #[trigger] grants(cluster, moves, topic)[k] < counter(
                run(cluster, moves).store,
                topic,
            ),
        counter(cluster.store, topic) <= counter(run(cluster, moves).store, topic),
    decreases moves.len(),
{
    if moves.len() > 0 {
        let before = run(cluster, moves.drop_last());
        let earlier = grants(cluster, moves.drop_last(), topic);
        lemma_allocation_distinct(cluster, moves.drop_last(), topic);
        lemma_run_coherent(cluster, moves.drop_last());
        lemma_counter_after_move(before, moves.last(), topic);
    }
}

/// Allocation leaves no gap. As long as no claim is lost on its way back
/// from the store, the offsets allocated for a topic are, in order, the
/// counter at the start and its successors, and the counter at the end is
/// the first offset that was not allocated. From the initial cluster these
/// are the offsets from zero up to the number of allocations.
pub proof fn lemma_allocation_gap_free(cluster: Cluster, moves: Seq<Move>, topic: Seq<char>)
    requires
        coherent(cluster),
        nothing_burned(cluster, moves, topic),
    ensures
        forall|k: int|
            0 <= k < grants(cluster, moves, topic).len() ==> #[trigger] grants(
                cluster,
                moves,
                topic,
            )[k] == counter(cluster.store, topic) + k,
        counter(run(cluster, moves).store, topic) == counter(cluster.store, topic) + grants(
            cluster,
            moves,
            topic,
        ).len(),
    decreases moves.len(),
{
    if moves.len() > 0 {
        let shorter = moves.drop_last();
        let before = run(cluster, shorter);
        assert forall|k: int| 0 <= k < shorter.len() implies !burned(
            run(cluster, #[trigger] shorter.take(k)),
            shorter[k],
            topic,
        ) by {
            assert(shorter.take(k) =~= moves.take(k));
        }
        lemma_allocation_gap_free(cluster, shorter, topic);
        lemma_run_coherent(cluster, shorter);
        lemma_counter_after_move(before, moves.last(), topic);
        assert(moves.take(moves.len() - 1) =~= shorter);
        assert(!burned(before, moves.last(), topic));
    }
}

/// From nothing, allocation counts from zero. As long as no claim is lost
/// on its way back from the store, the offsets allocated for a topic are, in
/// the order of allocation, zero, one, two and so on, and the counter
/// stands at their number.
pub proof fn lemma_allocation_from_zero(moves: Seq<Move>, topic: Seq<char>)
    requires
        nothing_burned(initial(), moves, topic),
    ensures
        forall|k: int|
            0 <= k < grants(initial(), moves, topic).len() ==> #[trigger] grants(
                initial(),
                moves,
                topic,
            )[k] == k,
        counter(run(initial(), moves).store, topic) == grants(initial(), moves, topic).len(),
{
    lemma_allocation_gap_free(initial(), moves, topic);
}

/// A claim fails only to another claim. If the store refuses the claim
/// of a task, the counter has moved on since the task read it: some other
/// send was allocated an offset in between.
pub proof fn lemma_conflict_means_progress(cluster: Cluster, task: int)
    requires
        coherent(cluster),
        0 <= task < cluster.tasks.len(),
        cluster.tasks[task] is ClaimOffset,
        answer(cluster.store, pending(cluster.tasks[task]).unwrap())
            == StoreReply::PreconditionFailed,
    ensures
        cluster.tasks[task] matches TaskView::ClaimOffset { topic, payload, current }
            && current < counter(cluster.store, topic),
{
    assert(well_formed(cluster.tasks[task]) && consistent(cluster.store, cluster.tasks[task]));
}

/// Whether `request` is a commit that names `topic`.
pub open spec fn commits(request: RequestView, topic: Seq<char>) -> bool {
    request matches RequestView::CommitOffsets { offsets } && names(offsets, topic)
}

/// Whether `m` accepts a commit that names `topic`.
pub open spec fn accepts_commit(m: Move, topic: Seq<char>) -> bool {
    m matches Move::Accept { request } && commits(request, topic)
}

/// Whether `topic` is without a marker in `cluster` and no commit that
/// names it was ever accepted.
pub open spec fn uncommitted(cluster: Cluster, topic: Seq<char>) -> bool {
    &&& marker(cluster.store, topic) is None
    &&& forall|i: int|
        0 <= i < cluster.accepted.len() ==> !commits(#[trigger] cluster.accepted[i], topic)
}

proof fn lemma_uncommitted_after_move(cluster: Cluster, m: Move, topic: Seq<char>)
    requires
        coherent(cluster),
        uncommitted(cluster, topic),
        !accepts_commit(m, topic),
    ensures
        uncommitted(advance(cluster, m), topic),
{
    let after = advance(cluster, m);
    match m {
        Move::Accept { request } => {
            assert forall|i: int| 0 <= i < after.accepted.len() implies !commits(
                #[trigger] after.accepted[i],
                topic,
            ) by {
                if i < cluster.accepted.len() {
                    assert(after.accepted[i] == cluster.accepted[i]);
                }
            }
        },
        Move::Deliver { task, delivery } => {
            if enabled(cluster, m) {
                let mover = cluster.tasks[task];
                assert(well_formed(mover) && serves(cluster.accepted[task], mover));
                assert(!commits(cluster.accepted[task], topic));
                match mover {
                    TaskView::ClaimOffset { topic: claimed, payload, current } => {
                        lemma_marker_after_write(
                            cluster.store,
                            Role::Counter { topic: claimed },
                            (current + 1) as usize,
                            topic,
                        );
                    },
                    TaskView::WriteEntry { topic: written, payload, offset } => {
                        lemma_marker_after_write(
                            cluster.store,
                            Role::Entry { topic: written, offset: offset as nat },
                            payload,
                            topic,
                        );
                    },
                    TaskView::AdvanceMarker { requests, index, held } => {
                        assert(requests[index].0 != topic);
                        lemma_marker_after_write(
                            cluster.store,
                            Role::Marker { topic: requests[index].0 },
                            requests[index].1,
                            topic,
                        );
                    },
                    _ => {},
                }
            }
        },
    }
}

/// Whether no listing of `cluster` that has ended reports `topic`.
pub open spec fn unreported(cluster: Cluster, topic: Seq<char>) -> bool {
    forall|i: int|
        0 <= i < cluster.tasks.len() ==> (#[trigger] cluster.tasks[i] matches TaskView::Finished {
            response,
        } ==> (response matches ResponseView::ListCommittedOffsetsOk { offsets } ==> !names(
            offsets,
            topic,
        )))
}

/// Without a commit there is no marker, and nothing to report. If a
/// topic has no marker and no commit that names it was or is accepted,
/// then the topic stays without a marker, and no listing that has ended
/// reports it.
pub proof fn lemma_unreported_without_commit(cluster: Cluster, moves: Seq<Move>, topic: Seq<char>)
    requires
        coherent(cluster),
        uncommitted(cluster, topic),
        forall|k: int| 0 <= k < moves.len() ==> !accepts_commit(#[trigger] moves[k], topic),
    ensures
        uncommitted(run(cluster, moves), topic),
        unreported(run(cluster, moves), topic),
    decreases moves.len(),
{
    if moves.len() > 0 {
        let shorter = moves.drop_last();
        assert forall|k: int| 0 <= k < shorter.len() implies !accepts_commit(
            #[trigger] shorter[k],
            topic,
        ) by {
            assert(shorter[k] == moves[k]);
        }
        lemma_unreported_without_commit(cluster, shorter, topic);
        lemma_run_coherent(cluster, shorter);
        lemma_uncommitted_after_move(run(cluster, shorter), moves.last(), topic);
    }
    let end = run(cluster, moves);
    lemma_run_coherent(cluster, moves);
    assert forall|i: int| 0 <= i < end.tasks.len() implies (#[trigger] end.tasks[i] matches TaskView::Finished {
        response,
    } ==> (response matches ResponseView::ListCommittedOffsetsOk { offsets } ==> !names(
        offsets,
        topic,
    ))) by {
        let task = end.tasks[i];
        assert(consistent(end.store, task));
        if let TaskView::Finished { response } = task {
            if let ResponseView::ListCommittedOffsetsOk { offsets } = response {
                if names(offsets, topic) {
                    let j = choose|j: int|
                        0 <= j < offsets.len() && (#[trigger] offsets[j]).0 == topic;
                    assert(marker_at_least(Some(offsets[j].1), marker(end.store, offsets[j].0)));
                }
            }
        }
    }
}

/// The offset of `topic` that `task`, which serves `request`, holds: a
/// send to `topic` holds an offset from the moment its claim is granted,
/// whether the entry is then written or not.
pub open spec fn holds(request: RequestView, task: TaskView, topic: Seq<char>) -> Option<usize> {
    if request matches RequestView::Send { key, msg } && key == topic {
        match task {
            TaskView::WriteEntry { topic, payload, offset } => Some(offset),
            TaskView::Finished { response } => match response {
                ResponseView::SendOk { offset } => Some(offset),
                _ => None,
            },
            TaskView::Failed { error } => match error {
                LogErrorView::EntryNotWritten { topic, offset } => Some(offset),
                _ => None,
            },
            _ => None,
        }
    } else {
        None
    }
}

/// The offset of `topic` that the task numbered `i` holds.
pub open spec fn held(cluster: Cluster, i: int, topic: Seq<char>) -> Option<usize> {
    holds(cluster.accepted[i], cluster.tasks[i], topic)
}

/// Whether the offsets of `topic` that the tasks of `cluster` hold are
/// allocated ones, and no two tasks hold the same.
pub open spec fn apart(cluster: Cluster, topic: Seq<char>) -> bool {
    &&& forall|i: int|
        0 <= i < cluster.tasks.len() ==> (#[trigger] held(cluster, i, topic) matches Some(a) ==> a
            < counter(cluster.store, topic))
    &&& forall|i: int, j: int|
        0 <= i < j < cluster.tasks.len() ==> (#[trigger] held(cluster, i, topic) is Some
            ==> #[trigger] held(cluster, j, topic) != held(cluster, i, topic))
}

/// Whether some task of `cluster` holds `offset` of `topic`.
pub open spec fn taken(cluster: Cluster, topic: Seq<char>, offset: nat) -> bool {
    exists|i: int|
        0 <= i < cluster.tasks.len() && #[trigger] held(cluster, i, topic) == Some(offset as usize)
}

/// Whether every offset of `topic` that was allocated in `cluster` is
/// held by some task.
pub open spec fn all_taken(cluster: Cluster, topic: Seq<char>) -> bool {
    forall|offset: nat| offset < counter(cluster.store, topic) ==> #[trigger] taken(
        cluster,
        topic,
        offset,
    )
}

/// What a move does to what a task holds: a task keeps the offset that
/// it holds, and comes to hold one only by a grant.
proof fn lemma_held_after_move(cluster: Cluster, m: Move, topic: Seq<char>, i: int)
    requires
        coherent(cluster),
        0 <= i < cluster.tasks.len(),
    ensures
        held(advance(cluster, m), i, topic) == (match held(cluster, i, topic) {
            Some(offset) => Some(offset),
            None => match m {
                Move::Deliver { task, delivery } => if task == i {
                    granted(cluster, m, topic)
                } else {
                    None
                },
                _ => None,
            },
        }),
{
    let after = advance(cluster, m);
    assert(well_formed(cluster.tasks[i]) && serves(cluster.accepted[i], cluster.tasks[i]));
    match m {
        Move::Accept { request } => {
            assert(after.tasks[i] == cluster.tasks[i]);
            assert(after.accepted[i] == cluster.accepted[i]);
        },
        Move::Deliver { task, delivery } => {
            if enabled(cluster, m) && task == i {
            } else {
                assert(after.tasks[i] == cluster.tasks[i]);
            }
        },
    }
}

proof fn lemma_apart_after_move(cluster: Cluster, m: Move, topic: Seq<char>)
    requires
        coherent(cluster),
        apart(cluster, topic),
    ensures
        apart(advance(cluster, m), topic),
{
    let after = advance(cluster, m);
    lemma_counter_after_move(cluster, m, topic);
    assert forall|i: int| 0 <= i < after.tasks.len() implies (#[trigger] held(after, i, topic) matches Some(
        a,
    ) ==> a < counter(after.store, topic)) by {
        if i < cluster.tasks.len() {
            lemma_held_after_move(cluster, m, topic, i);
            assert(held(cluster, i, topic) matches Some(a) ==> a < counter(cluster.store, topic));
        }
    }
    assert forall|i: int, j: int|
        0 <= i < j < after.tasks.len() && #[trigger] held(after, i, topic) is Some implies #[trigger] held(
        after,
        j,
        topic,
    ) != held(after, i, topic) by {
        if j < cluster.tasks.len() {
            lemma_held_after_move(cluster, m, topic, i);
            lemma_held_after_move(cluster, m, topic, j);
            assert(held(cluster, i, topic) matches Some(a) ==> a < counter(cluster.store, topic));
            assert(held(cluster, j, topic) matches Some(a) ==> a < counter(cluster.store, topic));
            assert(held(cluster, i, topic) is Some ==> held(cluster, j, topic) != held(
                cluster,
                i,
                topic,
            ));
        }
    }
}

/// No offset is handed out twice. Whatever the tasks do, and in whatever
/// order, with or without failures of the store: the offsets of a topic
/// that tasks hold were allocated, and no two tasks hold the same.
pub proof fn lemma_offsets_apart(cluster: Cluster, moves: Seq<Move>, topic: Seq<char>)
    requires
        coherent(cluster),
        apart(cluster, topic),
    ensures
        apart(run(cluster, moves), topic),
    decreases moves.len(),
{
    if moves.len() > 0 {
        lemma_offsets_apart(cluster, moves.drop_last(), topic);
        lemma_run_coherent(cluster, moves.drop_last());
        lemma_apart_after_move(run(cluster, moves.drop_last()), moves.last(), topic);
    }
}

proof fn lemma_all_taken_after_move(cluster: Cluster, m: Move, topic: Seq<char>)
    requires
        coherent(cluster),
        all_taken(cluster, topic),
        !burned(cluster, m, topic),
    ensures
        all_taken(advance(cluster, m), topic),
{
    let after = advance(cluster, m);
    lemma_counter_after_move(cluster, m, topic);
    assert forall|offset: nat| offset < counter(after.store, topic) implies #[trigger] taken(
        after,
        topic,
        offset,
    ) by {
        if offset < counter(cluster.store, topic) {
            assert(taken(cluster, topic, offset));
            let i = choose|i: int|
                0 <= i < cluster.tasks.len() && #[trigger] held(cluster, i, topic) == Some(
                    offset as usize,
                );
            lemma_held_after_move(cluster, m, topic, i);
            assert(held(after, i, topic) == Some(offset as usize));
        } else {
            assert(granted(cluster, m, topic) == Some(offset as usize));
            if let Move::Deliver { task, delivery } = m {
                lemma_held_after_move(cluster, m, topic, task);
                assert(held(after, task, topic) == Some(offset as usize));
            }
        }
    }
}

/// No offset is left over. As long as no claim is lost on its way back
/// from the store, every offset of a topic below its counter is held by a
/// task. With [`lemma_offsets_apart`]: the offsets that the sends to a topic
/// hold are exactly those below the counter, each held once.
pub proof fn lemma_offsets_all_taken(cluster: Cluster, moves: Seq<Move>, topic: Seq<char>)
    requires
        coherent(cluster),
        all_taken(cluster, topic),
        nothing_burned(cluster, moves, topic),
    ensures
        all_taken(run(cluster, moves), topic),
    decreases moves.len(),
{
    if moves.len() > 0 {
        let shorter = moves.drop_last();
        assert forall|k: int| 0 <= k < shorter.len() implies !burned(
            run(cluster, #[trigger] shorter.take(k)),
            shorter[k],
            topic,
        ) by {
            assert(shorter.take(k) =~= moves.take(k));
        }
        lemma_offsets_all_taken(cluster, shorter, topic);
        lemma_run_coherent(cluster, shorter);
        assert(moves.take(moves.len() - 1) =~= shorter);
        lemma_all_taken_after_move(run(cluster, shorter), moves.last(), topic);
    }
}

/// A poll returns entries in order, and only entries that were allocated.
/// Whatever else goes on meanwhile: what a poll that has ended returns
/// of a topic belongs to a request of that poll, begins at the offset asked
/// for and goes on offset by offset, and stays below the topic's counter.
pub proof fn lemma_poll_in_order(cluster: Cluster, moves: Seq<Move>, task: int)
    requires
        coherent(cluster),
        0 <= task < run(cluster, moves).tasks.len(),
        run(cluster, moves).tasks[task] matches TaskView::Finished { response } && response
            is PollOk,
    ensures
        ({
            let end = run(cluster, moves);
            &&& end.accepted[task] matches RequestView::Poll { offsets }
            &&& end.tasks[task] matches TaskView::Finished { response }
            &&& response matches ResponseView::PollOk { msgs }
            &&& poll_answers(offsets, msgs)
            &&& all_allocated(end.store, msgs)
        }),
{
    lemma_run_coherent(cluster, moves);
    let end = run(cluster, moves);
    assert(serves(end.accepted[task], end.tasks[task]));
    assert(consistent(end.store, end.tasks[task]));
}

/// The cluster in which nothing has happened meets what the lemmas of
/// this module require of a cluster.
pub proof fn lemma_initial(topic: Seq<char>)
    ensures
        coherent(initial()),
        counter(initial().store, topic) == 0,
        uncommitted(initial(), topic),
        apart(initial(), topic),
        all_taken(initial(), topic),
{
}

} // verus!
