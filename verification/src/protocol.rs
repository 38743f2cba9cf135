//! What clients ask of the log, and what they are told.

use vstd::prelude::*;

verus! {

/// One entry of a topic as a consumer sees it: its offset, then its payload.
#[derive(Clone, Copy, Debug, PartialEq, Eq, Structural)]
pub struct Log(pub usize, pub usize);

impl DeepView for Log {
    type V = Log;

    open spec fn deep_view(&self) -> Log {
        *self
    }
}

/// A request of a client.
#[derive(Clone, Debug, PartialEq, Eq)]
pub enum Request {
    /// Append `msg` to the topic `key`.
    Send { key: String, msg: usize },
    /// Read each named topic from the offset given with it.
    Poll { offsets: Vec<(String, usize)> },
    /// Move the commit marker of each named topic up to the offset given
    /// with it.
    CommitOffsets { offsets: Vec<(String, usize)> },
    /// Report the commit marker of each named topic.
    ListCommittedOffsets { keys: Vec<String> },
}

/// A request as a mathematical value.
pub enum RequestView {
    Send { key: Seq<char>, msg: usize },
    Poll { offsets: Seq<(Seq<char>, usize)> },
    CommitOffsets { offsets: Seq<(Seq<char>, usize)> },
    ListCommittedOffsets { keys: Seq<Seq<char>> },
}

impl View for Request {
    type V = RequestView;

    open spec fn view(&self) -> RequestView {
        match self {
            Request::Send { key, msg } => RequestView::Send { key: key@, msg: *msg },
            Request::Poll { offsets } => RequestView::Poll { offsets: offsets.deep_view() },
            Request::CommitOffsets { offsets } => RequestView::CommitOffsets {
                offsets: offsets.deep_view(),
            },
            Request::ListCommittedOffsets { keys } => RequestView::ListCommittedOffsets {
                keys: keys.deep_view(),
            },
        }
    }
}

/// The answer to a request that was served.
#[derive(Clone, Debug, PartialEq, Eq)]
pub enum Response {
    /// The payload was appended at `offset`.
    SendOk { offset: usize },
    /// The entries read, topic by topic. A topic without any allocated
    /// offset is left out.
    PollOk { msgs: Vec<(String, Vec<Log>)> },
    /// Every marker is at least where it was asked to be.
    CommitOffsetsOk,
    /// The markers found. A topic without a marker is left out.
    ListCommittedOffsetsOk { offsets: Vec<(String, usize)> },
}

/// A response as a mathematical value.
pub enum ResponseView {
    SendOk { offset: usize },
    PollOk { msgs: Seq<(Seq<char>, Seq<Log>)> },
    CommitOffsetsOk,
    ListCommittedOffsetsOk { offsets: Seq<(Seq<char>, usize)> },
}

impl View for Response {
    type V = ResponseView;

    open spec fn view(&self) -> ResponseView {
        match self {
            Response::SendOk { offset } => ResponseView::SendOk { offset: *offset },
            Response::PollOk { msgs } => ResponseView::PollOk { msgs: msgs.deep_view() },
            Response::CommitOffsetsOk => ResponseView::CommitOffsetsOk,
            Response::ListCommittedOffsetsOk { offsets } => ResponseView::ListCommittedOffsetsOk {
                offsets: offsets.deep_view(),
            },
        }
    }
}

/// Why a request could not be served.
#[derive(Clone, Debug, PartialEq, Eq)]
pub enum LogError {
    /// The store failed, or could not be reached in time.
    StoreFailed,
    /// The store gave a reply that its operation cannot have.
    UnexpectedReply,
    /// The topic has no offset left to allocate.
    OffsetsExhausted,
    /// `offset` was allocated for the payload, but the store failed to
    /// record the entry.
    EntryNotWritten { topic: String, offset: usize },
    /// `offset` of `topic` was allocated, but no entry is recorded there.
    MissingEntry { topic: String, offset: usize },
}

/// An error as a mathematical value.
pub enum LogErrorView {
    StoreFailed,
    UnexpectedReply,
    OffsetsExhausted,
    EntryNotWritten { topic: Seq<char>, offset: usize },
    MissingEntry { topic: Seq<char>, offset: usize },
}

impl View for LogError {
    type V = LogErrorView;

    open spec fn view(&self) -> LogErrorView {
        match self {
            LogError::StoreFailed => LogErrorView::StoreFailed,
            LogError::UnexpectedReply => LogErrorView::UnexpectedReply,
            LogError::OffsetsExhausted => LogErrorView::OffsetsExhausted,
            LogError::EntryNotWritten { topic, offset } => LogErrorView::EntryNotWritten {
                topic: topic@,
                offset: *offset,
            },
            LogError::MissingEntry { topic, offset } => LogErrorView::MissingEntry {
                topic: topic@,
                offset: *offset,
            },
        }
    }
}

} // verus!
