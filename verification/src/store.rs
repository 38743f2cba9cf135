//! The key-value store that every replica shares: its operations, its
//! replies, and the meaning of both.
//!
//! The store itself lives elsewhere. This module states what the log expects
//! of it: each operation takes effect at one instant, and what it does and
//! answers at that instant is given by [`effect`] and [`answer`].

use vstd::hash_map::StringHashMap;
use vstd::prelude::*;

verus! {

/// One operation asked of the store.
#[derive(Clone, Debug, PartialEq, Eq)]
pub enum StoreRequest {
    /// Read the value under `key`.
    Get { key: String },
    /// Overwrite the value under `key`.
    Put { key: String, value: usize },
    /// Replace `expected` by `new` under `key`. With `create_if_missing`, a
    /// key that is absent is created with `new`.
    Cas { key: String, expected: usize, new: usize, create_if_missing: bool },
}

/// A store operation as a mathematical value.
pub enum StoreOp {
    Get { key: Seq<char> },
    Put { key: Seq<char>, value: usize },
    Cas { key: Seq<char>, expected: usize, new: usize, create_if_missing: bool },
}

impl View for StoreRequest {
    type V = StoreOp;

    open spec fn view(&self) -> StoreOp {
        match self {
            StoreRequest::Get { key } => StoreOp::Get { key: key@ },
            StoreRequest::Put { key, value } => StoreOp::Put { key: key@, value: *value },
            StoreRequest::Cas { key, expected, new, create_if_missing } => StoreOp::Cas {
                key: key@,
                expected: *expected,
                new: *new,
                create_if_missing: *create_if_missing,
            },
        }
    }
}

/// What the store says to one operation.
#[derive(Clone, Copy, Debug, PartialEq, Eq, Structural)]
pub enum StoreReply {
    /// A read found this value.
    Value(usize),
    /// The key is absent.
    NotFound,
    /// A write or a compare-and-swap took effect.
    Done,
    /// A compare-and-swap found another value than the expected one.
    PreconditionFailed,
    /// The store could not be reached in time, or failed otherwise.
    Failed,
}

/// The contents of the store after `op` took effect on `cells`.
pub open spec fn effect(cells: Map<Seq<char>, usize>, op: StoreOp) -> Map<Seq<char>, usize> {
    match op {
        StoreOp::Get { key } => cells,
        StoreOp::Put { key, value } => cells.insert(key, value),
        StoreOp::Cas { key, expected, new, create_if_missing } => {
            if cells.contains_key(key) {
                if cells[key] == expected {
                    cells.insert(key, new)
                } else {
                    cells
                }
            } else if create_if_missing {
                cells.insert(key, new)
            } else {
                cells
            }
        },
    }
}

/// The reply of the store to `op` when it takes effect on `cells`.
pub open spec fn answer(cells: Map<Seq<char>, usize>, op: StoreOp) -> StoreReply {
    match op {
        StoreOp::Get { key } => {
            if cells.contains_key(key) {
                StoreReply::Value(cells[key])
            } else {
                StoreReply::NotFound
            }
        },
        StoreOp::Put { key, value } => StoreReply::Done,
        StoreOp::Cas { key, expected, new, create_if_missing } => {
            if cells.contains_key(key) {
                if cells[key] == expected {
                    StoreReply::Done
                } else {
                    StoreReply::PreconditionFailed
                }
            } else if create_if_missing {
                StoreReply::Done
            } else {
                StoreReply::NotFound
            }
        },
    }
}

/// A store held in memory by one process, which never fails.
pub struct MemStore {
    cells: StringHashMap<usize>,
}

impl View for MemStore {
    type V = Map<Seq<char>, usize>;

    closed spec fn view(&self) -> Map<Seq<char>, usize> {
        self.cells@
    }
}

impl MemStore {
    /// A store without any key.
    pub fn new() -> (store: MemStore)
        ensures
            store@ == Map::<Seq<char>, usize>::empty(),
    {
        MemStore { cells: StringHashMap::new() }
    }

    /// The value under `key`, if there is one.
    pub fn lookup(&self, key: &str) -> (value: Option<usize>)
        ensures
            value == (if self@.contains_key(key@) {
                Some(self@[key@])
            } else {
                None
            }),
    {
        match self.cells.get(key) {
            Some(v) => Some(*v),
            None => None,
        }
    }

    /// Carries out `request` at once and answers it.
    pub fn execute(&mut self, request: &StoreRequest) -> (reply: StoreReply)
        ensures
            final(self)@ == effect(old(self)@, request@),
            reply == answer(old(self)@, request@),
    {
        match request {
            StoreRequest::Get { key } => {
                match self.cells.get(key.as_str()) {
                    Some(v) => StoreReply::Value(*v),
                    None => StoreReply::NotFound,
                }
            },
            StoreRequest::Put { key, value } => {
                self.cells.insert(key.clone(), *value);
                StoreReply::Done
            },
            StoreRequest::Cas { key, expected, new, create_if_missing } => {
                let held = match self.cells.get(key.as_str()) {
                    Some(v) => Some(*v),
                    None => None,
                };
                match held {
                    Some(v) => {
                        if v == *expected {
                            self.cells.insert(key.clone(), *new);
                            StoreReply::Done
                        } else {
                            StoreReply::PreconditionFailed
                        }
                    },
                    None => {
                        if *create_if_missing {
                            self.cells.insert(key.clone(), *new);
                            StoreReply::Done
                        } else {
                            StoreReply::NotFound
                        }
                    },
                }
            },
        }
    }
}

/// `maelstrom::Error`, the error that the store's client hands back, with
/// the variants that the crate `maelstrom` declares.
#[verifier::external_type_specification]
pub struct ExStoreError(maelstrom::Error);

/// The reply that stands for an error of the store: a failed precondition
/// and an absent key are replies of their own, every other error is a
/// failure.
pub fn reply_for_error(error: &maelstrom::Error) -> (reply: StoreReply)
    ensures
        reply == (match *error {
            maelstrom::Error::PreconditionFailed => StoreReply::PreconditionFailed,
            maelstrom::Error::KeyDoesNotExist => StoreReply::NotFound,
            _ => StoreReply::Failed,
        }),
{
    match error {
        maelstrom::Error::PreconditionFailed => StoreReply::PreconditionFailed,
        maelstrom::Error::KeyDoesNotExist => StoreReply::NotFound,
        _ => StoreReply::Failed,
    }
}

} // verus!
