//! What one replica remembers of its own sends.
//!
//! The record is advisory: it may lag behind the store or be lost, and no
//! decision of the log reads it.

use vstd::hash_map::StringHashMap;
use vstd::prelude::*;

verus! {

/// For each topic, the offset of the last entry that this replica appended.
pub struct State {
    logs: StringHashMap<usize>,
}

impl View for State {
    type V = Map<Seq<char>, usize>;

    closed spec fn view(&self) -> Map<Seq<char>, usize> {
        self.logs@
    }
}

impl Default for State {
    /// A record without any topic.
    fn default() -> (state: State)
        ensures
            state@ == Map::<Seq<char>, usize>::empty(),
    {
        State { logs: StringHashMap::new() }
    }
}

impl State {
    /// Records that this replica appended to the topic `key` at `offset`,
    /// in place of what was recorded of `key` before.
    pub fn insert(&mut self, key: String, offset: usize)
        ensures
            final(self)@ == old(self)@.insert(key@, offset),
    {
        self.logs.insert(key, offset);
    }

    /// The offset recorded of the topic `key`, if there is one.
    pub fn get(&self, key: &str) -> (offset: Option<usize>)
        ensures
            offset == (if self@.contains_key(key@) {
                Some(self@[key@])
            } else {
                None
            }),
    {
        match self.logs.get(key) {
            Some(offset) => Some(*offset),
            None => None,
        }
    }
}

} // verus!
