//! The state of one node of the gossip service: what it has heard, what
//! it has passed on, and whom it passes it on to.

use std::collections::HashSet;
use vstd::hash_map::StringHashMap;
use vstd::prelude::*;
use vstd::std_specs::iter::IteratorSpec;

verus! {

broadcast use vstd::std_specs::hash::group_hash_axioms;

/// The state of one gossip node.
pub struct Inner {
    counter: usize,
    messages: HashSet<usize>,
    broadcast: HashSet<usize>,
    topology: StringHashMap<Vec<String>>,
}

impl Inner {
    /// The number of identifiers handed out so far.
    pub closed spec fn issued(&self) -> nat {
        self.counter as nat
    }

    /// The messages heard so far.
    pub closed spec fn heard(&self) -> Set<usize> {
        self.messages@
    }

    /// The messages that every neighbor has acknowledged.
    pub closed spec fn relayed(&self) -> Set<usize> {
        self.broadcast@
    }

    /// The neighbors of each node, as far as they are known.
    pub closed spec fn links(&self) -> Map<Seq<char>, Vec<String>> {
        self.topology@
    }

    /// A node that has heard nothing and knows nobody.
    pub fn new() -> (inner: Inner)
        ensures
            inner.issued() == 0,
            inner.heard() == Set::<usize>::empty(),
            inner.relayed() == Set::<usize>::empty(),
            inner.links() == Map::<Seq<char>, Vec<String>>::empty(),
    {
        Inner {
            counter: 0,
            messages: HashSet::new(),
            broadcast: HashSet::new(),
            topology: StringHashMap::new(),
        }
    }

    /// Whether the neighbors of `node_id` are known.
    pub fn knows(&self, node_id: &str) -> (known: bool)
        ensures
            known == self.links().contains_key(node_id@),
    {
        self.topology.contains_key(node_id)
    }

    /// The neighbors of `node_id`, which must be known.
    pub fn neighbors(&self, node_id: &str) -> (neighbors: &Vec<String>)
        requires
            self.links().contains_key(node_id@),
        ensures
            *neighbors == self.links()[node_id@],
    {
        match self.topology.get(node_id) {
            Some(neighbors) => neighbors,
            None => {
                proof {
                    assert(false);
                }
                unreached()
            },
        }
    }

    /// Forgets every link.
    pub fn disconnect(&mut self)
        ensures
            final(self).links() == Map::<Seq<char>, Vec<String>>::empty(),
            final(self).issued() == old(self).issued(),
            final(self).heard() == old(self).heard(),
            final(self).relayed() == old(self).relayed(),
    {
        self.topology.clear();
    }

    /// Learns the neighbors of `node`, in place of what was known of them.
    pub fn connect(&mut self, node: String, neighbors: Vec<String>)
        ensures
            final(self).links() == old(self).links().insert(node@, neighbors),
            final(self).issued() == old(self).issued(),
            final(self).heard() == old(self).heard(),
            final(self).relayed() == old(self).relayed(),
    {
        self.topology.insert(node, neighbors);
    }

    /// Hands out the next identifier: the number of identifiers handed out
    /// before. Gives `None`, and changes nothing, once they have run out.
    pub fn generate(&mut self) -> (id: Option<usize>)
        ensures
            old(self).issued() < usize::MAX ==> id == Some(old(self).issued() as usize)
                && final(self).issued() == old(self).issued() + 1,
            old(self).issued() >= usize::MAX ==> id is None && final(self).issued() == old(
                self,
            ).issued(),
            final(self).heard() == old(self).heard(),
            final(self).relayed() == old(self).relayed(),
            final(self).links() == old(self).links(),
    {
        if self.counter < usize::MAX {
            let id = self.counter;
            self.counter = id + 1;
            Some(id)
        } else {
            None
        }
    }

    /// Takes note of `message`.
    pub fn hear(&mut self, message: usize)
        ensures
            final(self).heard() == old(self).heard().insert(message),
            final(self).issued() == old(self).issued(),
            final(self).relayed() == old(self).relayed(),
            final(self).links() == old(self).links(),
    {
        self.messages.insert(message);
    }

    /// Takes note of every message of `batch`.
    pub fn hear_all(&mut self, batch: &Vec<usize>)
        ensures
            final(self).heard() == old(self).heard().union(batch@.to_set()),
            final(self).issued() == old(self).issued(),
            final(self).relayed() == old(self).relayed(),
            final(self).links() == old(self).links(),
    {
        let mut i: usize = 0;
        while i < batch.len()
            invariant
                i <= batch.len(),
                self.heard() == old(self).heard().union(batch@.take(i as int).to_set()),
                self.issued() == old(self).issued(),
                self.relayed() == old(self).relayed(),
                self.links() == old(self).links(),
            decreases batch.len() - i,
        {
            self.messages.insert(batch[i]);
            proof {
                lemma_take_one_more(batch@, i as int);
            }
            i = i + 1;
        }
        assert(batch@.take(batch.len() as int) =~= batch@);
    }

    /// Records that every neighbor has acknowledged the messages of `batch`.
    pub fn mark_relayed(&mut self, batch: &Vec<usize>)
        ensures
            final(self).relayed() == old(self).relayed().union(batch@.to_set()),
            final(self).issued() == old(self).issued(),
            final(self).heard() == old(self).heard(),
            final(self).links() == old(self).links(),
    {
        let mut i: usize = 0;
        while i < batch.len()
            invariant
                i <= batch.len(),
                self.relayed() == old(self).relayed().union(batch@.take(i as int).to_set()),
                self.issued() == old(self).issued(),
                self.heard() == old(self).heard(),
                self.links() == old(self).links(),
            decreases batch.len() - i,
        {
            self.broadcast.insert(batch[i]);
            proof {
                lemma_take_one_more(batch@, i as int);
            }
            i = i + 1;
        }
        assert(batch@.take(batch.len() as int) =~= batch@);
    }

    /// The messages heard so far, each once, in no particular order.
    pub fn messages(&self) -> (all: Vec<usize>)
        ensures
            all@.to_set() == self.heard(),
            all@.no_duplicates(),
    {
        let mut all: Vec<usize> = Vec::new();
        let ghost walked = self.messages.iter().remaining();
        for message in it: self.messages.iter()
            invariant
                it.seq() == walked,
                all@ == walked.take(it.index()).unref(),
        {
            all.push(*message);
            proof {
                let k = it.index();
                assert(walked.take(k + 1).unref() =~= walked.take(k).unref().push(*walked[k]));
            }
        }
        proof {
            assert(walked.take(walked.len() as int) =~= walked);
            lemma_unref_no_duplicates(walked);
        }
        all
    }

    /// The messages heard that not every neighbor has acknowledged yet,
    /// each once, in no particular order.
    pub fn unrelayed(&self) -> (batch: Vec<usize>)
        ensures
            batch@.to_set() == self.heard().difference(self.relayed()),
            batch@.no_duplicates(),
    {
        let all = self.messages();
        let mut batch: Vec<usize> = Vec::new();
        let mut i: usize = 0;
        while i < all.len()
            invariant
                i <= all.len(),
                all@.no_duplicates(),
                batch@.no_duplicates(),
                forall|v: usize|
                    batch@.contains(v) <==> (all@.take(i as int).contains(v)
                        && !self.broadcast@.contains(v)),
            decreases all.len() - i,
        {
            let message = all[i];
            let ghost before = batch@;
            let ghost seen = all@.take(i as int);
            proof {
                lemma_take_contains(all@, i as int);
                if seen.contains(message) {
                    let j = choose|j: int| 0 <= j < seen.len() && seen[j] == message;
                    assert(all@[j] == all@[i as int]);
                }
                assert(!before.contains(message));
            }
            if !self.broadcast.contains(&message) {
                batch.push(message);
                proof {
                    lemma_push_contains(before, message);
                }
            }
            assert forall|v: usize| batch@.contains(v) <==> (all@.take(i + 1).contains(v)
                && !self.broadcast@.contains(v)) by {
                assert(before.contains(v) <==> (seen.contains(v) && !self.broadcast@.contains(v)));
            }
            i = i + 1;
        }
        proof {
            assert(all@.take(all.len() as int) =~= all@);
            assert(batch@.to_set() =~= self.heard().difference(self.relayed())) by {
                assert forall|v: usize| batch@.to_set().contains(v) <==> self.heard().difference(
                    self.relayed(),
                ).contains(v) by {
                    assert(all@.to_set().contains(v) <==> all@.contains(v));
                }
            }
        }
        batch
    }
}

impl Default for Inner {
    /// The same as [`Inner::new`].
    fn default() -> (inner: Inner)
        ensures
            inner.issued() == 0,
            inner.heard() == Set::<usize>::empty(),
            inner.relayed() == Set::<usize>::empty(),
            inner.links() == Map::<Seq<char>, Vec<String>>::empty(),
    {
        Inner::new()
    }
}

proof fn lemma_take_one_more(s: Seq<usize>, i: int)
    requires
        0 <= i < s.len(),
    ensures
        s.take(i + 1).to_set() == s.take(i).to_set().insert(s[i]),
{
    let longer = s.take(i + 1);
    let shorter = s.take(i);
    assert forall|v: usize| longer.to_set().contains(v) <==> shorter.to_set().insert(
        s[i],
    ).contains(v) by {
        if longer.contains(v) {
            let j = choose|j: int| 0 <= j < longer.len() && longer[j] == v;
            if j < i {
                assert(shorter[j] == v);
            }
        }
        if shorter.contains(v) {
            let j = choose|j: int| 0 <= j < shorter.len() && shorter[j] == v;
            assert(longer[j] == v);
        }
        if v == s[i] {
            assert(longer[i] == v);
        }
    }
    assert(longer.to_set() =~= shorter.to_set().insert(s[i]));
}

proof fn lemma_take_contains(s: Seq<usize>, i: int)
    requires
        0 <= i < s.len(),
    ensures
        forall|v: usize| s.take(i + 1).contains(v) <==> (s.take(i).contains(v) || v == s[i]),
{
    lemma_take_one_more(s, i);
    assert forall|v: usize| s.take(i + 1).contains(v) <==> (s.take(i).contains(v) || v
        == s[i]) by {
        assert(s.take(i + 1).to_set().contains(v) <==> s.take(i + 1).contains(v));
        assert(s.take(i).to_set().contains(v) <==> s.take(i).contains(v));
    }
}

proof fn lemma_push_contains(s: Seq<usize>, x: usize)
    ensures
        forall|v: usize| s.push(x).contains(v) <==> (s.contains(v) || v == x),
{
    assert forall|v: usize| s.push(x).contains(v) <==> (s.contains(v) || v == x) by {
        if s.contains(v) {
            let j = choose|j: int| 0 <= j < s.len() && s[j] == v;
            assert(s.push(x)[j] == v);
        }
        if v == x {
            assert(s.push(x)[s.len() as int] == v);
        }
    }
}

proof fn lemma_unref_no_duplicates(s: Seq<&usize>)
    requires
        s.no_duplicates(),
    ensures
        s.unref().no_duplicates(),
{
    assert forall|i: int, j: int| 0 <= i < s.len() && 0 <= j < s.len() && i != j implies s.unref()[i]
        != s.unref()[j] by {
        assert(s[i] != s[j]);
    }
}

} // verus!
