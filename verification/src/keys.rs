//! The store keys that hold a topic's state.
//!
//! A topic owns three families of keys: one offset counter, one commit
//! marker, and one entry key per offset. The lemmas of this module show that
//! no key serves two purposes: a key determines its family, its topic and,
//! for an entry, its offset.

use crate::decimal::{digits, is_digit, lemma_digits_injective, lemma_digits_shape, render};
use vstd::prelude::*;
use vstd::string::*;

verus! {

/// What is appended to a topic to name its offset counter.
pub open spec fn counter_suffix() -> Seq<char> {
    seq!['-', 'o', 'f', 'f', 's', 'e', 't']
}

/// What is appended to a topic to name its commit marker.
pub open spec fn commit_suffix() -> Seq<char> {
    seq!['-', 'c', 'o', 'm', 'm', 'i', 't']
}

/// The key of the offset counter of `topic`.
pub open spec fn counter_key(topic: Seq<char>) -> Seq<char> {
    topic + counter_suffix()
}

/// The key of the commit marker of `topic`.
pub open spec fn commit_key(topic: Seq<char>) -> Seq<char> {
    topic + commit_suffix()
}

/// The key of the entry of `topic` at `offset`.
pub open spec fn entry_key(topic: Seq<char>, offset: nat) -> Seq<char> {
    topic.push('-') + digits(offset)
}

/// A digit is never a hyphen, nor the letter that ends both suffixes.
proof fn lemma_digit_is_no_separator(c: char)
    requires
        is_digit(c),
    ensures
        c != '-',
        c != 't',
{
}

/// A counter key names one topic only.
pub proof fn lemma_counter_key_injective(a: Seq<char>, b: Seq<char>)
    requires
        counter_key(a) == counter_key(b),
    ensures
        a == b,
{
    assert(counter_key(a).len() == a.len() + 7);
    assert(counter_key(b).len() == b.len() + 7);
    assert(a =~= counter_key(a).subrange(0, a.len() as int));
    assert(b =~= counter_key(b).subrange(0, b.len() as int));
}

/// A commit key names one topic only.
pub proof fn lemma_commit_key_injective(a: Seq<char>, b: Seq<char>)
    requires
        commit_key(a) == commit_key(b),
    ensures
        a == b,
{
    assert(commit_key(a).len() == a.len() + 7);
    assert(commit_key(b).len() == b.len() + 7);
    assert(a =~= commit_key(a).subrange(0, a.len() as int));
    assert(b =~= commit_key(b).subrange(0, b.len() as int));
}

/// An entry key names one topic and one offset only.
pub proof fn lemma_entry_key_injective(a: Seq<char>, m: nat, b: Seq<char>, n: nat)
    requires
        entry_key(a, m) == entry_key(b, n),
    ensures
        a == b,
        m == n,
{
    let ka = entry_key(a, m);
    let kb = entry_key(b, n);
    lemma_digits_shape(m);
    lemma_digits_shape(n);
    assert(ka.len() == a.len() + 1 + digits(m).len());
    assert(kb.len() == b.len() + 1 + digits(n).len());
    assert(ka[a.len() as int] == '-');
    assert(kb[b.len() as int] == '-');
    if a.len() < b.len() {
        let j = b.len() - a.len() - 1;
        assert(ka[b.len() as int] == digits(m)[j]);
        lemma_digit_is_no_separator(digits(m)[j]);
    } else if b.len() < a.len() {
        let j = a.len() - b.len() - 1;
        assert(kb[a.len() as int] == digits(n)[j]);
        lemma_digit_is_no_separator(digits(n)[j]);
    }
    assert(a.len() == b.len());
    assert(a =~= ka.subrange(0, a.len() as int));
    assert(b =~= kb.subrange(0, b.len() as int));
    assert(digits(m) =~= ka.subrange(a.len() as int + 1, ka.len() as int));
    assert(digits(n) =~= kb.subrange(b.len() as int + 1, kb.len() as int));
    lemma_digits_injective(m, n);
}

/// No counter key is a commit key.
pub proof fn lemma_counter_key_is_no_commit_key(a: Seq<char>, b: Seq<char>)
    ensures
        counter_key(a) != commit_key(b),
{
    if counter_key(a) == commit_key(b) {
        assert(counter_key(a).len() == a.len() + 7);
        assert(commit_key(b).len() == b.len() + 7);
        assert(counter_key(a)[a.len() as int + 1] == 'o');
        assert(commit_key(b)[b.len() as int + 1] == 'c');
    }
}

/// No entry key is a counter key.
pub proof fn lemma_entry_key_is_no_counter_key(a: Seq<char>, n: nat, b: Seq<char>)
    ensures
        entry_key(a, n) != counter_key(b),
{
    lemma_digits_shape(n);
    let k = entry_key(a, n);
    assert(k.last() == digits(n).last());
    lemma_digit_is_no_separator(digits(n).last());
    assert(counter_key(b).last() == 't');
}

/// No entry key is a commit key.
pub proof fn lemma_entry_key_is_no_commit_key(a: Seq<char>, n: nat, b: Seq<char>)
    ensures
        entry_key(a, n) != commit_key(b),
{
    lemma_digits_shape(n);
    let k = entry_key(a, n);
    assert(k.last() == digits(n).last());
    lemma_digit_is_no_separator(digits(n).last());
    assert(commit_key(b).last() == 't');
}

/// What a key holds.
pub enum Role {
    /// The offset counter of `topic`.
    Counter { topic: Seq<char> },
    /// The commit marker of `topic`.
    Marker { topic: Seq<char> },
    /// The entry of `topic` at `offset`.
    Entry { topic: Seq<char>, offset: nat },
}

/// The key that holds `role`.
pub open spec fn key_of(role: Role) -> Seq<char> {
    match role {
        Role::Counter { topic } => counter_key(topic),
        Role::Marker { topic } => commit_key(topic),
        Role::Entry { topic, offset } => entry_key(topic, offset),
    }
}

/// No key holds two things: neither of two kinds, nor of two topics, nor
/// of two offsets.
pub proof fn lemma_key_of_injective(a: Role, b: Role)
    requires
        key_of(a) == key_of(b),
    ensures
        a == b,
{
    match a {
        Role::Counter { topic: s } => match b {
            Role::Counter { topic: t } => lemma_counter_key_injective(s, t),
            Role::Marker { topic: t } => lemma_counter_key_is_no_commit_key(s, t),
            Role::Entry { topic: t, offset: n } => lemma_entry_key_is_no_counter_key(t, n, s),
        },
        Role::Marker { topic: s } => match b {
            Role::Counter { topic: t } => lemma_counter_key_is_no_commit_key(t, s),
            Role::Marker { topic: t } => lemma_commit_key_injective(s, t),
            Role::Entry { topic: t, offset: n } => lemma_entry_key_is_no_commit_key(t, n, s),
        },
        Role::Entry { topic: s, offset: m } => match b {
            Role::Counter { topic: t } => lemma_entry_key_is_no_counter_key(s, m, t),
            Role::Marker { topic: t } => lemma_entry_key_is_no_commit_key(s, m, t),
            Role::Entry { topic: t, offset: n } => lemma_entry_key_injective(s, m, t, n),
        },
    }
}

/// Builds the key of the offset counter of `topic`.
pub fn make_counter_key(topic: &str) -> (key: String)
    ensures
        key@ == counter_key(topic@),
{
    proof {
        reveal_strlit("-offset");
    }
    let key = String::from_str(topic).concat("-offset");
    assert(key@ =~= counter_key(topic@));
    key
}

/// Builds the key of the commit marker of `topic`.
pub fn make_commit_key(topic: &str) -> (key: String)
    ensures
        key@ == commit_key(topic@),
{
    proof {
        reveal_strlit("-commit");
    }
    let key = String::from_str(topic).concat("-commit");
    assert(key@ =~= commit_key(topic@));
    key
}

/// Builds the key of the entry of `topic` at `offset`.
pub fn make_entry_key(topic: &str, offset: usize) -> (key: String)
    ensures
        key@ == entry_key(topic@, offset as nat),
{
    proof {
        reveal_strlit("-");
    }
    let number = render(offset);
    let key = String::from_str(topic).concat("-").concat(number.as_str());
    assert(key@ =~= entry_key(topic@, offset as nat));
    key
}

} // verus!
