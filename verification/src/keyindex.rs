//! An index over the positions of a list by a 64-bit key, for lookups that
//! do not walk the whole list.

use vstd::prelude::*;
use std::collections::hash_map::DefaultHasher;
use std::collections::HashMap;
use std::hash::Hasher;
use vstd::std_specs::hash::DefaultHasherAdditionalSpecFns;

verus! {

/// The key under which a text is indexed.
pub open spec fn text_key(text: Seq<char>) -> u64 {
    DefaultHasher::spec_finish(seq![vstd::utf8::encode_utf8(text)])
}

/// Computes the key under which a text is indexed.
pub(crate) fn key_of_text(text: &str) -> (key: u64)
    ensures
        key == text_key(text@),
{
    let mut hasher = DefaultHasher::new();
    hasher.write(text.as_bytes());
    assert(hasher@ =~= seq![vstd::utf8::encode_utf8(text@)]);
    hasher.finish()
}

/// Whether `target` is met when the chain of links is followed from `from`.
pub open spec fn on_chain(links: Seq<Option<usize>>, from: int, target: int) -> bool
    decreases from,
{
    0 <= from < links.len() && (from == target || match links[from] {
        Some(earlier) => earlier < from && on_chain(links, earlier as int, target),
        None => false,
    })
}

/// A chain stays what it is when the list grows.
proof fn lemma_chain_grows(links: Seq<Option<usize>>, link: Option<usize>, from: int, target: int)
    requires
        on_chain(links, from, target),
    ensures
        on_chain(links.push(link), from, target),
    decreases from,
{
    if from != target {
        match links[from] {
            Some(earlier) => {
                lemma_chain_grows(links, link, earlier as int, target);
            },
            None => {},
        }
    }
}

/// For each position of a list its key, and for each key the positions that
/// have it, latest first: each position links to the one before it with the
/// same key.
pub(crate) struct KeyIndex {
    latest: HashMap<u64, usize>,
    links: Vec<Option<usize>>,
    keys: Ghost<Seq<u64>>,
}

impl KeyIndex {
    /// The key of each position.
    pub closed spec fn keys(&self) -> Seq<u64> {
        self.keys@
    }

    /// Whether `target` is met when the positions are followed from `from`.
    pub closed spec fn reaches(&self, from: Option<usize>, target: int) -> bool {
        from matches Some(start) && on_chain(self.links@, start as int, target)
    }

    /// Every position is found from the latest position of its key, and the
    /// links lead through positions of one key only.
    pub closed spec fn wf(&self) -> bool {
        &&& self.links.len() == self.keys@.len()
        &&& forall|i: int|
            0 <= i < self.links.len() ==> (#[trigger] self.links[i] matches Some(earlier)
                ==> earlier < i && self.keys@[earlier as int] == self.keys@[i])
        &&& forall|key: u64| #[trigger]
            self.latest@.contains_key(key) ==> self.latest@[key] < self.links.len()
                && self.keys@[self.latest@[key] as int] == key
        &&& forall|i: int|
            0 <= i < self.keys@.len() ==> self.latest@.contains_key(#[trigger] self.keys@[i])
                && on_chain(self.links@, self.latest@[self.keys@[i]] as int, i)
    }

    pub(crate) fn new() -> (index: Self)
        ensures
            index.wf(),
            index.keys() == Seq::<u64>::empty(),
    {
        KeyIndex { latest: HashMap::new(), links: Vec::new(), keys: Ghost(Seq::empty()) }
    }

    /// The latest position with the key, from which all others with it are reached.
    pub(crate) fn first(&self, key: u64) -> (found: Option<usize>)
        requires
            self.wf(),
        ensures
            found matches Some(at) ==> at < self.keys().len() && self.keys()[at as int] == key,
            forall|i: int|
                0 <= i < self.keys().len() && self.keys()[i] == key ==> self.reaches(found, i),
    {
        match self.latest.get(&key) {
            Some(at) => Some(*at),
            None => {
                assert forall|i: int| 0 <= i < self.keys().len() implies self.keys()[i] != key by {
                    assert(self.latest@.contains_key(self.keys@[i]));
                }
                None
            },
        }
    }

    /// The position before `at` with the same key.
    pub(crate) fn after(&self, at: usize) -> (found: Option<usize>)
        requires
            self.wf(),
            at < self.keys().len(),
        ensures
            found matches Some(earlier) ==> earlier < at && self.keys()[earlier as int]
                == self.keys()[at as int],
            forall|i: int| i != at && self.reaches(Some(at), i) ==> self.reaches(found, i),
    {
        self.links[at]
    }

    /// Nothing is reached from nowhere.
    pub(crate) proof fn lemma_nothing_from_none(&self, target: int)
        ensures
            !self.reaches(None, target),
    {
    }

    /// Takes in the key of one more position, the next after those it has.
    pub(crate) fn add(&mut self, key: u64)
        requires
            old(self).wf(),
        ensures
            final(self).wf(),
            final(self).keys() == old(self).keys().push(key),
    {
        let ghost keys = self.keys@;
        let ghost links = self.links@;
        let ghost latest = self.latest@;
        let at: usize = self.links.len();
        let before: Option<usize> = match self.latest.get(&key) {
            Some(earlier) => Some(*earlier),
            None => None,
        };
        self.links.push(before);
        self.latest.insert(key, at);
        self.keys = Ghost(keys.push(key));
        proof {
            let grown = links.push(before);
            assert(self.links@ == grown);
            assert forall|i: int| 0 <= i < self.keys@.len() implies self.latest@.contains_key(
                #[trigger] self.keys@[i],
            ) && on_chain(self.links@, self.latest@[self.keys@[i]] as int, i) by {
                if i < at {
                    assert(latest.contains_key(keys[i]));
                    lemma_chain_grows(links, before, latest[keys[i]] as int, i);
                    if keys[i] == key {
                        assert(before == Some(latest[key]));
                    }
                }
            }
            assert forall|i: int| 0 <= i < self.links.len() implies (
            #[trigger] self.links[i] matches Some(earlier) ==> earlier < i
                && self.keys@[earlier as int] == self.keys@[i]) by {
                if i < at {
                    assert(self.links[i] == links[i]);
                }
            }
        }
    }
}

} // verus!
