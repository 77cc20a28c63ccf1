use std::collections::HashMap;
use std::collections::HashSet;
use vstd::prelude::*;

verus! {

/// A handle to a signal in the graph: the identifier under which one store
/// keeps one definition.
///
/// A handle carries nothing but its identity. Two handles are equal exactly
/// when their indices are equal.
#[derive(Debug, Clone, Copy, PartialEq, Eq, Hash, Structural)]
pub struct Signal(u64);

impl Signal {
    /// The position of this handle in the order in which its store minted
    /// handles, counted from zero.
    pub closed spec fn index(self) -> nat {
        self.0 as nat
    }

    /// Handles with the same index are the same handle.
    pub proof fn lemma_index_injective(a: Signal, b: Signal)
        requires
            a.index() == b.index(),
        ensures
            a == b,
    {
    }

    /// An index is bounded by the width of the counter that mints handles.
    pub proof fn lemma_index_bounded(self)
        ensures
            self.index() <= u64::MAX,
    {
    }

    /// The handle with the given index.
    pub(crate) fn mint(index: u64) -> (s: Signal)
        ensures
            s.index() == index,
    {
        Signal(index)
    }
}

/// A finite map keyed by handles.
#[derive(Debug)]
pub struct SignalMap<V> {
    entries: HashMap<u64, V>,
}

impl<V> View for SignalMap<V> {
    type V = Map<Signal, V>;

    closed spec fn view(&self) -> Map<Signal, V> {
        Map::new(|s: Signal| self.entries@.contains_key(s.0), |s: Signal| self.entries@[s.0])
    }
}

impl<V> SignalMap<V> {
    /// A map without keys.
    pub fn new() -> (m: Self)
        ensures
            m@ == Map::<Signal, V>::empty(),
    {
        let m = SignalMap { entries: HashMap::new() };
        assert(m@ =~= Map::<Signal, V>::empty());
        m
    }

    /// Binds `key` to `value`, replacing what was bound to `key` before.
    pub fn insert(&mut self, key: Signal, value: V)
        ensures
            final(self)@ == old(self)@.insert(key, value),
    {
        self.entries.insert(key.0, value);
        assert(self@ =~= old(self)@.insert(key, value));
    }

    /// What is bound to `key`, if anything is.
    pub fn get(&self, key: Signal) -> (found: Option<&V>)
        ensures
            found == (if self@.contains_key(key) {
                Some(&self@[key])
            } else {
                None
            }),
    {
        self.entries.get(&key.0)
    }

    /// Whether anything is bound to `key`.
    pub fn contains_key(&self, key: Signal) -> (found: bool)
        ensures
            found == self@.contains_key(key),
    {
        self.entries.contains_key(&key.0)
    }

    /// The number of keys.
    pub fn len(&self) -> (count: usize)
        ensures
            self@.dom().finite(),
            count == self@.dom().len(),
    {
        proof {
            self.lemma_finite();
        }
        self.entries.len()
    }

    /// A map keyed by handles holds finitely many, as many as its table.
    proof fn lemma_finite(&self)
        ensures
            self@.dom().finite(),
            self@.dom().len() == self.entries@.dom().len(),
    {
        let ids = self.entries@.dom();
        let mint = |id: u64| Signal(id);
        assert(ids.map(mint) =~= self@.dom()) by {
            assert forall|s: Signal| self@.dom().contains(s) implies ids.map(mint).contains(s) by {
                assert(ids.contains(s.0) && s == mint(s.0));
            }
        }
        vstd::set_lib::lemma_map_size(ids, self@.dom(), mint);
    }
}

/// A finite set of handles.
#[derive(Debug)]
pub struct SignalSet {
    members: HashSet<u64>,
}

impl View for SignalSet {
    type V = Set<Signal>;

    closed spec fn view(&self) -> Set<Signal> {
        Set::new(|s: Signal| self.members@.contains(s.0))
    }
}

impl SignalSet {
    /// A set without members.
    pub fn new() -> (s: Self)
        ensures
            s@ == Set::<Signal>::empty(),
    {
        let s = SignalSet { members: HashSet::new() };
        assert(s@ =~= Set::<Signal>::empty());
        s
    }

    /// Adds `key`; the result says whether it was new to the set.
    pub fn insert(&mut self, key: Signal) -> (fresh: bool)
        ensures
            final(self)@ == old(self)@.insert(key),
            fresh == !old(self)@.contains(key),
    {
        let fresh = self.members.insert(key.0);
        assert(self@ =~= old(self)@.insert(key));
        fresh
    }

    /// Whether `key` is a member.
    pub fn contains(&self, key: Signal) -> (found: bool)
        ensures
            found == self@.contains(key),
    {
        self.members.contains(&key.0)
    }
}

} // verus!
