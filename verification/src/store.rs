use crate::definition::SignalDef;
use crate::graph::registry_graph;
use crate::signal::Signal;
use crate::signal::SignalMap;
use vstd::prelude::*;

verus! {

/// A map of signal definitions: the store that owns the nodes of one graph
/// and mints their handles.
#[derive(Debug)]
pub struct SignalDefMap<T: SignalDef> {
    map: SignalMap<T>,
    last_id: u64,
}

impl<T: SignalDef> View for SignalDefMap<T> {
    type V = Map<Signal, T>;

    closed spec fn view(&self) -> Map<Signal, T> {
        self.map@
    }
}

impl<T: SignalDef> SignalDefMap<T> {
    /// The number of definitions stored, which is also the index of the next
    /// handle to be minted.
    pub closed spec fn spec_len(&self) -> u64 {
        self.last_id
    }

    /// The number of definitions stored. A store has room for one more as
    /// long as this is below `u64::MAX`.
    #[verifier::when_used_as_spec(spec_len)]
    pub fn len(&self) -> (count: u64)
        ensures
            count == self.len(),
    {
        self.last_id
    }

    /// The handles in use are the first `len()` ones: none was skipped,
    /// reused or removed.
    pub open spec fn wf(&self) -> bool {
        forall|s: Signal| #[trigger] self@.contains_key(s) <==> s.index() < self.len()
    }

    /// A store without definitions.
    pub fn new() -> (store: Self)
        ensures
            store.wf(),
            store.len() == 0,
            store@ == Map::<Signal, T>::empty(),
    {
        SignalDefMap { map: SignalMap::new(), last_id: 0 }
    }

    /// Stores `def` under a handle that the store has not handed out
    /// before, and returns that handle.
    pub fn insert(&mut self, def: T) -> (signal: Signal)
        requires
            old(self).wf(),
            old(self).len() < u64::MAX,
        ensures
            final(self).wf(),
            signal.index() == old(self).len(),
            !old(self)@.contains_key(signal),
            final(self).len() == old(self).len() + 1,
            final(self)@ == old(self)@.insert(signal, def),
    {
        let id = Signal::mint(self.last_id);
        self.last_id += 1;
        self.map.insert(id, def);
        proof {
            assert(self@ == old(self)@.insert(id, def));
            assert forall|s: Signal| #[trigger]
                self@.contains_key(s) <==> s.index() < self.len() by {
                if s.index() == id.index() {
                    Signal::lemma_index_injective(s, id);
                } else {
                    assert(self@.contains_key(s) == old(self)@.contains_key(s));
                }
            }
        }
        id
    }

    /// The definition stored under `signal`, if there is one.
    pub fn get(&self, signal: Signal) -> (def: Option<&T>)
        ensures
            def == (if self@.contains_key(signal) {
                Some(&self@[signal])
            } else {
                None
            }),
    {
        self.map.get(signal)
    }

    /// The dependency graph of the store: what each stored definition
    /// reads.
    pub open spec fn graph(&self) -> Map<Signal, Set<Signal>> {
        Map::new(|s: Signal| self@.contains_key(s), |s: Signal| self@[s].deps())
    }

    /// Asks every stored definition for its dependencies, and returns the
    /// answers by handle.
    pub fn dependency_registry(&self) -> (registry: SignalMap<Vec<Signal>>)
        requires
            self.wf(),
        ensures
            registry@.dom() == self@.dom(),
            registry_graph(registry@) == self.graph(),
    {
        let mut registry: SignalMap<Vec<Signal>> = SignalMap::new();
        let mut id: u64 = 0;
        while id < self.last_id
            invariant
                self.wf(),
                id <= self.last_id,
                forall|s: Signal| registry@.contains_key(s) <==> s.index() < id,
                forall|s: Signal| #[trigger]
                    registry@.contains_key(s) ==> registry@[s]@.to_set() == self@[s].deps(),
            decreases self.last_id - id,
        {
            let signal = Signal::mint(id);
            assert(self@.contains_key(signal));
            let def = self.map.get(signal).unwrap();
            let deps = def.dependencies();
            registry.insert(signal, deps);
            proof {
                assert forall|s: Signal| registry@.contains_key(s) <==> s.index() < id + 1 by {
                    if s.index() == id {
                        Signal::lemma_index_injective(s, signal);
                    }
                }
            }
            id += 1;
        }
        proof {
            assert(registry@.dom() =~= self@.dom());
            assert(registry_graph(registry@) =~= self.graph());
        }
        registry
    }
}

impl<T: SignalDef> Default for SignalDefMap<T> {
    fn default() -> (store: Self)
        ensures
            store.wf(),
            store.len() == 0,
            store@ == Map::<Signal, T>::empty(),
    {
        SignalDefMap::new()
    }
}

/// The core graph type. Contains a signal map, and is where planning
/// starts once the graph is complete.
#[derive(Debug)]
pub struct SignalMatrix<T: SignalDef> {
    defset: SignalDefMap<T>,
}

impl<T: SignalDef> View for SignalMatrix<T> {
    type V = Map<Signal, T>;

    open spec fn view(&self) -> Map<Signal, T> {
        self.definitions()@
    }
}

impl<T: SignalDef> SignalMatrix<T> {
    /// The store this graph was made from.
    pub closed spec fn definitions(&self) -> SignalDefMap<T> {
        self.defset
    }

    /// The store is well formed.
    pub open spec fn wf(&self) -> bool {
        self.definitions().wf()
    }

    /// The dependency graph: what each definition reads.
    pub open spec fn graph(&self) -> Map<Signal, Set<Signal>> {
        self.definitions().graph()
    }

    /// Create a new signal matrix with the given signal definition map.
    pub fn new(defset: SignalDefMap<T>) -> (matrix: Self)
        ensures
            matrix.definitions() == defset,
            matrix@ == defset@,
    {
        SignalMatrix { defset }
    }

    /// The definitions of this graph.
    pub(crate) fn store(&self) -> (defset: &SignalDefMap<T>)
        ensures
            *defset == self.definitions(),
            defset@ == self@,
    {
        &self.defset
    }
}

} // verus!
