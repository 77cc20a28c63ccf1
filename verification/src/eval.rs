use crate::definition::EvalContext;
use crate::definition::SignalDef;
use crate::graph::covered;
use crate::graph::edge;
use crate::graph::pass_of;
use crate::plan::pass_sets;
use crate::plan::PlannedEvaluation;
use crate::signal::Signal;
use crate::signal::SignalMap;
use rayon::iter::IntoParallelRefIterator;
use rayon::iter::ParallelIterator;
use vstd::prelude::*;

verus! {

/// Why an evaluation stopped.
#[derive(Debug, Clone, Copy, PartialEq, Eq, Structural)]
pub enum EvaluationError {
    /// When `handle` was to be evaluated in pass `pass`, no value had been
    /// committed for `dependency`, which it reads.
    MissingDependency { handle: Signal, dependency: Signal, pass: usize },
}

/// A value has been committed for `signal`.
pub open spec fn committed<V>(values: Map<Signal, Option<V>>, signal: Signal) -> bool {
    values.contains_key(signal) && values[signal] is Some
}

/// The committed values of the handles in `deps`: what a definition with
/// these dependencies is given to read.
pub open spec fn inputs<V>(values: Map<Signal, Option<V>>, deps: Set<Signal>) -> Map<Signal, V> {
    Map::new(|dep: Signal| deps.contains(dep), |dep: Signal| values[dep]->0)
}

/// A map of values for evaluated signals: for each handle it was made for,
/// the value once it is computed.
#[derive(Debug)]
pub struct EvaluationValueMap<T: SignalDef> {
    values: SignalMap<Option<T::Value>>,
}

impl<T: SignalDef> View for EvaluationValueMap<T> {
    type V = Map<Signal, Option<T::Value>>;

    closed spec fn view(&self) -> Map<Signal, Option<T::Value>> {
        self.values@
    }
}

impl<T: SignalDef> EvaluationValueMap<T> {
    /// Create a new empty value map for the given targets: one entry for
    /// each, none of them set.
    pub fn new_empty(targets: Vec<Signal>) -> (map: Self)
        ensures
            map@.dom() == targets@.to_set(),
            forall|s: Signal| map@.contains_key(s) ==> map@[s] is None,
    {
        let mut values: SignalMap<Option<T::Value>> = SignalMap::new();
        let mut i: usize = 0;
        proof {
            assert(values@.dom() =~= targets@.take(0).to_set());
        }
        while i < targets.len()
            invariant
                i <= targets.len(),
                values@.dom() == targets@.take(i as int).to_set(),
                forall|s: Signal| values@.contains_key(s) ==> values@[s] is None,
            decreases targets.len() - i,
        {
            let target = targets[i];
            values.insert(target, None);
            proof {
                assert(targets@.take(i + 1) =~= targets@.take(i as int).push(target));
                targets@.take(i as int).lemma_push_to_set_commute(target);
                assert(values@.dom() =~= targets@.take(i + 1).to_set());
            }
            i += 1;
        }
        proof {
            assert(targets@.take(targets.len() as int) =~= targets@);
        }
        EvaluationValueMap { values }
    }

    /// Get the value for the given signal, if it has been evaluated.
    pub fn get(&self, signal: Signal) -> (value: Option<&T::Value>)
        ensures
            value == (if committed(self@, signal) {
                Some(&self@[signal]->0)
            } else {
                None
            }),
    {
        match self.values.get(signal) {
            Some(slot) => slot.as_ref(),
            None => None,
        }
    }

    /// Commits `value` for `signal`.
    pub(crate) fn commit(&mut self, signal: Signal, value: T::Value)
        ensures
            final(self)@ == old(self)@.insert(signal, Some(value)),
    {
        self.values.insert(signal, Some(value));
    }

    /// Builds the context in which `handle` is evaluated in pass `pass`:
    /// the committed values of the handles in `deps`. Fails at the first of
    /// them that has none.
    pub fn gather_context(&self, handle: Signal, deps: &Vec<Signal>, pass: usize) -> (outcome:
        Result<EvalContext<'_, T::Value>, EvaluationError>)
        ensures
            match outcome {
                Ok(ctx) => {
                    &&& forall|i: int| 0 <= i < deps.len() ==> committed(self@, #[trigger] deps[i])
                    &&& ctx@ == inputs(self@, deps@.to_set())
                },
                Err(error) => exists|i: int|
                    {
                        &&& 0 <= i < deps.len()
                        &&& !committed(self@, #[trigger] deps[i])
                        &&& forall|j: int| 0 <= j < i ==> committed(self@, #[trigger] deps[j])
                        &&& error == EvaluationError::MissingDependency {
                            handle,
                            dependency: deps[i],
                            pass,
                        }
                    },
            },
    {
        let mut ctx: EvalContext<'_, T::Value> = EvalContext::new();
        let mut i: usize = 0;
        proof {
            assert(ctx@ =~= inputs(self@, deps@.take(0).to_set()));
        }
        while i < deps.len()
            invariant
                i <= deps.len(),
                forall|j: int| 0 <= j < i ==> committed(self@, #[trigger] deps[j]),
                ctx@ == inputs(self@, deps@.take(i as int).to_set()),
            decreases deps.len() - i,
        {
            let dep = deps[i];
            match self.get(dep) {
                Some(value) => {
                    ctx.provide(dep, value);
                },
                None => {
                    return Err(EvaluationError::MissingDependency { handle, dependency: dep, pass });
                },
            }
            proof {
                assert(deps@.take(i + 1) =~= deps@.take(i as int).push(dep));
                deps@.take(i as int).lemma_push_to_set_commute(dep);
                assert(ctx@ =~= inputs(self@, deps@.take(i + 1).to_set()));
            }
            i += 1;
        }
        proof {
            assert(deps@.take(deps.len() as int) =~= deps@);
        }
        Ok(ctx)
    }
}

/// What evaluating `def` under `handle` in pass `pass` comes to, given the
/// values committed so far: its value on the values of its dependencies
/// where all of them are committed, and else an error that names one that
/// is not.
pub open spec fn evaluates<T: SignalDef>(
    def: T,
    handle: Signal,
    pass: usize,
    values: Map<Signal, Option<T::Value>>,
    outcome: Result<T::Value, EvaluationError>,
) -> bool {
    match outcome {
        Ok(value) => {
            &&& forall|dep: Signal| #[trigger] def.deps().contains(dep) ==> committed(values, dep)
            &&& value == def.value(inputs(values, def.deps()))
        },
        Err(error) => exists|dep: Signal|
            {
                &&& #[trigger] def.deps().contains(dep)
                &&& !committed(values, dep)
                &&& error == EvaluationError::MissingDependency { handle, dependency: dep, pass }
            },
    }
}

/// What stands in a list from place `at` on is the handle at `at` and what
/// stands after it.
proof fn lemma_skip_step(handles: Seq<Signal>, at: int)
    requires
        0 <= at < handles.len(),
    ensures
        handles.skip(at).to_set() == handles.skip(at + 1).to_set().insert(handles[at]),
{
    let from = handles.skip(at);
    let after = handles.skip(at + 1);
    assert forall|handle: Signal| from.to_set().contains(handle) <==> after.to_set().insert(
        handles[at],
    ).contains(handle) by {
        if from.contains(handle) {
            let k = choose|k: int| 0 <= k < from.len() && from[k] == handle;
            if k > 0 {
                assert(after[k - 1] == handle);
            }
        }
        if after.contains(handle) {
            let k = choose|k: int| 0 <= k < after.len() && after[k] == handle;
            assert(from[k + 1] == handle);
        }
        if handle == handles[at] {
            assert(from[0] == handle);
        }
    }
    assert(from.to_set() =~= after.to_set().insert(handles[at]));
}

/// Values that agree on `deps` give the same inputs.
pub proof fn lemma_inputs_agree<V>(
    one: Map<Signal, Option<V>>,
    other: Map<Signal, Option<V>>,
    deps: Set<Signal>,
)
    requires
        forall|dep: Signal| #[trigger] deps.contains(dep) ==> one[dep] == other[dep],
    ensures
        inputs(one, deps) == inputs(other, deps),
{
    assert(inputs(one, deps) =~= inputs(other, deps));
}

impl<'m, T: SignalDef> PlannedEvaluation<'m, T> {
    /// The value committed for `handle` is the value of its definition on
    /// the values committed for its dependencies.
    pub open spec fn settled(&self, values: Map<Signal, Option<T::Value>>, handle: Signal) -> bool {
        let def = self.matrix()@[handle];
        &&& values.contains_key(handle)
        &&& values[handle] == Some(def.value(inputs(values, def.deps())))
    }

    /// `after` is what a run of the plan makes of `before`: every handle
    /// of the plan is set, to the value of its definition on the values of
    /// its dependencies, and nothing else has changed.
    pub open spec fn completes(
        &self,
        before: Map<Signal, Option<T::Value>>,
        after: Map<Signal, Option<T::Value>>,
    ) -> bool {
        &&& after.dom() == before.dom().union(self.queued())
        &&& forall|handle: Signal|
            before.contains_key(handle) && !self.queued().contains(handle) ==> after[handle]
                == before[handle]
        &&& forall|handle: Signal| #[trigger]
            self.queued().contains(handle) ==> self.settled(after, handle)
    }

    /// Whatever the values were at the start, and in whatever order the
    /// handles of a pass were evaluated: two runs of one plan end with the
    /// same value for every handle of the plan.
    pub proof fn lemma_run_deterministic(
        &self,
        before: Map<Signal, Option<T::Value>>,
        after: Map<Signal, Option<T::Value>>,
        other_before: Map<Signal, Option<T::Value>>,
        other_after: Map<Signal, Option<T::Value>>,
    )
        requires
            self.wf(),
            self.completes(before, after),
            self.completes(other_before, other_after),
        ensures
            forall|handle: Signal| #[trigger]
                self.queued().contains(handle) ==> after[handle] == other_after[handle],
    {
        assert forall|handle: Signal| #[trigger] self.queued().contains(handle) implies after[handle]
            == other_after[handle] by {
            self.lemma_settled_agree(after, other_after, handle, pass_of(self@, handle));
        }
    }

    /// Two maps in which the handles of the plan are settled agree on the
    /// handle that stands in pass `at`.
    proof fn lemma_settled_agree(
        &self,
        one: Map<Signal, Option<T::Value>>,
        other: Map<Signal, Option<T::Value>>,
        handle: Signal,
        at: int,
    )
        requires
            self.wf(),
            forall|h: Signal| #[trigger] self.queued().contains(h) ==> self.settled(one, h),
            forall|h: Signal| #[trigger] self.queued().contains(h) ==> self.settled(other, h),
            0 <= at < self@.len(),
            self@[at].contains(handle),
        ensures
            one[handle] == other[handle],
        decreases at,
    {
        let graph = self.matrix().graph();
        let def = self.matrix()@[handle];
        assert(self.queued().contains(handle));
        assert(graph.contains_key(handle));
        assert forall|dep: Signal| #[trigger] def.deps().contains(dep) implies one[dep]
            == other[dep] by {
            assert(edge(graph, handle, dep));
            let below = choose|below: int| 0 <= below < at && #[trigger] self@[below].contains(dep);
            self.lemma_settled_agree(one, other, dep, below);
        }
        lemma_inputs_agree(one, other, def.deps());
    }

    /// Evaluates one target of pass `pass` on the values committed so far.
    fn evaluate_target(&self, target: Signal, pass: usize, values: &EvaluationValueMap<T>) -> (outcome:
        Result<T::Value, EvaluationError>)
        requires
            self.matrix()@.contains_key(target),
        ensures
            evaluates(self.matrix()@[target], target, pass, values@, outcome),
    {
        let def = self.graph_ref().store().get(target).unwrap();
        let deps = def.dependencies();
        match values.gather_context(target, &deps, pass) {
            Ok(ctx) => {
                proof {
                    assert forall|dep: Signal| #[trigger]
                        def.deps().contains(dep) implies committed(values@, dep) by {
                        let at = choose|at: int| 0 <= at < deps@.len() && deps@[at] == dep;
                    }
                    assert(ctx@.dom() =~= def.deps());
                }
                Ok(def.evaluate(&ctx))
            },
            Err(error) => {
                proof {
                    let at = choose|at: int|
                        {
                            &&& 0 <= at < deps.len()
                            &&& !committed(values@, #[trigger] deps[at])
                            &&& forall|j: int| 0 <= j < at ==> committed(values@, #[trigger] deps[j])
                            &&& error == EvaluationError::MissingDependency {
                                handle: target,
                                dependency: deps[at],
                                pass,
                            }
                        };
                    assert(deps@.contains(deps@[at]));
                    assert(def.deps().contains(deps@[at]));
                }
                Err(error)
            },
        }
    }

    /// Evaluates the targets of pass `pass`, each on the values committed
    /// so far, and returns the outcomes in the order of the targets.
    ///
    /// The work is handed to rayon: `par_iter` on the list of targets,
    /// `map` with one call of `evaluate_target` for each, `collect` into a
    /// vector. Nothing of this is proved. It is believed of rayon that it
    /// makes the call once for every target, and that the vector holds the
    /// results in the order of the targets, as a sequential
    /// `iter().map(..).collect()` would; what one call returns is what
    /// `evaluate_target` ensures. rayon starts its pool of threads on first
    /// use, and panics where the system lets it start none.
    #[verifier::external_body]
    fn evaluate_all(&self, targets: &Vec<Signal>, pass: usize, values: &EvaluationValueMap<T>) -> (outcomes:
        Vec<Result<T::Value, EvaluationError>>)
        requires
            forall|j: int|
                0 <= j < targets.len() ==> self.matrix()@.contains_key(#[trigger] targets[j]),
        ensures
            outcomes.len() == targets.len(),
            forall|j: int|
                0 <= j < targets.len() ==> evaluates(
                    self.matrix()@[targets[j]],
                    targets[j],
                    pass,
                    values@,
                    #[trigger] outcomes[j],
                ),
    {
        targets.par_iter().map(|target| self.evaluate_target(*target, pass, values)).collect()
    }

    /// Run the planned evaluation, updating the given value map with the
    /// results.
    ///
    /// The passes run in order. The targets of one pass are evaluated on
    /// the values that the passes before it have committed, and their
    /// values are committed together before the next pass starts.
    ///
    /// For a well-formed plan the run succeeds. The error is there for
    /// definitions that do not keep to what [`SignalDef`] asks of them.
    pub fn run(&self, values: EvaluationValueMap<T>) -> (outcome: Result<
        EvaluationValueMap<T>,
        EvaluationError,
    >)
        requires
            self.wf(),
        ensures
            outcome matches Ok(computed) && self.completes(values@, computed@),
    {
        let ghost before = values@;
        let ghost graph = self.matrix().graph();
        let mut values = values;
        let passes = self.passes();
        let mut i: usize = 0;
        proof {
            assert(values@.dom() =~= before.dom().union(self.queued_before(0)));
        }
        while i < passes.len()
            invariant
                self.wf(),
                graph == self.matrix().graph(),
                pass_sets(passes@) == self@,
                forall|k: int| 0 <= k < passes@.len() ==> (#[trigger] passes@[k]).wf(),
                i <= passes.len(),
                values@.dom() == before.dom().union(self.queued_before(i as int)),
                forall|handle: Signal|
                    before.contains_key(handle) && !self.queued_before(i as int).contains(handle)
                        ==> values@[handle] == before[handle],
                forall|handle: Signal| #[trigger]
                    self.queued_before(i as int).contains(handle) ==> self.settled(values@, handle),
            decreases passes.len() - i,
        {
            let targets = passes[i].targets();
            let ghost snapshot = values@;
            proof {
                assert(self@[i as int] == passes@[i as int]@);
                assert forall|j: int| 0 <= j < targets.len() implies self.matrix()@.contains_key(
                    #[trigger] targets[j],
                ) by {
                    assert(targets@.contains(targets[j]));
                    assert(self@[i as int].contains(targets[j]));
                    assert(graph.contains_key(targets[j]));
                }
            }
            let mut staged = self.evaluate_all(targets, i, &values);
            let ghost outcomes = staged@;
            proof {
                assert forall|j: int| 0 <= j < targets.len() implies (#[trigger] outcomes[j]) is Ok by {
                    let target = targets[j];
                    let def = self.matrix()@[target];
                    assert(targets@.contains(target));
                    assert(self@[i as int].contains(target));
                    assert(graph.contains_key(target));
                    if outcomes[j] is Err {
                        let dep = choose|dep: Signal|
                            {
                                &&& #[trigger] def.deps().contains(dep)
                                &&& !committed(snapshot, dep)
                                &&& outcomes[j]->Err_0 == EvaluationError::MissingDependency {
                                    handle: target,
                                    dependency: dep,
                                    pass: i,
                                }
                            };
                        assert(edge(graph, target, dep));
                        let k = choose|k: int| 0 <= k < i && #[trigger] self@[k].contains(dep);
                        assert(self.queued_before(i as int).contains(dep));
                        assert(self.settled(snapshot, dep));
                    }
                }
            }
            let mut j: usize = 0;
            while j < staged.len()
                invariant
                    j <= staged.len(),
                    staged@ == outcomes,
                    forall|k: int| 0 <= k < outcomes.len() ==> (#[trigger] outcomes[k]) is Ok,
                decreases staged.len() - j,
            {
                match &staged[j] {
                    Ok(_) => {},
                    Err(error) => {
                        return Err(*error);
                    },
                }
                j += 1;
            }
            let mut j: usize = targets.len();
            proof {
                assert(values@.dom() =~= snapshot.dom().union(
                    targets@.skip(targets.len() as int).to_set(),
                ));
            }
            while j > 0
                invariant
                    j <= targets.len(),
                    outcomes.len() == targets.len(),
                    staged@ == outcomes.take(j as int),
                    forall|k: int| 0 <= k < outcomes.len() ==> (#[trigger] outcomes[k]) is Ok,
                    targets@.no_duplicates(),
                    values@.dom() == snapshot.dom().union(targets@.skip(j as int).to_set()),
                    forall|handle: Signal|
                        snapshot.contains_key(handle) && !targets@.contains(handle)
                            ==> values@[handle] == snapshot[handle],
                    forall|k: int|
                        j <= k < targets.len() ==> values@[#[trigger] targets@[k]] == Some(
                            outcomes[k]->Ok_0,
                        ),
                decreases j,
            {
                j -= 1;
                let target = targets[j];
                match staged.pop() {
                    Some(Ok(value)) => {
                        values.commit(target, value);
                    },
                    _ => {
                        proof {
                            assert(outcomes[j as int] is Ok);
                            assert(false);
                        }
                    },
                }
                proof {
                    assert(staged@ =~= outcomes.take(j as int));
                    lemma_skip_step(targets@, j as int);
                    assert(values@.dom() =~= snapshot.dom().union(
                        targets@.skip(j as int).to_set(),
                    ));
                    assert(targets@.contains(target));
                }
            }
            proof {
                assert(targets@.skip(0) =~= targets@);
            }
            proof {
                let next = (i + 1) as int;
                assert forall|handle: Signal|
                    self.queued_before(next).contains(handle) <==> self.queued_before(
                        i as int,
                    ).contains(handle) || targets@.contains(handle) by {
                    if self.queued_before(next).contains(handle) {
                        let k = choose|k: int| 0 <= k < next && #[trigger] self@[k].contains(handle);
                        if k == i {
                            assert(targets@.to_set().contains(handle));
                        }
                    }
                    if targets@.contains(handle) {
                        assert(self@[i as int].contains(handle));
                    }
                }
                assert forall|handle: Signal| targets@.contains(handle) implies !self.queued_before(
                    i as int,
                ).contains(handle) by {
                    assert(self@[i as int].contains(handle));
                    if self.queued_before(i as int).contains(handle) {
                        let k = choose|k: int| 0 <= k < i && #[trigger] self@[k].contains(handle);
                    }
                }
                assert(values@.dom() =~= before.dom().union(self.queued_before(next)));
                assert forall|handle: Signal| #[trigger]
                    self.queued_before(next).contains(handle) implies self.settled(
                    values@,
                    handle,
                ) by {
                    let def = self.matrix()@[handle];
                    let k = choose|k: int| 0 <= k < next && #[trigger] self@[k].contains(handle);
                    assert(graph.contains_key(handle));
                    assert forall|dep: Signal| #[trigger] def.deps().contains(dep) implies values@[dep]
                        == snapshot[dep] by {
                        assert(edge(graph, handle, dep));
                        let below = choose|below: int|
                            0 <= below < k && #[trigger] self@[below].contains(dep);
                        assert(self.queued_before(i as int).contains(dep));
                        assert(self.settled(snapshot, dep));
                    }
                    lemma_inputs_agree(values@, snapshot, def.deps());
                    if targets@.contains(handle) {
                        let at = choose|at: int| 0 <= at < targets@.len() && targets@[at] == handle;
                        assert(values@[targets@[at]] == Some(outcomes[at]->Ok_0));
                    } else {
                        assert(self.queued_before(i as int).contains(handle));
                        assert(self.settled(snapshot, handle));
                    }
                }
            }
            i += 1;
        }
        proof {
            assert(self.queued_before(passes.len() as int) =~= self.queued()) by {
                assert forall|handle: Signal|
                    self.queued_before(passes.len() as int).contains(handle)
                        <==> self.queued().contains(handle) by {
                    if covered(self@, handle) {
                        let k = choose|k: int|
                            0 <= k < self@.len() && #[trigger] self@[k].contains(handle);
                    }
                }
            }
        }
        Ok(values)
    }
}

} // verus!
