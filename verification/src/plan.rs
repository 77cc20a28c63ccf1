use crate::definition::SignalDef;
use crate::graph::bounded_from;
use crate::graph::closed_from;
use crate::graph::closure;
use crate::graph::covered;
use crate::graph::deeper;
use crate::graph::depth;
use crate::graph::edge;
use crate::graph::exhausted;
use crate::graph::frontier;
use crate::graph::is_depth;
use crate::graph::layer;
use crate::graph::layers;
use crate::graph::lemma_depth_exists;
use crate::graph::lemma_depth_unique;
use crate::graph::lemma_exhausted_persists;
use crate::graph::lemma_layer_by_difference;
use crate::graph::lemma_layers_valid;
use crate::graph::lemma_long_chain_unbounded;
use crate::graph::lemma_unknown_is_near;
use crate::graph::pass_of;
use crate::graph::plannable;
use crate::graph::reachable;
use crate::graph::registry_graph;
use crate::graph::successors;
use crate::graph::valid_plan;
use crate::signal::Signal;
use crate::signal::SignalMap;
use crate::signal::SignalSet;
use crate::store::SignalMatrix;
use vstd::prelude::*;

verus! {

/// Why no plan can be made for a graph and a set of roots.
#[derive(Debug, Clone, Copy, PartialEq, Eq, Structural)]
pub enum PlanError {
    /// The roots lead to this handle, and the store holds no definition
    /// for it.
    UnknownSignal(Signal),
    /// All that the roots lead to is stored, but the dependency chains
    /// from the roots run into a cycle.
    CyclicDependency,
}

impl PlanError {
    /// The error names what is wrong with `graph` and `roots`.
    pub open spec fn explains(self, graph: Map<Signal, Set<Signal>>, roots: Set<Signal>) -> bool {
        match self {
            PlanError::UnknownSignal(handle) => reachable(graph, roots, handle)
                && !graph.contains_key(handle),
            PlanError::CyclicDependency => closed_from(graph, roots) && !bounded_from(
                graph,
                roots,
            ),
        }
    }
}

/// Describes a pass in a planned evaluation: handles that can be
/// evaluated in any order, or at once.
#[derive(Debug)]
pub struct EvaluationPassDescriptor {
    targets: Vec<Signal>,
}

impl View for EvaluationPassDescriptor {
    type V = Set<Signal>;

    closed spec fn view(&self) -> Set<Signal> {
        self.targets@.to_set()
    }
}

impl EvaluationPassDescriptor {
    /// No handle is listed twice.
    pub closed spec fn wf(&self) -> bool {
        self.targets@.no_duplicates()
    }

    /// Get the targets in this pass.
    pub fn targets(&self) -> (targets: &Vec<Signal>)
        ensures
            targets@.to_set() == self@,
            self.wf() ==> targets@.no_duplicates(),
    {
        &self.targets
    }
}

/// The first `count + 1` handles of a list are the first `count` and the
/// one after them.
proof fn lemma_take_next(handles: Seq<Signal>, count: int)
    requires
        0 <= count < handles.len(),
    ensures
        handles.take(count + 1).to_set() == handles.take(count).to_set().insert(handles[count]),
        handles.take(0).to_set() == Set::<Signal>::empty(),
        handles.take(handles.len() as int) == handles,
{
    assert(handles.take(count + 1) =~= handles.take(count).push(handles[count]));
    handles.take(count).lemma_push_to_set_commute(handles[count]);
    assert(handles.take(0).to_set() =~= Set::<Signal>::empty());
    assert(handles.take(handles.len() as int) =~= handles);
}

/// Keeps, in order, the handles that are not in `seen` yet, each once, and
/// adds all of the list to `seen`.
fn take_unseen(handles: &Vec<Signal>, seen: &mut SignalSet) -> (kept: Vec<Signal>)
    ensures
        final(seen)@ == old(seen)@.union(handles@.to_set()),
        kept@.to_set() == handles@.to_set().difference(old(seen)@),
        kept@.no_duplicates(),
{
    let ghost before = seen@;
    let mut kept: Vec<Signal> = Vec::new();
    let mut i: usize = 0;
    proof {
        assert(handles@.take(0).to_set() =~= Set::<Signal>::empty());
        assert(seen@ =~= before.union(handles@.take(0).to_set()));
        assert(kept@.to_set() =~= handles@.take(0).to_set().difference(before));
    }
    while i < handles.len()
        invariant
            i <= handles.len(),
            seen@ == before.union(handles@.take(i as int).to_set()),
            kept@.to_set() == handles@.take(i as int).to_set().difference(before),
            kept@.no_duplicates(),
        decreases handles.len() - i,
    {
        let handle = handles[i];
        let ghost kept_before = kept@;
        proof {
            lemma_take_next(handles@, i as int);
        }
        if seen.insert(handle) {
            kept.push(handle);
            proof {
                kept_before.lemma_push_to_set_commute(handle);
                assert(!kept_before.to_set().contains(handle));
                assert(!kept_before.contains(handle));
            }
        }
        proof {
            assert(seen@ =~= before.union(handles@.take(i + 1).to_set()));
            assert(kept@.to_set() =~= handles@.take(i + 1).to_set().difference(before));
        }
        i += 1;
    }
    proof {
        assert(handles@.take(handles.len() as int) =~= handles@);
    }
    kept
}

/// One step of the expansion: the handles that those of `current` read,
/// each once. Fails on the first handle of `current` that the registry does
/// not list.
fn expand(registry: &SignalMap<Vec<Signal>>, current: &Vec<Signal>) -> (outcome: Result<
    Vec<Signal>,
    PlanError,
>)
    ensures
        match outcome {
            Ok(next) => {
                &&& forall|i: int|
                    0 <= i < current.len() ==> registry@.contains_key(#[trigger] current[i])
                &&& next@.no_duplicates()
                &&& next@.to_set() == successors(registry_graph(registry@), current@.to_set())
            },
            Err(error) => exists|i: int|
                0 <= i < current.len() && !registry@.contains_key(#[trigger] current[i]) && error
                    == PlanError::UnknownSignal(current[i]),
        },
{
    let ghost graph = registry_graph(registry@);
    let mut next: Vec<Signal> = Vec::new();
    let mut seen = SignalSet::new();
    let mut i: usize = 0;
    proof {
        assert(current@.take(0).to_set() =~= Set::<Signal>::empty());
        assert(successors(graph, current@.take(0).to_set()) =~= Set::<Signal>::empty());
        assert(next@.to_set() =~= Set::<Signal>::empty());
    }
    while i < current.len()
        invariant
            i <= current.len(),
            graph == registry_graph(registry@),
            forall|j: int| 0 <= j < i ==> registry@.contains_key(#[trigger] current[j]),
            next@.no_duplicates(),
            next@.to_set() == seen@,
            seen@ == successors(graph, current@.take(i as int).to_set()),
        decreases current.len() - i,
    {
        let handle = current[i];
        match registry.get(handle) {
            None => {
                return Err(PlanError::UnknownSignal(handle));
            },
            Some(deps) => {
                let ghost seen_before = seen@;
                let ghost next_before = next@;
                let mut fresh = take_unseen(deps, &mut seen);
                proof {
                    let added = fresh@;
                    assert forall|a: int, b: int|
                        0 <= a < next_before.len() && 0 <= b < added.len() implies next_before[a]
                        != added[b] by {
                        assert(next_before.to_set().contains(next_before[a]));
                        assert(added.to_set().contains(added[b]));
                    }
                    vstd::seq_lib::lemma_no_dup_in_concat(next_before, added);
                    vstd::seq_lib::seq_to_set_distributes_over_add(next_before, added);
                    lemma_take_next(current@, i as int);
                    let sources = current@.take(i as int).to_set();
                    assert(successors(graph, sources.insert(handle)) =~= successors(
                        graph,
                        sources,
                    ).union(deps@.to_set())) by {
                        assert forall|to: Signal|
                            successors(graph, sources).union(deps@.to_set()).contains(
                                to,
                            ) implies successors(graph, sources.insert(handle)).contains(to) by {
                            if deps@.to_set().contains(to) {
                                assert(edge(graph, handle, to));
                            } else {
                                let from = choose|from: Signal|
                                    sources.contains(from) && #[trigger] edge(graph, from, to);
                                assert(sources.insert(handle).contains(from));
                            }
                        }
                    }
                    assert((next_before + added).to_set() =~= seen@);
                }
                next.append(&mut fresh);
            },
        }
        i += 1;
    }
    proof {
        assert(current@.take(current.len() as int) =~= current@);
    }
    Ok(next)
}

/// The sets of handles of a list of passes, in the same order.
pub open spec fn pass_sets(passes: Seq<EvaluationPassDescriptor>) -> Seq<Set<Signal>> {
    Seq::new(passes.len(), |i: int| passes[i]@)
}

/// What the expansion has recorded: one list for each number of steps
/// below the depth, holding what that many steps reach, each handle once;
/// and all of it is listed in the registry.
spec fn records(
    graph: Map<Signal, Set<Signal>>,
    roots: Set<Signal>,
    found: Seq<Vec<Signal>>,
) -> bool {
    forall|k: int|
        0 <= k < found.len() ==> {
            &&& (#[trigger] found[k])@.to_set() == frontier(graph, roots, k as nat)
            &&& found[k]@.no_duplicates()
            &&& found[k]@.len() > 0
            &&& forall|j: int|
                0 <= j < found[k]@.len() ==> graph.contains_key(#[trigger] found[k]@[j])
        }
}

/// Expands the roots level by level until nothing is left to read: the
/// frontiers from the roots' own down to the deepest.
fn expand_all(registry: &SignalMap<Vec<Signal>>, root_targets: &Vec<Signal>) -> (outcome: Result<
    Vec<Vec<Signal>>,
    PlanError,
>)
    ensures
        match outcome {
            Ok(found) => {
                &&& records(registry_graph(registry@), root_targets@.to_set(), found@)
                &&& is_depth(registry_graph(registry@), root_targets@.to_set(), found.len() as nat)
                &&& closed_from(registry_graph(registry@), root_targets@.to_set())
            },
            Err(error) => error.explains(registry_graph(registry@), root_targets@.to_set()),
        },
{
    let ghost graph = registry_graph(registry@);
    let ghost roots = root_targets@.to_set();
    let bound = registry.len();
    let mut found: Vec<Vec<Signal>> = Vec::new();
    let mut seen = SignalSet::new();
    let mut current = take_unseen(root_targets, &mut seen);
    proof {
        assert(graph.dom() =~= registry@.dom());
        assert(current@.to_set() =~= roots);
    }
    while current.len() > 0
        invariant
            graph == registry_graph(registry@),
            roots == root_targets@.to_set(),
            graph.dom().finite(),
            bound == graph.dom().len(),
            found.len() <= bound,
            current@.no_duplicates(),
            current@.to_set() == frontier(graph, roots, found.len() as nat),
            records(graph, roots, found@),
        decreases bound - found.len(),
    {
        let ghost steps = found.len() as nat;
        proof {
            assert(current@.to_set().contains(current@[0]));
        }
        let next = match expand(registry, &current) {
            Ok(next) => next,
            Err(error) => {
                proof {
                    let i = choose|i: int|
                        0 <= i < current.len() && !registry@.contains_key(#[trigger] current[i])
                            && error == PlanError::UnknownSignal(current[i]);
                    assert(current@.to_set().contains(current@[i]));
                    assert(frontier(graph, roots, steps).contains(current@[i]));
                }
                return Err(error);
            },
        };
        if found.len() >= bound {
            proof {
                lemma_long_chain_unbounded(graph, roots, current@[0]);
                assert forall|handle: Signal| #[trigger]
                    reachable(graph, roots, handle) implies graph.contains_key(handle) by {
                    if !graph.contains_key(handle) {
                        let far = choose|far: nat| #[trigger]
                            frontier(graph, roots, far).contains(handle);
                        let near = lemma_unknown_is_near(graph, roots, handle, far);
                        if near < steps {
                            let at = choose|at: int|
                                0 <= at < found@[near as int]@.len() && found@[near as int]@[at]
                                    == handle;
                            assert(graph.contains_key(found@[near as int]@[at]));
                        } else {
                            let at = choose|at: int|
                                0 <= at < current@.len() && current@[at] == handle;
                            assert(registry@.contains_key(current[at]));
                        }
                    }
                }
            }
            return Err(PlanError::CyclicDependency);
        }
        proof {
            assert forall|j: int| 0 <= j < current@.len() implies graph.contains_key(
                #[trigger] current@[j],
            ) by {
                assert(registry@.contains_key(current[j]));
            }
        }
        found.push(current);
        current = next;
    }
    proof {
        let count = found.len() as nat;
        assert(exhausted(graph, roots, count)) by {
            assert forall|handle: Signal| !frontier(graph, roots, count).contains(handle) by {
                if current@.to_set().contains(handle) {
                    let at = choose|at: int| 0 <= at < current@.len() && current@[at] == handle;
                }
            }
        }
        assert forall|steps: nat| steps < count implies !exhausted(graph, roots, steps) by {
            assert(found@[steps as int]@.to_set().contains(found@[steps as int]@[0]));
        }
        assert forall|handle: Signal| #[trigger]
            reachable(graph, roots, handle) implies graph.contains_key(handle) by {
            let steps = choose|steps: nat| #[trigger]
                frontier(graph, roots, steps).contains(handle);
            if steps >= count {
                lemma_exhausted_persists(graph, roots, count, steps);
            }
            let at = choose|at: int|
                0 <= at < found@[steps as int]@.len() && found@[steps as int]@[at] == handle;
            assert(graph.contains_key(found@[steps as int]@[at]));
        }
    }
    Ok(found)
}

/// The built-in planner: it places every handle by the longest dependency
/// chain that leads to it from a root.
pub struct CustomPlanner;

impl CustomPlanner {
    /// Plans the passes for `root_targets` from a dependency registry
    /// alone.
    ///
    /// The frontiers are expanded from the roots down to the handles that
    /// read nothing. Then, from the deepest frontier up, each handle is
    /// kept where it is met first. The result holds the layers of the
    /// graph, deepest first. No plan is made where the roots lead out of
    /// the registry, or into a cycle.
    pub fn plan_passes(registry: &SignalMap<Vec<Signal>>, root_targets: &Vec<Signal>) -> (outcome:
        Result<Vec<EvaluationPassDescriptor>, PlanError>)
        ensures
            match outcome {
                Ok(passes) => {
                    &&& plannable(registry_graph(registry@), root_targets@.to_set())
                    &&& pass_sets(passes@) == layers(
                        registry_graph(registry@),
                        root_targets@.to_set(),
                    )
                    &&& forall|i: int| 0 <= i < passes.len() ==> (#[trigger] passes[i]).wf()
                },
                Err(error) => error.explains(registry_graph(registry@), root_targets@.to_set()),
            },
    {
        let ghost graph = registry_graph(registry@);
        let ghost roots = root_targets@.to_set();
        let found = match expand_all(registry, root_targets) {
            Ok(found) => found,
            Err(error) => {
                return Err(error);
            },
        };
        let count = found.len();
        let mut passes: Vec<EvaluationPassDescriptor> = Vec::new();
        let mut queued = SignalSet::new();
        let mut level = count;
        proof {
            lemma_depth_exists(graph, roots, count as nat);
            lemma_depth_unique(graph, roots, count as nat, depth(graph, roots));
            assert(queued@ =~= deeper(graph, roots, count as nat, count as nat));
        }
        while level > 0
            invariant
                level <= count,
                count == found.len(),
                records(graph, roots, found@),
                exhausted(graph, roots, count as nat),
                passes.len() == count - level,
                queued@ == deeper(graph, roots, level as nat, count as nat),
                forall|i: int|
                    0 <= i < passes.len() ==> {
                        &&& (#[trigger] passes[i])@ == layer(graph, roots, (count - 1 - i) as nat)
                        &&& passes[i].wf()
                    },
            decreases level,
        {
            level -= 1;
            let targets = take_unseen(&found[level], &mut queued);
            proof {
                lemma_layer_by_difference(graph, roots, level as nat, count as nat);
            }
            passes.push(EvaluationPassDescriptor { targets });
        }
        proof {
            assert(pass_sets(passes@) =~= layers(graph, roots));
        }
        Ok(passes)
    }
}

/// A planned evaluation of targets in a [`SignalMatrix`]: the passes in the
/// order in which they are to run.
#[derive(Debug)]
pub struct PlannedEvaluation<'m, T: SignalDef> {
    matrix: &'m SignalMatrix<T>,
    root_targets: Vec<Signal>,
    passes: Vec<EvaluationPassDescriptor>,
}

impl<'m, T: SignalDef> View for PlannedEvaluation<'m, T> {
    type V = Seq<Set<Signal>>;

    closed spec fn view(&self) -> Seq<Set<Signal>> {
        pass_sets(self.passes@)
    }
}

/// What a planner owes for `matrix` and `roots`, where `arranged` is how it
/// arranges a plannable graph: a plan with those passes where the roots are
/// plannable, and else the error that says why they are not.
pub open spec fn plans<'m, T: SignalDef>(
    matrix: &'m SignalMatrix<T>,
    roots: Set<Signal>,
    arranged: Seq<Set<Signal>>,
    outcome: Result<PlannedEvaluation<'m, T>, PlanError>,
) -> bool {
    match outcome {
        Ok(plan) => {
            &&& plannable(matrix.graph(), roots)
            &&& plan.wf()
            &&& plan.matrix() == *matrix
            &&& plan.roots() == roots
            &&& plan@ == arranged
        },
        Err(error) => error.explains(matrix.graph(), roots),
    }
}

/// A way to arrange the closure of some roots into passes.
pub trait EvaluationPlanner {
    /// The passes that this planner makes for a plannable graph, in order.
    spec fn arrange(graph: Map<Signal, Set<Signal>>, roots: Set<Signal>) -> Seq<Set<Signal>>;

    /// What the planner arranges is a plan: the closure of the roots, each
    /// handle once and after all that it reads.
    proof fn lemma_arrange_valid(graph: Map<Signal, Set<Signal>>, roots: Set<Signal>)
        requires
            plannable(graph, roots),
        ensures
            valid_plan(graph, roots, Self::arrange(graph, roots)),
    ;

    /// Plans the evaluation of `root_targets` in `matrix`.
    fn plan_evaluation<'m, Def: SignalDef>(
        matrix: &'m SignalMatrix<Def>,
        root_targets: Vec<Signal>,
    ) -> (outcome: Result<PlannedEvaluation<'m, Def>, PlanError>)
        requires
            matrix.wf(),
        ensures
            plans(
                matrix,
                root_targets@.to_set(),
                Self::arrange(matrix.graph(), root_targets@.to_set()),
                outcome,
            ),
    ;
}

impl EvaluationPlanner for CustomPlanner {
    open spec fn arrange(graph: Map<Signal, Set<Signal>>, roots: Set<Signal>) -> Seq<Set<Signal>> {
        layers(graph, roots)
    }

    proof fn lemma_arrange_valid(graph: Map<Signal, Set<Signal>>, roots: Set<Signal>) {
        lemma_layers_valid(graph, roots);
    }

    fn plan_evaluation<'m, Def: SignalDef>(
        matrix: &'m SignalMatrix<Def>,
        root_targets: Vec<Signal>,
    ) -> (outcome: Result<PlannedEvaluation<'m, Def>, PlanError>) {
        let registry = matrix.store().dependency_registry();
        match CustomPlanner::plan_passes(&registry, &root_targets) {
            Ok(passes) => {
                proof {
                    lemma_layers_valid(matrix.graph(), root_targets@.to_set());
                }
                Ok(PlannedEvaluation { matrix, root_targets, passes })
            },
            Err(error) => Err(error),
        }
    }
}

impl<'m, T: SignalDef> PlannedEvaluation<'m, T> {
    /// The graph that this plan was made for.
    pub closed spec fn matrix(&self) -> SignalMatrix<T> {
        *self.matrix
    }

    /// The root targets that this plan was made for.
    pub closed spec fn roots(&self) -> Set<Signal> {
        self.root_targets@.to_set()
    }

    /// No pass lists a handle twice.
    pub closed spec fn distinct(&self) -> bool {
        forall|i: int| 0 <= i < self.passes.len() ==> (#[trigger] self.passes[i]).wf()
    }

    /// The plan is one for its graph and its roots.
    pub open spec fn wf(&self) -> bool {
        &&& self.matrix().wf()
        &&& self.distinct()
        &&& plannable(self.matrix().graph(), self.roots())
        &&& valid_plan(self.matrix().graph(), self.roots(), self@)
    }

    /// All the handles that the plan evaluates.
    pub open spec fn queued(&self) -> Set<Signal> {
        Set::new(|handle: Signal| covered(self@, handle))
    }

    /// The handles that the passes before pass `index` evaluate.
    pub open spec fn queued_before(&self, index: int) -> Set<Signal> {
        Set::new(
            |handle: Signal| exists|k: int| 0 <= k < index && #[trigger] self@[k].contains(handle),
        )
    }

    /// The graph that this plan was made for.
    pub(crate) fn graph_ref(&self) -> (matrix: &'m SignalMatrix<T>)
        ensures
            *matrix == self.matrix(),
    {
        self.matrix
    }

    /// A plan covers exactly the transitive dependency closure of its
    /// roots, and each handle of it stands in exactly one pass.
    pub proof fn lemma_covers_closure(&self)
        requires
            self.wf(),
        ensures
            self.queued() == closure(self.matrix().graph(), self.roots()),
            forall|handle: Signal, i: int|
                self.queued().contains(handle) && 0 <= i < self@.len() ==> (#[trigger] self@[i].contains(
                    handle,
                ) <==> i == pass_of(self@, handle)),
    {
        assert(self.queued() =~= closure(self.matrix().graph(), self.roots()));
    }

    /// In a plan every handle stands in a later pass than each handle that
    /// its definition reads.
    pub proof fn lemma_dependencies_first(&self, handle: Signal, dep: Signal)
        requires
            self.wf(),
            self.queued().contains(handle),
            self.matrix()@[handle].deps().contains(dep),
        ensures
            self.queued().contains(dep),
            0 <= pass_of(self@, dep) < pass_of(self@, handle) < self@.len(),
    {
        let i = pass_of(self@, handle);
        assert(self.matrix().graph().contains_key(handle));
        assert(edge(self.matrix().graph(), handle, dep));
        let j = choose|j: int| 0 <= j < i && #[trigger] self@[j].contains(dep);
        assert(covered(self@, dep));
    }

    /// Plans that a planner makes for the same roots in the same graph
    /// have the same passes in the same order; and where it makes no plan
    /// once, it makes none the other time.
    pub proof fn lemma_planning_idempotent(
        matrix: &'m SignalMatrix<T>,
        roots: Set<Signal>,
        arranged: Seq<Set<Signal>>,
        once: Result<PlannedEvaluation<'m, T>, PlanError>,
        again: Result<PlannedEvaluation<'m, T>, PlanError>,
    )
        requires
            plans(matrix, roots, arranged, once),
            plans(matrix, roots, arranged, again),
        ensures
            once is Ok <==> again is Ok,
            once is Ok ==> once->Ok_0@ == again->Ok_0@,
            once is Err ==> (once->Err_0 is CyclicDependency <==> again->Err_0 is CyclicDependency),
    {
    }

    /// Create a new planned evaluation of the given root targets in the
    /// given [`SignalMatrix`].
    pub fn new<P: EvaluationPlanner>(matrix: &'m SignalMatrix<T>, root_targets: Vec<Signal>) -> (outcome:
        Result<Self, PlanError>)
        requires
            matrix.wf(),
        ensures
            plans(
                matrix,
                root_targets@.to_set(),
                P::arrange(matrix.graph(), root_targets@.to_set()),
                outcome,
            ),
    {
        P::plan_evaluation(matrix, root_targets)
    }

    /// The passes of the plan, in the order in which they run.
    pub fn passes(&self) -> (passes: &[EvaluationPassDescriptor])
        ensures
            pass_sets(passes@) == self@,
            self.distinct() ==> forall|i: int|
                0 <= i < passes@.len() ==> (#[trigger] passes@[i]).wf(),
    {
        self.passes.as_slice()
    }

    /// Get all targets that are queued for evaluation in this planned
    /// evaluation, pass by pass.
    pub fn all_queued_targets(&self) -> (targets: Vec<Signal>)
        ensures
            targets@.to_set() == self.queued(),
            self.wf() ==> targets@.no_duplicates(),
    {
        let mut targets: Vec<Signal> = Vec::new();
        let mut i: usize = 0;
        while i < self.passes.len()
            invariant
                i <= self.passes.len(),
                forall|handle: Signal|
                    targets@.contains(handle) <==> exists|k: int|
                        0 <= k < i && #[trigger] self@[k].contains(handle),
                self.wf() ==> targets@.no_duplicates(),
            decreases self.passes.len() - i,
        {
            let pass = &self.passes[i];
            let ghost done = targets@;
            let mut j: usize = 0;
            while j < pass.targets.len()
                invariant
                    i < self.passes.len(),
                    pass == self.passes[i as int],
                    j <= pass.targets.len(),
                    targets@ == done + pass.targets@.take(j as int),
                    forall|handle: Signal|
                        done.contains(handle) <==> exists|k: int|
                            0 <= k < i && #[trigger] self@[k].contains(handle),
                    self.wf() ==> targets@.no_duplicates(),
                decreases pass.targets.len() - j,
            {
                let target = pass.targets[j];
                proof {
                    assert(pass.targets@.take(j + 1) =~= pass.targets@.take(j as int).push(target));
                    assert(self@[i as int].contains(target)) by {
                        assert(pass.targets@.contains(target));
                    }
                    if self.wf() {
                        assert(!targets@.contains(target)) by {
                            if targets@.contains(target) {
                                let at = choose|at: int|
                                    0 <= at < targets@.len() && targets@[at] == target;
                                if at < done.len() {
                                    assert(done.contains(targets@[at]));
                                } else {
                                    assert(pass.wf());
                                }
                            }
                        }
                    }
                }
                targets.push(target);
                j += 1;
            }
            proof {
                assert(pass.targets@.take(j as int) =~= pass.targets@);
                assert forall|handle: Signal|
                    targets@.contains(handle) <==> exists|k: int|
                        0 <= k < i + 1 && #[trigger] self@[k].contains(handle) by {
                    if targets@.contains(handle) {
                        let at = choose|at: int| 0 <= at < targets@.len() && targets@[at] == handle;
                        if at < done.len() {
                            assert(done.contains(handle));
                        } else {
                            assert(pass.targets@[at - done.len()] == handle);
                            assert(pass.targets@.contains(handle));
                            assert(self@[i as int].contains(handle));
                        }
                    }
                    if exists|k: int| 0 <= k < i + 1 && #[trigger] self@[k].contains(handle) {
                        let k = choose|k: int| 0 <= k < i + 1 && #[trigger] self@[k].contains(handle);
                        if k < i {
                            assert(done.contains(handle));
                            let at = choose|at: int| 0 <= at < done.len() && done[at] == handle;
                            assert(targets@[at] == handle);
                        } else {
                            assert(pass.targets@.contains(handle));
                            let at = choose|at: int|
                                0 <= at < pass.targets@.len() && pass.targets@[at] == handle;
                            assert(targets@[done.len() + at] == handle);
                        }
                    }
                }
            }
            i += 1;
        }
        proof {
            assert(targets@.to_set() =~= self.queued());
        }
        targets
    }
}

impl<T: SignalDef> SignalMatrix<T> {
    /// Build a [`PlannedEvaluation`] of the given root targets.
    pub fn plan_evaluation<P: EvaluationPlanner>(&self, root_targets: Vec<Signal>) -> (outcome:
        Result<PlannedEvaluation<'_, T>, PlanError>)
        requires
            self.wf(),
        ensures
            plans(
                self,
                root_targets@.to_set(),
                P::arrange(self.graph(), root_targets@.to_set()),
                outcome,
            ),
    {
        PlannedEvaluation::new::<P>(self, root_targets)
    }
}

} // verus!
