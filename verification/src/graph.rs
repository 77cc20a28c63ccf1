use crate::signal::Signal;
use vstd::prelude::*;

verus! {

/// `from` is known to the graph and reads `to`.
pub open spec fn edge(graph: Map<Signal, Set<Signal>>, from: Signal, to: Signal) -> bool {
    graph.contains_key(from) && graph[from].contains(to)
}

/// The handles that some handle of `sources` reads.
pub open spec fn successors(graph: Map<Signal, Set<Signal>>, sources: Set<Signal>) -> Set<Signal> {
    Set::new(|to: Signal| exists|from: Signal| sources.contains(from) && #[trigger] edge(graph, from, to))
}

/// The handles at the end of a dependency chain of exactly `steps` edges
/// that starts at a root.
pub open spec fn frontier(graph: Map<Signal, Set<Signal>>, roots: Set<Signal>, steps: nat) -> Set<
    Signal,
>
    decreases steps,
{
    if steps == 0 {
        roots
    } else {
        successors(graph, frontier(graph, roots, (steps - 1) as nat))
    }
}

/// `handle` is a root or a direct or indirect dependency of one.
pub open spec fn reachable(graph: Map<Signal, Set<Signal>>, roots: Set<Signal>, handle: Signal) -> bool {
    exists|steps: nat| #[trigger] frontier(graph, roots, steps).contains(handle)
}

/// The transitive dependency closure of the roots.
pub open spec fn closure(graph: Map<Signal, Set<Signal>>, roots: Set<Signal>) -> Set<Signal> {
    Set::new(|handle: Signal| reachable(graph, roots, handle))
}

/// No dependency chain from a root has exactly `steps` edges.
pub open spec fn exhausted(graph: Map<Signal, Set<Signal>>, roots: Set<Signal>, steps: nat) -> bool {
    forall|handle: Signal| !frontier(graph, roots, steps).contains(handle)
}

/// Every handle that the roots lead to is known to the graph.
pub open spec fn closed_from(graph: Map<Signal, Set<Signal>>, roots: Set<Signal>) -> bool {
    forall|handle: Signal| #[trigger]
        reachable(graph, roots, handle) ==> graph.contains_key(handle)
}

/// The dependency chains from the roots have bounded length: below the
/// roots the graph has no cycle.
pub open spec fn bounded_from(graph: Map<Signal, Set<Signal>>, roots: Set<Signal>) -> bool {
    exists|steps: nat| exhausted(graph, roots, steps)
}

/// A plan exists for these roots: all they lead to is known, and no
/// dependency chain from them runs into a cycle.
pub open spec fn plannable(graph: Map<Signal, Set<Signal>>, roots: Set<Signal>) -> bool {
    closed_from(graph, roots) && bounded_from(graph, roots)
}

/// `count` is the number of handles on the longest dependency chain from a
/// root.
pub open spec fn is_depth(graph: Map<Signal, Set<Signal>>, roots: Set<Signal>, count: nat) -> bool {
    &&& exhausted(graph, roots, count)
    &&& forall|steps: nat| steps < count ==> !exhausted(graph, roots, steps)
}

/// The number of handles on the longest dependency chain from a root, where
/// the chains are bounded.
pub open spec fn depth(graph: Map<Signal, Set<Signal>>, roots: Set<Signal>) -> nat {
    choose|count: nat| is_depth(graph, roots, count)
}

/// The handles whose longest dependency chain from a root has exactly
/// `level` edges.
pub open spec fn layer(graph: Map<Signal, Set<Signal>>, roots: Set<Signal>, level: nat) -> Set<Signal> {
    Set::new(
        |handle: Signal|
            {
                &&& frontier(graph, roots, level).contains(handle)
                &&& forall|steps: nat|
                    steps > level ==> !frontier(graph, roots, steps).contains(handle)
            },
    )
}

/// The layers from the deepest up to the roots' own: the order in which the
/// handles can be evaluated.
pub open spec fn layers(graph: Map<Signal, Set<Signal>>, roots: Set<Signal>) -> Seq<Set<Signal>> {
    let count = depth(graph, roots);
    Seq::new(count, |i: int| layer(graph, roots, (count - 1 - i) as nat))
}

/// The set holds a handle.
pub open spec fn inhabited(handles: Set<Signal>) -> bool {
    exists|handle: Signal| handles.contains(handle)
}

/// `handle` stands in one of the passes.
pub open spec fn covered(passes: Seq<Set<Signal>>, handle: Signal) -> bool {
    exists|i: int| 0 <= i < passes.len() && #[trigger] passes[i].contains(handle)
}

/// The pass in which `handle` stands, where it stands in one.
pub open spec fn pass_of(passes: Seq<Set<Signal>>, handle: Signal) -> int {
    choose|i: int| 0 <= i < passes.len() && #[trigger] passes[i].contains(handle)
}

/// What makes a sequence of passes a plan for `roots`: it holds the
/// closure of the roots and nothing else, each handle once, every handle
/// after all that it reads, and no pass is empty.
pub open spec fn valid_plan(
    graph: Map<Signal, Set<Signal>>,
    roots: Set<Signal>,
    passes: Seq<Set<Signal>>,
) -> bool {
    &&& forall|handle: Signal| #[trigger]
        covered(passes, handle) <==> reachable(graph, roots, handle)
    &&& forall|i: int, j: int, handle: Signal|
        0 <= i < passes.len() && 0 <= j < passes.len() && #[trigger] passes[i].contains(handle)
            && #[trigger] passes[j].contains(handle) ==> i == j
    &&& forall|i: int, handle: Signal, dep: Signal|
        0 <= i < passes.len() && #[trigger] passes[i].contains(handle) && #[trigger] edge(
            graph,
            handle,
            dep,
        ) ==> exists|j: int| 0 <= j < i && #[trigger] passes[j].contains(dep)
    &&& forall|i: int, handle: Signal|
        0 <= i < passes.len() && #[trigger] passes[i].contains(handle) ==> graph.contains_key(
            handle,
        )
    &&& forall|i: int| 0 <= i < passes.len() ==> inhabited(#[trigger] passes[i])
}

/// A larger set of sources has at least the same successors.
pub proof fn lemma_successors_monotone(
    graph: Map<Signal, Set<Signal>>,
    fewer: Set<Signal>,
    more: Set<Signal>,
)
    requires
        fewer.subset_of(more),
    ensures
        successors(graph, fewer).subset_of(successors(graph, more)),
{
    assert forall|to: Signal| successors(graph, fewer).contains(to) implies successors(
        graph,
        more,
    ).contains(to) by {
        let from = choose|from: Signal| fewer.contains(from) && #[trigger] edge(graph, from, to);
        assert(more.contains(from) && edge(graph, from, to));
    }
}

/// More roots reach at least as much, step for step.
pub proof fn lemma_frontier_monotone(
    graph: Map<Signal, Set<Signal>>,
    fewer: Set<Signal>,
    more: Set<Signal>,
    steps: nat,
)
    requires
        fewer.subset_of(more),
    ensures
        frontier(graph, fewer, steps).subset_of(frontier(graph, more, steps)),
    decreases steps,
{
    if steps > 0 {
        lemma_frontier_monotone(graph, fewer, more, (steps - 1) as nat);
        lemma_successors_monotone(
            graph,
            frontier(graph, fewer, (steps - 1) as nat),
            frontier(graph, more, (steps - 1) as nat),
        );
    }
}

/// Walking `first` steps and then `then` more is walking `first + then`
/// steps.
pub proof fn lemma_frontier_split(
    graph: Map<Signal, Set<Signal>>,
    roots: Set<Signal>,
    first: nat,
    then: nat,
)
    ensures
        frontier(graph, roots, first + then) == frontier(
            graph,
            frontier(graph, roots, first),
            then,
        ),
    decreases then,
{
    if then > 0 {
        lemma_frontier_split(graph, roots, first, (then - 1) as nat);
        assert((first + then - 1) as nat == first + (then - 1) as nat);
    }
}

/// Once no chain has `steps` edges, none has more.
pub proof fn lemma_exhausted_persists(
    graph: Map<Signal, Set<Signal>>,
    roots: Set<Signal>,
    steps: nat,
    later: nat,
)
    requires
        exhausted(graph, roots, steps),
        steps <= later,
    ensures
        exhausted(graph, roots, later),
    decreases later,
{
    if steps < later {
        lemma_exhausted_persists(graph, roots, steps, (later - 1) as nat);
        assert forall|to: Signal| !frontier(graph, roots, later).contains(to) by {
            if frontier(graph, roots, later).contains(to) {
                let from = choose|from: Signal|
                    frontier(graph, roots, (later - 1) as nat).contains(from) && #[trigger] edge(
                        graph,
                        from,
                        to,
                    );
                assert(false);
            }
        }
    }
}

/// Bounded chains have a longest one.
pub proof fn lemma_depth_exists(graph: Map<Signal, Set<Signal>>, roots: Set<Signal>, steps: nat)
    requires
        exhausted(graph, roots, steps),
    ensures
        is_depth(graph, roots, depth(graph, roots)),
        depth(graph, roots) <= steps,
    decreases steps,
{
    if exists|earlier: nat| earlier < steps && exhausted(graph, roots, earlier) {
        let earlier = choose|earlier: nat| earlier < steps && exhausted(graph, roots, earlier);
        lemma_depth_exists(graph, roots, earlier);
    } else {
        assert(is_depth(graph, roots, steps));
        lemma_depth_unique(graph, roots, steps, depth(graph, roots));
    }
}

/// The length of the longest chain is one number.
pub proof fn lemma_depth_unique(
    graph: Map<Signal, Set<Signal>>,
    roots: Set<Signal>,
    one: nat,
    other: nat,
)
    requires
        is_depth(graph, roots, one),
        is_depth(graph, roots, other),
    ensures
        one == other,
{
}

/// A handle that a chain of `steps` edges reaches has a longest chain, and
/// that one is no shorter.
pub proof fn lemma_top_level(
    graph: Map<Signal, Set<Signal>>,
    roots: Set<Signal>,
    handle: Signal,
    steps: nat,
) -> (level: nat)
    requires
        bounded_from(graph, roots),
        frontier(graph, roots, steps).contains(handle),
    ensures
        steps <= level < depth(graph, roots),
        layer(graph, roots, level).contains(handle),
    decreases depth(graph, roots) - steps,
{
    let bound = choose|bound: nat| exhausted(graph, roots, bound);
    lemma_depth_exists(graph, roots, bound);
    let count = depth(graph, roots);
    if steps >= count {
        lemma_exhausted_persists(graph, roots, count, steps);
    }
    if exists|longer: nat| longer > steps && frontier(graph, roots, longer).contains(handle) {
        let longer = choose|longer: nat|
            longer > steps && frontier(graph, roots, longer).contains(handle);
        if longer >= count {
            lemma_exhausted_persists(graph, roots, count, longer);
        }
        lemma_top_level(graph, roots, handle, longer)
    } else {
        steps
    }
}

/// On the longest chains, at every distance from the roots, stands a
/// handle from which the rest of such a chain goes on.
proof fn lemma_deep_handle(graph: Map<Signal, Set<Signal>>, roots: Set<Signal>, level: nat) -> (handle:
    Signal)
    requires
        is_depth(graph, roots, depth(graph, roots)),
        level < depth(graph, roots),
    ensures
        frontier(graph, roots, level).contains(handle),
        !exhausted(graph, set![handle], (depth(graph, roots) - 1 - level) as nat),
    decreases depth(graph, roots) - level,
{
    let count = depth(graph, roots);
    if level == count - 1 {
        assert(!exhausted(graph, roots, level));
        let handle = choose|handle: Signal| frontier(graph, roots, level).contains(handle);
        assert(frontier(graph, set![handle], 0).contains(handle));
        handle
    } else {
        let below = lemma_deep_handle(graph, roots, level + 1);
        let rest = (count - 2 - level) as nat;
        let handle = choose|from: Signal|
            frontier(graph, roots, level).contains(from) && #[trigger] edge(graph, from, below);
        let last = choose|last: Signal| frontier(graph, set![below], rest).contains(last);
        assert(frontier(graph, set![handle], 0).contains(handle));
        assert(frontier(graph, set![handle], 1).contains(below)) by {
            assert(edge(graph, handle, below));
        }
        lemma_frontier_monotone(graph, set![below], frontier(graph, set![handle], 1), rest);
        lemma_frontier_split(graph, set![handle], 1, rest);
        assert(frontier(graph, set![handle], 1 + rest).contains(last));
        handle
    }
}

/// Every layer above the depth holds a handle.
pub proof fn lemma_layer_inhabited(graph: Map<Signal, Set<Signal>>, roots: Set<Signal>, level: nat)
    requires
        bounded_from(graph, roots),
        level < depth(graph, roots),
    ensures
        inhabited(layer(graph, roots, level)),
{
    let bound = choose|bound: nat| exhausted(graph, roots, bound);
    lemma_depth_exists(graph, roots, bound);
    let count = depth(graph, roots);
    let handle = lemma_deep_handle(graph, roots, level);
    let rest = (count - 1 - level) as nat;
    let last = choose|last: Signal| frontier(graph, set![handle], rest).contains(last);
    assert forall|steps: nat| steps > level implies !frontier(graph, roots, steps).contains(
        handle,
    ) by {
        if frontier(graph, roots, steps).contains(handle) {
            lemma_frontier_monotone(graph, set![handle], frontier(graph, roots, steps), rest);
            lemma_frontier_split(graph, roots, steps, rest);
            assert(frontier(graph, roots, steps + rest).contains(last));
            lemma_exhausted_persists(graph, roots, count, steps + rest);
        }
    }
    assert(layer(graph, roots, level).contains(handle));
}

/// The layers of a plannable graph, deepest first, are a plan: they hold
/// the closure of the roots, each handle once, and every handle in a later
/// pass than all it reads.
pub proof fn lemma_layers_valid(graph: Map<Signal, Set<Signal>>, roots: Set<Signal>)
    requires
        plannable(graph, roots),
    ensures
        valid_plan(graph, roots, layers(graph, roots)),
{
    let bound = choose|bound: nat| exhausted(graph, roots, bound);
    lemma_depth_exists(graph, roots, bound);
    let count = depth(graph, roots);
    let passes = layers(graph, roots);
    assert forall|handle: Signal| #[trigger]
        covered(passes, handle) <==> reachable(graph, roots, handle) by {
        if covered(passes, handle) {
            let i = choose|i: int| 0 <= i < passes.len() && #[trigger] passes[i].contains(handle);
            assert(frontier(graph, roots, (count - 1 - i) as nat).contains(handle));
        }
        if reachable(graph, roots, handle) {
            let steps = choose|steps: nat| #[trigger]
                frontier(graph, roots, steps).contains(handle);
            let level = lemma_top_level(graph, roots, handle, steps);
            assert(passes[count - 1 - level].contains(handle));
        }
    }
    assert forall|i: int, handle: Signal, dep: Signal|
        0 <= i < passes.len() && #[trigger] passes[i].contains(handle) && #[trigger] edge(
            graph,
            handle,
            dep,
        ) implies exists|j: int| 0 <= j < i && #[trigger] passes[j].contains(dep) by {
        let level = (count - 1 - i) as nat;
        assert(frontier(graph, roots, level).contains(handle));
        assert(frontier(graph, roots, level + 1).contains(dep));
        let top = lemma_top_level(graph, roots, dep, level + 1);
        assert(passes[count - 1 - top].contains(dep));
    }
    assert forall|i: int, handle: Signal|
        0 <= i < passes.len() && #[trigger] passes[i].contains(handle) implies graph.contains_key(
        handle,
    ) by {
        assert(frontier(graph, roots, (count - 1 - i) as nat).contains(handle));
        assert(reachable(graph, roots, handle));
    }
    assert forall|i: int| 0 <= i < passes.len() implies inhabited(#[trigger] passes[i]) by {
        lemma_layer_inhabited(graph, roots, (count - 1 - i) as nat);
    }
}

/// The handle at `at` reads the one after it.
pub open spec fn linked(graph: Map<Signal, Set<Signal>>, chain: Seq<Signal>, at: int) -> bool {
    edge(graph, chain[at], chain[at + 1])
}

/// A dependency chain: each handle reads the next.
pub open spec fn is_chain(graph: Map<Signal, Set<Signal>>, chain: Seq<Signal>) -> bool {
    &&& chain.len() > 0
    &&& forall|at: int| 0 <= at < chain.len() - 1 ==> #[trigger] linked(graph, chain, at)
}

/// Along a chain, what stands `ahead` places after `at` is reached from it
/// in `ahead` steps.
pub proof fn lemma_chain_reaches(
    graph: Map<Signal, Set<Signal>>,
    chain: Seq<Signal>,
    at: int,
    ahead: nat,
)
    requires
        is_chain(graph, chain),
        0 <= at,
        at + ahead < chain.len(),
    ensures
        frontier(graph, set![chain[at]], ahead).contains(chain[at + ahead]),
    decreases ahead,
{
    if ahead > 0 {
        lemma_chain_reaches(graph, chain, at, (ahead - 1) as nat);
        assert(linked(graph, chain, at + ahead - 1));
    }
}

/// What `steps` edges reach stands at the end of a chain of `steps` edges
/// from a root.
pub proof fn lemma_chain_exists(
    graph: Map<Signal, Set<Signal>>,
    roots: Set<Signal>,
    handle: Signal,
    steps: nat,
) -> (chain: Seq<Signal>)
    requires
        frontier(graph, roots, steps).contains(handle),
    ensures
        is_chain(graph, chain),
        chain.len() == steps + 1,
        roots.contains(chain[0]),
        chain[steps as int] == handle,
    decreases steps,
{
    if steps == 0 {
        seq![handle]
    } else {
        let before = choose|from: Signal|
            frontier(graph, roots, (steps - 1) as nat).contains(from) && #[trigger] edge(
                graph,
                from,
                handle,
            );
        let shorter = lemma_chain_exists(graph, roots, before, (steps - 1) as nat);
        let chain = shorter.push(handle);
        assert forall|at: int| 0 <= at < chain.len() - 1 implies #[trigger] linked(
            graph,
            chain,
            at,
        ) by {
            if at < steps - 1 {
                assert(linked(graph, shorter, at));
            }
        }
        chain
    }
}

/// What a chain from a root reaches in so many steps, the roots reach in
/// as many.
pub proof fn lemma_chain_in_frontier(
    graph: Map<Signal, Set<Signal>>,
    roots: Set<Signal>,
    chain: Seq<Signal>,
    at: nat,
)
    requires
        is_chain(graph, chain),
        roots.contains(chain[0]),
        at < chain.len(),
    ensures
        frontier(graph, roots, at).contains(chain[at as int]),
{
    lemma_chain_reaches(graph, chain, 0, at);
    lemma_frontier_monotone(graph, set![chain[0]], roots, at);
}

/// A chain from a root that comes by one handle twice can be walked
/// without end.
pub proof fn lemma_repeat_unbounded(
    graph: Map<Signal, Set<Signal>>,
    roots: Set<Signal>,
    chain: Seq<Signal>,
    first: int,
    again: int,
)
    requires
        is_chain(graph, chain),
        roots.contains(chain[0]),
        0 <= first < again < chain.len(),
        chain[first] == chain[again],
    ensures
        !bounded_from(graph, roots),
{
    assert forall|steps: nat| !exhausted(graph, roots, steps) by {
        let at = lemma_round(graph, roots, chain, first, again, steps);
    }
}

/// However many steps are asked for, some handle before the repeated one
/// is reached in exactly that many.
proof fn lemma_round(
    graph: Map<Signal, Set<Signal>>,
    roots: Set<Signal>,
    chain: Seq<Signal>,
    first: int,
    again: int,
    steps: nat,
) -> (at: int)
    requires
        is_chain(graph, chain),
        roots.contains(chain[0]),
        0 <= first < again < chain.len(),
        chain[first] == chain[again],
    ensures
        0 <= at < again,
        frontier(graph, roots, steps).contains(chain[at]),
    decreases steps,
{
    if steps == 0 {
        0
    } else {
        let before = lemma_round(graph, roots, chain, first, again, (steps - 1) as nat);
        assert(linked(graph, chain, before));
        if before + 1 < again {
            before + 1
        } else {
            first
        }
    }
}

/// Among more handles than the graph knows, all of them known, one stands
/// twice.
proof fn lemma_crowded(graph: Map<Signal, Set<Signal>>, chain: Seq<Signal>) -> (places: (int, int))
    requires
        graph.dom().finite(),
        chain.len() > graph.dom().len(),
        forall|at: int| 0 <= at < chain.len() ==> graph.contains_key(#[trigger] chain[at]),
    ensures
        0 <= places.0 < places.1 < chain.len(),
        chain[places.0] == chain[places.1],
{
    if chain.no_duplicates() {
        chain.unique_seq_to_set();
        assert(chain.to_set().subset_of(graph.dom()));
        vstd::set_lib::lemma_len_subset(chain.to_set(), graph.dom());
    }
    let (i, j) = choose|i: int, j: int|
        0 <= i < chain.len() && 0 <= j < chain.len() && i != j && chain[i] == chain[j];
    if i < j {
        (i, j)
    } else {
        (j, i)
    }
}

/// All the handles of a chain but the last are known, since each of them
/// reads the next.
proof fn lemma_chain_known(graph: Map<Signal, Set<Signal>>, chain: Seq<Signal>)
    requires
        is_chain(graph, chain),
    ensures
        forall|at: int| 0 <= at < chain.len() - 1 ==> graph.contains_key(#[trigger] chain[at]),
{
    assert forall|at: int| 0 <= at < chain.len() - 1 implies graph.contains_key(
        #[trigger] chain[at],
    ) by {
        assert(linked(graph, chain, at));
    }
}

/// A chain from a root with as many edges as the graph knows handles, and
/// a known handle at its end, shows a cycle: the chains from the roots are
/// unbounded.
pub proof fn lemma_long_chain_unbounded(
    graph: Map<Signal, Set<Signal>>,
    roots: Set<Signal>,
    handle: Signal,
)
    requires
        graph.dom().finite(),
        frontier(graph, roots, graph.dom().len()).contains(handle),
        graph.contains_key(handle),
    ensures
        !bounded_from(graph, roots),
{
    let chain = lemma_chain_exists(graph, roots, handle, graph.dom().len());
    lemma_chain_known(graph, chain);
    let (first, again) = lemma_crowded(graph, chain);
    lemma_repeat_unbounded(graph, roots, chain, first, again);
}

/// An unknown handle that the roots reach at all is reached within as many
/// steps as the graph knows handles.
pub proof fn lemma_unknown_is_near(
    graph: Map<Signal, Set<Signal>>,
    roots: Set<Signal>,
    handle: Signal,
    steps: nat,
) -> (near: nat)
    requires
        graph.dom().finite(),
        frontier(graph, roots, steps).contains(handle),
        !graph.contains_key(handle),
    ensures
        near <= graph.dom().len(),
        frontier(graph, roots, near).contains(handle),
    decreases steps,
{
    if steps <= graph.dom().len() {
        steps
    } else {
        let chain = lemma_chain_exists(graph, roots, handle, steps);
        lemma_chain_known(graph, chain);
        let head = chain.subrange(0, steps as int);
        let (first, again) = lemma_crowded(graph, head);
        lemma_chain_in_frontier(graph, roots, chain, first as nat);
        lemma_chain_reaches(graph, chain, again, (steps - again) as nat);
        let shorter = (first + (steps - again)) as nat;
        lemma_frontier_monotone(
            graph,
            set![chain[again]],
            frontier(graph, roots, first as nat),
            (steps - again) as nat,
        );
        lemma_frontier_split(graph, roots, first as nat, (steps - again) as nat);
        lemma_unknown_is_near(graph, roots, handle, shorter)
    }
}

/// The graph that a dependency registry describes: for every handle it
/// lists, the set of the handles listed for it.
pub open spec fn registry_graph(registry: Map<Signal, Vec<Signal>>) -> Map<Signal, Set<Signal>> {
    Map::new(|s: Signal| registry.contains_key(s), |s: Signal| registry[s]@.to_set())
}

/// The handles that a chain of at least `from` and fewer than `upto` edges
/// reaches.
pub open spec fn deeper(
    graph: Map<Signal, Set<Signal>>,
    roots: Set<Signal>,
    from: nat,
    upto: nat,
) -> Set<Signal> {
    Set::new(
        |handle: Signal|
            exists|steps: nat|
                from <= steps < upto && #[trigger] frontier(graph, roots, steps).contains(handle),
    )
}

/// Below the depth, a layer is what its frontier holds and no deeper
/// frontier does.
pub proof fn lemma_layer_by_difference(
    graph: Map<Signal, Set<Signal>>,
    roots: Set<Signal>,
    level: nat,
    count: nat,
)
    requires
        exhausted(graph, roots, count),
        level < count,
    ensures
        layer(graph, roots, level) == frontier(graph, roots, level).difference(
            deeper(graph, roots, level + 1, count),
        ),
        deeper(graph, roots, level, count) == deeper(graph, roots, level + 1, count).union(
            frontier(graph, roots, level),
        ),
        deeper(graph, roots, count, count) == Set::<Signal>::empty(),
{
    let above = deeper(graph, roots, level + 1, count);
    let here = frontier(graph, roots, level);
    assert forall|handle: Signal| here.difference(above).contains(handle) implies layer(
        graph,
        roots,
        level,
    ).contains(handle) by {
        assert forall|steps: nat| steps > level implies !frontier(graph, roots, steps).contains(
            handle,
        ) by {
            if steps >= count {
                lemma_exhausted_persists(graph, roots, count, steps);
            }
        }
    }
    assert(layer(graph, roots, level) =~= here.difference(above));
    assert(deeper(graph, roots, level, count) =~= above.union(here));
    assert(deeper(graph, roots, count, count) =~= Set::<Signal>::empty());
}

/// Without roots there is nothing to plan: the plan has no pass.
pub proof fn lemma_no_roots(graph: Map<Signal, Set<Signal>>)
    ensures
        plannable(graph, Set::<Signal>::empty()),
        layers(graph, Set::<Signal>::empty()) == Seq::<Set<Signal>>::empty(),
{
    let roots = Set::<Signal>::empty();
    assert(exhausted(graph, roots, 0));
    assert(is_depth(graph, roots, 0));
    lemma_depth_exists(graph, roots, 0);
    assert forall|handle: Signal| #[trigger]
        reachable(graph, roots, handle) implies graph.contains_key(handle) by {
        let steps = choose|steps: nat| #[trigger] frontier(graph, roots, steps).contains(handle);
        lemma_exhausted_persists(graph, roots, 0, steps);
    }
    assert(layers(graph, roots) =~= Seq::<Set<Signal>>::empty());
}

/// Roots that are known and read nothing are planned in one pass, which
/// holds them all.
pub proof fn lemma_leaf_roots(graph: Map<Signal, Set<Signal>>, roots: Set<Signal>)
    requires
        inhabited(roots),
        forall|root: Signal| #[trigger]
            roots.contains(root) ==> graph.contains_key(root) && graph[root] == Set::<
                Signal,
            >::empty(),
    ensures
        plannable(graph, roots),
        layers(graph, roots) == seq![roots],
{
    assert(exhausted(graph, roots, 1)) by {
        assert forall|to: Signal| !frontier(graph, roots, 1).contains(to) by {
            if frontier(graph, roots, 1).contains(to) {
                let from = choose|from: Signal|
                    frontier(graph, roots, 0).contains(from) && #[trigger] edge(graph, from, to);
                assert(roots.contains(from));
            }
        }
    }
    assert(!exhausted(graph, roots, 0)) by {
        let root = choose|root: Signal| roots.contains(root);
        assert(frontier(graph, roots, 0).contains(root));
    }
    assert(is_depth(graph, roots, 1));
    lemma_depth_exists(graph, roots, 1);
    lemma_depth_unique(graph, roots, 1, depth(graph, roots));
    assert forall|handle: Signal| #[trigger]
        reachable(graph, roots, handle) implies graph.contains_key(handle) by {
        let steps = choose|steps: nat| #[trigger] frontier(graph, roots, steps).contains(handle);
        if steps >= 1 {
            lemma_exhausted_persists(graph, roots, 1, steps);
        }
    }
    assert(layer(graph, roots, 0) =~= roots) by {
        assert forall|handle: Signal| roots.contains(handle) implies layer(
            graph,
            roots,
            0,
        ).contains(handle) by {
            assert forall|steps: nat| steps > 0 implies !frontier(graph, roots, steps).contains(
                handle,
            ) by {
                lemma_exhausted_persists(graph, roots, 1, steps);
            }
        }
    }
    assert(layers(graph, roots) =~= seq![roots]);
}

/// Where every definition reads only handles that were minted before its
/// own, the dependency chains are bounded, whatever the roots.
pub proof fn lemma_back_references_bounded(graph: Map<Signal, Set<Signal>>, roots: Set<Signal>)
    requires
        forall|from: Signal, to: Signal| #[trigger]
            edge(graph, from, to) ==> to.index() < from.index(),
    ensures
        bounded_from(graph, roots),
{
    let far = (u64::MAX + 1) as nat;
    assert forall|handle: Signal| !frontier(graph, roots, far).contains(handle) by {
        if frontier(graph, roots, far).contains(handle) {
            lemma_index_falls(graph, roots, handle, far);
        }
    }
    assert(exhausted(graph, roots, far));
}

/// With back references only, a handle reached in `steps` steps has an
/// index that leaves room for `steps` larger ones.
proof fn lemma_index_falls(
    graph: Map<Signal, Set<Signal>>,
    roots: Set<Signal>,
    handle: Signal,
    steps: nat,
)
    requires
        forall|from: Signal, to: Signal| #[trigger]
            edge(graph, from, to) ==> to.index() < from.index(),
        frontier(graph, roots, steps).contains(handle),
    ensures
        handle.index() + steps <= u64::MAX,
    decreases steps,
{
    if steps == 0 {
        handle.lemma_index_bounded();
    } else {
        let from = choose|from: Signal|
            frontier(graph, roots, (steps - 1) as nat).contains(from) && #[trigger] edge(
                graph,
                from,
                handle,
            );
        lemma_index_falls(graph, roots, from, (steps - 1) as nat);
    }
}

/// `handle` lies on a cycle: some chain leads from it back to it.
pub open spec fn on_cycle(graph: Map<Signal, Set<Signal>>, handle: Signal) -> bool {
    exists|steps: nat| steps > 0 && #[trigger] frontier(graph, set![handle], steps).contains(handle)
}

/// In a finite graph that holds all that the roots lead to, unbounded
/// chains come from a cycle that the roots reach.
pub proof fn lemma_unbounded_has_cycle(graph: Map<Signal, Set<Signal>>, roots: Set<Signal>) -> (handle:
    Signal)
    requires
        graph.dom().finite(),
        closed_from(graph, roots),
        !bounded_from(graph, roots),
    ensures
        reachable(graph, roots, handle),
        on_cycle(graph, handle),
{
    let count = graph.dom().len();
    assert(!exhausted(graph, roots, count));
    let last = choose|last: Signal| frontier(graph, roots, count).contains(last);
    assert(reachable(graph, roots, last));
    let chain = lemma_chain_exists(graph, roots, last, count);
    lemma_chain_known(graph, chain);
    let (first, again) = lemma_crowded(graph, chain);
    lemma_chain_in_frontier(graph, roots, chain, first as nat);
    lemma_chain_reaches(graph, chain, first, (again - first) as nat);
    assert(frontier(graph, set![chain[first]], (again - first) as nat).contains(chain[first]));
    chain[first]
}

/// A cycle that the roots reach makes the chains from the roots unbounded.
pub proof fn lemma_cycle_unbounded(graph: Map<Signal, Set<Signal>>, roots: Set<Signal>, handle: Signal)
    requires
        reachable(graph, roots, handle),
        on_cycle(graph, handle),
    ensures
        !bounded_from(graph, roots),
{
    let lead = choose|lead: nat| #[trigger] frontier(graph, roots, lead).contains(handle);
    let round = choose|round: nat|
        round > 0 && #[trigger] frontier(graph, set![handle], round).contains(handle);
    assert forall|steps: nat| !exhausted(graph, roots, steps) by {
        lemma_rounds(graph, roots, handle, lead, round, steps);
        if exhausted(graph, roots, steps) {
            lemma_exhausted_persists(graph, roots, steps, lead + steps * round);
        }
    }
}

/// A handle on a cycle of `round` edges, reached in `lead` steps, is
/// reached again after any number of rounds.
proof fn lemma_rounds(
    graph: Map<Signal, Set<Signal>>,
    roots: Set<Signal>,
    handle: Signal,
    lead: nat,
    round: nat,
    times: nat,
)
    requires
        frontier(graph, roots, lead).contains(handle),
        round > 0,
        frontier(graph, set![handle], round).contains(handle),
    ensures
        frontier(graph, roots, lead + times * round).contains(handle),
        lead + times * round >= times,
    decreases times,
{
    if times > 0 {
        let before = (times - 1) as nat;
        lemma_rounds(graph, roots, handle, lead, round, before);
        let so_far = lead + before * round;
        assert(lead + times * round == so_far + round) by (nonlinear_arith)
            requires
                so_far == lead + before * round,
                before == times - 1,
        ;
        assert(so_far + round >= times) by (nonlinear_arith)
            requires
                so_far >= before,
                before == times - 1,
                round > 0,
        ;
        lemma_frontier_monotone(graph, set![handle], frontier(graph, roots, so_far), round);
        lemma_frontier_split(graph, roots, so_far, round);
        assert(frontier(graph, set![handle], round).subset_of(
            frontier(graph, frontier(graph, roots, so_far), round),
        ));
    } else {
        assert(lead + times * round == lead) by (nonlinear_arith)
            requires
                times == 0,
        ;
    }
}

} // verus!
