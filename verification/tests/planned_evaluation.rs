use matrix::CustomPlanner;
use matrix::EvalContext;
use matrix::EvaluationPlanner;
use matrix::EvaluationValueMap;
use matrix::FloatBinaryOp;
use matrix::PlanError;
use matrix::PlannedEvaluation;
use matrix::Signal;
use matrix::SignalDef;
use matrix::SignalDefMap;
use matrix::SignalMatrix;
use matrix::UnaryOp;
use std::collections::HashMap;
use std::collections::HashSet;

/// A signal definition for a floating-point value or operation.
#[derive(Debug)]
enum FloatMapSignalDef {
    Constant(f64),
    UnaryOp(UnaryOp),
    BinaryOp(FloatBinaryOp),
}

impl SignalDef for FloatMapSignalDef {
    type Value = f64;

    fn dependencies(&self) -> Vec<Signal> {
        match self {
            FloatMapSignalDef::Constant(_) => Vec::new(),
            FloatMapSignalDef::UnaryOp(op) => op.dependencies(),
            FloatMapSignalDef::BinaryOp(op) => op.dependencies(),
        }
    }

    fn evaluate(&self, ctx: &EvalContext<f64>) -> f64 {
        let read = |s: &Signal| *ctx.get(*s).unwrap();
        match self {
            FloatMapSignalDef::Constant(value) => *value,
            FloatMapSignalDef::UnaryOp(op) => match op {
                UnaryOp::Neg(s) => -read(s),
            },
            FloatMapSignalDef::BinaryOp(op) => match op {
                FloatBinaryOp::Add(a, b) => read(a) + read(b),
                FloatBinaryOp::Sub(a, b) => read(a) - read(b),
                FloatBinaryOp::Mul(a, b) => read(a) * read(b),
                FloatBinaryOp::Div(a, b) => read(a) / read(b),
                FloatBinaryOp::Pow(a, b) => read(a).powf(read(b)),
            },
        }
    }
}

fn constant(value: f64) -> FloatMapSignalDef {
    FloatMapSignalDef::Constant(value)
}

fn add(a: Signal, b: Signal) -> FloatMapSignalDef {
    FloatMapSignalDef::BinaryOp(FloatBinaryOp::Add(a, b))
}

fn mul(a: Signal, b: Signal) -> FloatMapSignalDef {
    FloatMapSignalDef::BinaryOp(FloatBinaryOp::Mul(a, b))
}

fn neg(a: Signal) -> FloatMapSignalDef {
    FloatMapSignalDef::UnaryOp(UnaryOp::Neg(a))
}

fn set_of(signals: &[Signal]) -> HashSet<Signal> {
    signals.iter().cloned().collect()
}

/// The passes of a plan, each as a set.
fn pass_sets(plan: &PlannedEvaluation<FloatMapSignalDef>) -> Vec<HashSet<Signal>> {
    plan.passes().iter().map(|pass| set_of(pass.targets())).collect()
}

/// The graph `a = 1`, `b = 2`, `c = a + b`, `d = -c`, `e = c * d`.
fn reference_graph() -> (SignalMatrix<FloatMapSignalDef>, [Signal; 5]) {
    let mut defset = SignalDefMap::new();
    let a = defset.insert(constant(1.0));
    let b = defset.insert(constant(2.0));
    let c = defset.insert(add(a, b));
    let d = defset.insert(neg(c));
    let e = defset.insert(mul(c, d));
    (SignalMatrix::new(defset), [a, b, c, d, e])
}

#[test]
fn test_planned_evaluation() {
    let mut defset = SignalDefMap::new();

    let a = defset.insert(FloatMapSignalDef::Constant(1.0));
    let b = defset.insert(FloatMapSignalDef::Constant(2.0));
    let c = defset.insert(FloatMapSignalDef::BinaryOp(FloatBinaryOp::Add(a, b)));
    let d = defset.insert(FloatMapSignalDef::UnaryOp(UnaryOp::Neg(c)));
    let e = defset.insert(FloatMapSignalDef::BinaryOp(FloatBinaryOp::Mul(c, d)));

    let root_targets = vec![e];
    let matrix = SignalMatrix::new(defset);

    let planned_eval = matrix.plan_evaluation::<CustomPlanner>(root_targets).unwrap();

    // phase 0: a, b
    // phase 1: c
    // phase 2: d
    // phase 3: e
    assert_eq!(planned_eval.passes().len(), 4);
    assert!(set_of(planned_eval.passes()[0].targets()).eq(&[a, b].iter().cloned().collect()));
    assert!(set_of(planned_eval.passes()[1].targets()).eq(&[c].iter().cloned().collect()));
    assert!(set_of(planned_eval.passes()[2].targets()).eq(&[d].iter().cloned().collect()));
    assert!(set_of(planned_eval.passes()[3].targets()).eq(&[e].iter().cloned().collect()));

    let values = EvaluationValueMap::new_empty(planned_eval.all_queued_targets());
    let values = planned_eval.run(values).unwrap();

    assert_eq!(values.get(e).unwrap(), &-9.0);
}

#[test]
fn reference_graph_yields_every_value() {
    let (matrix, [a, b, c, d, e]) = reference_graph();
    let plan = matrix.plan_evaluation::<CustomPlanner>(vec![e]).unwrap();
    let values = plan.run(EvaluationValueMap::new_empty(plan.all_queued_targets())).unwrap();
    assert_eq!(values.get(a), Some(&1.0));
    assert_eq!(values.get(b), Some(&2.0));
    assert_eq!(values.get(c), Some(&3.0));
    assert_eq!(values.get(d), Some(&-3.0));
    assert_eq!(values.get(e), Some(&-9.0));
}

#[test]
fn roots_c_and_e_keep_c_once_and_before_e() {
    let (matrix, [a, b, c, d, e]) = reference_graph();
    let plan = matrix.plan_evaluation::<CustomPlanner>(vec![c, e]).unwrap();
    let passes = pass_sets(&plan);
    assert_eq!(passes, vec![set_of(&[a, b]), set_of(&[c]), set_of(&[d]), set_of(&[e])]);
    let holding_c: Vec<usize> = (0..passes.len()).filter(|i| passes[*i].contains(&c)).collect();
    let holding_e: Vec<usize> = (0..passes.len()).filter(|i| passes[*i].contains(&e)).collect();
    assert_eq!(holding_c, vec![1]);
    assert_eq!(holding_e, vec![3]);
    let queued = plan.all_queued_targets();
    assert_eq!(queued.iter().filter(|s| **s == c).count(), 1);
}

#[test]
fn constant_root_gives_a_single_pass() {
    let (matrix, [a, _, _, _, _]) = reference_graph();
    let plan = matrix.plan_evaluation::<CustomPlanner>(vec![a]).unwrap();
    assert_eq!(pass_sets(&plan), vec![set_of(&[a])]);
    assert_eq!(plan.all_queued_targets(), vec![a]);
    let values = plan.run(EvaluationValueMap::new_empty(plan.all_queued_targets())).unwrap();
    assert_eq!(values.get(a), Some(&1.0));
}

#[test]
fn empty_roots_give_an_empty_plan() {
    let (matrix, [a, _, _, _, _]) = reference_graph();
    let plan = matrix.plan_evaluation::<CustomPlanner>(Vec::new()).unwrap();
    assert_eq!(plan.passes().len(), 0);
    assert!(plan.all_queued_targets().is_empty());
    let values = plan.run(EvaluationValueMap::new_empty(plan.all_queued_targets())).unwrap();
    assert_eq!(values.get(a), None);
}

#[test]
fn empty_roots_on_an_empty_store_give_an_empty_plan() {
    let matrix: SignalMatrix<FloatMapSignalDef> = SignalMatrix::new(SignalDefMap::new());
    let plan = matrix.plan_evaluation::<CustomPlanner>(Vec::new()).unwrap();
    assert_eq!(plan.passes().len(), 0);
    assert!(plan.all_queued_targets().is_empty());
}

#[test]
fn plan_covers_exactly_the_closure_each_handle_once() {
    let mut defset = SignalDefMap::new();
    let a = defset.insert(constant(1.0));
    let b = defset.insert(constant(2.0));
    let c = defset.insert(add(a, b));
    let unused = defset.insert(constant(7.0));
    let above = defset.insert(neg(c));
    let matrix = SignalMatrix::new(defset);
    let plan = matrix.plan_evaluation::<CustomPlanner>(vec![c]).unwrap();
    let queued = plan.all_queued_targets();
    assert_eq!(queued.len(), 3);
    assert_eq!(set_of(&queued), set_of(&[a, b, c]));
    assert!(!queued.contains(&unused));
    assert!(!queued.contains(&above));
    let total: usize = plan.passes().iter().map(|pass| pass.targets().len()).sum();
    assert_eq!(total, 3);
}

#[test]
fn a_handle_is_placed_by_its_longest_chain() {
    // d reads a directly and through c and b: a must run first, and once.
    let mut defset = SignalDefMap::new();
    let a = defset.insert(constant(2.0));
    let b = defset.insert(neg(a));
    let c = defset.insert(add(a, b));
    let d = defset.insert(mul(a, c));
    let matrix = SignalMatrix::new(defset);
    let plan = matrix.plan_evaluation::<CustomPlanner>(vec![d]).unwrap();
    assert_eq!(pass_sets(&plan), vec![set_of(&[a]), set_of(&[b]), set_of(&[c]), set_of(&[d])]);
    let values = plan.run(EvaluationValueMap::new_empty(plan.all_queued_targets())).unwrap();
    assert_eq!(values.get(b), Some(&-2.0));
    assert_eq!(values.get(c), Some(&0.0));
    assert_eq!(values.get(d), Some(&0.0));
}

#[test]
fn a_root_that_another_root_reads_runs_before_it() {
    let (matrix, [a, b, c, d, e]) = reference_graph();
    let plan = matrix.plan_evaluation::<CustomPlanner>(vec![e, a, d]).unwrap();
    assert_eq!(
        pass_sets(&plan),
        vec![set_of(&[a, b]), set_of(&[c]), set_of(&[d]), set_of(&[e])]
    );
}

#[test]
fn independent_roots_share_the_last_pass() {
    let mut defset = SignalDefMap::new();
    let a = defset.insert(constant(1.0));
    let b = defset.insert(neg(a));
    let c = defset.insert(constant(5.0));
    let matrix = SignalMatrix::new(defset);
    let plan = matrix.plan_evaluation::<CustomPlanner>(vec![b, c]).unwrap();
    assert_eq!(pass_sets(&plan), vec![set_of(&[a]), set_of(&[b, c])]);
}

/// A balanced tree of additions over `leaves` constants `0, 1, 2, ..`. Returns
/// the graph, what every handle reads, and the root.
fn addition_tree(
    leaves: usize,
) -> (SignalMatrix<FloatMapSignalDef>, HashMap<Signal, Vec<Signal>>, Signal) {
    let mut defset = SignalDefMap::new();
    let mut reads: HashMap<Signal, Vec<Signal>> = HashMap::new();
    let mut last_level: Vec<Signal> = Vec::new();
    for i in 0..leaves {
        let leaf = defset.insert(constant(i as f64));
        reads.insert(leaf, Vec::new());
        last_level.push(leaf);
    }
    while last_level.len() > 1 {
        let mut new_level = Vec::new();
        for (i, a) in last_level.iter().step_by(2).enumerate() {
            let b = last_level.get(i * 2 + 1).unwrap_or(a);
            let sum = defset.insert(add(*a, *b));
            reads.insert(sum, vec![*a, *b]);
            new_level.push(sum);
        }
        last_level = new_level;
    }
    let root = last_level[0];
    (SignalMatrix::new(defset), reads, root)
}

#[test]
fn every_dependency_stands_in_an_earlier_pass() {
    let (matrix, reads, root) = addition_tree(37);
    let plan = matrix.plan_evaluation::<CustomPlanner>(vec![root]).unwrap();
    let passes = pass_sets(&plan);
    let mut pass_of: HashMap<Signal, usize> = HashMap::new();
    for (i, pass) in passes.iter().enumerate() {
        assert!(!pass.is_empty());
        for handle in pass {
            assert!(pass_of.insert(*handle, i).is_none());
        }
    }
    assert_eq!(pass_of.len(), reads.len());
    for (handle, deps) in &reads {
        for dep in deps {
            assert!(pass_of[dep] < pass_of[handle]);
        }
    }
    assert_eq!(pass_of[&root], passes.len() - 1);
}

#[test]
fn addition_tree_sums_its_leaves() {
    let (matrix, _, root) = addition_tree(64);
    let plan = matrix.plan_evaluation::<CustomPlanner>(vec![root]).unwrap();
    assert_eq!(plan.passes().len(), 7);
    assert_eq!(plan.passes()[0].targets().len(), 64);
    let values = plan.run(EvaluationValueMap::new_empty(plan.all_queued_targets())).unwrap();
    assert_eq!(values.get(root), Some(&2016.0));
}

#[test]
fn running_a_plan_twice_gives_identical_values() {
    let (matrix, reads, root) = addition_tree(50);
    let plan = matrix.plan_evaluation::<CustomPlanner>(vec![root]).unwrap();
    let first = plan.run(EvaluationValueMap::new_empty(plan.all_queued_targets())).unwrap();
    let second = plan.run(EvaluationValueMap::new_empty(plan.all_queued_targets())).unwrap();
    for handle in reads.keys() {
        assert!(first.get(*handle).is_some());
        assert_eq!(first.get(*handle), second.get(*handle));
    }
}

#[test]
fn a_run_does_not_depend_on_what_the_map_held_before() {
    let (matrix, [a, b, c, d, e]) = reference_graph();
    let plan = matrix.plan_evaluation::<CustomPlanner>(vec![e]).unwrap();
    let fresh = plan.run(EvaluationValueMap::new_empty(plan.all_queued_targets())).unwrap();
    let again = plan.run(fresh).unwrap();
    assert_eq!(again.get(e), Some(&-9.0));
    let from_nothing = plan.run(EvaluationValueMap::new_empty(Vec::new())).unwrap();
    for handle in [a, b, c, d, e] {
        assert_eq!(from_nothing.get(handle), again.get(handle));
    }
}

#[test]
fn a_run_leaves_other_entries_alone() {
    let mut defset = SignalDefMap::new();
    let a = defset.insert(constant(1.0));
    let b = defset.insert(neg(a));
    let other = defset.insert(constant(3.0));
    let matrix = SignalMatrix::new(defset);
    let plan = matrix.plan_evaluation::<CustomPlanner>(vec![b]).unwrap();
    let values = plan.run(EvaluationValueMap::new_empty(vec![a, b, other])).unwrap();
    assert_eq!(values.get(a), Some(&1.0));
    assert_eq!(values.get(b), Some(&-1.0));
    assert_eq!(values.get(other), None);
}

#[test]
fn planning_twice_gives_equal_plans() {
    let (matrix, _, root) = addition_tree(21);
    let once = matrix.plan_evaluation::<CustomPlanner>(vec![root]).unwrap();
    let again = matrix.plan_evaluation::<CustomPlanner>(vec![root]).unwrap();
    assert_eq!(pass_sets(&once), pass_sets(&again));
    assert_eq!(set_of(&once.all_queued_targets()), set_of(&again.all_queued_targets()));
}

#[test]
fn order_and_repetition_of_roots_do_not_matter() {
    let (matrix, [_, _, c, _, e]) = reference_graph();
    let once = matrix.plan_evaluation::<CustomPlanner>(vec![c, e]).unwrap();
    let again = matrix.plan_evaluation::<CustomPlanner>(vec![e, c, e, c]).unwrap();
    assert_eq!(pass_sets(&once), pass_sets(&again));
}

#[test]
fn the_planner_and_the_plan_constructor_agree_with_the_matrix() {
    let (matrix, [_, _, _, _, e]) = reference_graph();
    let by_matrix = matrix.plan_evaluation::<CustomPlanner>(vec![e]).unwrap();
    let by_planner = CustomPlanner::plan_evaluation(&matrix, vec![e]).unwrap();
    let by_new = PlannedEvaluation::new::<CustomPlanner>(&matrix, vec![e]).unwrap();
    assert_eq!(pass_sets(&by_matrix), pass_sets(&by_planner));
    assert_eq!(pass_sets(&by_matrix), pass_sets(&by_new));
}

/// Two handles of another store, with the indices 0 and 1.
fn foreign_handles() -> (Signal, Signal) {
    let mut other = SignalDefMap::new();
    let first = other.insert(constant(0.0));
    let second = other.insert(constant(0.0));
    (first, second)
}

#[test]
fn an_unknown_root_is_refused() {
    let (_, stranger) = foreign_handles();
    let mut defset = SignalDefMap::new();
    let a = defset.insert(constant(1.0));
    let matrix = SignalMatrix::new(defset);
    let outcome = matrix.plan_evaluation::<CustomPlanner>(vec![a, stranger]);
    assert_eq!(outcome.unwrap_err(), PlanError::UnknownSignal(stranger));
}

#[test]
fn an_unknown_dependency_is_refused() {
    let (_, stranger) = foreign_handles();
    let mut defset = SignalDefMap::new();
    let a = defset.insert(neg(stranger));
    let matrix = SignalMatrix::new(defset);
    let outcome = matrix.plan_evaluation::<CustomPlanner>(vec![a]);
    assert_eq!(outcome.unwrap_err(), PlanError::UnknownSignal(stranger));
}

#[test]
fn an_unknown_handle_that_no_root_leads_to_does_no_harm() {
    let (_, stranger) = foreign_handles();
    let mut defset = SignalDefMap::new();
    let a = defset.insert(constant(4.0));
    let _dangling = defset.insert(constant(0.0));
    let _reader = defset.insert(add(a, stranger));
    let far = {
        let mut other = SignalDefMap::new();
        let mut last = other.insert(constant(0.0));
        for _ in 0..5 {
            last = other.insert(constant(0.0));
        }
        last
    };
    let reads_far = defset.insert(neg(far));
    let matrix = SignalMatrix::new(defset);
    let plan = matrix.plan_evaluation::<CustomPlanner>(vec![a]).unwrap();
    assert_eq!(pass_sets(&plan), vec![set_of(&[a])]);
    let outcome = matrix.plan_evaluation::<CustomPlanner>(vec![reads_far]);
    assert_eq!(outcome.unwrap_err(), PlanError::UnknownSignal(far));
}

#[test]
fn a_cycle_is_refused() {
    let (_, second) = foreign_handles();
    let mut defset = SignalDefMap::new();
    // The first definition reads the handle that the second one will get.
    let a = defset.insert(neg(second));
    let b = defset.insert(neg(a));
    assert_eq!(b, second);
    let matrix = SignalMatrix::new(defset);
    let outcome = matrix.plan_evaluation::<CustomPlanner>(vec![a]);
    assert_eq!(outcome.unwrap_err(), PlanError::CyclicDependency);
    let outcome = matrix.plan_evaluation::<CustomPlanner>(vec![b]);
    assert_eq!(outcome.unwrap_err(), PlanError::CyclicDependency);
}

#[test]
fn a_definition_that_reads_itself_is_refused() {
    let (first, _) = foreign_handles();
    let mut defset = SignalDefMap::new();
    let a = defset.insert(neg(first));
    assert_eq!(a, first);
    let leaf = defset.insert(constant(1.0));
    let matrix = SignalMatrix::new(defset);
    let outcome = matrix.plan_evaluation::<CustomPlanner>(vec![a]);
    assert_eq!(outcome.unwrap_err(), PlanError::CyclicDependency);
    let plan = matrix.plan_evaluation::<CustomPlanner>(vec![leaf]).unwrap();
    assert_eq!(pass_sets(&plan), vec![set_of(&[leaf])]);
}

#[test]
fn a_cycle_below_a_long_chain_is_refused() {
    let (_, second) = foreign_handles();
    let mut defset = SignalDefMap::new();
    let a = defset.insert(neg(second));
    let b = defset.insert(neg(a));
    let mut top = b;
    for _ in 0..10 {
        top = defset.insert(neg(top));
    }
    let matrix = SignalMatrix::new(defset);
    let outcome = matrix.plan_evaluation::<CustomPlanner>(vec![top]);
    assert_eq!(outcome.unwrap_err(), PlanError::CyclicDependency);
}

#[test]
fn a_chain_as_long_as_the_store_is_planned() {
    let mut defset = SignalDefMap::new();
    let mut chain = vec![defset.insert(constant(1.0))];
    for _ in 0..9 {
        let below = chain[chain.len() - 1];
        chain.push(defset.insert(neg(below)));
    }
    let top = chain[9];
    let matrix = SignalMatrix::new(defset);
    let plan = matrix.plan_evaluation::<CustomPlanner>(vec![top]).unwrap();
    let expected: Vec<HashSet<Signal>> = chain.iter().map(|s| set_of(&[*s])).collect();
    assert_eq!(pass_sets(&plan), expected);
    let values = plan.run(EvaluationValueMap::new_empty(plan.all_queued_targets())).unwrap();
    assert_eq!(values.get(top), Some(&-1.0));
}

#[test]
fn every_operation_evaluates() {
    let mut defset = SignalDefMap::new();
    let a = defset.insert(constant(8.0));
    let b = defset.insert(constant(2.0));
    let sum = defset.insert(add(a, b));
    let difference = defset.insert(FloatMapSignalDef::BinaryOp(FloatBinaryOp::Sub(a, b)));
    let product = defset.insert(mul(a, b));
    let quotient = defset.insert(FloatMapSignalDef::BinaryOp(FloatBinaryOp::Div(a, b)));
    let power = defset.insert(FloatMapSignalDef::BinaryOp(FloatBinaryOp::Pow(a, b)));
    let negative = defset.insert(neg(a));
    let matrix = SignalMatrix::new(defset);
    let roots = vec![sum, difference, product, quotient, power, negative];
    let plan = matrix.plan_evaluation::<CustomPlanner>(roots.clone()).unwrap();
    assert_eq!(pass_sets(&plan), vec![set_of(&[a, b]), set_of(&roots)]);
    let values = plan.run(EvaluationValueMap::new_empty(plan.all_queued_targets())).unwrap();
    assert_eq!(values.get(sum), Some(&10.0));
    assert_eq!(values.get(difference), Some(&6.0));
    assert_eq!(values.get(product), Some(&16.0));
    assert_eq!(values.get(quotient), Some(&4.0));
    assert_eq!(values.get(power), Some(&64.0));
    assert_eq!(values.get(negative), Some(&-8.0));
}
