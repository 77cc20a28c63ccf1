use matrix::CustomPlanner;
use matrix::EvalContext;
use matrix::EvaluationError;
use matrix::EvaluationValueMap;
use matrix::Signal;
use matrix::SignalDef;
use matrix::SignalDefMap;
use matrix::SignalMatrix;
use std::sync::atomic::AtomicUsize;
use std::sync::atomic::Ordering;

/// A definition whose counter lives outside of it, so that it can be read
/// while the graph holds the definition.
#[derive(Debug)]
struct Watched {
    terms: Vec<Signal>,
    evaluations: &'static AtomicUsize,
}

impl SignalDef for Watched {
    type Value = usize;

    fn dependencies(&self) -> Vec<Signal> {
        self.terms.clone()
    }

    fn evaluate(&self, ctx: &EvalContext<usize>) -> usize {
        self.evaluations.fetch_add(1, Ordering::SeqCst);
        1 + self.terms.iter().map(|term| *ctx.get(*term).unwrap()).sum::<usize>()
    }
}

#[test]
fn a_run_evaluates_each_handle_once_in_a_diamond() {
    let counters: Vec<&'static AtomicUsize> =
        (0..6).map(|_| &*Box::leak(Box::new(AtomicUsize::new(0)))).collect();
    let mut defset = SignalDefMap::new();
    let a = defset.insert(Watched { terms: vec![], evaluations: counters[0] });
    let b = defset.insert(Watched { terms: vec![a], evaluations: counters[1] });
    let c = defset.insert(Watched { terms: vec![a], evaluations: counters[2] });
    let d = defset.insert(Watched { terms: vec![b, c, a], evaluations: counters[3] });
    let e = defset.insert(Watched { terms: vec![d, a], evaluations: counters[4] });
    let _unused = defset.insert(Watched { terms: vec![e], evaluations: counters[5] });
    let matrix = SignalMatrix::new(defset);
    let plan = matrix.plan_evaluation::<CustomPlanner>(vec![e, d, a]).unwrap();
    let read = |counters: &Vec<&'static AtomicUsize>| -> Vec<usize> {
        counters.iter().map(|counter| counter.load(Ordering::SeqCst)).collect()
    };
    assert_eq!(read(&counters), vec![0, 0, 0, 0, 0, 0]);
    let values = plan.run(EvaluationValueMap::new_empty(plan.all_queued_targets())).unwrap();
    assert_eq!(read(&counters), vec![1, 1, 1, 1, 1, 0]);
    assert_eq!(values.get(a), Some(&1));
    assert_eq!(values.get(b), Some(&2));
    assert_eq!(values.get(c), Some(&2));
    assert_eq!(values.get(d), Some(&6));
    assert_eq!(values.get(e), Some(&8));
    let again = plan.run(values).unwrap();
    assert_eq!(read(&counters), vec![2, 2, 2, 2, 2, 0]);
    assert_eq!(again.get(e), Some(&8));
}

/// A definition that names one more dependency every time it is asked.
#[derive(Debug)]
struct Fickle {
    asked: AtomicUsize,
    later: Vec<Signal>,
}

impl SignalDef for Fickle {
    type Value = u8;

    fn dependencies(&self) -> Vec<Signal> {
        let asked = self.asked.fetch_add(1, Ordering::SeqCst);
        if asked == 0 {
            Vec::new()
        } else {
            self.later.clone()
        }
    }

    fn evaluate(&self, _ctx: &EvalContext<u8>) -> u8 {
        0
    }
}

#[test]
fn a_definition_that_changes_its_dependencies_stops_the_run() {
    let mut defset = SignalDefMap::new();
    let steady = defset.insert(Fickle { asked: AtomicUsize::new(1), later: vec![] });
    let unset = defset.insert(Fickle { asked: AtomicUsize::new(1), later: vec![] });
    let fickle = defset.insert(Fickle { asked: AtomicUsize::new(0), later: vec![steady, unset] });
    let matrix = SignalMatrix::new(defset);
    // While the plan is made, `fickle` reads nothing: one pass holds both roots.
    let plan = matrix.plan_evaluation::<CustomPlanner>(vec![steady, fickle]).unwrap();
    assert_eq!(plan.passes().len(), 1);
    let outcome = plan.run(EvaluationValueMap::new_empty(plan.all_queued_targets()));
    assert_eq!(
        outcome.err(),
        Some(EvaluationError::MissingDependency { handle: fickle, dependency: steady, pass: 0 })
    );
}
