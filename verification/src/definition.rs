use crate::signal::Signal;
use crate::signal::SignalMap;
use vstd::prelude::*;

verus! {

/// Context given to an evaluator: the values of one definition's
/// dependencies, and nothing else.
pub struct EvalContext<'c, V> {
    values: SignalMap<&'c V>,
}

impl<'c, V> View for EvalContext<'c, V> {
    type V = Map<Signal, V>;

    closed spec fn view(&self) -> Map<Signal, V> {
        Map::new(|s: Signal| self.values@.contains_key(s), |s: Signal| *self.values@[s])
    }
}

impl<'c, V> EvalContext<'c, V> {
    /// A context that offers no value.
    pub fn new() -> (ctx: Self)
        ensures
            ctx@ == Map::<Signal, V>::empty(),
    {
        let ctx = EvalContext { values: SignalMap::new() };
        assert(ctx@ =~= Map::<Signal, V>::empty());
        ctx
    }

    /// Offers `value` under `signal`.
    pub fn provide(&mut self, signal: Signal, value: &'c V)
        ensures
            final(self)@ == old(self)@.insert(signal, *value),
    {
        self.values.insert(signal, value);
        assert(self@ =~= old(self)@.insert(signal, *value));
    }

    /// The value offered under `signal`, if the context holds one.
    pub fn get(&self, signal: Signal) -> (value: Option<&V>)
        ensures
            value == (if self@.contains_key(signal) {
                Some(&self@[signal])
            } else {
                None
            }),
    {
        match self.values.get(signal) {
            Some(value) => Some(*value),
            None => None,
        }
    }
}

/// Trait for signal definitions: what a node of the graph has to offer, the
/// handles it reads and its value as a function of theirs.
///
/// `deps` and `value` are the mathematical content of a definition. The two
/// executable methods are held to them: `dependencies` lists exactly `deps`,
/// every time it is asked, and `evaluate` computes `value` of the context it
/// is given, and nothing else. All that is proved of plans and runs is
/// proved for definitions that keep to this.
///
/// A verified implementation says what `deps` and `value` are, and proves
/// its methods against them. The bodies given here leave both unspecified;
/// an implementation that stands outside verified code keeps them, and its
/// author answers for `dependencies` being stable and `evaluate` being a
/// function of the context.
pub trait SignalDef: std::fmt::Debug + Sync + Sized {
    /// The type of value that this definition evaluates to.
    type Value: std::fmt::Debug + Send + Sync + Sized;

    /// The direct inputs of this definition.
    open spec fn deps(&self) -> Set<Signal> {
        arbitrary()
    }

    /// The value of this definition, given the values of its inputs.
    open spec fn value(&self, inputs: Map<Signal, Self::Value>) -> Self::Value {
        arbitrary()
    }

    /// Get the dependencies of this definition. The list may name a handle
    /// more than once and in any order.
    fn dependencies(&self) -> (deps: Vec<Signal>)
        ensures
            deps@.to_set() == self.deps(),
    ;

    /// Evaluate this definition with the given context, which offers the
    /// values of its dependencies and of nothing else.
    fn evaluate(&self, ctx: &EvalContext<Self::Value>) -> (value: Self::Value)
        requires
            ctx@.dom() == self.deps(),
        ensures
            value == self.value(ctx@),
    ;
}

} // verus!
