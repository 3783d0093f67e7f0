use vstd::prelude::*;

use crate::analyzer::{Analyzer, AnalyzerView, EffectView};
use crate::entity::{entity_dep_parts, Dep, DepPart, Entity, EntityView, Value};
use crate::typeof_result::{TypeofResult, TYPEOF_FUNCTION};

verus! {

/// How a builtin function behaves when called: given the analyzer, the
/// call's dependency, `this` and the arguments, it gives the result.
pub trait BuiltinFnImplementation {
    fn call(&self, analyzer: &mut Analyzer, dep: Dep, this: Entity, args: Entity) -> Entity;
}

/// A builtin function whose behaviour is given by an implementation.
pub struct ImplementedBuiltinFnValue<F: BuiltinFnImplementation> {
    pub name: String,
    pub implementation: F,
    /// The id of the object holding the function's own properties.
    pub object: Option<u64>,
    pub consumed: bool,
}

impl<F: BuiltinFnImplementation> ImplementedBuiltinFnValue<F> {
    /// The function's name.
    pub fn name(&self) -> (r: &str)
        ensures
            r@ == self.name@,
    {
        self.name.as_str()
    }

    /// The id of the object holding its own properties.
    pub fn object(&self) -> (r: Option<u64>)
        ensures
            r == self.object,
    {
        self.object
    }

    /// Calls the implementation.
    pub fn call_impl(&self, analyzer: &mut Analyzer, dep: Dep, this: Entity, args: Entity) -> Entity {
        self.implementation.call(analyzer, dep, this, args)
    }

    /// Consumes the function once: it is called with unknown `this` and
    /// arguments, and what it gives is consumed. Later calls do nothing.
    pub fn consume(&mut self, analyzer: &mut Analyzer)
        ensures
            final(self).consumed,
            final(self).name == old(self).name,
            final(self).object == old(self).object,
            old(self).consumed ==> final(analyzer)@ == old(analyzer)@,
    {
        if self.consumed {
            return;
        }
        self.consumed = true;
        let ret = self.call_impl(analyzer, Dep::none(), Entity::unknown(), Entity::unknown());
        analyzer.consume(ret.as_dep());
    }

    /// A builtin function is a function.
    pub fn test_typeof(&self) -> (r: TypeofResult)
        ensures
            r.bits == TYPEOF_FUNCTION,
    {
        TypeofResult::from_bits(TYPEOF_FUNCTION)
    }

    /// A function is truthy.
    pub fn test_truthy(&self) -> (r: Option<bool>)
        ensures
            r == Some(true),
    {
        Some(true)
    }

    /// A function is not nullish.
    pub fn test_nullish(&self) -> (r: Option<bool>)
        ensures
            r == Some(false),
    {
        Some(false)
    }
}

impl Analyzer {
    /// A builtin function with the given behaviour and a fresh object for
    /// its own properties.
    pub fn dynamic_implemented_builtin<F: BuiltinFnImplementation>(
        &mut self,
        name: String,
        implementation: F,
    ) -> (r: ImplementedBuiltinFnValue<F>)
        requires
            old(self)@.next_atom < u64::MAX,
        ensures
            r.name@ == name@,
            r.object == Some(old(self)@.next_atom),
            !r.consumed,
            final(self)@ == (AnalyzerView { next_atom: (old(self)@.next_atom + 1) as u64, ..old(self)@ }),
    {
        let object = self.fresh_atom();
        ImplementedBuiltinFnValue { name, implementation, object: Some(object), consumed: false }
    }
}

/// A builtin function without side effects on its own: calling it mutates
/// `this` in an unknown way and gives a fixed value, depending on the call,
/// `this` and the arguments.
#[derive(Debug)]
pub struct PureBuiltinFnValue {
    pub return_value: Entity,
}

impl PureBuiltinFnValue {
    /// A pure builtin giving `return_value`.
    pub fn new(return_value: Entity) -> (r: PureBuiltinFnValue)
        ensures
            r.return_value@ == return_value@,
    {
        PureBuiltinFnValue { return_value }
    }

    /// The name such functions report.
    pub fn name(&self) -> (r: &'static str)
        ensures
            r@ == "<PureBuiltin>"@,
    {
        "<PureBuiltin>"
    }

    /// Calls it: `this` is mutated in an unknown way under the call's
    /// dependency, and the fixed value comes back depending on it.
    pub fn call_impl(&self, analyzer: &mut Analyzer, dep: Dep, this: Entity, args: Entity) -> (r: Entity)
        ensures
            ({
                let d = dep@ + entity_dep_parts(this@) + entity_dep_parts(args@);
                &&& final(analyzer)@ == old(analyzer)@.log(EffectView::UnknownMutate(this@, d))
                &&& r@ == (EntityView { values: self.return_value.values@, dep: self.return_value.dep@ + d })
            }),
    {
        let d = crate::value::dep3(&dep, &this.as_dep(), &args.as_dep());
        analyzer.unknown_mutate(this, d.clone());
        let r = self.return_value.clone().computed(&d);
        r
    }
}

} // verus!
