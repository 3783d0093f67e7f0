use vstd::prelude::*;

use crate::analyzer::{Analyzer, Effect, EffectView};
use crate::entity::Entity;
use crate::literal::MangleConstraint;

verus! {

/// The dependency that two keys compared under a mangling constraint
/// stand for.
#[derive(Debug)]
pub struct ManglingDep {
    pub deps: (Entity, Entity),
    pub constraint: MangleConstraint,
}

/// The dependency on a value that may always be mangled.
#[derive(Debug)]
pub struct AlwaysMangableDep {
    pub dep: Entity,
}

impl ManglingDep {
    /// Uses both keys for mangling, then the constraint between them.
    pub fn consume(&self, analyzer: &mut Analyzer)
        ensures
            final(analyzer)@ == old(analyzer)@.log(EffectView::ConsumeMangable(self.deps.0@)).log(
                EffectView::ConsumeMangable(self.deps.1@),
            ).log(EffectView::ConsumeConstraint(self.constraint)),
    {
        analyzer.record(Effect::ConsumeMangable(self.deps.0.clone()));
        analyzer.record(Effect::ConsumeMangable(self.deps.1.clone()));
        analyzer.record(Effect::ConsumeConstraint(self.constraint));
    }
}

impl AlwaysMangableDep {
    /// Uses the value for mangling.
    pub fn consume(&self, analyzer: &mut Analyzer)
        ensures
            final(analyzer)@ == old(analyzer)@.log(EffectView::ConsumeMangable(self.dep@)),
    {
        analyzer.record(Effect::ConsumeMangable(self.dep.clone()));
    }
}

} // verus!
