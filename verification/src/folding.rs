use vstd::prelude::*;

use crate::analyzer::{Analyzer, EffectView};
use crate::entity::{entity_dep_parts, Entity, EntityView};
use crate::literal::{literal_same, LiteralValue};
use crate::value::entity_views;

verus! {

/// Whether an expression can be replaced by a literal: not decided yet,
/// always this literal so far, or not.
#[derive(Debug)]
pub enum FoldingState {
    Initial,
    Foldable(LiteralValue),
    UnFoldable,
}

/// What is known of an expression for folding: the state, and the values
/// and mangling atoms used while it was foldable.
#[derive(Debug)]
pub struct FoldingData {
    pub state: FoldingState,
    pub used_values: Vec<Entity>,
    pub used_mangle_atoms: Vec<u32>,
}

/// How far folding has been ruled out: 0 undecided, 1 foldable, 2 not.
pub open spec fn folding_rank(s: FoldingState) -> int {
    match s {
        FoldingState::Initial => 0,
        FoldingState::Foldable(_) => 1,
        FoldingState::UnFoldable => 2,
    }
}

/// The state after an evaluation to `literal` is used.
pub open spec fn next_folding_state(s: FoldingState, literal: LiteralValue) -> FoldingState {
    match s {
        FoldingState::Initial => FoldingState::Foldable(literal),
        FoldingState::Foldable(l) => if literal_same(l, literal) { s } else { FoldingState::UnFoldable },
        FoldingState::UnFoldable => FoldingState::UnFoldable,
    }
}

/// The dependency of one evaluation of a foldable expression: the literal
/// it gave, the value to use if it cannot be folded, and the mangling atom
/// of the literal.
#[derive(Debug)]
pub struct FoldableDep {
    pub literal: LiteralValue,
    pub value: Entity,
    pub mangle_atom: Option<u32>,
}

/// The dependency of an evaluation that rules folding out.
#[derive(Debug, Clone, Copy)]
pub struct UnFoldableDep;

impl FoldableDep {
    /// Uses this evaluation: while the expression is foldable the value and
    /// atom are recorded; the state moves on (see `next_folding_state`);
    /// once it is not foldable the value itself is consumed.
    pub fn consume(&self, data: &mut FoldingData, analyzer: &mut Analyzer)
        ensures
            final(data).state == next_folding_state(old(data).state, self.literal),
            !(old(data).state is UnFoldable) ==> entity_views(final(data).used_values@) == entity_views(
                old(data).used_values@,
            ).push(self.value@) && final(data).used_mangle_atoms@ == old(data).used_mangle_atoms@ + match self.mangle_atom {
                Some(a) => seq![a],
                None => Seq::empty(),
            } && final(analyzer)@ == old(analyzer)@,
            old(data).state is UnFoldable ==> final(data).used_values@ == old(data).used_values@
                && final(data).used_mangle_atoms@ == old(data).used_mangle_atoms@
                && final(analyzer)@ == old(analyzer)@.log(EffectView::Consume(entity_dep_parts(self.value@))),
    {
        let foldable = !matches!(data.state, FoldingState::UnFoldable);
        if foldable {
            let ghost before = entity_views(data.used_values@);
            let c = self.value.clone();
            data.used_values.push(c);
            proof {
                assert(entity_views(data.used_values@) =~= before.push(c@));
            }
            let ghost atoms = data.used_mangle_atoms@;
            if let Some(a) = self.mangle_atom {
                data.used_mangle_atoms.push(a);
            } else {
                proof {
                    assert(data.used_mangle_atoms@ =~= atoms + Seq::<u32>::empty());
                }
            }
        }
        let next = match &data.state {
            FoldingState::Initial => Some(FoldingState::Foldable(self.literal.duplicate())),
            FoldingState::Foldable(l) => if l.same_as(&self.literal) { None } else { Some(FoldingState::UnFoldable) },
            FoldingState::UnFoldable => None,
        };
        if let Some(n) = next {
            data.state = n;
        }
        if !foldable {
            analyzer.consume(self.value.as_dep());
        }
    }
}

impl UnFoldableDep {
    /// Rules folding out.
    pub fn consume(&self, data: &mut FoldingData)
        ensures
            final(data).state is UnFoldable,
            final(data).used_values@ == old(data).used_values@,
            final(data).used_mangle_atoms@ == old(data).used_mangle_atoms@,
    {
        data.state = FoldingState::UnFoldable;
    }
}

/// Folding is never ruled back in: using an evaluation never lowers the
/// state, and a state that rules folding out stays so.
pub proof fn law_folding_monotonic(s: FoldingState, literal: LiteralValue)
    ensures
        folding_rank(next_folding_state(s, literal)) >= folding_rank(s),
        s is UnFoldable ==> next_folding_state(s, literal) is UnFoldable,
{
}

} // verus!
