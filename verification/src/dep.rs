use vstd::prelude::*;

use crate::analyzer::{Analyzer, AnalyzerView, EffectView};
use crate::entity::{entity_dep_parts, Dep, DepPart, Entity};

verus! {

/// The parts of a sequence of dependencies, in order.
pub open spec fn flatten(s: Seq<Dep>) -> Seq<DepPart>
    decreases s.len(),
{
    if s.len() == 0 {
        Seq::empty()
    } else {
        flatten(s.drop_last()) + s.last()@
    }
}

/// The requests that consuming each of `s` in order makes.
pub open spec fn consume_each(s: Seq<Dep>) -> Seq<EffectView>
    decreases s.len(),
{
    if s.len() == 0 {
        Seq::empty()
    } else {
        consume_each(s.drop_last()).push(EffectView::Consume(s.last()@))
    }
}

/// The parts of a sequence of dependency views, in order.
pub open spec fn flatten_views(s: Seq<Seq<DepPart>>) -> Seq<DepPart>
    decreases s.len(),
{
    if s.len() == 0 {
        Seq::empty()
    } else {
        flatten_views(s.drop_last()) + s.last()
    }
}

/// One dependency joining all of `deps`, in order.
pub fn join_all(deps: &Vec<Dep>) -> (r: Dep)
    ensures
        r@ == flatten_views(dep_views(deps@)),
{
    let mut parts: Vec<DepPart> = Vec::new();
    let mut i: usize = 0;
    while i < deps.len()
        invariant
            i <= deps@.len(),
            parts@ == flatten_views(dep_views(deps@.subrange(0, i as int))),
        decreases deps@.len() - i,
    {
        crate::entity::append_parts(&mut parts, &deps[i].parts);
        i = i + 1;
        proof {
            let s = dep_views(deps@.subrange(0, i as int));
            assert(s.drop_last() =~= dep_views(deps@.subrange(0, i - 1)));
        }
    }
    proof {
        assert(deps@.subrange(0, deps@.len() as int) =~= deps@);
    }
    Dep { parts }
}

/// The views of dependencies.
pub open spec fn dep_views(s: Seq<Dep>) -> Seq<Seq<DepPart>> {
    s.map_values(|d: Dep| d@)
}

/// The view of an optional dependency.
pub open spec fn opt_view(d: Option<Dep>) -> Option<Seq<DepPart>> {
    match d {
        Some(x) => Some(x@),
        None => None,
    }
}

/// The parts of an optional dependency.
pub open spec fn opt_parts(d: Option<Dep>) -> Seq<DepPart> {
    match d {
        Some(x) => x@,
        None => Seq::empty(),
    }
}

/// Collects dependencies as they arrive and folds them, on request, into a
/// single dependency node that later arrivals are joined to.
#[derive(Debug)]
pub struct DepCollector {
    pub current: Vec<Dep>,
    pub node: Option<Dep>,
}

impl DepCollector {
    /// Everything this collector refers to: the pending dependencies and
    /// the folded node.
    pub open spec fn total(&self) -> Seq<DepPart> {
        flatten(self.current@) + opt_parts(self.node)
    }

    /// The requests that consuming everything in this collector makes.
    pub open spec fn consume_all_effects(&self) -> Seq<EffectView> {
        consume_each(self.current@) + match self.node {
            Some(n) => seq![EffectView::Consume(n@)],
            None => Seq::empty(),
        }
    }

    /// What collecting gives: nothing for an empty collector, everything
    /// held otherwise.
    pub open spec fn collected(&self) -> Option<Seq<DepPart>> {
        if self.is_empty_spec() {
            None
        } else {
            Some(self.total())
        }
    }

    /// Whether the collector holds nothing.
    pub open spec fn is_empty_spec(&self) -> bool {
        self.current@.len() == 0 && self.node is None
    }

    /// A collector holding `current` and no folded node.
    pub fn new(current: Vec<Dep>) -> (r: DepCollector)
        ensures
            r.current@ == current@,
            r.node is None,
    {
        DepCollector { current, node: None }
    }

    /// Whether the collector holds nothing.
    pub fn is_empty(&self) -> (r: bool)
        ensures
            r == (self.current@.len() == 0 && self.node is None),
    {
        self.current.len() == 0 && self.node.is_none()
    }

    /// Adds a dependency.
    pub fn push(&mut self, value: Dep)
        ensures
            final(self).current@ == old(self).current@.push(value),
            final(self).node == old(self).node,
    {
        self.current.push(value);
    }

    /// Folds the pending dependencies into the node and returns the node;
    /// `None` when the collector holds nothing.
    pub fn try_collect(&mut self) -> (r: Option<Dep>)
        ensures
            old(self).current@.len() == 0 ==> final(self).current@ == old(self).current@
                && final(self).node == old(self).node && match (r, old(self).node) {
                (Some(x), Some(y)) => x@ == y@,
                (None, None) => true,
                _ => false,
            },
            old(self).current@.len() != 0 ==> final(self).current@.len() == 0 && r is Some
                && final(self).node is Some && r->0@ == old(self).total()
                && final(self).node->0@ == old(self).total(),
            final(self).total() == old(self).total(),
            opt_view(r) == old(self).collected(),
            final(self).collected() == old(self).collected(),
    {
        if self.current.len() == 0 {
            match &self.node {
                Some(n) => Some(n.clone()),
                None => None,
            }
        } else {
            let mut current: Vec<Dep> = Vec::new();
            std::mem::swap(&mut current, &mut self.current);
            let mut parts: Vec<DepPart> = Vec::new();
            let mut i: usize = 0;
            while i < current.len()
                invariant
                    i <= current.len(),
                    parts@ == flatten(current@.subrange(0, i as int)),
                decreases current.len() - i,
            {
                crate::entity::append_parts(&mut parts, &current[i].parts);
                i = i + 1;
                proof {
                    assert(current@.subrange(0, i as int).drop_last() =~= current@.subrange(0, i - 1));
                }
            }
            proof {
                assert(current@.subrange(0, current@.len() as int) =~= current@);
            }
            if let Some(n) = &self.node {
                crate::entity::append_parts(&mut parts, &n.parts);
            }
            let node = Dep { parts };
            let result = node.clone();
            self.node = Some(node);
            proof {
                assert(flatten(self.current@) =~= Seq::<DepPart>::empty());
                assert(self.total() =~= flatten(self.current@) + result@);
            }
            Some(result)
        }
    }

    /// What `try_collect` gives, without folding.
    pub fn peek(&self) -> (r: Option<Dep>)
        ensures
            opt_view(r) == self.collected(),
    {
        if self.current.len() == 0 {
            match &self.node {
                Some(n) => Some(n.clone()),
                None => None,
            }
        } else {
            let mut parts: Vec<DepPart> = Vec::new();
            let mut i: usize = 0;
            while i < self.current.len()
                invariant
                    i <= self.current@.len(),
                    parts@ == flatten(self.current@.subrange(0, i as int)),
                decreases self.current@.len() - i,
            {
                crate::entity::append_parts(&mut parts, &self.current[i].parts);
                i = i + 1;
                proof {
                    assert(self.current@.subrange(0, i as int).drop_last() =~= self.current@.subrange(0, i - 1));
                }
            }
            proof {
                assert(self.current@.subrange(0, self.current@.len() as int) =~= self.current@);
            }
            if let Some(n) = &self.node {
                crate::entity::append_parts(&mut parts, &n.parts);
            }
            let d = Dep { parts };
            proof {
                assert(d@ =~= self.total());
            }
            Some(d)
        }
    }

    /// Like `try_collect`, but gives the empty dependency for an empty
    /// collector.
    pub fn collect(&mut self) -> (r: Dep)
        ensures
            r@ == old(self).total(),
            final(self).total() == old(self).total(),
    {
        let ghost before = self.total();
        match self.try_collect() {
            Some(d) => d,
            None => {
                proof {
                    assert(before =~= Seq::<DepPart>::empty());
                }
                Dep::none()
            },
        }
    }

    /// Consumes every dependency held, the pending ones in order and then
    /// the node.
    pub fn consume_all(&self, analyzer: &mut Analyzer)
        ensures
            final(analyzer)@ == (AnalyzerView {
                effects: old(analyzer)@.effects + self.consume_all_effects(),
                ..old(analyzer)@
            }),
    {
        let mut i: usize = 0;
        while i < self.current.len()
            invariant
                i <= self.current.len(),
                analyzer@ == (AnalyzerView {
                    effects: old(analyzer)@.effects + consume_each(self.current@.subrange(0, i as int)),
                    ..old(analyzer)@
                }),
            decreases self.current.len() - i,
        {
            analyzer.consume(self.current[i].clone());
            i = i + 1;
            proof {
                let s = self.current@.subrange(0, i as int);
                assert(s.drop_last() =~= self.current@.subrange(0, i - 1));
                assert(analyzer@.effects =~= old(analyzer)@.effects + consume_each(s));
            }
        }
        proof {
            assert(self.current@.subrange(0, self.current@.len() as int) =~= self.current@);
        }
        if let Some(n) = &self.node {
            analyzer.consume(n.clone());
            proof {
                assert(analyzer@.effects =~= old(analyzer)@.effects + self.consume_all_effects());
            }
        } else {
            proof {
                assert(analyzer@.effects =~= old(analyzer)@.effects + self.consume_all_effects());
            }
        }
    }

    /// A copy holding the same dependencies.
    pub fn duplicate(&self) -> (r: DepCollector)
        ensures
            dep_views(r.current@) == dep_views(self.current@),
            opt_view(r.node) == opt_view(self.node),
            r.consume_all_effects() == self.consume_all_effects(),
    {
        let mut current: Vec<Dep> = Vec::new();
        let mut i: usize = 0;
        while i < self.current.len()
            invariant
                i <= self.current@.len(),
                current@.len() == i,
                forall|j: int| 0 <= j < i ==> (#[trigger] current@[j])@ == self.current@[j]@,
            decreases self.current@.len() - i,
        {
            current.push(self.current[i].clone());
            i = i + 1;
        }
        let node = match &self.node {
            Some(n) => Some(n.clone()),
            None => None,
        };
        let r = DepCollector { current, node };
        proof {
            assert(dep_views(r.current@) =~= dep_views(self.current@));
            lemma_consume_each_views(r.current@, self.current@);
        }
        r
    }

    /// Drops everything held.
    pub fn force_clear(&mut self)
        ensures
            final(self).current@.len() == 0,
            final(self).node is None,
    {
        self.current.clear();
        self.node = None;
    }

    /// Whether the collector holds anything that may still be unreferred.
    pub fn may_not_referred(&self) -> (r: bool)
        ensures
            r == (self.current@.len() != 0 || self.node is Some),
    {
        self.current.len() != 0 || self.node.is_some()
    }
}

proof fn lemma_consume_each_views(a: Seq<Dep>, b: Seq<Dep>)
    requires
        dep_views(a) == dep_views(b),
    ensures
        consume_each(a) == consume_each(b),
    decreases a.len(),
{
    assert(dep_views(a).len() == a.len() && dep_views(b).len() == b.len());
    if a.len() > 0 {
        assert forall|i: int| 0 <= i < a.len() - 1 implies a.drop_last()[i]@ == b.drop_last()[i]@ by {
            assert(dep_views(a)[i] == dep_views(b)[i]);
        }
        assert(dep_views(a.drop_last()) =~= dep_views(b.drop_last()));
        lemma_consume_each_views(a.drop_last(), b.drop_last());
        assert(dep_views(a)[a.len() - 1] == dep_views(b)[b.len() - 1]);
    }
}

/// A dependency list that is kept until the first time it is consumed;
/// after that, dependencies pushed to it are consumed at once.
#[derive(Debug)]
pub struct LazyDep {
    pub deps: Option<Vec<Dep>>,
}

impl LazyDep {
    /// A lazy dependency holding `deps`.
    pub fn new(deps: Vec<Dep>) -> (r: LazyDep)
        ensures
            r.deps matches Some(d) && d@ == deps@,
    {
        LazyDep { deps: Some(deps) }
    }

    /// Adds a dependency: kept while the list has not been consumed,
    /// consumed at once otherwise.
    pub fn push(&mut self, analyzer: &mut Analyzer, dep: Dep)
        ensures
            old(self).deps is Some ==> (final(self).deps matches Some(d) && d@ == old(self).deps->0@.push(dep))
                && final(analyzer)@ == old(analyzer)@,
            old(self).deps is None ==> final(self).deps is None && final(analyzer)@ == old(
                analyzer,
            )@.log(EffectView::Consume(dep@)),
    {
        match &mut self.deps {
            Some(deps) => {
                deps.push(dep);
            },
            None => {
                analyzer.consume(dep);
            },
        }
    }

    /// Adds what using `value` depends on while the list is kept; once it
    /// has been consumed, defers `value` to `deferred`, to be consumed by
    /// the caller.
    pub fn push_defer(&mut self, value: Entity, deferred: &mut Vec<Entity>)
        ensures
            old(self).deps matches Some(d) ==> (final(self).deps matches Some(d2) && dep_views(d2@) == dep_views(
                d@,
            ).push(entity_dep_parts(value@))) && final(deferred)@ == old(deferred)@,
            old(self).deps is None ==> final(self).deps is None && final(deferred)@ == old(deferred)@.push(value),
    {
        match &mut self.deps {
            Some(deps) => {
                let ghost before = dep_views(deps@);
                deps.push(value.as_dep());
                proof {
                    assert(dep_views(deps@) =~= before.push(entity_dep_parts(value@)));
                }
            },
            None => {
                deferred.push(value);
            },
        }
    }

    /// Consumes the kept dependencies, in order, and switches to consuming
    /// new ones at once.
    pub fn consume(&mut self, analyzer: &mut Analyzer)
        ensures
            final(self).deps is None,
            final(analyzer)@ == (AnalyzerView {
                effects: old(analyzer)@.effects + match old(self).deps {
                    Some(d) => consume_each(d@),
                    None => Seq::empty(),
                },
                ..old(analyzer)@
            }),
    {
        match self.deps.take() {
            Some(deps) => {
                let c = DepCollector { current: deps, node: None };
                c.consume_all(analyzer);
                proof {
                    assert(c.consume_all_effects() =~= consume_each(c.current@));
                }
            },
            None => {
                proof {
                    assert(analyzer@.effects =~= old(analyzer)@.effects + Seq::<EffectView>::empty());
                }
            },
        }
    }
}

/// A dependency that is consumed at most once.
pub struct OnceDep {
    pub value: Option<Dep>,
}

impl OnceDep {
    /// A dependency on `value` not yet consumed.
    pub fn new(value: Dep) -> (r: OnceDep)
        ensures
            r.value matches Some(v) && v@ == value@,
    {
        OnceDep { value: Some(value) }
    }

    /// Consumes the dependency the first time; does nothing later.
    pub fn consume(&mut self, analyzer: &mut Analyzer)
        ensures
            final(self).value is None,
            old(self).value matches Some(v) ==> final(analyzer)@ == old(analyzer)@.log(
                EffectView::Consume(v@),
            ),
            old(self).value is None ==> final(analyzer)@ == old(analyzer)@,
    {
        if let Some(value) = self.value.take() {
            analyzer.consume(value);
        }
    }
}

} // verus!
