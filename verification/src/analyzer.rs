use vstd::prelude::*;

use crate::dep::{opt_parts, DepCollector};
use crate::entity::{Dep, DepPart, Entity, EntityView};
use crate::literal::MangleConstraint;
use crate::value::{ReadWriteTarget, ReadWriteTargetView};

verus! {

/// How JSX is treated.
#[derive(Debug, Clone, Copy, PartialEq, Eq, Structural)]
pub enum TreeShakeJsxPreset {
    Disabled,
    React,
}

/// The analysis settings that this library reads.
#[derive(Debug, Clone, Copy, PartialEq, Eq, Structural)]
pub struct TreeShakeConfig {
    pub enabled: bool,
    pub jsx: TreeShakeJsxPreset,
    pub preserve_exceptions: bool,
    pub unknown_property_read_side_effects: bool,
    pub iterate_side_effects: bool,
    pub max_simple_string_length: usize,
    pub min_simple_number_value: i64,
    pub max_simple_number_value: i64,
    pub max_recursion_depth: usize,
    pub remember_exhausted_variables: bool,
    pub eager_exhaustive_callbacks: bool,
    pub enable_fn_cache: bool,
    pub enable_fn_stats: bool,
    pub fn_cache_size_limit: usize,
}

/// One request that analysis code makes of the analyzer.
#[derive(Debug)]
pub enum Effect {
    /// Mark everything a dependency refers to as used.
    Consume(Dep),
    /// Mark the global state as referred to.
    ReferGlobal,
    /// Report a JavaScript error thrown by a builtin.
    BuiltinError(String),
    /// Record a diagnostic message.
    Diagnostic(String),
    /// Record that the current call has a global effect.
    GlobalEffect,
    /// Mutate the given value in an unknown way, for the given reason.
    UnknownMutate(Entity, Dep),
    /// Consume a value as far as mangling allows.
    ConsumeMangable(Entity),
    /// Record that a mangling constraint must hold.
    ConsumeConstraint(MangleConstraint),
    /// Mark a mangling atom as used.
    ConsumeMangleAtom(u32),
    /// Record a read of a target by code in the given control-flow scope.
    TrackRead(u64, ReadWriteTarget),
    /// Record a write of a target at the given control-flow depth.
    TrackWrite(usize, ReadWriteTarget),
    /// Ask that callbacks waiting on a target be run.
    RequestExhaustiveCallbacks(ReadWriteTarget),
    /// Stop mangling the keys of the objects in a mangling group.
    DisableMangling(u64),
    /// Add a mangling atom to an object's mangling group.
    AddToManglingGroup(u64, u32),
}

/// The mathematical content of an effect.
pub enum EffectView {
    Consume(Seq<DepPart>),
    ReferGlobal,
    BuiltinError(Seq<char>),
    Diagnostic(Seq<char>),
    GlobalEffect,
    UnknownMutate(EntityView, Seq<DepPart>),
    ConsumeMangable(EntityView),
    ConsumeConstraint(MangleConstraint),
    ConsumeMangleAtom(u32),
    TrackRead(u64, ReadWriteTargetView),
    TrackWrite(usize, ReadWriteTargetView),
    RequestExhaustiveCallbacks(ReadWriteTargetView),
    DisableMangling(u64),
    AddToManglingGroup(u64, u32),
}

impl View for Effect {
    type V = EffectView;

    open spec fn view(&self) -> EffectView {
        match self {
            Effect::Consume(d) => EffectView::Consume(d@),
            Effect::ReferGlobal => EffectView::ReferGlobal,
            Effect::BuiltinError(s) => EffectView::BuiltinError(s@),
            Effect::Diagnostic(s) => EffectView::Diagnostic(s@),
            Effect::GlobalEffect => EffectView::GlobalEffect,
            Effect::UnknownMutate(e, d) => EffectView::UnknownMutate(e@, d@),
            Effect::ConsumeMangable(e) => EffectView::ConsumeMangable(e@),
            Effect::ConsumeConstraint(c) => EffectView::ConsumeConstraint(*c),
            Effect::ConsumeMangleAtom(a) => EffectView::ConsumeMangleAtom(*a),
            Effect::TrackRead(c, t) => EffectView::TrackRead(*c, t@),
            Effect::TrackWrite(d, t) => EffectView::TrackWrite(*d, t@),
            Effect::RequestExhaustiveCallbacks(t) => EffectView::RequestExhaustiveCallbacks(t@),
            Effect::DisableMangling(g) => EffectView::DisableMangling(*g),
            Effect::AddToManglingGroup(g, a) => EffectView::AddToManglingGroup(*g, *a),
        }
    }
}

/// One control-flow scope on the analyzer's stack: its id, whether code in
/// it runs exhaustively or only possibly, and the dependencies that decide
/// whether it runs.
pub struct CfScope {
    pub id: u64,
    pub exhaustive: bool,
    pub indeterminate: bool,
    pub deps: DepCollector,
}

/// The mathematical content of a control-flow scope.
#[verifier::ext_equal]
pub struct CfScopeView {
    pub id: u64,
    pub exhaustive: bool,
    pub indeterminate: bool,
    pub deps: Seq<DepPart>,
    pub has_node: bool,
    pub pending: nat,
}

impl View for CfScope {
    type V = CfScopeView;

    open spec fn view(&self) -> CfScopeView {
        CfScopeView {
            id: self.id,
            exhaustive: self.exhaustive,
            indeterminate: self.indeterminate,
            deps: self.deps.total(),
            has_node: self.deps.node is Some,
            pending: self.deps.current@.len(),
        }
    }
}

/// The analyzer state that this library's operations read and extend: the
/// settings, the log of requests made of the analyzer so far, a counter for
/// fresh dependency atoms, whether a pure call is being analyzed, and the
/// stack of control-flow scopes.
pub struct Analyzer {
    pub config: TreeShakeConfig,
    pub effects: Vec<Effect>,
    pub next_atom: u64,
    pub inside_pure: bool,
    pub cf_stack: Vec<CfScope>,
}

/// The mathematical content of the analyzer.
#[verifier::ext_equal]
pub struct AnalyzerView {
    pub config: TreeShakeConfig,
    pub effects: Seq<EffectView>,
    pub next_atom: u64,
    pub inside_pure: bool,
    pub cf_stack: Seq<CfScopeView>,
}

impl View for Analyzer {
    type V = AnalyzerView;

    open spec fn view(&self) -> AnalyzerView {
        AnalyzerView {
            config: self.config,
            effects: self.effects@.map_values(|e: Effect| e@),
            next_atom: self.next_atom,
            inside_pure: self.inside_pure,
            cf_stack: self.cf_stack@.map_values(|c: CfScope| c@),
        }
    }
}

/// The depth on the stack just above the scope with the given id (the
/// first scope that code creating a value in that scope does not share),
/// or 0 when no scope on the stack has that id.
pub open spec fn first_different_depth(stack: Seq<CfScopeView>, id: u64) -> nat
    decreases stack.len(),
{
    if stack.len() == 0 {
        0
    } else if stack.last().id == id {
        stack.len()
    } else {
        first_different_depth(stack.drop_last(), id)
    }
}

impl AnalyzerView {
    /// This state with one more request logged.
    pub open spec fn log(self, e: EffectView) -> AnalyzerView {
        AnalyzerView { effects: self.effects.push(e), ..self }
    }

    /// This state with several more requests logged, in order.
    pub open spec fn log_all(self, es: Seq<EffectView>) -> AnalyzerView {
        AnalyzerView { effects: self.effects + es, ..self }
    }
}

impl Analyzer {
    /// A fresh analyzer with the given settings and no scope.
    pub fn new(config: TreeShakeConfig) -> (r: Analyzer)
        ensures
            r@.config == config,
            r@.effects == Seq::<EffectView>::empty(),
            r@.next_atom == 0,
            !r@.inside_pure,
            r@.cf_stack == Seq::<CfScopeView>::empty(),
    {
        let r = Analyzer { config, effects: Vec::new(), next_atom: 0, inside_pure: false, cf_stack: Vec::new() };
        proof {
            assert(r@.effects =~= Seq::<EffectView>::empty());
            assert(r@.cf_stack =~= Seq::<CfScopeView>::empty());
        }
        r
    }

    /// The depth on the stack just above the scope with the given id, or 0.
    pub fn find_first_different_cf_scope(&self, id: u64) -> (r: usize)
        ensures
            r == first_different_depth(self@.cf_stack, id),
            r <= self@.cf_stack.len(),
    {
        let mut i: usize = self.cf_stack.len();
        proof {
            assert(self@.cf_stack.subrange(0, i as int) =~= self@.cf_stack);
        }
        while i > 0
            invariant
                i <= self.cf_stack@.len(),
                first_different_depth(self@.cf_stack, id) == first_different_depth(self@.cf_stack.subrange(0, i as int), id),
            decreases i,
        {
            proof {
                let s = self@.cf_stack.subrange(0, i as int);
                assert(s.drop_last() =~= self@.cf_stack.subrange(0, i - 1));
                assert(s.last() == self@.cf_stack[i - 1]);
            }
            if self.cf_stack[i - 1].id == id {
                return i;
            }
            i = i - 1;
        }
        proof {
            assert(self@.cf_stack.subrange(0, 0) =~= Seq::<CfScopeView>::empty());
        }
        0
    }

    /// Logs one request.
    pub fn record(&mut self, e: Effect)
        ensures
            final(self)@ == old(self)@.log(e@),
    {
        self.effects.push(e);
        proof {
            assert(self@.effects =~= old(self)@.effects.push(e@));
        }
    }

    /// Marks a dependency as used.
    pub fn consume(&mut self, dep: Dep)
        ensures
            final(self)@ == old(self)@.log(EffectView::Consume(dep@)),
    {
        self.record(Effect::Consume(dep));
    }

    /// Marks the global state as referred to.
    pub fn refer_to_global(&mut self)
        ensures
            final(self)@ == old(self)@.log(EffectView::ReferGlobal),
    {
        self.record(Effect::ReferGlobal);
    }

    /// Reports an error thrown by a builtin.
    pub fn throw_builtin_error(&mut self, message: String)
        ensures
            final(self)@ == old(self)@.log(EffectView::BuiltinError(message@)),
    {
        self.record(Effect::BuiltinError(message));
    }

    /// Records that the current call has a global effect.
    pub fn global_effect(&mut self)
        ensures
            final(self)@ == old(self)@.log(EffectView::GlobalEffect),
    {
        self.record(Effect::GlobalEffect);
    }

    /// Mutates a value in an unknown way.
    pub fn unknown_mutate(&mut self, target: Entity, dep: Dep)
        ensures
            final(self)@ == old(self)@.log(EffectView::UnknownMutate(target@, dep@)),
    {
        self.record(Effect::UnknownMutate(target, dep));
    }

    /// A dependency atom not handed out before.
    pub fn fresh_atom(&mut self) -> (r: u64)
        requires
            old(self)@.next_atom < u64::MAX,
        ensures
            r == old(self)@.next_atom,
            final(self)@ == (AnalyzerView { next_atom: (r + 1) as u64, ..old(self)@ }),
    {
        let r = self.next_atom;
        self.next_atom = self.next_atom + 1;
        r
    }
}

/// The requests consuming the dependencies of the scopes from `from` up to
/// `to` makes, scope by scope.
pub open spec fn scopes_consume_effects(stack: Seq<CfScope>, from: int, to: int) -> Seq<EffectView>
    decreases to - from,
{
    if to <= from {
        Seq::empty()
    } else {
        scopes_consume_effects(stack, from, to - 1) + stack[to - 1].deps.consume_all_effects()
    }
}

/// The stack after the scopes from `from` up had their dependencies taken.
pub open spec fn cleared_from(stack: Seq<CfScopeView>, from: int) -> Seq<CfScopeView> {
    Seq::new(
        stack.len(),
        |d: int| if d >= from { CfScopeView { deps: Seq::empty(), has_node: false, pending: 0, ..stack[d] } } else { stack[d] },
    )
}

impl Analyzer {
    /// Records that an object created in scope `cf_scope` is consumed: the
    /// dependencies of every scope it does not share are taken and
    /// consumed, scope by scope, and callbacks waiting on the object are
    /// asked to run.
    pub fn mark_object_consumed(&mut self, cf_scope: u64, object_id: u64)
        ensures
            ({
                let stack = old(self)@.cf_stack;
                let t = first_different_depth(stack, cf_scope) as int;
                final(self)@ == (AnalyzerView {
                    cf_stack: cleared_from(stack, t),
                    effects: old(self)@.effects + scopes_consume_effects(old(self).cf_stack@, t, stack.len() as int)
                        + seq![EffectView::RequestExhaustiveCallbacks(ReadWriteTargetView::ObjectAll(object_id))],
                    ..old(self)@
                })
            }),
    {
        let ghost stack0 = self@.cf_stack;
        let ghost exec0 = self.cf_stack@;
        let target = self.find_first_different_cf_scope(cf_scope);
        let n = self.cf_stack.len();
        let mut taken: Vec<DepCollector> = Vec::new();
        let mut depth: usize = target;
        while depth < n
            invariant
                target <= depth <= n,
                n == exec0.len(),
                exec0 == old(self).cf_stack@,
                self@.effects == old(self)@.effects,
                self@.config == old(self)@.config,
                self@.next_atom == old(self)@.next_atom,
                self@.inside_pure == old(self)@.inside_pure,
                self.cf_stack@.len() == n,
                taken@.len() == depth - target,
                forall|j: int| 0 <= j < taken@.len() ==> (#[trigger] taken@[j]).consume_all_effects()
                    == exec0[target + j].deps.consume_all_effects(),
                forall|d: int| 0 <= d < n && (d < target || d >= depth) ==> #[trigger] self.cf_stack@[d] == exec0[d],
                forall|d: int| target <= d < depth ==> (#[trigger] self.cf_stack@[d]).id == exec0[d].id
                    && self.cf_stack@[d].exhaustive == exec0[d].exhaustive
                    && self.cf_stack@[d].indeterminate == exec0[d].indeterminate
                    && self.cf_stack@[d].deps.current@.len() == 0 && self.cf_stack@[d].deps.node is None,
            decreases n - depth,
        {
            taken.push(self.cf_stack[depth].deps.duplicate());
            let scope = CfScope {
                id: self.cf_stack[depth].id,
                exhaustive: self.cf_stack[depth].exhaustive,
                indeterminate: self.cf_stack[depth].indeterminate,
                deps: DepCollector::new(Vec::new()),
            };
            self.cf_stack.set(depth, scope);
            depth = depth + 1;
        }
        proof {
            assert(self@.cf_stack =~= cleared_from(stack0, target as int)) by {
                assert forall|d: int| 0 <= d < n implies self@.cf_stack[d] == cleared_from(stack0, target as int)[d] by {
                    assert(self@.cf_stack[d] == self.cf_stack@[d]@);
                    assert(stack0[d] == exec0[d]@);
                    if d >= target {
                        assert(self.cf_stack@[d].deps.current@ =~= Seq::<Dep>::empty());
                        assert(self.cf_stack@[d]@.deps =~= Seq::<DepPart>::empty());
                    }
                }
            }
        }
        let ghost mid = self@;
        let mut k: usize = 0;
        proof {
            assert(old(self)@.effects + scopes_consume_effects(exec0, target as int, target as int) =~= old(self)@.effects);
        }
        while k < taken.len()
            invariant
                k <= taken@.len(),
                taken@.len() == n - target,
                target <= n,
                forall|j: int| 0 <= j < taken@.len() ==> (#[trigger] taken@[j]).consume_all_effects()
                    == exec0[target + j].deps.consume_all_effects(),
                self@ == (AnalyzerView {
                    effects: old(self)@.effects + scopes_consume_effects(exec0, target as int, target + k),
                    ..mid
                }),
            decreases taken@.len() - k,
        {
            taken[k].consume_all(self);
            proof {
                assert(scopes_consume_effects(exec0, target as int, target + k + 1) == scopes_consume_effects(
                    exec0,
                    target as int,
                    target + k,
                ) + exec0[target + k].deps.consume_all_effects());
            }
            k = k + 1;
        }
        self.record(Effect::RequestExhaustiveCallbacks(ReadWriteTarget::ObjectAll(object_id)));
    }
}

} // verus!
