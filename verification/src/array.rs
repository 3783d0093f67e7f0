use vstd::prelude::*;
use vstd::string::*;

use crate::analyzer::{first_different_depth, Analyzer, AnalyzerView, CfScope, CfScopeView, Effect, EffectView};
use crate::builtins::{unmatched_view, BuiltinPrototype};
use crate::consumed_object;
use crate::dep::DepCollector;
use crate::entity::{entity_dep_parts, Dep, DepPart, Entity, EntityView, Value};
use crate::literal::{JsNumber, LiteralValue};
use crate::number::{decimal_text, index_bits, parse_usize, parse_usize_spec, usize_to_decimal, EXACT_INTEGER_LIMIT};
use crate::primitive::PrimitiveValue;
use crate::typeof_result::{TypeofResult, TYPEOF_OBJECT};
use crate::value::{
    clone_entities, entity_views, str_eq, union_all, union_deps, union_values, EnumeratedProperties,
    EnumeratedProperty, IteratedElements, PropertyKeyValue, PropertyKeyView, ReadWriteTarget,
    ReadWriteTargetView,
};

verus! {

/// An abstract JavaScript array: the known leading elements, values that
/// stand for the elements after them (whose number is unknown), and the
/// dependencies of the mutations whose effect is no longer known exactly.
pub struct ArrayValue {
    pub consumed: bool,
    pub deps: DepCollector,
    pub cf_scope: u64,
    pub object_id: u64,
    pub elements: Vec<Entity>,
    pub rest: Vec<Entity>,
}

/// The dependency that using each of a sequence of entities stands for.
pub open spec fn entities_dep(s: Seq<EntityView>) -> Seq<DepPart>
    decreases s.len(),
{
    if s.len() == 0 {
        Seq::empty()
    } else {
        entities_dep(s.drop_last()) + entity_dep_parts(s.last())
    }
}

/// The dependency that using each of the entities stands for.
pub fn entities_as_dep(v: &Vec<Entity>) -> (r: Dep)
    ensures
        r@ == entities_dep(entity_views(v@)),
{
    let mut d = Dep::none();
    let mut i: usize = 0;
    while i < v.len()
        invariant
            i <= v.len(),
            d@ == entities_dep(entity_views(v@.subrange(0, i as int))),
        decreases v.len() - i,
    {
        d.add(&v[i].as_dep());
        i = i + 1;
        proof {
            let s = entity_views(v@.subrange(0, i as int));
            assert(s.drop_last() =~= entity_views(v@.subrange(0, i - 1)));
        }
    }
    proof {
        assert(v@.subrange(0, v@.len() as int) =~= v@);
    }
    d
}

/// `undefined`, with no dependency.
pub open spec fn undefined_view() -> EntityView {
    EntityView { values: seq![Value::Literal(LiteralValue::Undefined)], dep: Seq::empty() }
}

/// Whether `e` is the value of `length` for an array with these elements:
/// the number of elements when there are no further elements, and any
/// number depending on the further elements otherwise.
pub open spec fn is_length_view(e: EntityView, elems: Seq<EntityView>, rest: Seq<EntityView>) -> bool {
    if rest.len() == 0 {
        &&& e.dep.len() == 0
        &&& e.values.len() == 1
        &&& e.values[0] matches Value::Literal(LiteralValue::Number(j, None))
        &&& j.bits == index_bits(elems.len())
        &&& j.text@ == decimal_text(elems.len())
    } else {
        e == EntityView { values: seq![Value::Primitive(PrimitiveValue::Number)], dep: entities_dep(rest) }
    }
}

/// The values that reading the given string keys of an array gives, key by
/// key: an element for an index it has, the further elements and
/// `undefined` (once) for an index past them, the length for `length`, and
/// the prototype's entry (or the unmatched marker) for any other key.
pub open spec fn get_results(
    elems: Seq<EntityView>,
    rest: Seq<EntityView>,
    proto: Map<Seq<char>, EntityView>,
    length: EntityView,
    keys: Seq<Seq<char>>,
    rest_added: bool,
) -> Seq<EntityView>
    decreases keys.len(),
{
    if keys.len() == 0 {
        Seq::empty()
    } else {
        let k = keys[0];
        let tail = keys.skip(1);
        match parse_usize_spec(k) {
            Some(i) => if i < elems.len() {
                seq![elems[i as int]] + get_results(elems, rest, proto, length, tail, rest_added)
            } else if !rest_added {
                rest.push(undefined_view()) + get_results(elems, rest, proto, length, tail, true)
            } else {
                get_results(elems, rest, proto, length, tail, true)
            },
            None => if k == "length"@ {
                seq![length] + get_results(elems, rest, proto, length, tail, rest_added)
            } else if proto.contains_key(k) {
                seq![proto[k]] + get_results(elems, rest, proto, length, tail, rest_added)
            } else {
                seq![unmatched_view()] + get_results(elems, rest, proto, length, tail, rest_added)
            },
        }
    }
}

/// The texts of a key that can only be string literals.
pub open spec fn key_texts(key: EntityView) -> Seq<Seq<char>> {
    key.values.map_values(|v: Value| v->Literal_0->String_0@)
}

/// The texts of string literals.
pub open spec fn string_keys(ls: Seq<LiteralValue>) -> Seq<Seq<char>> {
    ls.map_values(|l: LiteralValue| l->String_0@)
}

/// Whether every literal that a value may be is a string.
pub open spec fn literal_keys_are_strings(key: EntityView) -> bool {
    (forall|i: int| 0 <= i < key.values.len() ==> #[trigger] key.values[i] is Literal) ==> forall|i: int|
        0 <= i < key.values.len() ==> (#[trigger] key.values[i])->Literal_0 is String
}

impl ArrayValue {
    /// The entity that refers to this array.
    pub open spec fn self_view(&self) -> EntityView {
        EntityView { values: seq![Value::Array(self.object_id)], dep: Seq::empty() }
    }

    /// The elements as entity views.
    pub open spec fn elems(&self) -> Seq<EntityView> {
        entity_views(self.elements@)
    }

    /// The further elements as entity views.
    pub open spec fn rests(&self) -> Seq<EntityView> {
        entity_views(self.rest@)
    }

    /// The request that reading any property of this array makes.
    pub open spec fn read_all_effect(&self) -> EffectView {
        EffectView::TrackRead(self.cf_scope, ReadWriteTargetView::ObjectAll(self.object_id))
    }

    /// The value a property read gives on an array that is not consumed:
    /// unknown while mutations with unknown effect are pending; per key when
    /// the key is known (see `get_results`); unknown, depending on every
    /// element, otherwise.
    pub open spec fn read_post(
        &self,
        proto: Map<Seq<char>, EntityView>,
        dep: Seq<DepPart>,
        key: EntityView,
        r: EntityView,
    ) -> bool {
        let key_dep = entity_dep_parts(key);
        if !self.deps.is_empty_spec() {
            r == (EntityView { values: seq![Value::Unknown], dep: entity_dep_parts(self.self_view()) + dep + key_dep })
        } else if crate::entity::all_literals(key.values) {
            exists|le: EntityView|
                #[trigger] is_length_view(le, self.elems(), self.rests()) && {
                    let res = get_results(self.elems(), self.rests(), proto, le, key_texts(key), false);
                    r == (EntityView { values: union_values(res), dep: union_deps(res) + dep + key_dep })
                }
        } else {
            r == (EntityView {
                values: seq![Value::Unknown],
                dep: entities_dep(self.elems()) + entities_dep(self.rests()) + dep + key_dep,
            })
        }
    }

    /// The entity that refers to this array.
    pub fn self_entity(&self) -> (r: Entity)
        ensures
            r@ == self.self_view(),
    {
        Entity::from_value(Value::Array(self.object_id))
    }

    /// An empty array created in the given control-flow scope.
    pub fn new_empty(cf_scope: u64, object_id: u64) -> (r: ArrayValue)
        ensures
            !r.consumed,
            r.deps.current@.len() == 0,
            r.deps.node is None,
            r.cf_scope == cf_scope,
            r.object_id == object_id,
            r.elements@.len() == 0,
            r.rest@.len() == 0,
    {
        ArrayValue {
            consumed: false,
            deps: DepCollector::new(Vec::new()),
            cf_scope,
            object_id,
            elements: Vec::new(),
            rest: Vec::new(),
        }
    }

    /// Appends an element: a known element while no further elements are
    /// held, another further element otherwise.
    pub fn push_element(&mut self, element: Entity)
        ensures
            old(self).rest@.len() == 0 ==> final(self).elems() == old(self).elems().push(element@)
                && final(self).rests() == old(self).rests(),
            old(self).rest@.len() != 0 ==> final(self).elems() == old(self).elems()
                && final(self).rests() == old(self).rests().push(element@),
            final(self).consumed == old(self).consumed,
            final(self).deps == old(self).deps,
            final(self).object_id == old(self).object_id,
            final(self).cf_scope == old(self).cf_scope,
    {
        if self.rest.len() == 0 {
            self.elements.push(element);
            proof {
                assert(self.elems() =~= old(self).elems().push(element@));
            }
        } else {
            self.init_rest(element);
        }
    }

    /// Adds a value standing for further elements.
    pub fn init_rest(&mut self, rest: Entity)
        ensures
            final(self).elems() == old(self).elems(),
            final(self).rests() == old(self).rests().push(rest@),
            final(self).elements@ == old(self).elements@,
            final(self).consumed == old(self).consumed,
            final(self).deps == old(self).deps,
            final(self).object_id == old(self).object_id,
            final(self).cf_scope == old(self).cf_scope,
    {
        self.rest.push(rest);
        proof {
            assert(self.rests() =~= old(self).rests().push(rest@));
        }
    }

    /// The length, when it is known: when there are no further elements.
    pub fn get_length(&self) -> (r: Option<usize>)
        ensures
            self.rest@.len() == 0 ==> r == Some(self.elements@.len() as usize),
            self.rest@.len() != 0 ==> r is None,
    {
        if self.rest.len() == 0 {
            Some(self.elements.len())
        } else {
            None
        }
    }

    /// The value of `length`.
    fn length_entity(&self) -> (r: Entity)
        requires
            self.elements@.len() < EXACT_INTEGER_LIMIT,
        ensures
            is_length_view(r@, self.elems(), self.rests()),
    {
        if self.rest.len() == 0 {
            let length = self.elements.len();
            proof {
                assert(self.elems().len() == length);
            }
            Entity::number(JsNumber::from_index(length as u64))
        } else {
            let e = Entity::from_value(Value::Primitive(PrimitiveValue::Number));
            let d = entities_as_dep(&self.rest);
            let r = e.computed(&d);
            proof {
                assert(r.dep@ =~= d@);
                assert(r@ =~= (EntityView { values: seq![Value::Primitive(PrimitiveValue::Number)], dep: entities_dep(self.rests()) }));
            }
            r
        }
    }

    /// Reads a property.
    pub fn get_property(&mut self, analyzer: &mut Analyzer, proto: &BuiltinPrototype, dep: &Dep, key: &Entity) -> (r: Entity)
        requires
            literal_keys_are_strings(key@),
            old(self).elements@.len() < EXACT_INTEGER_LIMIT,
        ensures
            old(self).consumed ==> *final(self) == *old(self) && consumed_object::get_property_post(
                old(analyzer)@,
                final(analyzer)@,
                old(self).self_view(),
                dep@,
                key@,
                r@,
            ),
            !old(self).consumed ==> final(analyzer)@ == old(analyzer)@.log(old(self).read_all_effect()),
            !old(self).consumed ==> old(self).read_post(proto.strings(), dep@, key@, r@),
            final(self).elems() == old(self).elems(),
            final(self).rests() == old(self).rests(),
            final(self).consumed == old(self).consumed,
    {
        if self.consumed {
            return consumed_object::get_property(&self.self_entity(), analyzer, dep, key);
        }
        analyzer.record(Effect::TrackRead(self.cf_scope, ReadWriteTarget::ObjectAll(self.object_id)));
        if !self.deps.is_empty() {
            let d = crate::value::dep3(&self.self_entity().as_dep(), dep, &key.as_dep());
            let r = Entity::computed_unknown(d);
            proof {
                assert(r@ =~= (EntityView { values: seq![Value::Unknown], dep: entity_dep_parts(old(self).self_view()) + dep@ + key.as_dep_spec() }));
            }
            return r;
        }
        let collected = self.deps.collect();
        let d = crate::value::dep3(&collected, dep, &key.as_dep());
        proof {
            assert(collected@ =~= Seq::<DepPart>::empty());
            assert(d@ =~= dep@ + key.as_dep_spec());
        }
        match key.get_to_literals() {
            Some(key_literals) => {
                let length = self.length_entity();
                let ghost keys = key_texts(key@);
                let mut result: Vec<Entity> = Vec::new();
                let mut rest_added = false;
                let mut i: usize = 0;
                proof {
                    assert(keys.skip(0) =~= keys);
                    assert(entity_views(result@) =~= Seq::<EntityView>::empty());
                }
                while i < key_literals.len()
                    invariant
                        key_literals@.len() == key@.values.len(),
                        forall|j: int| 0 <= j < key_literals@.len() ==> key@.values[j] == Value::Literal(#[trigger] key_literals@[j]),
                        literal_keys_are_strings(key@),
                        crate::entity::all_literals(key@.values),
                        keys == key_texts(key@),
                        i <= key_literals@.len(),
                        self.elems() == old(self).elems(),
                        self.rests() == old(self).rests(),
                        is_length_view(length@, self.elems(), self.rests()),
                        entity_views(result@) + get_results(self.elems(), self.rests(), proto.strings(), length@, keys.skip(i as int), rest_added) == get_results(self.elems(), self.rests(), proto.strings(), length@, keys, false),
                    decreases key_literals@.len() - i,
                {
                    let ghost before = entity_views(result@);
                    let ghost k = keys[i as int];
                    let ghost tail = keys.skip(i + 1);
                    proof {
                        assert(keys.skip(i as int).skip(1) =~= tail);
                        assert(keys.skip(i as int)[0] == k);
                        assert(key@.values[i as int] is Literal);
                    }
                    let key_str: &String = match &key_literals[i] {
                        LiteralValue::String(s, _) => s,
                        _ => {
                            proof {
                                assert(false);
                            }
                            return Entity::never();
                        },
                    };
                    proof {
                        assert(key_str@ == k);
                    }
                    match parse_usize(key_str.as_str()) {
                        Some(index) => {
                            if index < self.elements.len() {
                                result.push(self.elements[index].clone());
                                proof {
                                    assert(entity_views(result@) =~= before + seq![self.elems()[index as int]]);
                                }
                            } else if !rest_added {
                                rest_added = true;
                                let mut j: usize = 0;
                                while j < self.rest.len()
                                    invariant
                                        j <= self.rest@.len(),
                                        entity_views(result@) == before + self.rests().subrange(0, j as int),
                                    decreases self.rest@.len() - j,
                                {
                                    let c = self.rest[j].clone();
                                    proof {
                                        crate::value::lemma_views_push(result@, c);
                                    }
                                    result.push(c);
                                    j = j + 1;
                                    proof {
                                        assert(entity_views(result@) =~= before + self.rests().subrange(0, j as int));
                                    }
                                }
                                let u = Entity::undefined();
                                proof {
                                    crate::value::lemma_views_push(result@, u);
                                }
                                result.push(u);
                                proof {
                                    assert(self.rests().subrange(0, self.rests().len() as int) =~= self.rests());
                                    assert(entity_views(result@) =~= before + self.rests().push(undefined_view()));
                                }
                            }
                        },
                        None => {
                            proof {
                                reveal_strlit("length");
                            }
                            if str_eq(key_str.as_str(), "length") {
                                result.push(length.clone());
                                proof {
                                    assert(entity_views(result@) =~= before + seq![length@]);
                                }
                            } else {
                                match proto.get_string_keyed(key_str.as_str()) {
                                    Some(property) => {
                                        result.push(property);
                                        proof {
                                            assert(entity_views(result@) =~= before + seq![proto.strings()[k]]);
                                        }
                                    },
                                    None => {
                                        result.push(Entity::from_value(Value::UnmatchedPrototypeProperty));
                                        proof {
                                            assert(entity_views(result@) =~= before + seq![unmatched_view()]);
                                        }
                                    },
                                }
                            }
                        },
                    }
                    i = i + 1;
                }
                proof {
                    assert(keys.skip(key_literals@.len() as int) =~= Seq::<Seq<char>>::empty());
                    assert(entity_views(result@) =~= get_results(self.elems(), self.rests(), proto.strings(), length@, keys, false));
                    assert(is_length_view(length@, old(self).elems(), old(self).rests()));
                }
                let u = union_all(&result);
                let r = u.computed(&d);
                proof {
                    let res = get_results(old(self).elems(), old(self).rests(), proto.strings(), length@, keys, false);
                    assert(r.dep@ =~= union_deps(res) + dep@ + key.as_dep_spec());
                    assert(r@ =~= (EntityView { values: union_values(res), dep: union_deps(res) + dep@ + key.as_dep_spec() }));
                }
                r
            },
            None => {
                let d2 = entities_as_dep(&self.elements).join(&entities_as_dep(&self.rest)).join(&d);
                let r = Entity::computed_unknown(d2);
                proof {
                    assert(r@ =~= (EntityView {
                        values: seq![Value::Unknown],
                        dep: entities_dep(old(self).elems()) + entities_dep(old(self).rests()) + dep@ + key.as_dep_spec(),
                    }));
                }
                r
            },
        }
    }
}

/// The requests that consuming each of a sequence of entities makes.
pub open spec fn consume_entities_effects(s: Seq<EntityView>) -> Seq<EffectView> {
    s.map_values(|e: EntityView| EffectView::Consume(entity_dep_parts(e)))
}

/// Consumes each of the entities, in order.
pub fn consume_entities(v: &Vec<Entity>, analyzer: &mut Analyzer)
    ensures
        final(analyzer)@ == old(analyzer)@.log_all(consume_entities_effects(entity_views(v@))),
{
    let mut i: usize = 0;
    while i < v.len()
        invariant
            i <= v.len(),
            analyzer@ == old(analyzer)@.log_all(consume_entities_effects(entity_views(v@.subrange(0, i as int)))),
        decreases v.len() - i,
    {
        analyzer.consume(v[i].as_dep());
        i = i + 1;
        proof {
            assert(consume_entities_effects(entity_views(v@.subrange(0, i as int))) =~= consume_entities_effects(
                entity_views(v@.subrange(0, i - 1)),
            ).push(EffectView::Consume(entity_dep_parts(v@[i - 1]@))));
            assert(analyzer@.effects =~= old(analyzer)@.effects + consume_entities_effects(entity_views(v@.subrange(0, i as int))));
        }
    }
    proof {
        assert(v@.subrange(0, v@.len() as int) =~= v@);
    }
}

/// Whether some scope from `from` up is exhaustive.
pub open spec fn any_exhaustive(stack: Seq<CfScopeView>, from: int) -> bool {
    exists|d: int| from <= d < stack.len() && #[trigger] stack[d].exhaustive
}

/// Whether some scope from `from` up runs only possibly.
pub open spec fn any_indeterminate(stack: Seq<CfScopeView>, from: int) -> bool {
    exists|d: int| from <= d < stack.len() && #[trigger] stack[d].indeterminate
}

/// The dependencies of the scopes from `from` up to `to`, in order.
pub open spec fn scopes_deps(stack: Seq<CfScopeView>, from: int, to: int) -> Seq<DepPart>
    decreases to - from,
{
    if to <= from {
        Seq::empty()
    } else {
        scopes_deps(stack, from, to - 1) + stack[to - 1].deps
    }
}

/// The scope after its pending dependencies were folded into its node.
pub open spec fn folded(c: CfScopeView) -> CfScopeView {
    CfScopeView { has_node: c.has_node || c.pending > 0, pending: 0, ..c }
}

/// The stack after the scopes from `from` up had their dependencies folded.
pub open spec fn fold_from(stack: Seq<CfScopeView>, from: int) -> Seq<CfScopeView> {
    Seq::new(stack.len(), |d: int| if d >= from { folded(stack[d]) } else { stack[d] })
}

/// How a mutation of an object in scope `cf_scope` is carried out: the
/// depth of the first scope the object does not share, whether a scope from
/// there up is exhaustive, whether one runs only possibly, and the
/// dependencies that decide whether the mutation happens.
pub struct Mutation {
    pub target_depth: usize,
    pub is_exhaustive: bool,
    pub indeterminate: bool,
    pub exec_deps: Dep,
}

impl ArrayValue {
    /// The request that writing to this array makes.
    pub open spec fn write_effects(&self, stack: Seq<CfScopeView>) -> Seq<EffectView> {
        let t = first_different_depth(stack, self.cf_scope);
        seq![
            EffectView::TrackWrite(t as usize, ReadWriteTargetView::ObjectAll(self.object_id)),
            EffectView::RequestExhaustiveCallbacks(ReadWriteTargetView::ObjectAll(self.object_id)),
        ]
    }

    /// Collects, from the scopes this array does not share, whether the
    /// mutation is exhaustive or indeterminate and what it depends on, and
    /// records the write.
    pub fn prepare_mutation(&self, analyzer: &mut Analyzer, dep: &Dep) -> (r: Mutation)
        ensures
            ({
                let stack = old(analyzer)@.cf_stack;
                let t = first_different_depth(stack, self.cf_scope) as int;
                &&& r.target_depth == t
                &&& r.is_exhaustive == any_exhaustive(stack, t)
                &&& r.indeterminate == any_indeterminate(stack, t)
                &&& r.exec_deps@ == dep@ + scopes_deps(stack, t, stack.len() as int)
                &&& final(analyzer)@ == (AnalyzerView { cf_stack: fold_from(stack, t), ..old(analyzer)@.log_all(self.write_effects(stack)) })
            }),
    {
        let ghost stack = analyzer@.cf_stack;
        let m = prepare_scopes(analyzer, self.cf_scope, dep);
        analyzer.record(Effect::TrackWrite(m.target_depth, ReadWriteTarget::ObjectAll(self.object_id)));
        analyzer.record(Effect::RequestExhaustiveCallbacks(ReadWriteTarget::ObjectAll(self.object_id)));
        proof {
            assert(analyzer@.effects =~= old(analyzer)@.effects + self.write_effects(stack));
            assert(analyzer@ =~= (AnalyzerView { cf_stack: fold_from(stack, m.target_depth as int), ..old(analyzer)@.log_all(self.write_effects(stack)) }));
        }
        m
    }
}

/// Collects, from the scopes above the one with id `cf_scope`, whether a
/// mutation there is exhaustive or indeterminate and what it depends on.
pub fn prepare_scopes(analyzer: &mut Analyzer, cf_scope: u64, dep: &Dep) -> (r: Mutation)
    ensures
        ({
            let stack = old(analyzer)@.cf_stack;
            let t = first_different_depth(stack, cf_scope) as int;
            &&& r.target_depth == t
            &&& r.is_exhaustive == any_exhaustive(stack, t)
            &&& r.indeterminate == any_indeterminate(stack, t)
            &&& r.exec_deps@ == dep@ + scopes_deps(stack, t, stack.len() as int)
            &&& final(analyzer)@ == (AnalyzerView { cf_stack: fold_from(stack, t), ..old(analyzer)@ })
        }),
{
    let target_depth = analyzer.find_first_different_cf_scope(cf_scope);
    let ghost stack = analyzer@.cf_stack;
    let mut is_exhaustive = false;
    let mut indeterminate = false;
    let mut exec_deps = dep.clone();
    let n = analyzer.cf_stack.len();
    let mut depth = target_depth;
    while depth < n
        invariant
            n == stack.len(),
            target_depth <= depth <= n,
            analyzer@.cf_stack.len() == n,
            analyzer@.effects == old(analyzer)@.effects,
            analyzer@.config == old(analyzer)@.config,
            analyzer@.next_atom == old(analyzer)@.next_atom,
            analyzer@.inside_pure == old(analyzer)@.inside_pure,
            forall|d: int| 0 <= d < n ==> #[trigger] analyzer@.cf_stack[d] == (if target_depth <= d < depth { folded(stack[d]) } else { stack[d] }),
            is_exhaustive == exists|d: int| target_depth <= d < depth && #[trigger] stack[d].exhaustive,
            indeterminate == exists|d: int| target_depth <= d < depth && #[trigger] stack[d].indeterminate,
            exec_deps@ == dep@ + scopes_deps(stack, target_depth as int, depth as int),
        decreases n - depth,
    {
        is_exhaustive = is_exhaustive || analyzer.cf_stack[depth].exhaustive;
        indeterminate = indeterminate || analyzer.cf_stack[depth].indeterminate;
        let mut scope = CfScope { id: 0, exhaustive: false, indeterminate: false, deps: DepCollector::new(Vec::new()) };
        let ghost v0 = analyzer.cf_stack@;
        let ghost a0 = analyzer@.cf_stack;
        proof {
            assert(a0[depth as int] == stack[depth as int]);
            assert(a0[depth as int] == v0[depth as int]@);
        }
        std::mem::swap(&mut scope, &mut analyzer.cf_stack[depth]);
        let ghost before = scope@;
        proof {
            assert(scope == v0[depth as int]);
            assert(before == stack[depth as int]);
        }
        let collected = scope.deps.try_collect();
        proof {
            assert(scope@ == folded(before));
        }
        let ghost v1 = analyzer.cf_stack@;
        std::mem::swap(&mut scope, &mut analyzer.cf_stack[depth]);
        proof {
            assert(analyzer.cf_stack@ == v1.update(depth as int, analyzer.cf_stack@[depth as int]));
            assert(analyzer.cf_stack@[depth as int]@ == folded(before));
            assert forall|d: int| 0 <= d < n implies #[trigger] analyzer@.cf_stack[d] == (if target_depth <= d < depth + 1 { folded(stack[d]) } else { stack[d] }) by {
                if d != depth {
                    assert(analyzer.cf_stack@[d] == v0[d]);
                    assert(a0[d] == (if target_depth <= d < depth { folded(stack[d]) } else { stack[d] }));
                }
            }
        }
        if let Some(d) = collected {
            exec_deps.add(&d);
        }
        proof {
            assert(analyzer@.cf_stack[depth as int] == folded(stack[depth as int]));
            assert(scopes_deps(stack, target_depth as int, depth + 1) == scopes_deps(stack, target_depth as int, depth as int) + stack[depth as int].deps);
            assert(exec_deps@ =~= dep@ + scopes_deps(stack, target_depth as int, depth + 1));
        }
        depth = depth + 1;
    }
    proof {
        assert(analyzer@.cf_stack =~= fold_from(stack, target_depth as int));
    }
    Mutation { target_depth, is_exhaustive, indeterminate, exec_deps }
}

/// Whether collector `b` is collector `a` with one more pending dependency
/// with parts `d`.
pub open spec fn pushed_dep(a: DepCollector, b: DepCollector, d: Seq<DepPart>) -> bool {
    &&& b.current@.len() == a.current@.len() + 1
    &&& b.current@.drop_last() == a.current@
    &&& b.current@.last()@ == d
    &&& b.node == a.node
}

/// The union of two entities.
pub open spec fn union_view(a: EntityView, b: EntityView) -> EntityView {
    EntityView { values: a.values + b.values, dep: a.dep + b.dep }
}

/// The state of a property write on an array as it goes through the keys.
pub struct WriteState {
    pub elems: Seq<EntityView>,
    pub rest: Seq<EntityView>,
    pub rest_added: bool,
    pub has_effect: bool,
    /// A key that is neither an index nor `length` was met.
    pub unknown: bool,
    /// The number of invalid lengths reported.
    pub errors: nat,
}

/// What the new value converts to as an array length: `None` when it has
/// no known number, `Some(None)` when it is `NaN`, `Some(Some(n))` for the
/// truncated number `n`.
pub type LengthValue = Option<Option<usize>>;

/// Writing `value` to one string key.
pub open spec fn write_key(
    st: WriteState,
    k: Seq<char>,
    value: EntityView,
    definite: bool,
    lv: LengthValue,
    preserve: bool,
) -> WriteState {
    match parse_usize_spec(k) {
        Some(i) => if i < st.elems.len() {
            WriteState {
                elems: st.elems.update(i as int, if definite { value } else { union_view(st.elems[i as int], value) }),
                has_effect: true,
                ..st
            }
        } else if !st.rest_added {
            WriteState { rest: st.rest.push(value), rest_added: true, has_effect: true, ..st }
        } else {
            WriteState { has_effect: true, ..st }
        },
        None => if k == "length"@ {
            match lv {
                Some(Some(len)) => if st.elems.len() > len {
                    WriteState { elems: st.elems.subrange(0, len as int), rest: Seq::empty(), has_effect: true, ..st }
                } else if st.rest.len() > 0 {
                    WriteState { rest: st.rest.push(undefined_view()), has_effect: true, ..st }
                } else if st.elems.len() < len {
                    WriteState {
                        elems: st.elems + Seq::new((len - st.elems.len()) as nat, |i: int| undefined_view()),
                        has_effect: true,
                        ..st
                    }
                } else {
                    st
                },
                Some(None) => WriteState { errors: st.errors + 1, has_effect: preserve, ..st },
                None => WriteState { has_effect: true, ..st },
            }
        } else {
            WriteState { unknown: true, ..st }
        },
    }
}

/// Writing `value` to the keys in order, stopping at the first key that is
/// neither an index nor `length`.
pub open spec fn write_keys(
    st: WriteState,
    keys: Seq<Seq<char>>,
    value: EntityView,
    definite: bool,
    lv: LengthValue,
    preserve: bool,
) -> WriteState
    decreases keys.len(),
{
    if keys.len() == 0 || st.unknown {
        st
    } else {
        write_keys(write_key(st, keys[0], value, definite, lv, preserve), keys.skip(1), value, definite, lv, preserve)
    }
}

/// The requests for the invalid lengths met.
pub open spec fn length_errors(n: nat) -> Seq<EffectView> {
    Seq::new(n, |i: int| EffectView::BuiltinError("Invalid array length"@))
}

impl ArrayValue {
    /// The requests that consuming this (not yet consumed) array makes.
    pub open spec fn consume_effects(&self, stack: Seq<CfScopeView>) -> Seq<EffectView> {
        self.deps.consume_all_effects() + consume_entities_effects(self.elems()) + consume_entities_effects(
            self.rests(),
        ) + seq![EffectView::TrackWrite(first_different_depth(stack, self.cf_scope) as usize, ReadWriteTargetView::ObjectAll(self.object_id))]
    }

    /// Consumes the array: everything it holds and its pending mutations;
    /// only the first time.
    pub fn consume(&mut self, analyzer: &mut Analyzer)
        ensures
            old(self).consumed ==> *final(self) == *old(self) && final(analyzer)@ == old(analyzer)@,
            !old(self).consumed ==> final(self).consumed && final(self).elems() == old(self).elems()
                && final(self).rests() == old(self).rests() && final(self).deps == old(self).deps
                && final(self).object_id == old(self).object_id && final(self).cf_scope == old(self).cf_scope
                && final(analyzer)@ == old(analyzer)@.log_all(old(self).consume_effects(old(analyzer)@.cf_stack)),
    {
        if self.consumed {
            return;
        }
        self.consumed = true;
        self.deps.consume_all(analyzer);
        consume_entities(&self.elements, analyzer);
        consume_entities(&self.rest, analyzer);
        let target_depth = analyzer.find_first_different_cf_scope(self.cf_scope);
        analyzer.record(Effect::TrackWrite(target_depth, ReadWriteTarget::ObjectAll(self.object_id)));
        proof {
            assert(analyzer@.effects =~= old(analyzer)@.effects + old(self).consume_effects(old(analyzer)@.cf_stack));
        }
    }

    /// Mutates the array in an unknown way.
    pub fn unknown_mutate(&mut self, analyzer: &mut Analyzer, dep: Dep)
        ensures
            old(self).consumed ==> *final(self) == *old(self) && final(analyzer)@ == old(analyzer)@.log(
                EffectView::ReferGlobal,
            ).log(EffectView::Consume(dep@)),
            !old(self).consumed ==> ({
                let stack = old(analyzer)@.cf_stack;
                let t = first_different_depth(stack, old(self).cf_scope) as int;
                let a1 = (AnalyzerView { cf_stack: fold_from(stack, t), ..old(analyzer)@.log_all(old(self).write_effects(stack)) });
                if any_exhaustive(stack, t) {
                    &&& final(self).consumed
                    &&& final(self).elems() == old(self).elems() && final(self).rests() == old(self).rests()
                    &&& final(analyzer)@ == a1.log_all(old(self).consume_effects(a1.cf_stack)).log(
                        EffectView::ReferGlobal,
                    ).log(EffectView::Consume(dep@))
                } else {
                    &&& final(analyzer)@ == a1
                    &&& !final(self).consumed
                    &&& final(self).elems() == old(self).elems() && final(self).rests() == old(self).rests()
                    &&& pushed_dep(old(self).deps, final(self).deps, dep@ + scopes_deps(stack, t, stack.len() as int) + dep@)
                    &&& final(self).deps.node == old(self).deps.node
                }
            }),
    {
        if self.consumed {
            consumed_object::unknown_mutate(analyzer, dep);
            return;
        }
        let m = self.prepare_mutation(analyzer, &dep);
        if m.is_exhaustive {
            self.consume(analyzer);
            consumed_object::unknown_mutate(analyzer, dep);
            return;
        }
        let pushed = m.exec_deps.join(&dep);
        self.push_dep(pushed);
    }

    /// Records a mutation whose effect is not known exactly.
    fn push_dep(&mut self, d: Dep)
        ensures
            final(self).deps.current@ == old(self).deps.current@.push(d),
            final(self).deps.node == old(self).deps.node,
            pushed_dep(old(self).deps, final(self).deps, d@),
            final(self).elements == old(self).elements,
            final(self).rest == old(self).rest,
            final(self).consumed == old(self).consumed,
            final(self).object_id == old(self).object_id,
            final(self).cf_scope == old(self).cf_scope,
    {
        self.deps.push(d);
        proof {
            assert(self.deps.current@.drop_last() =~= old(self).deps.current@);
        }
    }
}

impl ArrayValue {
    /// What writing `value` to `key` does to an array that is not consumed,
    /// given the analyzer state `a0` before it and `a1` after it.
    pub open spec fn write_post(
        &self,
        new: ArrayValue,
        a0: AnalyzerView,
        a1: AnalyzerView,
        dep: Seq<DepPart>,
        key: EntityView,
        value: EntityView,
        lv: LengthValue,
    ) -> bool {
        let stack = a0.cf_stack;
        let t = first_different_depth(stack, self.cf_scope) as int;
        let exec_deps = dep + scopes_deps(stack, t, stack.len() as int);
        let a_mut = (AnalyzerView { cf_stack: fold_from(stack, t), ..a0.log_all(self.write_effects(stack)) });
        let unknown_dep = exec_deps + entity_dep_parts(key) + entity_dep_parts(value);
        if any_exhaustive(stack, t) {
            &&& new.consumed
            &&& new.elems() == self.elems() && new.rests() == self.rests()
            &&& a1 == a_mut.log_all(self.consume_effects(a_mut.cf_stack)).log(EffectView::ReferGlobal).log(
                EffectView::Consume(dep + entity_dep_parts(key) + entity_dep_parts(value)),
            )
        } else if !self.deps.is_empty_spec() || !crate::entity::all_literals(key.values) {
            &&& !new.consumed
            &&& a1 == a_mut
            &&& new.elems() == self.elems() && new.rests() == self.rests()
            &&& pushed_dep(self.deps, new.deps, unknown_dep)
        } else {
            let definite = !any_indeterminate(stack, t) && key.values.len() == 1;
            let init = WriteState {
                elems: self.elems(),
                rest: self.rests(),
                rest_added: false,
                has_effect: false,
                unknown: false,
                errors: 0,
            };
            let st = write_keys(init, key_texts(key), value, definite, lv, a0.config.preserve_exceptions);
            &&& !new.consumed
            &&& new.elems() == st.elems && new.rests() == st.rest
            &&& a1 == a_mut.log_all(length_errors(st.errors))
            &&& if st.unknown {
                pushed_dep(self.deps, new.deps, unknown_dep)
            } else if st.has_effect {
                pushed_dep(self.deps, new.deps, exec_deps)
            } else {
                new.deps == self.deps
            }
        }
    }

    /// Writes `value` to the property `key`. `length_value` is what `value`
    /// converts to as an array length (used when `key` may be `length`).
    pub fn set_property(&mut self, analyzer: &mut Analyzer, dep: &Dep, key: &Entity, value: &Entity, length_value: LengthValue)
        requires
            literal_keys_are_strings(key@),
        ensures
            old(self).consumed ==> *final(self) == *old(self) && final(analyzer)@ == old(analyzer)@.log(
                EffectView::ReferGlobal,
            ).log(EffectView::Consume(dep@ + key.as_dep_spec() + value.as_dep_spec())),
            !old(self).consumed ==> old(self).write_post(*final(self), old(analyzer)@, final(analyzer)@, dep@, key@, value@, length_value),
            final(self).object_id == old(self).object_id,
            final(self).cf_scope == old(self).cf_scope,
    {
        if self.consumed {
            consumed_object::set_property(analyzer, dep, key, value);
            return;
        }
        let ghost a0 = analyzer@;
        let m = self.prepare_mutation(analyzer, dep);
        if m.is_exhaustive {
            self.consume(analyzer);
            consumed_object::set_property(analyzer, dep, key, value);
            return;
        }
        let ghost a_mut = analyzer@;
        let unknown_dep = crate::value::dep3(&m.exec_deps, &key.as_dep(), &value.as_dep());
        if !self.deps.is_empty() {
            self.push_dep(unknown_dep);
            return;
        }
        let key_literals = match key.get_to_literals() {
            Some(ls) => ls,
            None => {
                self.push_dep(unknown_dep);
                return;
            },
        };
        let definite = !m.indeterminate && key_literals.len() == 1;
        let ghost keys = key_texts(key@);
        let ghost init = WriteState {
            elems: self.elems(),
            rest: self.rests(),
            rest_added: false,
            has_effect: false,
            unknown: false,
            errors: 0,
        };
        let ghost preserve = analyzer.config.preserve_exceptions;
        let mut rest_added = false;
        let mut has_effect = false;
        let mut unknown = false;
        let ghost mut errors: nat = 0;
        let mut i: usize = 0;
        proof {
            assert(keys.skip(0) =~= keys);
        }
        #[verifier::loop_isolation(false)]
        while i < key_literals.len()
            invariant
                key_literals@.len() == key@.values.len(),
                forall|j: int| 0 <= j < key_literals@.len() ==> key@.values[j] == Value::Literal(#[trigger] key_literals@[j]),
                literal_keys_are_strings(key@),
                crate::entity::all_literals(key@.values),
                keys == key_texts(key@),
                i <= key_literals@.len(),
                !unknown,
                !self.consumed,
                self.deps == old(self).deps,
                self.object_id == old(self).object_id,
                self.cf_scope == old(self).cf_scope,
                preserve == analyzer@.config.preserve_exceptions,
                analyzer@ == a_mut.log_all(length_errors(errors)),
                write_keys(
                    WriteState { elems: self.elems(), rest: self.rests(), rest_added, has_effect, unknown, errors },
                    keys.skip(i as int), value@, definite, length_value, preserve,
                ) == write_keys(init, keys, value@, definite, length_value, preserve),
            decreases key_literals@.len() - i,
        {
            let ghost st = WriteState { elems: self.elems(), rest: self.rests(), rest_added, has_effect, unknown, errors };
            let ghost k = keys[i as int];
            proof {
                assert(keys.skip(i as int).skip(1) =~= keys.skip(i + 1));
                assert(keys.skip(i as int)[0] == k);
                assert(key@.values[i as int] is Literal);
            }
            let key_str: &String = match &key_literals[i] {
                LiteralValue::String(s, _) => s,
                _ => {
                    proof {
                        assert(false);
                    }
                    return;
                },
            };
            proof {
                assert(key_str@ == k);
            }
            match parse_usize(key_str.as_str()) {
                Some(index) => {
                    has_effect = true;
                    if index < self.elements.len() {
                        let new_value = if definite {
                            value.clone()
                        } else {
                            self.elements[index].union(value)
                        };
                        let ghost ne = new_value@;
                        self.elements.set(index, new_value);
                        proof {
                            assert(self.elems() =~= st.elems.update(index as int, ne));
                        }
                    } else if !rest_added {
                        rest_added = true;
                        let v = value.clone();
                        proof {
                            crate::value::lemma_views_push(self.rest@, v);
                        }
                        self.rest.push(v);
                    }
                },
                None => {
                    proof {
                        reveal_strlit("length");
                        reveal_strlit("Invalid array length");
                    }
                    if str_eq(key_str.as_str(), "length") {
                        match length_value {
                            Some(Some(length)) => {
                                if self.elements.len() > length {
                                    has_effect = true;
                                    self.elements.truncate(length);
                                    self.rest.clear();
                                    proof {
                                        assert(self.elems() =~= st.elems.subrange(0, length as int));
                                        assert(self.rests() =~= Seq::<EntityView>::empty());
                                    }
                                } else if self.rest.len() != 0 {
                                    has_effect = true;
                                    let u = Entity::undefined();
                                    proof {
                                        crate::value::lemma_views_push(self.rest@, u);
                                    }
                                    self.rest.push(u);
                                } else if self.elements.len() < length {
                                    has_effect = true;
                                    let ghost start = self.elems();
                                    let ghost n0 = self.elements@.len();
                                    let ghost rest0 = self.rest;
                                    while self.elements.len() < length
                                        invariant
                                            n0 <= self.elements@.len() <= length,
                                            self.deps == old(self).deps,
                                            self.rest == rest0,
                                            !self.consumed,
                                            self.object_id == old(self).object_id,
                                            self.cf_scope == old(self).cf_scope,
                                            self.elems() == start + Seq::new((self.elements@.len() - n0) as nat, |i: int| undefined_view()),
                                        decreases length - self.elements@.len(),
                                    {
                                        let u = Entity::undefined();
                                        proof {
                                            crate::value::lemma_views_push(self.elements@, u);
                                        }
                                        self.elements.push(u);
                                        proof {
                                            assert(self.elems() =~= start + Seq::new((self.elements@.len() - n0) as nat, |i: int| undefined_view()));
                                        }
                                    }
                                }
                            },
                            Some(None) => {
                                analyzer.throw_builtin_error(String::from_str("Invalid array length"));
                                has_effect = analyzer.config.preserve_exceptions;
                                proof {
                                    errors = errors + 1;
                                    assert(analyzer@.effects =~= a_mut.effects + length_errors(errors));
                                }
                            },
                            None => {
                                has_effect = true;
                            },
                        }
                    } else {
                        unknown = true;
                    }
                },
            }
            proof {
                assert(WriteState { elems: self.elems(), rest: self.rests(), rest_added, has_effect, unknown, errors }
                    == write_key(st, k, value@, definite, length_value, preserve));
            }
            if unknown {
                proof {
                    let st2 = WriteState { elems: self.elems(), rest: self.rests(), rest_added, has_effect, unknown, errors };
                    assert(write_keys(st2, keys.skip(i + 1), value@, definite, length_value, preserve) == st2);
                }
                self.push_dep(unknown_dep);
                return;
            }
            i = i + 1;
        }
        proof {
            assert(keys.skip(key_literals@.len() as int) =~= Seq::<Seq<char>>::empty());
        }
        if has_effect {
            self.push_dep(m.exec_deps);
        }
    }
}

/// The enumerated entry for element `i` with value `e`.
pub open spec fn index_entry_ok(entry: (PropertyKeyValue, EnumeratedProperty), i: int, e: EntityView) -> bool {
    &&& entry.0@ == PropertyKeyView::String(decimal_text(i as nat))
    &&& entry.1.definite
    &&& entry.1.key.dep@.len() == 0
    &&& entry.1.key.values@.len() == 1
    &&& (entry.1.key.values@[0] matches Value::Literal(LiteralValue::String(s, None)) && s@ == decimal_text(i as nat))
    &&& entry.1.value@ == e
}

impl ArrayValue {
    /// Deletes a property: the effect is not tracked exactly.
    pub fn delete_property(&mut self, analyzer: &mut Analyzer, dep: &Dep, key: &Entity)
        ensures
            old(self).consumed ==> *final(self) == *old(self) && final(analyzer)@ == old(analyzer)@.log(
                EffectView::ReferGlobal,
            ).log(EffectView::Consume(dep@ + key.as_dep_spec())),
            !old(self).consumed ==> ({
                let stack = old(analyzer)@.cf_stack;
                let t = first_different_depth(stack, old(self).cf_scope) as int;
                let a1 = (AnalyzerView { cf_stack: fold_from(stack, t), ..old(analyzer)@.log_all(old(self).write_effects(stack)) });
                if any_exhaustive(stack, t) {
                    &&& final(self).consumed
                    &&& final(self).elems() == old(self).elems() && final(self).rests() == old(self).rests()
                    &&& final(analyzer)@ == a1.log_all(old(self).consume_effects(a1.cf_stack)).log(
                        EffectView::ReferGlobal,
                    ).log(EffectView::Consume(dep@ + key.as_dep_spec()))
                } else {
                    &&& final(analyzer)@ == a1
                    &&& !final(self).consumed
                    &&& final(self).elems() == old(self).elems() && final(self).rests() == old(self).rests()
                    &&& pushed_dep(old(self).deps, final(self).deps, dep@ + scopes_deps(stack, t, stack.len() as int) + key.as_dep_spec())
                }
            }),
    {
        if self.consumed {
            consumed_object::delete_property(analyzer, dep, key);
            return;
        }
        let m = self.prepare_mutation(analyzer, dep);
        if m.is_exhaustive {
            self.consume(analyzer);
            consumed_object::delete_property(analyzer, dep, key);
            return;
        }
        let pushed = m.exec_deps.join(&key.as_dep());
        self.push_dep(pushed);
    }

    /// The properties the array enumerates: its indices with their
    /// elements, and the further elements as unknown-keyed values.
    pub fn enumerate_properties(&mut self, analyzer: &mut Analyzer, dep: &Dep) -> (r: EnumeratedProperties)
        ensures
            old(self).consumed ==> *final(self) == *old(self),
            !old(self).consumed ==> final(analyzer)@ == old(analyzer)@.log(old(self).read_all_effect())
                && final(self).elems() == old(self).elems() && final(self).rests() == old(self).rests()
                && final(self).consumed == old(self).consumed,
            !old(self).consumed && !old(self).deps.is_empty_spec() ==> r.known@.len() == 0 && (r.unknown matches Some(u)
                && u@ == (EntityView { values: seq![Value::Unknown], dep: Seq::empty() }))
                && r.dep@ == entity_dep_parts(old(self).self_view()) + dep@,
            !old(self).consumed && old(self).deps.is_empty_spec() ==> r.known@.len() == old(self).elems().len()
                && (forall|i: int| 0 <= i < r.known@.len() ==> #[trigger] index_entry_ok(r.known@[i], i, old(self).elems()[i]))
                && (old(self).rests().len() == 0 ==> r.unknown is None)
                && (old(self).rests().len() > 0 ==> (r.unknown matches Some(u) && u.values@ == union_values(old(self).rests())
                    && u.dep@ == union_deps(old(self).rests())))
                && r.dep@ == dep@,
    {
        if self.consumed {
            return consumed_object::enumerate_properties(&self.self_entity(), analyzer, dep);
        }
        analyzer.record(Effect::TrackRead(self.cf_scope, ReadWriteTarget::ObjectAll(self.object_id)));
        if !self.deps.is_empty() {
            return EnumeratedProperties {
                known: Vec::new(),
                unknown: Some(Entity::unknown()),
                dep: self.self_entity().as_dep().join(dep),
            };
        }
        let mut known: Vec<(PropertyKeyValue, EnumeratedProperty)> = Vec::new();
        let mut i: usize = 0;
        while i < self.elements.len()
            invariant
                i <= self.elements@.len(),
                known@.len() == i,
                forall|j: int| 0 <= j < i ==> #[trigger] index_entry_ok(known@[j], j, self.elems()[j]),
            decreases self.elements@.len() - i,
        {
            let i_str = usize_to_decimal(i);
            let entry = (
                PropertyKeyValue::String(i_str.clone()),
                EnumeratedProperty { definite: true, key: Entity::string(i_str), value: self.elements[i].clone() },
            );
            known.push(entry);
            i = i + 1;
        }
        let unknown = if self.rest.len() == 0 {
            None
        } else {
            Some(union_all(&self.rest))
        };
        let collected = self.deps.collect();
        let d = collected.join(dep);
        proof {
            assert(d@ =~= dep@);
        }
        EnumeratedProperties { known, unknown, dep: d }
    }

    /// The elements the array iterates: the known ones, and the further
    /// ones as one value.
    pub fn iterate(&self, analyzer: &mut Analyzer, dep: Dep) -> (r: IteratedElements)
        ensures
            !self.consumed ==> final(analyzer)@ == old(analyzer)@.log(self.read_all_effect()),
            !self.consumed && !self.deps.is_empty_spec() ==> r.elements@.len() == 0 && (r.rest matches Some(u)
                && u@ == (EntityView { values: seq![Value::Unknown], dep: Seq::empty() }))
                && r.dep@ == entity_dep_parts(self.self_view()) + dep@,
            !self.consumed && self.deps.is_empty_spec() ==> entity_views(r.elements@) == self.elems()
                && (self.rests().len() == 0 ==> r.rest is None)
                && (self.rests().len() > 0 ==> (r.rest matches Some(u) && u.values@ == union_values(self.rests())
                    && u.dep@ == union_deps(self.rests())))
                && r.dep@ == dep@,
            self.consumed ==> r.elements@.len() == 0 && (r.rest matches Some(u) && u.values@ == seq![Value::Unknown]),
    {
        if self.consumed {
            return consumed_object::iterate(analyzer, dep);
        }
        analyzer.record(Effect::TrackRead(self.cf_scope, ReadWriteTarget::ObjectAll(self.object_id)));
        if !self.deps.is_empty() {
            return IteratedElements {
                elements: Vec::new(),
                rest: Some(Entity::unknown()),
                dep: self.self_entity().as_dep().join(&dep),
            };
        }
        let rest = if self.rest.len() == 0 {
            None
        } else {
            Some(union_all(&self.rest))
        };
        IteratedElements { elements: clone_entities(&self.elements), rest, dep }
    }

    /// An array is an object.
    pub fn test_typeof(&self) -> (r: TypeofResult)
        ensures
            r.bits == TYPEOF_OBJECT,
    {
        TypeofResult::from_bits(TYPEOF_OBJECT)
    }

    /// An array is truthy.
    pub fn test_truthy(&self) -> (r: Option<bool>)
        ensures
            r == Some(true),
    {
        Some(true)
    }

    /// An array is not nullish.
    pub fn test_nullish(&self) -> (r: Option<bool>)
        ensures
            r == Some(false),
    {
        Some(false)
    }

    /// `ToBoolean` of an array: `true`.
    pub fn get_to_boolean(&self) -> (r: Entity)
        ensures
            r.values@ == seq![Value::Literal(LiteralValue::Boolean(true))],
            r.dep@.len() == 0,
    {
        Entity::boolean(true)
    }

    /// `ToString` of an array: any string, depending on the array unless it
    /// is consumed.
    pub fn get_to_string(&self) -> (r: Entity)
        ensures
            r.values@ == seq![Value::Primitive(PrimitiveValue::String)],
            self.consumed ==> r.dep@.len() == 0,
            !self.consumed ==> r.dep@ == entity_dep_parts(self.self_view()),
    {
        if self.consumed {
            return consumed_object::get_to_string();
        }
        let r = Entity::primitive(PrimitiveValue::String).computed(&self.self_entity().as_dep());
        proof {
            assert(r.dep@ =~= entity_dep_parts(self.self_view()));
        }
        r
    }

    /// Converting an array to a property key converts it to a string.
    pub fn get_to_property_key(&self) -> (r: Entity)
        ensures
            r.values@ == seq![Value::Primitive(PrimitiveValue::String)],
            self.consumed ==> r.dep@.len() == 0,
            !self.consumed ==> r.dep@ == entity_dep_parts(self.self_view()),
    {
        self.get_to_string()
    }

    /// `ToNumeric` of an array: any value, depending on the array unless it
    /// is consumed.
    pub fn get_to_numeric(&self) -> (r: Entity)
        ensures
            r.values@ == seq![Value::Unknown],
            self.consumed ==> r.dep@.len() == 0,
            !self.consumed ==> r.dep@ == entity_dep_parts(self.self_view()),
    {
        if self.consumed {
            return consumed_object::get_to_numeric();
        }
        Entity::computed_unknown(self.self_entity().as_dep())
    }

    /// An array used as a JSX child is the array itself.
    pub fn get_to_jsx_child(&self) -> (r: Entity)
        ensures
            r@ == self.self_view(),
    {
        self.self_entity()
    }

    /// Awaiting an array gives the array, depending on the await.
    pub fn await_value(&self, analyzer: &mut Analyzer, dep: Dep) -> (r: Entity)
        ensures
            self.consumed ==> final(analyzer)@ == old(analyzer)@.log(EffectView::Consume(dep@)).log(
                EffectView::ReferGlobal,
            ) && r.values@ == seq![Value::Unknown],
            !self.consumed ==> final(analyzer)@ == old(analyzer)@ && r.values@ == self.self_view().values
                && r.dep@ == dep@,
    {
        if self.consumed {
            return consumed_object::await_value(analyzer, dep);
        }
        let r = self.self_entity().computed(&dep);
        proof {
            assert(r.dep@ =~= dep@);
        }
        r
    }
}

impl Analyzer {
    /// A new empty array in the current control-flow scope, with a fresh id.
    pub fn new_empty_array(&mut self) -> (r: ArrayValue)
        requires
            old(self)@.cf_stack.len() > 0,
            old(self)@.next_atom < u64::MAX,
        ensures
            r.cf_scope == old(self)@.cf_stack.last().id,
            r.object_id == old(self)@.next_atom,
            final(self)@ == (AnalyzerView { next_atom: (old(self)@.next_atom + 1) as u64, ..old(self)@ }),
            !r.consumed && r.deps.is_empty_spec() && r.elements@.len() == 0 && r.rest@.len() == 0,
    {
        let cf_scope = self.cf_stack[self.cf_stack.len() - 1].id;
        let object_id = self.fresh_atom();
        ArrayValue::new_empty(cf_scope, object_id)
    }
}

/// An element pushed onto an array whose elements are all known is read
/// back: reading its index (the array's length before the push) gives that
/// element, depending on the read and the key.
pub proof fn law_array_read_after_push(
    before: Seq<EntityView>,
    arr: ArrayValue,
    e: EntityView,
    proto: Map<Seq<char>, EntityView>,
    dep: Seq<DepPart>,
    key: EntityView,
    r: EntityView,
)
    requires
        arr.deps.is_empty_spec(),
        arr.rests().len() == 0,
        arr.elems() == before.push(e),
        before.len() <= usize::MAX,
        key.values.len() == 1,
        key.values[0] matches Value::Literal(LiteralValue::String(s, _)) && s@ == decimal_text(before.len()),
        arr.read_post(proto, dep, key, r),
    ensures
        r == (EntityView { values: e.values, dep: e.dep + dep + entity_dep_parts(key) }),
{
    let n = before.len() as usize;
    crate::number::law_parse_usize_of_decimal(n);
    assert(arr.elems()[n as int] == e);
    assert(crate::entity::all_literals(key.values));
    let keys = key_texts(key);
    assert(keys =~= seq![decimal_text(n as nat)]);
    let le = choose|le: EntityView|
        #[trigger] is_length_view(le, arr.elems(), arr.rests()) && {
            let res = get_results(arr.elems(), arr.rests(), proto, le, key_texts(key), false);
            r == (EntityView { values: union_values(res), dep: union_deps(res) + dep + entity_dep_parts(key) })
        };
    let res = get_results(arr.elems(), arr.rests(), proto, le, keys, false);
    assert(keys.skip(1) =~= Seq::<Seq<char>>::empty());
    assert(get_results(arr.elems(), arr.rests(), proto, le, keys.skip(1), false) == Seq::<EntityView>::empty());
    assert(res =~= seq![e]);
    assert(seq![e].drop_last() =~= Seq::<EntityView>::empty());
    assert(seq![e].last() == e);
    assert(union_values(Seq::<EntityView>::empty()) == Seq::<Value>::empty());
    assert(union_deps(Seq::<EntityView>::empty()) == Seq::<DepPart>::empty());
    assert(union_values(seq![e]) =~= e.values);
    assert(union_deps(seq![e]) =~= e.dep);
}


/// Writing a known length `n` to an array that is neither consumed nor
/// tracked exhaustively, whose elements are all known, under the key
/// `length` alone: below the element count exactly the first `n` elements
/// stay and no further elements remain (so every index from `n` on reads
/// `undefined`); above it, with no further elements, the elements are
/// padded with `undefined` up to `n`; at it, with no further elements,
/// nothing changes; at or above it, with further elements, `undefined`
/// joins the further elements.
pub proof fn law_array_length_write(
    arr: ArrayValue,
    new: ArrayValue,
    a0: AnalyzerView,
    a1: AnalyzerView,
    dep: Seq<DepPart>,
    key: EntityView,
    value: EntityView,
    n: usize,
)
    requires
        arr.deps.is_empty_spec(),
        !any_exhaustive(a0.cf_stack, first_different_depth(a0.cf_stack, arr.cf_scope) as int),
        key.values.len() == 1,
        key.values[0] matches Value::Literal(LiteralValue::String(s, _)) && s@ == "length"@,
        arr.write_post(new, a0, a1, dep, key, value, Some(Some(n))),
    ensures
        n < arr.elems().len() ==> new.elems() == arr.elems().subrange(0, n as int) && new.rests().len() == 0,
        n > arr.elems().len() && arr.rests().len() == 0 ==> new.elems().len() == n && new.rests().len() == 0
            && new.elems().subrange(0, arr.elems().len() as int) == arr.elems() && forall|i: int|
            arr.elems().len() <= i < n ==> #[trigger] new.elems()[i] == undefined_view(),
        n == arr.elems().len() && arr.rests().len() == 0 ==> new.elems() == arr.elems() && new.rests().len() == 0,
        n >= arr.elems().len() && arr.rests().len() > 0 ==> new.elems() == arr.elems() && new.rests()
            == arr.rests().push(undefined_view()),
{
    reveal_strlit("length");
    let k = key.values[0]->Literal_0->String_0@;
    assert(k == "length"@);
    assert(crate::entity::all_literals(key.values));
    assert(!crate::number::is_digit(k[0]));
    assert(crate::number::unsigned_digits(k) == k);
    assert(crate::number::parse_usize_spec(k) is None);
    let keys = key_texts(key);
    assert(keys =~= seq![k]);
    assert(keys.skip(1) =~= Seq::<Seq<char>>::empty());
    let stack = a0.cf_stack;
    let t = first_different_depth(stack, arr.cf_scope) as int;
    let definite = !any_indeterminate(stack, t) && key.values.len() == 1;
    let preserve = a0.config.preserve_exceptions;
    let init = WriteState {
        elems: arr.elems(),
        rest: arr.rests(),
        rest_added: false,
        has_effect: false,
        unknown: false,
        errors: 0,
    };
    let st1 = write_key(init, k, value, definite, Some(Some(n)), preserve);
    assert(write_keys(st1, keys.skip(1), value, definite, Some(Some(n)), preserve) == st1);
    assert(keys[0] == k);
    assert(write_keys(init, keys, value, definite, Some(Some(n)), preserve) == st1);
    assert(new.elems() == st1.elems && new.rests() == st1.rest);
    if n > arr.elems().len() && arr.rests().len() == 0 {
        let e = arr.elems();
        let pad = Seq::new((n - e.len()) as nat, |i: int| undefined_view());
        assert((e + pad).subrange(0, e.len() as int) =~= e);
        assert forall|i: int| e.len() <= i < n implies #[trigger] (e + pad)[i] == undefined_view() by {
            assert((e + pad)[i] == pad[i - e.len()]);
        }
    }
}


/// Writing under the index `i` of an array that is neither consumed nor
/// tracked exhaustively, whose elements are all known, with a key that is
/// that index alone and no indeterminate scope in between: where `i` names
/// an element, that element is replaced with the written value and the
/// rest stays; past the elements, the value joins the further elements.
pub proof fn law_array_index_write(
    arr: ArrayValue,
    new: ArrayValue,
    a0: AnalyzerView,
    a1: AnalyzerView,
    dep: Seq<DepPart>,
    key: EntityView,
    value: EntityView,
    lv: LengthValue,
    i: usize,
)
    requires
        arr.deps.is_empty_spec(),
        !any_exhaustive(a0.cf_stack, first_different_depth(a0.cf_stack, arr.cf_scope) as int),
        !any_indeterminate(a0.cf_stack, first_different_depth(a0.cf_stack, arr.cf_scope) as int),
        key.values.len() == 1,
        key.values[0] matches Value::Literal(LiteralValue::String(s, _)) && s@ == decimal_text(i as nat),
        arr.write_post(new, a0, a1, dep, key, value, lv),
    ensures
        i < arr.elems().len() ==> new.elems() == arr.elems().update(i as int, value) && new.rests() == arr.rests(),
        i >= arr.elems().len() ==> new.elems() == arr.elems() && new.rests() == arr.rests().push(value),
{
    crate::number::law_parse_usize_of_decimal(i);
    let k = key.values[0]->Literal_0->String_0@;
    assert(crate::entity::all_literals(key.values));
    let keys = key_texts(key);
    assert(keys =~= seq![k]);
    assert(keys.skip(1) =~= Seq::<Seq<char>>::empty());
    let stack = a0.cf_stack;
    let t = first_different_depth(stack, arr.cf_scope) as int;
    let definite = !any_indeterminate(stack, t) && key.values.len() == 1;
    let preserve = a0.config.preserve_exceptions;
    let init = WriteState {
        elems: arr.elems(),
        rest: arr.rests(),
        rest_added: false,
        has_effect: false,
        unknown: false,
        errors: 0,
    };
    let st1 = write_key(init, k, value, definite, lv, preserve);
    assert(write_keys(st1, keys.skip(1), value, definite, lv, preserve) == st1);
    assert(keys[0] == k);
    assert(write_keys(init, keys, value, definite, lv, preserve) == st1);
}

} // verus!
