use vstd::prelude::*;

use crate::analyzer::{first_different_depth, Analyzer, AnalyzerView, Effect, EffectView};
use crate::array::{any_exhaustive, any_indeterminate, fold_from, prepare_scopes, scopes_deps};
use crate::builtins::BuiltinPrototype;
use crate::dep::{dep_views, opt_view};
use crate::entity::{entity_dep_parts, Dep, DepPart, Entity, EntityView, Value};
use crate::literal::{literal_to_string, LiteralValue};
use crate::property::{
    read_extra, read_getters, read_values, with_extra, GetPropertyContext, ObjectProperty,
};
use crate::value::{entity_views, union_all, PropertyKeyValue, PropertyKeyView};

verus! {

/// Where an object's prototype chain continues.
pub enum ObjectPrototype {
    /// No prototype, or the implicit one that has no properties of its own.
    ImplicitOrNull,
    /// A builtin prototype.
    Builtin(BuiltinPrototype),
    /// A prototype object.
    Custom(Box<ObjectValue>),
    /// An unknown prototype, with the dependency it stands for.
    Unknown(Dep),
}

/// An abstract JavaScript object: its properties by key, the properties
/// written under unknown keys, the properties standing for unknown further
/// keys, its prototype, and the mangling group of its keys.
pub struct ObjectValue {
    pub consumed: bool,
    pub cf_scope: u64,
    pub object_id: u64,
    pub keyed: Vec<(PropertyKeyValue, ObjectProperty)>,
    pub unknown: ObjectProperty,
    pub rest: Option<ObjectProperty>,
    pub prototype: ObjectPrototype,
    pub mangling_group: Option<u64>,
}

/// What reading gathers: values, getters still to be called, and further
/// dependencies of the result.
pub struct Reads {
    pub values: Seq<EntityView>,
    pub getters: Seq<EntityView>,
    pub extra: Seq<Seq<DepPart>>,
}

/// Nothing read.
pub open spec fn no_reads() -> Reads {
    Reads { values: Seq::empty(), getters: Seq::empty(), extra: Seq::empty() }
}

/// What two reads gather together, in order.
pub open spec fn reads_add(a: Reads, b: Reads) -> Reads {
    Reads { values: a.values + b.values, getters: a.getters + b.getters, extra: a.extra + b.extra }
}

/// What reading a property gathers (see `ObjectProperty::get`).
pub open spec fn prop_reads(p: ObjectProperty, key: EntityView, atom: Option<u32>) -> Reads {
    let extra = read_extra(p, key, atom);
    Reads {
        values: with_extra(read_values(p.possible_values@), extra),
        getters: with_extra(read_getters(p.possible_values@), extra),
        extra: match p.non_existent.collected() {
            Some(d) => seq![d],
            None => Seq::empty(),
        },
    }
}

/// Whether `c2` is `c1` with `r` gathered.
pub open spec fn ctx_extended(c1: GetPropertyContext, c2: GetPropertyContext, r: Reads) -> bool {
    &&& c2.key == c1.key
    &&& entity_views(c2.values@) == entity_views(c1.values@) + r.values
    &&& entity_views(c2.getters@) == entity_views(c1.getters@) + r.getters
    &&& dep_views(c2.extra_deps@) == dep_views(c1.extra_deps@) + r.extra
}

/// The index of the first property with key `k`; -1 if none.
pub open spec fn key_index(keyed: Seq<(PropertyKeyValue, ObjectProperty)>, k: PropertyKeyView) -> int
    decreases keyed.len(),
{
    if keyed.len() == 0 {
        -1
    } else {
        let i = key_index(keyed.drop_last(), k);
        if i >= 0 {
            i
        } else if keyed.last().0@ == k {
            keyed.len() - 1
        } else {
            -1
        }
    }
}

/// The property key a literal stands for, and its mangling atom: a string
/// is itself, a symbol is its id, any other literal is its string form.
pub open spec fn literal_key(l: LiteralValue) -> (PropertyKeyView, Option<u32>) {
    match l {
        LiteralValue::String(s, a) => (PropertyKeyView::String(s@), a),
        LiteralValue::Symbol(id, _) => (PropertyKeyView::Symbol(id), None),
        _ => (PropertyKeyView::String(literal_to_string(l)), None),
    }
}

/// The entry of a builtin prototype for a key, if any.
pub open spec fn builtin_entry(b: BuiltinPrototype, k: PropertyKeyView) -> Option<EntityView> {
    match k {
        PropertyKeyView::String(s) => if b.strings().contains_key(s) {
            Some(b.strings()[s])
        } else {
            None
        },
        PropertyKeyView::Symbol(id) => if b.symbols().contains_key(id) {
            Some(b.symbols()[id])
        } else {
            None
        },
    }
}

/// Whether mangled keys stay usable: every property of an object whose
/// keys are mangled records its key and atom, along the prototype chain.
pub open spec fn wf(o: ObjectValue) -> bool
    decreases o,
{
    &&& o.mangling_group is Some ==> forall|i: int|
        0 <= i < o.keyed@.len() ==> (#[trigger] o.keyed@[i]).1.key is Some && o.keyed@[i].1.mangling is Some
    &&& match o.prototype {
        ObjectPrototype::Custom(b) => wf(*b),
        _ => true,
    }
}

/// The result of looking a key up along the prototype chain.
pub struct Lookup {
    /// Whether the key surely has a value.
    pub found: bool,
    pub reads: Reads,
    pub effects: Seq<EffectView>,
    /// The object afterwards: mangling is stopped where the key had no atom.
    pub obj: ObjectValue,
}

/// `o` with mangling of its keys stopped.
pub open spec fn unmangled(o: ObjectValue) -> ObjectValue {
    ObjectValue { mangling_group: None, ..o }
}

/// `o` with its prototype object replaced.
pub open spec fn with_proto(o: ObjectValue, p: ObjectValue) -> ObjectValue {
    ObjectValue { prototype: ObjectPrototype::Custom(Box::new(p)), ..o }
}

/// Looking `k` up: the object's own property is read (its atom used only
/// while the object's keys are mangled; a key without atom stops mangling);
/// where that does not surely give a value the prototype continues: a
/// builtin entry (depending on the atom), the prototype object's lookup, or
/// nothing.
pub open spec fn keyed_lookup(o: ObjectValue, k: PropertyKeyView, atom: Option<u32>, key: EntityView) -> Lookup
    decreases o,
{
    let atom2 = if o.mangling_group is Some { atom } else { None };
    let effects = if o.mangling_group is Some && atom is None {
        seq![EffectView::DisableMangling(o.mangling_group->0)]
    } else {
        Seq::empty()
    };
    let o1 = if o.mangling_group is Some && atom is None { unmangled(o) } else { o };
    let i = key_index(o.keyed@, k);
    let own = if i >= 0 { prop_reads(o.keyed@[i].1, key, atom2) } else { no_reads() };
    if i >= 0 && o.keyed@[i].1.definite {
        Lookup { found: true, reads: own, effects, obj: o1 }
    } else {
        match o.prototype {
            ObjectPrototype::Custom(b) => {
                let l = keyed_lookup(*b, k, atom2, key);
                Lookup {
                    found: l.found,
                    reads: reads_add(own, l.reads),
                    effects: effects + l.effects,
                    obj: with_proto(o1, l.obj),
                }
            },
            _ => {
                let t = builtin_tail(o.prototype, k, atom2);
                Lookup { found: t.0, reads: reads_add(own, t.1), effects, obj: o1 }
            },
        }
    }
}

/// What a prototype that is no object gives for `k`: a builtin's entry
/// (depending on the atom), nothing otherwise.
pub open spec fn builtin_tail(p: ObjectPrototype, k: PropertyKeyView, atom: Option<u32>) -> (bool, Reads) {
    match p {
        ObjectPrototype::Builtin(b) => match builtin_entry(b, k) {
            Some(v) => {
                let v2 = match atom {
                    Some(a) => EntityView { values: v.values, dep: v.dep + seq![DepPart::MangleAtom(a)] },
                    None => v,
                };
                (true, Reads { values: seq![v2], ..no_reads() })
            },
            None => (false, no_reads()),
        },
        _ => (false, no_reads()),
    }
}

/// A copy of a property key.
fn copy_key(k: &PropertyKeyValue) -> (r: PropertyKeyValue)
    ensures
        r@ == k@,
{
    k.clone()
}

/// The property key a literal stands for, and its mangling atom.
pub fn literal_to_key(l: &LiteralValue) -> (r: (PropertyKeyValue, Option<u32>))
    ensures
        (r.0@, r.1) == literal_key(*l),
{
    match l {
        LiteralValue::String(s, a) => (PropertyKeyValue::String(s.clone()), *a),
        LiteralValue::Symbol(id, _) => (PropertyKeyValue::Symbol(*id), None),
        _ => (PropertyKeyValue::String(l.to_string()), None),
    }
}

impl ObjectValue {
    /// An empty object created in the given scope.
    pub fn new_in(cf_scope: u64, object_id: u64, prototype: ObjectPrototype, mangling_group: Option<u64>) -> (r: ObjectValue)
        ensures
            !r.consumed,
            r.cf_scope == cf_scope,
            r.object_id == object_id,
            r.keyed@.len() == 0,
            r.unknown.possible_values@.len() == 0,
            r.unknown.non_existent.is_empty_spec(),
            r.rest is None,
            r.prototype == prototype,
            r.mangling_group == mangling_group,
    {
        ObjectValue {
            consumed: false,
            cf_scope,
            object_id,
            keyed: Vec::new(),
            unknown: ObjectProperty::new_in(),
            rest: None,
            prototype,
            mangling_group,
        }
    }

    /// Whether the object's keys are mangled.
    pub fn is_mangable(&self) -> (r: bool)
        ensures
            r == (self.mangling_group is Some),
    {
        self.mangling_group.is_some()
    }

    /// Stops mangling the object's keys.
    pub fn disable_mangling(&mut self, analyzer: &mut Analyzer)
        ensures
            *final(self) == (if old(self).mangling_group is Some { unmangled(*old(self)) } else { *old(self) }),
            old(self).mangling_group matches Some(g) ==> final(analyzer)@ == old(analyzer)@.log(
                EffectView::DisableMangling(g),
            ),
            old(self).mangling_group is None ==> final(analyzer)@ == old(analyzer)@,
    {
        if let Some(g) = self.mangling_group {
            analyzer.record(Effect::DisableMangling(g));
            self.mangling_group = None;
        }
    }

    /// The index of the property with key `k`, if any.
    pub fn find_key(&self, k: &PropertyKeyValue) -> (r: Option<usize>)
        ensures
            r matches Some(i) ==> i as int == key_index(self.keyed@, k@),
            r is None ==> key_index(self.keyed@, k@) < 0,
    {
        let ghost ks = self.keyed@;
        let mut i: usize = 0;
        proof {
            assert(ks.subrange(0, 0) =~= Seq::<(PropertyKeyValue, ObjectProperty)>::empty());
        }
        while i < self.keyed.len()
            invariant
                i <= ks.len(),
                ks == self.keyed@,
                key_index(ks.subrange(0, i as int), k@) < 0,
            decreases ks.len() - i,
        {
            proof {
                let sub = ks.subrange(0, i + 1);
                assert(sub.drop_last() =~= ks.subrange(0, i as int));
                assert(sub.last() == ks[i as int]);
            }
            if self.keyed[i].0.same_key(k) {
                proof {
                    lemma_key_index_prefix(ks, i as int + 1, k@);
                }
                return Some(i);
            }
            i = i + 1;
        }
        proof {
            assert(ks.subrange(0, ks.len() as int) =~= ks);
        }
        None
    }
}

/// Gathering `a` and then `b` gathers both.
proof fn lemma_ctx_chain(c0: GetPropertyContext, c1: GetPropertyContext, c2: GetPropertyContext, a: Reads, b: Reads)
    requires
        ctx_extended(c0, c1, a),
        ctx_extended(c1, c2, b),
    ensures
        ctx_extended(c0, c2, reads_add(a, b)),
{
    assert(entity_views(c2.values@) =~= entity_views(c0.values@) + (a.values + b.values));
    assert(entity_views(c2.getters@) =~= entity_views(c0.getters@) + (a.getters + b.getters));
    assert(dep_views(c2.extra_deps@) =~= dep_views(c0.extra_deps@) + (a.extra + b.extra));
}

/// Gathering nothing changes nothing.
proof fn lemma_ctx_none(c: GetPropertyContext)
    ensures
        ctx_extended(c, c, no_reads()),
{
    assert(entity_views(c.values@) =~= entity_views(c.values@) + Seq::<EntityView>::empty());
    assert(entity_views(c.getters@) =~= entity_views(c.getters@) + Seq::<EntityView>::empty());
    assert(dep_views(c.extra_deps@) =~= dep_views(c.extra_deps@) + Seq::<Seq<DepPart>>::empty());
}

/// Logging two lists of requests logs both, in order.
proof fn lemma_log_chain(a: AnalyzerView, e1: Seq<EffectView>, e2: Seq<EffectView>)
    ensures
        a.log_all(e1).log_all(e2) == a.log_all(e1 + e2),
{
    assert(a.log_all(e1).log_all(e2).effects =~= a.log_all(e1 + e2).effects);
}

/// Logging nothing changes nothing; logging one request is logging it.
proof fn lemma_log_small(a: AnalyzerView, e: EffectView)
    ensures
        a.log_all(Seq::empty()) == a,
        a.log_all(seq![e]) == a.log(e),
{
    assert(a.log_all(Seq::empty()).effects =~= a.effects);
    assert(a.log_all(seq![e]).effects =~= a.log(e).effects);
}

/// The index of a key lies within the properties, and names that key.
proof fn lemma_key_index_bounds(ks: Seq<(PropertyKeyValue, ObjectProperty)>, k: PropertyKeyView)
    ensures
        -1 <= key_index(ks, k) < ks.len(),
        key_index(ks, k) >= 0 ==> ks[key_index(ks, k)].0@ == k,
        key_index(ks, k) < 0 ==> forall|j: int| 0 <= j < ks.len() ==> (#[trigger] ks[j]).0@ != k,
    decreases ks.len(),
{
    if ks.len() > 0 {
        lemma_key_index_bounds(ks.drop_last(), k);
        assert forall|j: int| 0 <= j < ks.len() - 1 implies ks.drop_last()[j] == #[trigger] ks[j] by {}
    }
}

/// A key found in a prefix is found at the same place in the whole.
proof fn lemma_key_index_prefix(ks: Seq<(PropertyKeyValue, ObjectProperty)>, n: int, k: PropertyKeyView)
    requires
        0 <= n <= ks.len(),
        key_index(ks.subrange(0, n), k) >= 0,
    ensures
        key_index(ks, k) == key_index(ks.subrange(0, n), k),
    decreases ks.len() - n,
{
    if n < ks.len() {
        let sub = ks.subrange(0, n + 1);
        assert(sub.drop_last() =~= ks.subrange(0, n));
        lemma_key_index_prefix(ks, n + 1, k);
    } else {
        assert(ks.subrange(0, n) =~= ks);
    }
}


/// The keys a read through `k` adds to the keys whose writes it depends
/// on: `k` unless the property surely holds no value a field write made.
pub open spec fn exhaustive_keys(o: ObjectValue, k: PropertyKeyView) -> Seq<PropertyKeyView> {
    let i = key_index(o.keyed@, k);
    if i >= 0 {
        if crate::property::unconsumed_field(o.keyed@[i].1.possible_values@, o.keyed@[i].1.definite) {
            seq![k]
        } else {
            Seq::empty()
        }
    } else {
        seq![k]
    }
}

/// The views of property keys.
pub open spec fn key_views(s: Seq<PropertyKeyValue>) -> Seq<PropertyKeyView> {
    s.map_values(|k: PropertyKeyValue| k@)
}

impl ObjectValue {
    /// Looks `key` up along the prototype chain (see `keyed_lookup`); when
    /// `track` is set, the keys whose writes the read depends on are added
    /// to `exhaustive_deps`.
    pub fn get_keyed(
        &mut self,
        analyzer: &mut Analyzer,
        context: &mut GetPropertyContext,
        key: &PropertyKeyValue,
        key_atom: Option<u32>,
        track: bool,
        exhaustive_deps: &mut Vec<PropertyKeyValue>,
    ) -> (r: bool)
        requires
            wf(*old(self)),
        ensures
            ({
                let l = keyed_lookup(*old(self), key@, key_atom, old(context).key@);
                &&& r == l.found
                &&& ctx_extended(*old(context), *final(context), l.reads)
                &&& final(analyzer)@ == old(analyzer)@.log_all(l.effects)
                &&& *final(self) == l.obj
            }),
            wf(*final(self)),
            track ==> key_views(final(exhaustive_deps)@) == key_views(old(exhaustive_deps)@) + exhaustive_keys(
                *old(self),
                key@,
            ),
            !track ==> final(exhaustive_deps)@ == old(exhaustive_deps)@,
        decreases *old(self),
    {
        let ghost o = *self;
        let ghost a0 = analyzer@;
        let ghost c0 = *context;
        let ghost l = keyed_lookup(o, key@, key_atom, c0.key@);
        let mut atom = key_atom;
        if self.is_mangable() {
            if atom.is_none() {
                self.disable_mangling(analyzer);
            }
        } else {
            atom = None;
        }
        let ghost own_effects = if o.mangling_group is Some && key_atom is None {
            seq![EffectView::DisableMangling(o.mangling_group->0)]
        } else {
            Seq::<EffectView>::empty()
        };
        proof {
            lemma_log_small(a0, EffectView::DisableMangling(o.mangling_group->0));
            assert(analyzer@ == a0.log_all(own_effects));
            lemma_ctx_none(c0);
        }
        let ghost o1 = *self;
        let idx = self.find_key(key);
        proof {
            lemma_key_index_bounds(self.keyed@, key@);
        }
        let ghost kv = key_views(exhaustive_deps@);
        let ghost own = if key_index(o.keyed@, key@) >= 0 {
            prop_reads(o.keyed@[key_index(o.keyed@, key@)].1, c0.key@, atom)
        } else {
            no_reads()
        };
        match idx {
            Some(i) => {
                if track && self.keyed[i].1.may_be_unconsumed_field() {
                    exhaustive_deps.push(copy_key(key));
                    proof {
                        assert(key_views(exhaustive_deps@) =~= kv + exhaustive_keys(o, key@));
                    }
                } else if track {
                    proof {
                        assert(key_views(exhaustive_deps@) =~= kv + exhaustive_keys(o, key@));
                    }
                }
                self.keyed[i].1.get(context, atom);
                if self.keyed[i].1.definite {
                    proof {
                        assert(*self == l.obj);
                        assert(analyzer@ == a0.log_all(l.effects));
                        assert(ctx_extended(c0, *context, l.reads));
                    }
                    return true;
                }
            },
            None => {
                if track {
                    exhaustive_deps.push(copy_key(key));
                    proof {
                        assert(key_views(exhaustive_deps@) =~= kv + exhaustive_keys(o, key@));
                    }
                }
            },
        }
        let ghost c1 = *context;
        proof {
            assert(ctx_extended(c0, c1, own));
        }
        let ghost c_before = *context;
        let is_custom = matches!(self.prototype, ObjectPrototype::Custom(_));
        if !is_custom {
            let ghost c1 = *context;
            let r = self.get_keyed_on_builtin(context, key, atom);
            proof {
                lemma_ctx_chain(c0, c1, *context, own, builtin_tail(o.prototype, key@, atom).1);
            }
            return r;
        }
        let ghost c1 = *context;
        let mut unused: Vec<PropertyKeyValue> = Vec::new();
        let r = match &mut self.prototype {
            ObjectPrototype::Custom(b) => b.get_keyed(analyzer, context, key, atom, false, &mut unused),
            _ => {
                proof {
                    assert(false);
                }
                false
            },
        };
        proof {
            let lp = keyed_lookup(*o.prototype->Custom_0, key@, atom, c0.key@);
            lemma_ctx_chain(c0, c1, *context, own, lp.reads);
            lemma_log_chain(a0, own_effects, lp.effects);
            assert(self.prototype == ObjectPrototype::Custom(Box::new(lp.obj)));
        }
        r
    }

    /// What a prototype that is no object gives for `key` (see
    /// `builtin_tail`).
    fn get_keyed_on_builtin(&self, context: &mut GetPropertyContext, key: &PropertyKeyValue, atom: Option<u32>) -> (r: bool)
        ensures
            r == builtin_tail(self.prototype, key@, atom).0,
            ctx_extended(*old(context), *final(context), builtin_tail(self.prototype, key@, atom).1),
    {
        proof {
            lemma_ctx_none(*context);
        }
        match &self.prototype {
            ObjectPrototype::Builtin(b) => {
                match b.get_keyed(key) {
                    Some(v) => {
                        let ghost vv = v@;
                        let v2 = match atom {
                            Some(a) => {
                                let d = Dep { parts: vec![DepPart::MangleAtom(a)] };
                                proof {
                                    assert(d@ =~= seq![DepPart::MangleAtom(a)]);
                                }
                                v.computed(&d)
                            },
                            None => v,
                        };
                        proof {
                            assert(v2@ == match atom {
                                Some(a) => EntityView { values: vv.values, dep: vv.dep + seq![DepPart::MangleAtom(a)] },
                                None => vv,
                            });
                        }
                        let ghost c1 = *context;
                        context.values.push(v2);
                        proof {
                            assert(entity_views(context.values@) =~= entity_views(c1.values@) + seq![v2@]);
                            assert(entity_views(context.getters@) =~= entity_views(c1.getters@) + Seq::<EntityView>::empty());
                            assert(dep_views(context.extra_deps@) =~= dep_views(c1.extra_deps@) + Seq::<Seq<DepPart>>::empty());
                        }
                        true
                    },
                    None => false,
                }
            },
            _ => false,
        }
    }
}


/// What reading every property of a list gathers, in order.
pub open spec fn props_reads(ks: Seq<(PropertyKeyValue, ObjectProperty)>, key: EntityView) -> Reads
    decreases ks.len(),
{
    if ks.len() == 0 {
        no_reads()
    } else {
        reads_add(props_reads(ks.drop_last(), key), prop_reads(ks.last().1, key, None))
    }
}

/// What reading every keyed property gathers, along the prototype chain.
pub open spec fn any_keyed_reads(o: ObjectValue, key: EntityView) -> Reads
    decreases o,
{
    let own = props_reads(o.keyed@, key);
    match o.prototype {
        ObjectPrototype::Custom(b) => reads_add(own, any_keyed_reads(*b, key)),
        _ => own,
    }
}

/// What reading the properties under unknown keys gathers along the
/// prototype chain, and whether any may hold a value (an unknown
/// prototype gives an unknown value).
pub open spec fn unknown_keyed(o: ObjectValue, key: EntityView) -> (bool, Reads)
    decreases o,
{
    let own = prop_reads(o.unknown, key, None);
    let tail = unknown_tail(o.prototype, key);
    (tail.0 || o.unknown.possible_values@.len() > 0, reads_add(own, tail.1))
}

/// What the prototype adds to reading under unknown keys.
pub open spec fn unknown_tail(p: ObjectPrototype, key: EntityView) -> (bool, Reads)
    decreases p,
{
    match p {
        ObjectPrototype::Custom(b) => unknown_keyed(*b, key),
        ObjectPrototype::Unknown(d) => (
            true,
            Reads { values: seq![EntityView { values: seq![Value::Unknown], dep: d@ }], ..no_reads() },
        ),
        _ => (false, no_reads()),
    }
}

/// Whether a literal key carries a mangling atom.
pub open spec fn literal_mangable(l: LiteralValue) -> bool {
    l matches LiteralValue::String(_, Some(_))
}

/// Whether keys given by these literals are read mangled: only for an
/// object whose keys are mangled, and only when every literal carries an
/// atom; otherwise the object's mangling stops.
pub open spec fn mangable_check(o: ObjectValue, lits: Seq<LiteralValue>) -> bool {
    o.mangling_group is Some && forall|i: int| 0 <= i < lits.len() ==> literal_mangable(#[trigger] lits[i])
}

impl ObjectValue {
    /// Reads every keyed property into `context`, along the prototype
    /// chain.
    pub fn get_any_keyed(&self, context: &mut GetPropertyContext)
        requires
            wf(*self),
        ensures
            ctx_extended(*old(context), *final(context), any_keyed_reads(*self, old(context).key@)),
        decreases *self,
    {
        let ghost c0 = *context;
        let ghost ks = self.keyed@;
        let mut i: usize = 0;
        proof {
            lemma_ctx_none(c0);
            assert(ks.subrange(0, 0) =~= Seq::<(PropertyKeyValue, ObjectProperty)>::empty());
        }
        while i < self.keyed.len()
            invariant
                i <= ks.len(),
                ks == self.keyed@,
                c0.key == context.key,
                ctx_extended(c0, *context, props_reads(ks.subrange(0, i as int), c0.key@)),
            decreases ks.len() - i,
        {
            let ghost c1 = *context;
            self.keyed[i].1.get(context, None);
            proof {
                let sub = ks.subrange(0, i + 1);
                assert(sub.drop_last() =~= ks.subrange(0, i as int));
                assert(sub.last() == ks[i as int]);
                lemma_ctx_chain(c0, c1, *context, props_reads(ks.subrange(0, i as int), c0.key@), prop_reads(ks[i as int].1, c0.key@, None));
            }
            i = i + 1;
        }
        proof {
            assert(ks.subrange(0, ks.len() as int) =~= ks);
        }
        if let ObjectPrototype::Custom(b) = &self.prototype {
            let ghost c1 = *context;
            b.get_any_keyed(context);
            proof {
                lemma_ctx_chain(c0, c1, *context, props_reads(ks, c0.key@), any_keyed_reads(**b, c0.key@));
            }
        }
    }

    /// Reads the properties under unknown keys into `context`, along the
    /// prototype chain; whether any may hold a value.
    pub fn get_unknown_keyed(&self, context: &mut GetPropertyContext) -> (r: bool)
        ensures
            r == unknown_keyed(*self, old(context).key@).0,
            ctx_extended(*old(context), *final(context), unknown_keyed(*self, old(context).key@).1),
        decreases *self,
    {
        let ghost c0 = *context;
        self.unknown.get(context, None);
        let ghost c1 = *context;
        let found = match &self.prototype {
            ObjectPrototype::Custom(b) => b.get_unknown_keyed(context),
            ObjectPrototype::Unknown(d) => {
                let e = Entity::computed_unknown(d.clone());
                context.values.push(e);
                proof {
                    assert(entity_views(context.values@) =~= entity_views(c1.values@) + seq![e@]);
                    assert(entity_views(context.getters@) =~= entity_views(c1.getters@) + Seq::<EntityView>::empty());
                    assert(dep_views(context.extra_deps@) =~= dep_views(c1.extra_deps@) + Seq::<Seq<DepPart>>::empty());
                }
                true
            },
            _ => {
                proof {
                    lemma_ctx_none(c1);
                }
                false
            },
        };
        proof {
            lemma_ctx_chain(c0, c1, *context, prop_reads(self.unknown, c0.key@, None), unknown_tail(self.prototype, c0.key@).1);
        }
        found || self.unknown.possible_values.len() > 0
    }

    /// Whether keys given by `lits` are read mangled (see
    /// `mangable_check`); stops the object's mangling otherwise.
    pub fn check_mangable(&mut self, analyzer: &mut Analyzer, lits: &Vec<LiteralValue>) -> (r: bool)
        ensures
            r == mangable_check(*old(self), lits@),
            old(self).mangling_group is Some && !r ==> *final(self) == unmangled(*old(self))
                && final(analyzer)@ == old(analyzer)@.log(EffectView::DisableMangling(old(self).mangling_group->0)),
            old(self).mangling_group is None || r ==> *final(self) == *old(self) && final(analyzer)@ == old(analyzer)@,
    {
        if !self.is_mangable() {
            return false;
        }
        if all_mangable(lits) {
            true
        } else {
            self.disable_mangling(analyzer);
            false
        }
    }
}

/// Whether every literal carries a mangling atom.
fn all_mangable(lits: &Vec<LiteralValue>) -> (r: bool)
    ensures
        r == forall|i: int| 0 <= i < lits@.len() ==> literal_mangable(#[trigger] lits@[i]),
{
    let mut i: usize = 0;
    while i < lits.len()
        invariant
            i <= lits@.len(),
            forall|j: int| 0 <= j < i ==> literal_mangable(#[trigger] lits@[j]),
        decreases lits@.len() - i,
    {
        if !matches!(&lits[i], LiteralValue::String(_, Some(_))) {
            return false;
        }
        i = i + 1;
    }
    true
}


/// Looking several literal keys up in turn: whether all surely have a
/// value, what was gathered, the requests made, the keys whose writes the
/// read depends on, and the object afterwards.
pub struct LitsLookup {
    pub all_found: bool,
    pub reads: Reads,
    pub effects: Seq<EffectView>,
    pub keys: Seq<PropertyKeyView>,
    pub obj: ObjectValue,
}

/// Looks each literal key up in turn (see `keyed_lookup`).
pub open spec fn lits_lookup(o: ObjectValue, lits: Seq<LiteralValue>, key: EntityView) -> LitsLookup
    decreases lits.len(),
{
    if lits.len() == 0 {
        LitsLookup { all_found: true, reads: no_reads(), effects: Seq::empty(), keys: Seq::empty(), obj: o }
    } else {
        let p = lits_lookup(o, lits.drop_last(), key);
        let kl = literal_key(lits.last());
        let l = keyed_lookup(p.obj, kl.0, kl.1, key);
        LitsLookup {
            all_found: p.all_found && l.found,
            reads: reads_add(p.reads, l.reads),
            effects: p.effects + l.effects,
            keys: p.keys + exhaustive_keys(p.obj, kl.0),
            obj: l.obj,
        }
    }
}

/// The literals a key may be.
pub open spec fn key_literals(key: EntityView) -> Seq<LiteralValue> {
    key.values.map_values(|v: Value| v->Literal_0)
}

/// What reading the properties standing for further keys gathers, when
/// the keys read may be among them: those properties, or `undefined` when
/// the object has none.
pub open spec fn rest_reads(o: ObjectValue, check_rest: bool, key: EntityView) -> Reads {
    if !check_rest {
        no_reads()
    } else {
        match o.rest {
            Some(p) => prop_reads(p, key, None),
            None => Reads { values: seq![crate::array::undefined_view()], ..no_reads() },
        }
    }
}

/// The reads a property read records: each field it depends on, or the
/// whole object.
pub open spec fn read_marks(o: ObjectValue, keys: Option<Seq<PropertyKeyView>>) -> Seq<EffectView> {
    match keys {
        Some(ks) => ks.map_values(
            |k: PropertyKeyView| EffectView::TrackRead(o.cf_scope, crate::value::ReadWriteTargetView::ObjectField(o.object_id, k)),
        ),
        None => seq![EffectView::TrackRead(o.cf_scope, crate::value::ReadWriteTargetView::ObjectAll(o.object_id))],
    }
}

/// A property read that waits only for its getters to be called.
pub struct PendingGet {
    pub context: GetPropertyContext,
    /// Whether the key is read mangled.
    pub mangable: bool,
    /// Whether the keys read may be among the further keys.
    pub check_rest: bool,
}

/// What reading a property gives: the value, or a read waiting for its
/// getters.
pub enum GetPropertyOutcome {
    Done(Entity),
    Pending(PendingGet),
}

/// The object, the read and the requests after reading `key` from an
/// object that is not consumed.
pub struct GetPlan {
    pub obj: ObjectValue,
    pub mangable: bool,
    pub check_rest: bool,
    pub reads: Reads,
    pub effects: Seq<EffectView>,
}

/// Reading `key`: for literal keys each is looked up (see `lits_lookup`),
/// read mangled when `mangable_check` allows; otherwise mangling stops and
/// every keyed property is read. Where a key may lack a value, the
/// further-key properties are read (or `undefined`); then the unknown-key
/// properties; then the reads are recorded per field while that is exact,
/// for the whole object otherwise.
pub open spec fn get_plan(o: ObjectValue, key: EntityView) -> GetPlan {
    if crate::entity::all_literals(key.values) {
        let lits = key_literals(key);
        let m = mangable_check(o, lits);
        let o1 = if o.mangling_group is Some && !m { unmangled(o) } else { o };
        let e1 = if o.mangling_group is Some && !m {
            seq![EffectView::DisableMangling(o.mangling_group->0)]
        } else {
            Seq::empty()
        };
        let l = lits_lookup(o1, lits, key);
        let check_rest = !l.all_found;
        let u = unknown_keyed(l.obj, key);
        let exact = !(check_rest && l.obj.rest is Some) && !u.0;
        GetPlan {
            obj: l.obj,
            mangable: m,
            check_rest,
            reads: reads_add(reads_add(l.reads, rest_reads(l.obj, check_rest, key)), u.1),
            effects: e1 + l.effects + read_marks(l.obj, if exact { Some(l.keys) } else { None }),
        }
    } else {
        let o1 = if o.mangling_group is Some { unmangled(o) } else { o };
        let e1 = if o.mangling_group is Some {
            seq![EffectView::DisableMangling(o.mangling_group->0)]
        } else {
            Seq::empty()
        };
        let u = unknown_keyed(o1, key);
        GetPlan {
            obj: o1,
            mangable: false,
            check_rest: true,
            reads: reads_add(reads_add(any_keyed_reads(o1, key), rest_reads(o1, true, key)), u.1),
            effects: e1 + read_marks(o1, None),
        }
    }
}

/// The object a literal-key read starts its lookups on.
pub open spec fn get_plan_start(o: ObjectValue, key: EntityView) -> ObjectValue {
    let m = mangable_check(o, key_literals(key));
    if o.mangling_group is Some && (!crate::entity::all_literals(key.values) || !m) { unmangled(o) } else { o }
}

/// The requests a read makes before its lookups.
pub open spec fn get_plan_prefix(o: ObjectValue, key: EntityView) -> Seq<EffectView> {
    let m = mangable_check(o, key_literals(key));
    if o.mangling_group is Some && (!crate::entity::all_literals(key.values) || !m) {
        seq![EffectView::DisableMangling(o.mangling_group->0)]
    } else {
        Seq::empty()
    }
}

/// What a read's lookups gather.
pub open spec fn get_plan_lookup_reads(o: ObjectValue, key: EntityView) -> Reads {
    if crate::entity::all_literals(key.values) {
        lits_lookup(get_plan_start(o, key), key_literals(key), key).reads
    } else {
        any_keyed_reads(get_plan_start(o, key), key)
    }
}

/// The requests a read's lookups make.
pub open spec fn get_plan_lookup_effects(o: ObjectValue, key: EntityView) -> Seq<EffectView> {
    if crate::entity::all_literals(key.values) {
        lits_lookup(get_plan_start(o, key), key_literals(key), key).effects
    } else {
        Seq::empty()
    }
}

/// An empty context for reading `key`.
pub open spec fn fresh_context(c: GetPropertyContext, key: EntityView) -> bool {
    c.key@ == key && c.values@.len() == 0 && c.getters@.len() == 0 && c.extra_deps@.len() == 0
}

impl ObjectValue {
    /// The entity that refers to this object.
    pub open spec fn self_view(&self) -> EntityView {
        EntityView { values: seq![Value::Object(self.object_id)], dep: Seq::empty() }
    }

    /// Reads a property: a consumed object reads as any value; otherwise
    /// the read is planned as `get_plan` says and waits for its getters.
    pub fn get_property(&mut self, analyzer: &mut Analyzer, dep: &Dep, key: &Entity) -> (r: GetPropertyOutcome)
        requires
            wf(*old(self)),
        ensures
            wf(*final(self)),
            old(self).consumed ==> *final(self) == *old(self) && (r matches GetPropertyOutcome::Done(e)
                && crate::consumed_object::get_property_post(
                old(analyzer)@,
                final(analyzer)@,
                old(self).self_view(),
                dep@,
                key@,
                e@,
            )),
            !old(self).consumed ==> ({
                let plan = get_plan(*old(self), key@);
                &&& *final(self) == plan.obj
                &&& final(analyzer)@ == old(analyzer)@.log_all(plan.effects)
                &&& r matches GetPropertyOutcome::Pending(p)
                &&& p.mangable == plan.mangable
                &&& p.check_rest == plan.check_rest
                &&& p.context.key@ == key@
                &&& entity_views(p.context.values@) == plan.reads.values
                &&& entity_views(p.context.getters@) == plan.reads.getters
                &&& dep_views(p.context.extra_deps@) == plan.reads.extra
            }),
    {
        if self.consumed {
            let target = Entity::from_value(Value::Object(self.object_id));
            return GetPropertyOutcome::Done(crate::consumed_object::get_property(&target, analyzer, dep, key));
        }
        let ghost o = *self;
        let ghost a0 = analyzer@;
        let mut context = GetPropertyContext { key: key.clone(), values: Vec::new(), getters: Vec::new(), extra_deps: Vec::new() };
        let ghost c0 = context;
        proof {
            assert(entity_views(context.values@) =~= Seq::<EntityView>::empty());
            assert(entity_views(context.getters@) =~= Seq::<EntityView>::empty());
            assert(dep_views(context.extra_deps@) =~= Seq::<Seq<DepPart>>::empty());
            lemma_ctx_none(c0);
        }
        let mut mangable = false;
        let mut check_rest = false;
        let mut exhaustive_deps: Vec<PropertyKeyValue> = Vec::new();
        let mut exact = true;
        match key.get_to_literals() {
            Some(lits) => {
                proof {
                    assert(lits@ =~= key_literals(key@));
                    assert(key_views(exhaustive_deps@) =~= Seq::<PropertyKeyView>::empty());
                }
                mangable = self.check_mangable(analyzer, &lits);
                let ghost a1 = analyzer@;
                proof {
                    lemma_log_small(a0, EffectView::DisableMangling(o.mangling_group->0));
                }
                let all_found = self.lookup_literals(analyzer, &mut context, &lits, &mut exhaustive_deps);
                proof {
                    let l = lits_lookup(get_plan_start(o, key@), key_literals(key@), key@);
                    lemma_log_chain(a0, get_plan_prefix(o, key@), l.effects);
                }
                check_rest = !all_found;
            },
            None => {
                self.disable_mangling(analyzer);
                let ghost c1 = context;
                self.get_any_keyed(&mut context);
                check_rest = true;
                exact = false;
                proof {
                    lemma_ctx_chain(c0, c1, context, no_reads(), any_keyed_reads(*self, key@));
                    lemma_log_small(a0, EffectView::DisableMangling(o.mangling_group->0));
                }
            },
        }
        let ghost c2 = context;
        let ghost a2 = analyzer@;
        let ghost mid = *self;
        if self.read_rest(&mut context, check_rest) {
            exact = false;
        }
        let ghost c3 = context;
        if self.get_unknown_keyed(&mut context) {
            exact = false;
        }
        proof {
            lemma_ctx_chain(c2, c3, context, rest_reads(mid, check_rest, key@), unknown_keyed(mid, key@).1);
            lemma_ctx_chain(c0, c2, context, get_plan_lookup_reads(o, key@),
                reads_add(rest_reads(mid, check_rest, key@), unknown_keyed(mid, key@).1));
        }
        self.mark_reads(analyzer, &exhaustive_deps, exact);
        proof {
            lemma_log_chain(a0, get_plan_prefix(o, key@) + get_plan_lookup_effects(o, key@),
                read_marks(mid, if exact { Some(key_views(exhaustive_deps@)) } else { None }));
        }
        GetPropertyOutcome::Pending(PendingGet { context, mangable, check_rest })
    }

    /// Looks each literal key up in turn (see `lits_lookup`), tracking the
    /// keys whose writes the read depends on; whether all surely have a
    /// value.
    fn lookup_literals(
        &mut self,
        analyzer: &mut Analyzer,
        context: &mut GetPropertyContext,
        lits: &Vec<LiteralValue>,
        exhaustive_deps: &mut Vec<PropertyKeyValue>,
    ) -> (r: bool)
        requires
            wf(*old(self)),
            key_views(old(exhaustive_deps)@).len() == 0,
        ensures
            ({
                let l = lits_lookup(*old(self), lits@, old(context).key@);
                &&& r == l.all_found
                &&& *final(self) == l.obj
                &&& ctx_extended(*old(context), *final(context), l.reads)
                &&& final(analyzer)@ == old(analyzer)@.log_all(l.effects)
                &&& key_views(final(exhaustive_deps)@) == l.keys
            }),
            wf(*final(self)),
    {
        let ghost o1 = *self;
        let ghost a1 = analyzer@;
        let ghost c0 = *context;
        proof {
            lemma_ctx_none(c0);
            lemma_log_small(a1, EffectView::GlobalEffect);
            assert(lits@.subrange(0, 0) =~= Seq::<LiteralValue>::empty());
            assert(key_views(exhaustive_deps@) =~= Seq::<PropertyKeyView>::empty());
        }
        let mut all_found = true;
        let mut i: usize = 0;
        while i < lits.len()
            invariant
                i <= lits@.len(),
                wf(*self),
                context.key == c0.key,
                ({
                    let p = lits_lookup(o1, lits@.subrange(0, i as int), c0.key@);
                    &&& *self == p.obj
                    &&& ctx_extended(c0, *context, p.reads)
                    &&& analyzer@ == a1.log_all(p.effects)
                    &&& key_views(exhaustive_deps@) == p.keys
                    &&& all_found == p.all_found
                }),
            decreases lits@.len() - i,
        {
            let ghost sub = lits@.subrange(0, i + 1);
            let ghost p = lits_lookup(o1, lits@.subrange(0, i as int), c0.key@);
            let ghost c1 = *context;
            let ghost kv = key_views(exhaustive_deps@);
            proof {
                assert(sub.drop_last() =~= lits@.subrange(0, i as int));
                assert(sub.last() == lits@[i as int]);
            }
            let (k, a) = literal_to_key(&lits[i]);
            let found = self.get_keyed(analyzer, context, &k, a, true, exhaustive_deps);
            all_found = all_found && found;
            proof {
                let l = keyed_lookup(p.obj, k@, a, c0.key@);
                lemma_ctx_chain(c0, c1, *context, p.reads, l.reads);
                lemma_log_chain(a1, p.effects, l.effects);
            }
            i = i + 1;
        }
        proof {
            assert(lits@.subrange(0, lits@.len() as int) =~= lits@);
        }
        all_found
    }

    /// Reads the properties standing for further keys when `check_rest`
    /// (see `rest_reads`); whether there are such properties to read.
    fn read_rest(&self, context: &mut GetPropertyContext, check_rest: bool) -> (r: bool)
        ensures
            r == (check_rest && self.rest is Some),
            ctx_extended(*old(context), *final(context), rest_reads(*self, check_rest, old(context).key@)),
    {
        let ghost c2 = *context;
        if check_rest {
            match &self.rest {
                Some(rest) => {
                    rest.get(context, None);
                    true
                },
                None => {
                    let u = Entity::undefined();
                    context.values.push(u);
                    proof {
                        assert(entity_views(context.values@) =~= entity_views(c2.values@) + seq![u@]);
                        assert(entity_views(context.getters@) =~= entity_views(c2.getters@) + Seq::<EntityView>::empty());
                        assert(dep_views(context.extra_deps@) =~= dep_views(c2.extra_deps@) + Seq::<Seq<DepPart>>::empty());
                    }
                    false
                },
            }
        } else {
            proof {
                lemma_ctx_none(c2);
            }
            false
        }
    }

    /// Records the read: of each field in `keys` when `exact`, of the whole
    /// object otherwise.
    fn mark_reads(&self, analyzer: &mut Analyzer, keys: &Vec<PropertyKeyValue>, exact: bool)
        ensures
            final(analyzer)@ == old(analyzer)@.log_all(read_marks(*self, if exact { Some(key_views(keys@)) } else { None })),
    {
        let ghost a3 = analyzer@;
        if exact {
            let mut j: usize = 0;
            let ghost ks = key_views(keys@);
            proof {
                assert(read_marks(*self, Some(ks.subrange(0, 0))) =~= Seq::<EffectView>::empty());
                lemma_log_small(a3, EffectView::GlobalEffect);
            }
            while j < keys.len()
                invariant
                    j <= keys@.len(),
                    ks == key_views(keys@),
                    analyzer@ == a3.log_all(read_marks(*self, Some(ks.subrange(0, j as int)))),
                decreases keys@.len() - j,
            {
                let ghost before = analyzer@;
                analyzer.record(Effect::TrackRead(self.cf_scope, crate::value::ReadWriteTarget::ObjectField(self.object_id, copy_key(&keys[j]))));
                proof {
                    assert(read_marks(*self, Some(ks.subrange(0, j + 1))) =~= read_marks(*self, Some(ks.subrange(0, j as int))).push(
                        EffectView::TrackRead(self.cf_scope, crate::value::ReadWriteTargetView::ObjectField(self.object_id, ks[j as int]))));
                    assert(analyzer@.effects =~= a3.log_all(read_marks(*self, Some(ks.subrange(0, j + 1)))).effects);
                }
                j = j + 1;
            }
            proof {
                assert(ks.subrange(0, ks.len() as int) =~= ks);
            }
        } else {
            analyzer.record(Effect::TrackRead(self.cf_scope, crate::value::ReadWriteTarget::ObjectAll(self.object_id)));
            proof {
                lemma_log_small(a3, EffectView::TrackRead(self.cf_scope, crate::value::ReadWriteTargetView::ObjectAll(self.object_id)));
            }
        }
    }
}


/// The value of a finished read: the union of all values read (or
/// `undefined` when there are none), depending on the extra dependencies,
/// the read's dependency and, unless the key was read mangled, the key.
pub open spec fn finished_value(
    values: Seq<EntityView>,
    extra: Seq<Seq<DepPart>>,
    mangable: bool,
    dep: Seq<DepPart>,
    key: EntityView,
) -> EntityView {
    let base = if values.len() == 0 {
        crate::array::undefined_view()
    } else {
        EntityView { values: crate::value::union_values(values), dep: crate::value::union_deps(values) }
    };
    EntityView {
        values: base.values,
        dep: base.dep + crate::dep::flatten_views(extra) + dep + if mangable { Seq::empty() } else { entity_dep_parts(key) },
    }
}

impl PendingGet {
    /// The dependency of the scope the getters are called in, and whether
    /// that scope is indeterminate.
    pub fn getter_scope(&self, dep: &Dep, key: &Entity) -> (r: (Dep, bool))
        ensures
            r.0@ == (if self.mangable { dep@ } else { dep@ + entity_dep_parts(key@) }),
            r.1 == (self.check_rest || self.context.values@.len() > 0 || self.context.getters@.len() > 1),
    {
        let d = if self.mangable { dep.clone() } else { dep.join(&key.as_dep()) };
        (d, self.check_rest || self.context.values.len() > 0 || self.context.getters.len() > 1)
    }

    /// The value read, once the getters have given `getter_values` (see
    /// `finished_value`).
    pub fn finish(self, getter_values: Vec<Entity>, dep: &Dep, key: &Entity) -> (r: Entity)
        ensures
            r@ == finished_value(
                entity_views(self.context.values@) + entity_views(getter_values@),
                dep_views(self.context.extra_deps@),
                self.mangable,
                dep@,
                key@,
            ),
    {
        let mut values = self.context.values;
        let mut g = getter_values;
        let ghost v0 = entity_views(values@);
        let ghost g0 = entity_views(g@);
        values.append(&mut g);
        proof {
            assert(entity_views(values@) =~= v0 + g0);
        }
        let base = if values.len() == 0 {
            Entity::undefined()
        } else {
            union_all(&values)
        };
        let extra = crate::dep::join_all(&self.context.extra_deps);
        let mut d = extra.join(dep);
        if !self.mangable {
            d = d.join(&key.as_dep());
        }
        let r = base.computed(&d);
        proof {
            assert(r.dep@ =~= finished_value(v0 + g0, dep_views(self.context.extra_deps@), self.mangable, dep@, key@).dep);
        }
        r
    }
}


/// The requests consuming each of `s` makes, in order.
pub open spec fn consume_views(s: Seq<EntityView>) -> Seq<EffectView> {
    s.map_values(|e: EntityView| EffectView::Consume(entity_dep_parts(e)))
}

/// What consuming a property puts aside: its values, getters, setters and
/// key.
pub open spec fn prop_suspended(p: ObjectProperty) -> Seq<EntityView> {
    crate::property::all_held(p.possible_values@) + crate::property::opt_seq(crate::value::opt_entity_view(p.key))
}

/// The requests consuming properties makes directly, and what it puts
/// aside, in order.
pub open spec fn props_consume(ks: Seq<(PropertyKeyValue, ObjectProperty)>) -> (Seq<EffectView>, Seq<EntityView>)
    decreases ks.len(),
{
    if ks.len() == 0 {
        (Seq::empty(), Seq::empty())
    } else {
        let p = props_consume(ks.drop_last());
        let q = ks.last().1;
        (p.0 + q.non_existent.consume_all_effects(), p.1 + prop_suspended(q))
    }
}

/// The requests consuming an object makes: its keyed properties, the
/// unknown-key ones and the further-key ones are consumed, then everything
/// they held is.
pub open spec fn object_consume_effects(o: ObjectValue) -> Seq<EffectView> {
    let k = props_consume(o.keyed@);
    let u = (o.unknown.non_existent.consume_all_effects(), prop_suspended(o.unknown));
    let r = match o.rest {
        Some(p) => (p.non_existent.consume_all_effects(), prop_suspended(p)),
        None => (Seq::empty(), Seq::empty()),
    };
    k.0 + u.0 + r.0 + consume_views(k.1 + u.1 + r.1)
}

impl ObjectValue {
    /// Consumes the object once: from then on every access is treated as
    /// unknown (see `object_consume_effects`).
    pub fn consume(&mut self, analyzer: &mut Analyzer)
        ensures
            final(self).consumed,
            old(self).consumed ==> final(analyzer)@ == old(analyzer)@ && *final(self) == *old(self),
            !old(self).consumed ==> final(analyzer)@ == old(analyzer)@.log_all(object_consume_effects(*old(self)))
                && *final(self) == (ObjectValue { consumed: true, ..*old(self) }),
    {
        if self.consumed {
            return;
        }
        self.consumed = true;
        let ghost o = *self;
        let ghost a0 = analyzer@;
        let mut suspended: Vec<Entity> = Vec::new();
        let ghost ks = self.keyed@;
        let mut i: usize = 0;
        proof {
            assert(ks.subrange(0, 0) =~= Seq::<(PropertyKeyValue, ObjectProperty)>::empty());
            assert(entity_views(suspended@) =~= Seq::<EntityView>::empty());
            lemma_log_small(a0, EffectView::GlobalEffect);
        }
        while i < self.keyed.len()
            invariant
                i <= ks.len(),
                ks == self.keyed@,
                *self == o,
                analyzer@ == a0.log_all(props_consume(ks.subrange(0, i as int)).0),
                entity_views(suspended@) == props_consume(ks.subrange(0, i as int)).1,
            decreases ks.len() - i,
        {
            let ghost a1 = analyzer@;
            proof {
                let sub = ks.subrange(0, i + 1);
                assert(sub.drop_last() =~= ks.subrange(0, i as int));
                assert(sub.last() == ks[i as int]);
            }
            self.keyed[i].1.consume(analyzer, &mut suspended);
            proof {
                lemma_log_chain(a0, props_consume(ks.subrange(0, i as int)).0, ks[i as int].1.non_existent.consume_all_effects());
                assert(a1.log_all(ks[i as int].1.non_existent.consume_all_effects()).effects =~= analyzer@.effects);
            }
            i = i + 1;
        }
        proof {
            assert(ks.subrange(0, ks.len() as int) =~= ks);
        }
        let ghost a2 = analyzer@;
        self.unknown.consume(analyzer, &mut suspended);
        proof {
            lemma_log_chain(a0, props_consume(ks).0, o.unknown.non_existent.consume_all_effects());
            assert(a2.log_all(o.unknown.non_existent.consume_all_effects()).effects =~= analyzer@.effects);
        }
        let ghost a3 = analyzer@;
        if let Some(rest) = &self.rest {
            rest.consume(analyzer, &mut suspended);
            proof {
                assert(a3.log_all(rest.non_existent.consume_all_effects()).effects =~= analyzer@.effects);
            }
        } else {
            proof {
                lemma_log_small(a3, EffectView::GlobalEffect);
            }
        }
        let ghost k = props_consume(ks);
        let ghost r = match o.rest {
            Some(p) => (p.non_existent.consume_all_effects(), prop_suspended(p)),
            None => (Seq::<EffectView>::empty(), Seq::<EntityView>::empty()),
        };
        proof {
            lemma_log_chain(a0, k.0 + o.unknown.non_existent.consume_all_effects(), r.0);
            assert(entity_views(suspended@) =~= k.1 + prop_suspended(o.unknown) + r.1);
        }
        let ghost a4 = analyzer@;
        let ghost sv = entity_views(suspended@);
        let mut j: usize = 0;
        proof {
            assert(consume_views(sv.subrange(0, 0)) =~= Seq::<EffectView>::empty());
            lemma_log_small(a4, EffectView::GlobalEffect);
        }
        while j < suspended.len()
            invariant
                j <= suspended@.len(),
                sv == entity_views(suspended@),
                analyzer@ == a4.log_all(consume_views(sv.subrange(0, j as int))),
            decreases suspended@.len() - j,
        {
            analyzer.consume(suspended[j].as_dep());
            proof {
                assert(consume_views(sv.subrange(0, j + 1)) =~= consume_views(sv.subrange(0, j as int)).push(
                    EffectView::Consume(entity_dep_parts(sv[j as int]))));
                assert(analyzer@.effects =~= a4.log_all(consume_views(sv.subrange(0, j + 1))).effects);
            }
            j = j + 1;
        }
        proof {
            assert(sv.subrange(0, sv.len() as int) =~= sv);
            lemma_log_chain(a0, k.0 + o.unknown.non_existent.consume_all_effects() + r.0, consume_views(sv));
            assert(object_consume_effects(o) =~= k.0 + o.unknown.non_existent.consume_all_effects() + r.0 + consume_views(sv));
        }
    }
}


/// The mathematical content of one way a property holds its value.
pub enum PVView {
    Consumed(EntityView, Option<Seq<Seq<DepPart>>>),
    Field(EntityView, bool),
    Property(Option<EntityView>, Option<EntityView>),
}

/// The content of one way a property holds its value.
pub open spec fn pv_view(pv: crate::property::ObjectPropertyValue) -> PVView {
    match pv {
        crate::property::ObjectPropertyValue::Consumed(v, l) => PVView::Consumed(v@, match l.deps {
            Some(d) => Some(dep_views(d@)),
            None => None,
        }),
        crate::property::ObjectPropertyValue::Field(v, r) => PVView::Field(v@, r),
        crate::property::ObjectPropertyValue::Property(g, st) => PVView::Property(
            crate::value::opt_entity_view(g),
            crate::value::opt_entity_view(st),
        ),
    }
}

/// The contents of the ways a property holds its value.
pub open spec fn pv_views(s: Seq<crate::property::ObjectPropertyValue>) -> Seq<PVView> {
    s.map_values(|pv: crate::property::ObjectPropertyValue| pv_view(pv))
}

/// The mathematical content of a property.
pub struct PropView {
    pub definite: bool,
    pub enumerable: bool,
    pub possible_values: Seq<PVView>,
    pub current: Seq<Seq<DepPart>>,
    pub node: Option<Seq<DepPart>>,
    pub key: Option<EntityView>,
    pub mangling: Option<u32>,
}

/// The content of a property.
pub open spec fn prop_view(p: ObjectProperty) -> PropView {
    PropView {
        definite: p.definite,
        enumerable: p.enumerable,
        possible_values: pv_views(p.possible_values@),
        current: dep_views(p.non_existent.current@),
        node: opt_view(p.non_existent.node),
        key: crate::value::opt_entity_view(p.key),
        mangling: p.mangling,
    }
}

/// The content of an optional property.
pub open spec fn opt_prop_view(p: Option<ObjectProperty>) -> Option<PropView> {
    match p {
        Some(x) => Some(prop_view(x)),
        None => None,
    }
}

/// The keyed properties as content.
pub open spec fn keyed_view(ks: Seq<(PropertyKeyValue, ObjectProperty)>) -> Seq<(PropertyKeyView, PropView)> {
    ks.map_values(|e: (PropertyKeyValue, ObjectProperty)| (e.0@, prop_view(e.1)))
}

/// The index of the first entry with key `k` in content; -1 if none.
pub open spec fn view_index(ks: Seq<(PropertyKeyView, PropView)>, k: PropertyKeyView) -> int
    decreases ks.len(),
{
    if ks.len() == 0 {
        -1
    } else {
        let i = view_index(ks.drop_last(), k);
        if i >= 0 {
            i
        } else if ks.last().0 == k {
            ks.len() - 1
        } else {
            -1
        }
    }
}

proof fn lemma_view_index(ks: Seq<(PropertyKeyValue, ObjectProperty)>, k: PropertyKeyView)
    ensures
        view_index(keyed_view(ks), k) == key_index(ks, k),
    decreases ks.len(),
{
    if ks.len() > 0 {
        lemma_view_index(ks.drop_last(), k);
        assert(keyed_view(ks).drop_last() =~= keyed_view(ks.drop_last()));
    }
}

/// A property after a delete with dependency `d`: it no longer surely
/// exists; a determinate delete also drops its values and earlier reasons.
pub open spec fn pv_delete(v: PropView, indeterminate: bool, d: Seq<DepPart>) -> PropView {
    PropView {
        definite: false,
        possible_values: if indeterminate { v.possible_values } else { Seq::empty() },
        current: (if indeterminate { v.current } else { Seq::empty() }).push(d),
        node: if indeterminate { v.node } else { None },
        ..v
    }
}

proof fn lemma_prop_delete(p1: ObjectProperty, p2: ObjectProperty, indeterminate: bool, d: Dep)
    requires
        !p2.definite,
        p2.enumerable == p1.enumerable,
        p2.key == p1.key,
        p2.mangling == p1.mangling,
        indeterminate ==> p2.possible_values@ == p1.possible_values@ && p2.non_existent.current@ == p1.non_existent.current@.push(d)
            && p2.non_existent.node == p1.non_existent.node,
        !indeterminate ==> p2.possible_values@.len() == 0 && p2.non_existent.current@ == seq![d]
            && p2.non_existent.node is None,
    ensures
        prop_view(p2) == pv_delete(prop_view(p1), indeterminate, d@),
{
    if indeterminate {
        assert(dep_views(p2.non_existent.current@) =~= dep_views(p1.non_existent.current@).push(d@));
    } else {
        assert(dep_views(p2.non_existent.current@) =~= Seq::<Seq<DepPart>>::empty().push(d@));
        assert(pv_views(p2.possible_values@) =~= Seq::<PVView>::empty());
    }
}

/// Deleting under literal keys, in order: the state is the keyed
/// properties, the further-key property, and the requests made.
pub struct DeleteState {
    pub keyed: Seq<(PropertyKeyView, PropView)>,
    pub rest: Option<PropView>,
    pub effects: Seq<EffectView>,
}

/// Deletes each literal key in turn: an existing property is deleted
/// (mangled keys depend on both keys and their equality), otherwise the
/// further-key property may have been deleted, otherwise a mangled key
/// joins the object's mangling group.
pub open spec fn delete_lits(
    st: DeleteState,
    lits: Seq<LiteralValue>,
    mangable: bool,
    group: Option<u64>,
    indeterminate: bool,
    deps: Seq<DepPart>,
    key: EntityView,
) -> DeleteState
    decreases lits.len(),
{
    if lits.len() == 0 {
        st
    } else {
        delete_one(delete_lits(st, lits.drop_last(), mangable, group, indeterminate, deps, key), lits.last(), mangable, group, indeterminate, deps, key)
    }
}

/// Deleting under one literal key (see `delete_lits`).
pub open spec fn delete_one(
    p: DeleteState,
    lit: LiteralValue,
    mangable: bool,
    group: Option<u64>,
    indeterminate: bool,
    deps: Seq<DepPart>,
    key: EntityView,
) -> DeleteState {
    let kl = literal_key(lit);
    let i = view_index(p.keyed, kl.0);
    if i >= 0 {
        let v = p.keyed[i].1;
        let d = if mangable {
            deps + crate::property::mangle_extra(v.key->0, key, crate::literal::MangleConstraint::Eq(v.mangling->0, kl.1->0))
        } else {
            deps
        };
        DeleteState { keyed: p.keyed.update(i, (kl.0, pv_delete(v, indeterminate, d))), ..p }
    } else if p.rest is Some {
        DeleteState { rest: Some(pv_delete(p.rest->0, true, deps + entity_dep_parts(key))), ..p }
    } else if mangable {
        DeleteState { effects: p.effects.push(EffectView::AddToManglingGroup(group->0, kl.1->0)), ..p }
    } else {
        p
    }
}

/// Deletes every keyed property, as a delete under an unknown key does.
pub open spec fn delete_all(ks: Seq<(PropertyKeyView, PropView)>, d: Seq<DepPart>) -> Seq<(PropertyKeyView, PropView)> {
    ks.map_values(|e: (PropertyKeyView, PropView)| (e.0, pv_delete(e.1, true, d)))
}


/// Whether `o2`, `a2` are `o1`, `a1` after deleting `key` from an object
/// that is not consumed, with the mutation's dependencies `deps` and
/// indeterminacy.
pub open spec fn delete_post(
    o1: ObjectValue,
    o2: ObjectValue,
    a1: AnalyzerView,
    a2: AnalyzerView,
    deps: Seq<DepPart>,
    indeterminate: bool,
    key: EntityView,
) -> bool {
    let kd = deps + entity_dep_parts(key);
    &&& o2.consumed == o1.consumed
    &&& o2.cf_scope == o1.cf_scope
    &&& o2.object_id == o1.object_id
    &&& o2.prototype == o1.prototype
    &&& if o1.unknown.possible_values@.len() > 0 {
        prop_view(o2.unknown) == pv_delete(prop_view(o1.unknown), true, kd)
    } else {
        o2.unknown == o1.unknown
    }
    &&& if crate::entity::all_literals(key.values) {
        let lits = key_literals(key);
        let m = mangable_check(o1, lits);
        let off = o1.mangling_group is Some && !m;
        let e1 = if off { seq![EffectView::DisableMangling(o1.mangling_group->0)] } else { Seq::empty() };
        let st = delete_lits(
            DeleteState { keyed: keyed_view(o1.keyed@), rest: opt_prop_view(o1.rest), effects: e1 },
            lits,
            m,
            o1.mangling_group,
            indeterminate || lits.len() > 1,
            if m { deps } else { kd },
            key,
        );
        &&& keyed_view(o2.keyed@) == st.keyed
        &&& opt_prop_view(o2.rest) == st.rest
        &&& a2 == a1.log_all(st.effects)
        &&& o2.mangling_group == (if off { None } else { o1.mangling_group })
    } else {
        &&& keyed_view(o2.keyed@) == delete_all(keyed_view(o1.keyed@), kd)
        &&& o2.rest == o1.rest
        &&& o2.mangling_group is None
        &&& a2 == a1.log_all(if o1.mangling_group is Some { seq![EffectView::DisableMangling(o1.mangling_group->0)] } else { Seq::empty() })
    }
}

impl ObjectValue {
    /// Deletes a property. A consumed object, or a delete under exhaustive
    /// tracking (which consumes the object first), goes as for a consumed
    /// value; otherwise the properties under unknown keys may be gone, and
    /// the keys are deleted as `delete_post` says.
    pub fn delete_property(&mut self, analyzer: &mut Analyzer, dep: &Dep, key: &Entity)
        requires
            wf(*old(self)),
        ensures
            wf(*final(self)),
            old(self).consumed ==> *final(self) == *old(self) && final(analyzer)@ == old(analyzer)@.log(
                EffectView::ReferGlobal,
            ).log(EffectView::Consume(dep@ + key.as_dep_spec())),
            !old(self).consumed ==> ({
                let stack = old(analyzer)@.cf_stack;
                let t = first_different_depth(stack, old(self).cf_scope) as int;
                let a1 = AnalyzerView { cf_stack: fold_from(stack, t), ..old(analyzer)@ };
                let deps = dep@ + scopes_deps(stack, t, stack.len() as int);
                &&& any_exhaustive(stack, t) ==> *final(self) == (ObjectValue { consumed: true, ..*old(self) })
                    && final(analyzer)@ == a1.log_all(object_consume_effects(*old(self))).log(EffectView::ReferGlobal).log(
                    EffectView::Consume(dep@ + key.as_dep_spec()),
                )
                &&& !any_exhaustive(stack, t) ==> delete_post(
                    *old(self),
                    *final(self),
                    a1,
                    final(analyzer)@,
                    deps,
                    any_indeterminate(stack, t),
                    key@,
                )
            }),
    {
        if self.consumed {
            crate::consumed_object::delete_property(analyzer, dep, key);
            return;
        }
        let m = prepare_scopes(analyzer, self.cf_scope, dep);
        if m.is_exhaustive {
            self.consume(analyzer);
            crate::consumed_object::delete_property(analyzer, dep, key);
            return;
        }
        let ghost o = *self;
        let ghost a1 = analyzer@;
        let deps = m.exec_deps;
        let kd = deps.join(&key.as_dep());
        if self.unknown.possible_values.len() > 0 {
            let ghost u0 = self.unknown;
            let kdc = kd.clone();
            let ghost gk = kdc;
            self.unknown.delete(true, kdc);
            proof {
                lemma_prop_delete(u0, self.unknown, true, gk);
            }
        }
        match key.get_to_literals() {
            Some(lits) => {
                proof {
                    assert(lits@ =~= key_literals(key@));
                }
                let indeterminate = m.indeterminate || lits.len() > 1;
                let mangable = self.check_mangable(analyzer, &lits);
                let d2 = if mangable { deps.clone() } else { kd.clone() };
                let ghost mg0 = self.mangling_group;
                let ghost un0 = self.unknown;
                let ghost st0 = DeleteState { keyed: keyed_view(self.keyed@), rest: opt_prop_view(self.rest), effects: Seq::<EffectView>::empty() };
                let ghost a2 = analyzer@;
                let ghost e1 = if o.mangling_group is Some && !mangable {
                    seq![EffectView::DisableMangling(o.mangling_group->0)]
                } else {
                    Seq::<EffectView>::empty()
                };
                proof {
                    lemma_log_small(a1, EffectView::DisableMangling(o.mangling_group->0));
                    assert(a2 == a1.log_all(e1));
                }
                let ghost base = DeleteState { effects: e1, ..st0 };
                let mut i: usize = 0;
                proof {
                    assert(lits@.subrange(0, 0) =~= Seq::<LiteralValue>::empty());
                }
                while i < lits.len()
                    invariant
                        i <= lits@.len(),
                        wf(*self),
                        mangable == mangable_check(o, lits@),
                        mangable ==> self.mangling_group == o.mangling_group,
                        self.mangling_group == mg0,
                        self.unknown == un0,
                        mangable ==> forall|j: int| 0 <= j < lits@.len() ==> literal_mangable(#[trigger] lits@[j]),
                        self.consumed == o.consumed && self.cf_scope == o.cf_scope && self.object_id == o.object_id,
                        self.prototype == o.prototype,
                        ({
                            let st = delete_lits(base, lits@.subrange(0, i as int), mangable, o.mangling_group, indeterminate, d2@, key@);
                            &&& keyed_view(self.keyed@) == st.keyed
                            &&& opt_prop_view(self.rest) == st.rest
                            &&& analyzer@ == a1.log_all(st.effects)
                        }),
                    decreases lits@.len() - i,
                {
                    proof {
                        let sub = lits@.subrange(0, i + 1);
                        assert(sub.drop_last() =~= lits@.subrange(0, i as int));
                        assert(sub.last() == lits@[i as int]);
                    }
                    let ghost st = delete_lits(base, lits@.subrange(0, i as int), mangable, o.mangling_group, indeterminate, d2@, key@);
                    self.delete_literal(analyzer, &lits[i], mangable, indeterminate, &d2, key);
                    proof {
                        lemma_delete_one_effects(st, lits@[i as int], mangable, o.mangling_group, indeterminate, d2@, key@);
                        let q0 = delete_one(DeleteState { effects: Seq::empty(), ..st }, lits@[i as int], mangable, o.mangling_group, indeterminate, d2@, key@);
                        lemma_log_chain(a1, st.effects, q0.effects);
                    }
                    i = i + 1;
                }
                proof {
                    assert(lits@.subrange(0, lits@.len() as int) =~= lits@);
                    let st = delete_lits(base, lits@, mangable, o.mangling_group, indeterminate, d2@, key@);
                    assert(keyed_view(self.keyed@) == st.keyed);
                    assert(opt_prop_view(self.rest) == st.rest);
                    assert(analyzer@ == a1.log_all(st.effects));
                    assert(base == DeleteState { keyed: keyed_view(o.keyed@), rest: opt_prop_view(o.rest), effects: e1 });
                    assert(self.mangling_group == (if o.mangling_group is Some && !mangable { None } else { o.mangling_group }));
                }
            },
            None => {
                self.disable_mangling(analyzer);
                let ghost ks = keyed_view(self.keyed@);
                let ghost o2 = *self;
                let mut i: usize = 0;
                while i < self.keyed.len()
                    invariant
                        i <= ks.len(),
                        self.keyed@.len() == ks.len(),
                        self.mangling_group is None,
                        self.prototype == o.prototype,
                        self.consumed == o.consumed && self.cf_scope == o.cf_scope && self.object_id == o.object_id,
                        self.rest == o.rest,
                        self.unknown == o2.unknown,
                        forall|j: int| 0 <= j < i ==> #[trigger] keyed_view(self.keyed@)[j] == (ks[j].0, pv_delete(ks[j].1, true, kd@)),
                        forall|j: int| i <= j < ks.len() ==> #[trigger] keyed_view(self.keyed@)[j] == ks[j],
                    decreases ks.len() - i,
                {
                    let ghost p0 = self.keyed@[i as int].1;
                    let kdc = kd.clone();
                    let ghost gk = kdc;
                    let ghost k0 = self.keyed@;
                    self.keyed[i].1.delete(true, kdc);
                    proof {
                        lemma_prop_delete(p0, self.keyed@[i as int].1, true, gk);
                        assert forall|j: int| 0 <= j < ks.len() && j != i implies self.keyed@[j] == k0[j] by {}
                        assert(self.keyed@[i as int].0 == k0[i as int].0);
                        assert forall|j: int| 0 <= j < i + 1 implies #[trigger] keyed_view(self.keyed@)[j] == (ks[j].0, pv_delete(ks[j].1, true, kd@)) by {
                            if j < i {
                                assert(keyed_view(self.keyed@)[j] == keyed_view(k0)[j]);
                            } else {
                                assert(keyed_view(k0)[j] == ks[j]);
                                assert(prop_view(p0) == ks[j].1);
                            }
                        }
                        assert forall|j: int| i + 1 <= j < ks.len() implies #[trigger] keyed_view(self.keyed@)[j] == ks[j] by {
                            assert(keyed_view(self.keyed@)[j] == keyed_view(k0)[j]);
                        }
                    }
                    i = i + 1;
                }
                proof {
                    assert(keyed_view(self.keyed@) =~= delete_all(ks, kd@));
                }
            },
        }
    }
}


proof fn lemma_delete_one_effects(
    p: DeleteState,
    lit: LiteralValue,
    mangable: bool,
    group: Option<u64>,
    indeterminate: bool,
    deps: Seq<DepPart>,
    key: EntityView,
)
    ensures
        ({
            let q0 = delete_one(DeleteState { effects: Seq::empty(), ..p }, lit, mangable, group, indeterminate, deps, key);
            let q = delete_one(p, lit, mangable, group, indeterminate, deps, key);
            &&& q.keyed == q0.keyed
            &&& q.rest == q0.rest
            &&& q.effects == p.effects + q0.effects
        }),
{
    let q0 = delete_one(DeleteState { effects: Seq::empty(), ..p }, lit, mangable, group, indeterminate, deps, key);
    let q = delete_one(p, lit, mangable, group, indeterminate, deps, key);
    assert(q.effects =~= p.effects + q0.effects);
}

impl ObjectValue {
    /// Deletes under one literal key (see `delete_one`).
    fn delete_literal(&mut self, analyzer: &mut Analyzer, lit: &LiteralValue, mangable: bool, indeterminate: bool, deps: &Dep, key: &Entity)
        requires
            wf(*old(self)),
            mangable ==> old(self).mangling_group is Some && literal_mangable(*lit),
        ensures
            ({
                let p = DeleteState { keyed: keyed_view(old(self).keyed@), rest: opt_prop_view(old(self).rest), effects: Seq::empty() };
                let q = delete_one(p, *lit, mangable, old(self).mangling_group, indeterminate, deps@, key@);
                &&& keyed_view(final(self).keyed@) == q.keyed
                &&& opt_prop_view(final(self).rest) == q.rest
                &&& final(analyzer)@ == old(analyzer)@.log_all(q.effects)
            }),
            wf(*final(self)),
            final(self).consumed == old(self).consumed,
            final(self).cf_scope == old(self).cf_scope,
            final(self).object_id == old(self).object_id,
            final(self).prototype == old(self).prototype,
            final(self).mangling_group == old(self).mangling_group,
            final(self).unknown == old(self).unknown,
    {
        let ghost o = *self;
        let (k, atom) = literal_to_key(lit);
        let found = self.find_key(&k);
        proof {
            lemma_key_index_bounds(self.keyed@, k@);
            lemma_view_index(self.keyed@, k@);
            lemma_log_small(analyzer@, EffectView::GlobalEffect);
        }
        match found {
            Some(i) => {
                let d = if mangable {
                    let prev_key = match &self.keyed[i].1.key {
                        Some(pk) => pk.clone(),
                        None => {
                            proof {
                                assert(false);
                            }
                            Entity::never()
                        },
                    };
                    let prev_atom = match self.keyed[i].1.mangling {
                        Some(a) => a,
                        None => {
                            proof {
                                assert(false);
                            }
                            0
                        },
                    };
                    let a = match atom {
                        Some(a) => a,
                        None => {
                            proof {
                                assert(false);
                            }
                            0
                        },
                    };
                    let mut d = deps.join(&prev_key.as_dep()).join(&key.as_dep());
                    d.parts.push(DepPart::Constraint(crate::literal::MangleConstraint::Eq(prev_atom, a)));
                    proof {
                        assert(d@ =~= deps@ + crate::property::mangle_extra(prev_key@, key@, crate::literal::MangleConstraint::Eq(prev_atom, a)));
                    }
                    d
                } else {
                    deps.clone()
                };
                let ghost p0 = self.keyed@[i as int].1;
                let ghost kv0 = keyed_view(self.keyed@);
                let dc = d.clone();
                let ghost gd = dc;
                self.keyed[i].1.delete(indeterminate, dc);
                proof {
                    lemma_prop_delete(p0, self.keyed@[i as int].1, indeterminate, gd);
                    assert(keyed_view(self.keyed@) =~= kv0.update(i as int, (k@, pv_delete(prop_view(p0), indeterminate, d@))));
                    assert forall|j: int| 0 <= j < self.keyed@.len() implies (#[trigger] self.keyed@[j]).1.key == o.keyed@[j].1.key
                        && self.keyed@[j].1.mangling == o.keyed@[j].1.mangling by {}
                }
            },
            None => {
                match &mut self.rest {
                    Some(rest) => {
                        let ghost r0 = *rest;
                        let d = deps.join(&key.as_dep());
                        let dc = d.clone();
                        let ghost gd = dc;
                        rest.delete(true, dc);
                        proof {
                            lemma_prop_delete(r0, *rest, true, gd);
                        }
                    },
                    None => {
                        if mangable {
                            let g = match self.mangling_group {
                                Some(g) => g,
                                None => {
                                    proof {
                                        assert(false);
                                    }
                                    0
                                },
                            };
                            let a = match atom {
                                Some(a) => a,
                                None => {
                                    proof {
                                        assert(false);
                                    }
                                    0
                                },
                            };
                            let ghost a0 = analyzer@;
                            analyzer.record(Effect::AddToManglingGroup(g, a));
                            proof {
                                assert(analyzer@.effects =~= a0.log_all(Seq::<EffectView>::empty().push(EffectView::AddToManglingGroup(g, a))).effects);
                            }
                        }
                    },
                }
            },
        }
    }
}


/// What an object literal's property defines.
#[derive(Debug, Clone, Copy, PartialEq, Eq, Structural)]
pub enum PropertyKind {
    Init,
    Getter,
    Setter,
}

/// The getter and setter of the first accessor, if any.
pub open spec fn first_accessor(pvs: Seq<PVView>) -> Option<(Option<EntityView>, Option<EntityView>)>
    decreases pvs.len(),
{
    if pvs.len() == 0 {
        None
    } else {
        match pvs[0] {
            PVView::Property(g, st) => Some((g, st)),
            _ => first_accessor(pvs.skip(1)),
        }
    }
}

/// The way of holding a value a definition gives: a field for a plain
/// property; an accessor for a getter or setter, keeping the other half of
/// an accessor it redefines.
pub open spec fn new_pv(kind: PropertyKind, value: EntityView, reused: Option<(Option<EntityView>, Option<EntityView>)>) -> PVView {
    match kind {
        PropertyKind::Init => PVView::Field(value, false),
        PropertyKind::Getter => PVView::Property(Some(value), match reused {
            Some(r) => r.1,
            None => None,
        }),
        PropertyKind::Setter => PVView::Property(match reused {
            Some(r) => r.0,
            None => None,
        }, Some(value)),
    }
}

/// The keyed properties and requests while defining under literal keys.
pub struct InitState {
    pub keyed: Seq<(PropertyKeyView, PropView)>,
    pub effects: Seq<EffectView>,
}

/// Defining under one literal key: a definite definition (or one for a new
/// key) replaces the property with one holding just the new way; an
/// indefinite one for an existing key adds the way to it. Mangled keys tie
/// the value to the existing key's atom, or join a new key to the
/// object's mangling group.
pub open spec fn init_one(
    st: InitState,
    lit: LiteralValue,
    kind: PropertyKind,
    value: EntityView,
    definite: bool,
    mangable: bool,
    group: Option<u64>,
    key: EntityView,
) -> InitState {
    let kl = literal_key(lit);
    let i = view_index(st.keyed, kl.0);
    let reused = if definite && i >= 0 { first_accessor(st.keyed[i].1.possible_values) } else { None };
    let value2 = if mangable && i >= 0 {
        EntityView {
            values: value.values,
            dep: value.dep + seq![DepPart::Constraint(crate::literal::MangleConstraint::Eq(st.keyed[i].1.mangling->0, kl.1->0))],
        }
    } else {
        value
    };
    let effects = if mangable && i < 0 {
        st.effects.push(EffectView::AddToManglingGroup(group->0, kl.1->0))
    } else {
        st.effects
    };
    let pv = new_pv(kind, value2, reused);
    let fresh = PropView {
        definite,
        enumerable: true,
        possible_values: seq![pv],
        current: Seq::empty(),
        node: None,
        key: Some(key),
        mangling: if mangable { kl.1 } else { None },
    };
    let keyed = if i < 0 {
        st.keyed.push((kl.0, fresh))
    } else if definite {
        st.keyed.update(i, (kl.0, fresh))
    } else {
        st.keyed.update(i, (kl.0, PropView { possible_values: st.keyed[i].1.possible_values.push(pv), ..st.keyed[i].1 }))
    };
    InitState { keyed, effects }
}

/// Defining under each literal key in turn.
pub open spec fn init_lits(
    st: InitState,
    lits: Seq<LiteralValue>,
    kind: PropertyKind,
    value: EntityView,
    definite: bool,
    mangable: bool,
    group: Option<u64>,
    key: EntityView,
) -> InitState
    decreases lits.len(),
{
    if lits.len() == 0 {
        st
    } else {
        init_one(init_lits(st, lits.drop_last(), kind, value, definite, mangable, group, key), lits.last(), kind, value, definite, mangable, group, key)
    }
}

/// A new property holding only `pv`.
fn fresh_property(pv: crate::property::ObjectPropertyValue, definite: bool, key: &Entity, mangling: Option<u32>) -> (r: ObjectProperty)
    ensures
        prop_view(r) == (PropView {
            definite,
            enumerable: true,
            possible_values: seq![pv_view(pv)],
            current: Seq::empty(),
            node: None,
            key: Some(key@),
            mangling,
        }),
        r.key is Some,
        r.mangling == mangling,
{
    let ghost g = pv;
    let r = ObjectProperty {
        definite,
        enumerable: true,
        possible_values: vec![pv],
        non_existent: crate::dep::DepCollector::new(Vec::new()),
        key: Some(key.clone()),
        mangling,
    };
    proof {
        assert(pv_views(r.possible_values@) =~= seq![pv_view(g)]);
        assert(dep_views(r.non_existent.current@) =~= Seq::<Seq<DepPart>>::empty());
    }
    r
}

/// The way of holding a value a definition gives (see `new_pv`).
fn make_pv(kind: PropertyKind, value: Entity, reused: &Option<(Option<Entity>, Option<Entity>)>) -> (r: crate::property::ObjectPropertyValue)
    ensures
        pv_view(r) == new_pv(kind, value@, match reused {
            Some(x) => Some((crate::value::opt_entity_view(x.0), crate::value::opt_entity_view(x.1))),
            None => None,
        }),
{
    match kind {
        PropertyKind::Init => crate::property::ObjectPropertyValue::Field(value, false),
        PropertyKind::Getter => crate::property::ObjectPropertyValue::Property(Some(value), match reused {
            Some(x) => crate::value::clone_opt_entity(&x.1),
            None => None,
        }),
        PropertyKind::Setter => crate::property::ObjectPropertyValue::Property(match reused {
            Some(x) => crate::value::clone_opt_entity(&x.0),
            None => None,
        }, Some(value)),
    }
}

/// The getter and setter of the first accessor of a property.
fn find_accessor(p: &ObjectProperty) -> (r: Option<(Option<Entity>, Option<Entity>)>)
    ensures
        match r {
            Some(x) => Some((crate::value::opt_entity_view(x.0), crate::value::opt_entity_view(x.1))),
            None => None,
        } == first_accessor(pv_views(p.possible_values@)),
{
    let ghost vs = pv_views(p.possible_values@);
    let mut i: usize = 0;
    proof {
        assert(vs.skip(0) =~= vs);
    }
    while i < p.possible_values.len()
        invariant
            i <= vs.len(),
            vs == pv_views(p.possible_values@),
            first_accessor(vs.skip(i as int)) == first_accessor(vs),
        decreases vs.len() - i,
    {
        proof {
            assert(vs.skip(i as int)[0] == vs[i as int]);
            assert(vs.skip(i as int).skip(1) =~= vs.skip(i + 1));
        }
        if let crate::property::ObjectPropertyValue::Property(g, st) = &p.possible_values[i] {
            return Some((crate::value::clone_opt_entity(g), crate::value::clone_opt_entity(st)));
        }
        i = i + 1;
    }
    proof {
        assert(vs.skip(i as int).len() == 0);
    }
    None
}

impl ObjectValue {
    /// Adds a value standing for the further keys.
    pub fn init_rest(&mut self, property: crate::property::ObjectPropertyValue)
        requires
            old(self).mangling_group is None,
        ensures
            old(self).rest matches Some(r) ==> (final(self).rest matches Some(r2) && prop_view(r2) == (PropView {
                possible_values: prop_view(r).possible_values.push(pv_view(property)),
                ..prop_view(r)
            })),
            old(self).rest is None ==> (final(self).rest matches Some(r2) && prop_view(r2) == (PropView {
                definite: false,
                enumerable: true,
                possible_values: seq![pv_view(property)],
                current: Seq::empty(),
                node: None,
                key: None,
                mangling: None,
            })),
            final(self).keyed == old(self).keyed,
            final(self).unknown == old(self).unknown,
            final(self).prototype == old(self).prototype,
            final(self).mangling_group == old(self).mangling_group,
            final(self).consumed == old(self).consumed,
            final(self).cf_scope == old(self).cf_scope,
            final(self).object_id == old(self).object_id,
    {
        let ghost g = property;
        match &mut self.rest {
            Some(rest) => {
                let ghost v0 = pv_views(rest.possible_values@);
                rest.possible_values.push(property);
                proof {
                    assert(pv_views(rest.possible_values@) =~= v0.push(pv_view(g)));
                }
            },
            None => {
                let r = ObjectProperty {
                    definite: false,
                    enumerable: true,
                    possible_values: vec![property],
                    non_existent: crate::dep::DepCollector::new(Vec::new()),
                    key: None,
                    mangling: None,
                };
                proof {
                    assert(pv_views(r.possible_values@) =~= seq![pv_view(g)]);
                    assert(dep_views(r.non_existent.current@) =~= Seq::<Seq<DepPart>>::empty());
                }
                self.rest = Some(r);
            },
        }
    }

    /// Defines under one literal key (see `init_one`).
    fn init_literal(
        &mut self,
        analyzer: &mut Analyzer,
        lit: &LiteralValue,
        kind: PropertyKind,
        value: &Entity,
        definite: bool,
        mangable: bool,
        key: &Entity,
    )
        requires
            wf(*old(self)),
            mangable ==> old(self).mangling_group is Some && literal_mangable(*lit),
            !mangable ==> old(self).mangling_group is None,
        ensures
            ({
                let q = init_one(InitState { keyed: keyed_view(old(self).keyed@), effects: Seq::empty() }, *lit, kind, value@, definite, mangable, old(self).mangling_group, key@);
                &&& keyed_view(final(self).keyed@) == q.keyed
                &&& final(analyzer)@ == old(analyzer)@.log_all(q.effects)
            }),
            wf(*final(self)),
            final(self).consumed == old(self).consumed,
            final(self).cf_scope == old(self).cf_scope,
            final(self).object_id == old(self).object_id,
            final(self).prototype == old(self).prototype,
            final(self).mangling_group == old(self).mangling_group,
            final(self).unknown == old(self).unknown,
            final(self).rest == old(self).rest,
    {
        let ghost o = *self;
        let ghost a0 = analyzer@;
        let (k, atom) = literal_to_key(lit);
        let found = self.find_key(&k);
        proof {
            lemma_key_index_bounds(self.keyed@, k@);
            lemma_view_index(self.keyed@, k@);
            lemma_log_small(a0, EffectView::GlobalEffect);
        }
        let reused = match found {
            Some(i) => if definite { find_accessor(&self.keyed[i].1) } else { None },
            None => None,
        };
        let value2 = match found {
            Some(i) => if mangable {
                let prev_atom = match self.keyed[i].1.mangling {
                    Some(a) => a,
                    None => {
                        proof {
                            assert(false);
                        }
                        0
                    },
                };
                let a = match atom {
                    Some(a) => a,
                    None => {
                        proof {
                            assert(false);
                        }
                        0
                    },
                };
                let c = Dep { parts: vec![DepPart::Constraint(crate::literal::MangleConstraint::Eq(prev_atom, a))] };
                let v = value.clone().computed(&c);
                proof {
                    assert(v@.dep =~= value@.dep + seq![DepPart::Constraint(crate::literal::MangleConstraint::Eq(prev_atom, a))]);
                }
                v
            } else {
                value.clone()
            },
            None => {
                if mangable {
                    let g = match self.mangling_group {
                        Some(g) => g,
                        None => {
                            proof {
                                assert(false);
                            }
                            0
                        },
                    };
                    let a = match atom {
                        Some(a) => a,
                        None => {
                            proof {
                                assert(false);
                            }
                            0
                        },
                    };
                    analyzer.record(Effect::AddToManglingGroup(g, a));
                    proof {
                        assert(analyzer@.effects =~= a0.log_all(Seq::<EffectView>::empty().push(EffectView::AddToManglingGroup(g, a))).effects);
                    }
                }
                value.clone()
            },
        };
        let pv = make_pv(kind, value2, &reused);
        let ghost kv0 = keyed_view(self.keyed@);
        let ghost k0 = self.keyed@;
        let mangling = if mangable { atom } else { None };
        match found {
            Some(i) => {
                if definite {
                    let prop = fresh_property(pv, definite, key, mangling);
                    self.keyed.set(i, (k, prop));
                    proof {
                        assert(keyed_view(self.keyed@) =~= kv0.update(i as int, (k@, prop_view(prop))));
                    }
                } else {
                    let ghost gp = pv;
                    let ghost p0 = self.keyed@[i as int].1;
                    self.keyed[i].1.possible_values.push(pv);
                    proof {
                        assert(pv_views(self.keyed@[i as int].1.possible_values@) =~= pv_views(p0.possible_values@).push(pv_view(gp)));
                        assert(prop_view(self.keyed@[i as int].1) == PropView { possible_values: prop_view(p0).possible_values.push(pv_view(gp)), ..prop_view(p0) });
                        assert(keyed_view(self.keyed@) =~= kv0.update(i as int, (k@, PropView { possible_values: kv0[i as int].1.possible_values.push(pv_view(gp)), ..kv0[i as int].1 })));
                    }
                }
            },
            None => {
                let prop = fresh_property(pv, definite, key, mangling);
                self.keyed.push((k, prop));
                proof {
                    assert(keyed_view(self.keyed@) =~= kv0.push((k@, prop_view(prop))));
                }
            },
        }
        proof {
            assert forall|j: int| 0 <= j < self.keyed@.len() && self.mangling_group is Some implies (#[trigger] self.keyed@[j]).1.key is Some
                && self.keyed@[j].1.mangling is Some by {
                if j < k0.len() && (found is None || j != found->0) {
                    assert(self.keyed@[j] == k0[j]);
                }
            }
        }
    }
}


proof fn lemma_init_one_effects(
    st: InitState,
    lit: LiteralValue,
    kind: PropertyKind,
    value: EntityView,
    definite: bool,
    mangable: bool,
    group: Option<u64>,
    key: EntityView,
)
    ensures
        ({
            let q0 = init_one(InitState { effects: Seq::empty(), ..st }, lit, kind, value, definite, mangable, group, key);
            let q = init_one(st, lit, kind, value, definite, mangable, group, key);
            &&& q.keyed == q0.keyed
            &&& q.effects == st.effects + q0.effects
        }),
{
    let q0 = init_one(InitState { effects: Seq::empty(), ..st }, lit, kind, value, definite, mangable, group, key);
    let q = init_one(st, lit, kind, value, definite, mangable, group, key);
    assert(q.effects =~= st.effects + q0.effects);
}

/// Whether `o2`, `a2` are `o1`, `a1` after defining `key` with `value`.
pub open spec fn init_post(
    o1: ObjectValue,
    o2: ObjectValue,
    a1: AnalyzerView,
    a2: AnalyzerView,
    kind: PropertyKind,
    key: EntityView,
    value: EntityView,
    definite: bool,
) -> bool {
    &&& o2.consumed == o1.consumed
    &&& o2.cf_scope == o1.cf_scope
    &&& o2.object_id == o1.object_id
    &&& o2.prototype == o1.prototype
    &&& o2.rest == o1.rest
    &&& if crate::entity::all_literals(key.values) {
        let lits = key_literals(key);
        let m = mangable_check(o1, lits);
        let off = o1.mangling_group is Some && !m;
        let e1 = if off { seq![EffectView::DisableMangling(o1.mangling_group->0)] } else { Seq::empty() };
        let v = if m { value } else { EntityView { values: value.values, dep: value.dep + entity_dep_parts(key) } };
        let st = init_lits(
            InitState { keyed: keyed_view(o1.keyed@), effects: e1 },
            lits,
            kind,
            v,
            definite && lits.len() == 1,
            m,
            o1.mangling_group,
            key,
        );
        &&& keyed_view(o2.keyed@) == st.keyed
        &&& a2 == a1.log_all(st.effects)
        &&& o2.mangling_group == (if off { None } else { o1.mangling_group })
        &&& o2.unknown == o1.unknown
    } else {
        let v = EntityView { values: value.values, dep: value.dep + entity_dep_parts(key) };
        &&& o2.keyed == o1.keyed
        &&& o2.mangling_group is None
        &&& a2 == a1.log_all(if o1.mangling_group is Some { seq![EffectView::DisableMangling(o1.mangling_group->0)] } else { Seq::empty() })
        &&& prop_view(o2.unknown) == (PropView {
            possible_values: prop_view(o1.unknown).possible_values.push(new_pv(kind, v, None)),
            ..prop_view(o1.unknown)
        })
    }
}

impl ObjectValue {
    /// Defines a property of an object literal (see `init_post`): under
    /// literal keys each is defined in turn (see `init_lits`), the value
    /// depending on the key unless the keys are mangled, and definite only
    /// for a single key; under an unknown key, mangling stops and the
    /// unknown-key properties get the value.
    pub fn init_property(&mut self, analyzer: &mut Analyzer, kind: PropertyKind, key: &Entity, value: Entity, definite: bool)
        requires
            wf(*old(self)),
        ensures
            wf(*final(self)),
            init_post(*old(self), *final(self), old(analyzer)@, final(analyzer)@, kind, key@, value@, definite),
    {
        let ghost o = *self;
        let ghost a0 = analyzer@;
        match key.get_to_literals() {
            Some(lits) => {
                proof {
                    assert(lits@ =~= key_literals(key@));
                }
                let mangable = self.check_mangable(analyzer, &lits);
                let v = if mangable { value } else { value.computed(&key.as_dep()) };
                let definite2 = definite && lits.len() == 1;
                let ghost e1 = if o.mangling_group is Some && !mangable {
                    seq![EffectView::DisableMangling(o.mangling_group->0)]
                } else {
                    Seq::<EffectView>::empty()
                };
                proof {
                    lemma_log_small(a0, EffectView::DisableMangling(o.mangling_group->0));
                }
                let ghost base = InitState { keyed: keyed_view(o.keyed@), effects: e1 };
                let ghost mg0 = self.mangling_group;
                let ghost un0 = self.unknown;
                let mut i: usize = 0;
                proof {
                    assert(lits@.subrange(0, 0) =~= Seq::<LiteralValue>::empty());
                }
                while i < lits.len()
                    invariant
                        i <= lits@.len(),
                        wf(*self),
                        mangable == mangable_check(o, lits@),
                        self.mangling_group == mg0,
                        mangable ==> mg0 == o.mangling_group && mg0 is Some,
                        !mangable ==> mg0 is None,
                        mangable ==> forall|j: int| 0 <= j < lits@.len() ==> literal_mangable(#[trigger] lits@[j]),
                        self.consumed == o.consumed && self.cf_scope == o.cf_scope && self.object_id == o.object_id,
                        self.prototype == o.prototype,
                        self.rest == o.rest,
                        self.unknown == un0,
                        un0 == o.unknown,
                        ({
                            let st = init_lits(base, lits@.subrange(0, i as int), kind, v@, definite2, mangable, o.mangling_group, key@);
                            &&& keyed_view(self.keyed@) == st.keyed
                            &&& analyzer@ == a0.log_all(st.effects)
                        }),
                    decreases lits@.len() - i,
                {
                    proof {
                        let sub = lits@.subrange(0, i + 1);
                        assert(sub.drop_last() =~= lits@.subrange(0, i as int));
                        assert(sub.last() == lits@[i as int]);
                    }
                    let ghost st = init_lits(base, lits@.subrange(0, i as int), kind, v@, definite2, mangable, o.mangling_group, key@);
                    self.init_literal(analyzer, &lits[i], kind, &v, definite2, mangable, key);
                    proof {
                        lemma_init_one_effects(st, lits@[i as int], kind, v@, definite2, mangable, o.mangling_group, key@);
                        let q0 = init_one(InitState { effects: Seq::empty(), ..st }, lits@[i as int], kind, v@, definite2, mangable, o.mangling_group, key@);
                        lemma_log_chain(a0, st.effects, q0.effects);
                    }
                    i = i + 1;
                }
                proof {
                    assert(lits@.subrange(0, lits@.len() as int) =~= lits@);
                }
            },
            None => {
                self.disable_mangling(analyzer);
                let v = value.computed(&key.as_dep());
                let pv = make_pv(kind, v, &None);
                let ghost gp = pv;
                let ghost u0 = pv_views(self.unknown.possible_values@);
                self.unknown.possible_values.push(pv);
                proof {
                    assert(pv_views(self.unknown.possible_values@) =~= u0.push(pv_view(gp)));
                    lemma_log_small(a0, EffectView::DisableMangling(o.mangling_group->0));
                }
            },
        }
    }

    /// Defines the enumerable properties of `properties` (a spread) as
    /// plain properties, in order (see `init_chain`), then the value for
    /// unknown keys, if any, under a key that may be anything (see
    /// `init_post`), then records the spread's dependency as a reason the
    /// unknown-key properties may not exist.
    pub fn init_spread(&mut self, analyzer: &mut Analyzer, properties: crate::value::EnumeratedProperties)
        requires
            wf(*old(self)),
        ensures
            wf(*final(self)),
            exists|objs: Seq<ObjectValue>, ans: Seq<AnalyzerView>, o: ObjectValue|
                #![trigger init_chain(objs, ans, properties.known@), spread_finished(o, *final(self), properties.dep@)]
                init_chain(objs, ans, properties.known@) && objs[0] == *old(self) && ans[0] == old(analyzer)@ && (
                match properties.unknown {
                    Some(u) => init_post(
                        objs.last(),
                        o,
                        ans.last(),
                        final(analyzer)@,
                        PropertyKind::Init,
                        EntityView { values: seq![Value::Primitive(crate::primitive::PrimitiveValue::Mixed)], dep: Seq::empty() },
                        u@,
                        false,
                    ),
                    None => o == objs.last() && final(analyzer)@ == ans.last(),
                }) && spread_finished(o, *final(self), properties.dep@),
    {
        let crate::value::EnumeratedProperties { known, unknown, dep } = properties;
        let ghost mut objs: Seq<ObjectValue> = seq![*self];
        let ghost mut ans: Seq<AnalyzerView> = seq![analyzer@];
        let mut i: usize = 0;
        proof {
            assert(known@.subrange(0, 0) =~= Seq::<(PropertyKeyValue, crate::value::EnumeratedProperty)>::empty());
        }
        while i < known.len()
            invariant
                i <= known@.len(),
                wf(*self),
                objs.len() == i + 1,
                objs[0] == *old(self),
                ans[0] == old(analyzer)@,
                objs.last() == *self,
                ans.last() == analyzer@,
                init_chain(objs, ans, known@.subrange(0, i as int)),
            decreases known@.len() - i,
        {
            let entry = &known[i].1;
            let ghost o0 = *self;
            let ghost a0 = analyzer@;
            self.init_property(analyzer, PropertyKind::Init, &entry.key, entry.value.clone(), entry.definite);
            proof {
                let objs2 = objs.push(*self);
                let ans2 = ans.push(analyzer@);
                let es = known@.subrange(0, i + 1);
                assert(es.drop_last() =~= known@.subrange(0, i as int));
                assert forall|j: int| 0 <= j < es.len() implies init_post(
                    objs2[j],
                    objs2[j + 1],
                    ans2[j],
                    ans2[j + 1],
                    PropertyKind::Init,
                    (#[trigger] es[j]).1.key@,
                    es[j].1.value@,
                    es[j].1.definite,
                ) by {
                    if j < i {
                        assert(es[j] == known@.subrange(0, i as int)[j]);
                        assert(objs2[j] == objs[j] && objs2[j + 1] == objs[j + 1]);
                        assert(ans2[j] == ans[j] && ans2[j + 1] == ans[j + 1]);
                    } else {
                        assert(objs2[j] == o0 && ans2[j] == a0);
                    }
                }
                objs = objs2;
                ans = ans2;
            }
            i = i + 1;
        }
        proof {
            assert(known@.subrange(0, known@.len() as int) =~= known@);
        }
        let ghost o_last = *self;
        let ghost a_last = analyzer@;
        if let Some(u) = unknown {
            self.init_property(analyzer, PropertyKind::Init, &Entity::primitive(crate::primitive::PrimitiveValue::Mixed), u, false);
        }
        let ghost o_u = *self;
        let ghost a_u = analyzer@;
        let ghost d = dep@;
        self.unknown.non_existent.push(dep);
        proof {
            assert(known@ == properties.known@);
            assert(init_chain(objs, ans, properties.known@));
            assert(dep_views(self.unknown.non_existent.current@) =~= dep_views(o_u.unknown.non_existent.current@).push(d));
            assert(spread_finished(o_u, *self, properties.dep@));
        }
    }
}

/// Whether `objs` and `ans` go through defining each of `entries` in turn
/// as a plain property (see `init_post`).
pub open spec fn init_chain(
    objs: Seq<ObjectValue>,
    ans: Seq<AnalyzerView>,
    entries: Seq<(PropertyKeyValue, crate::value::EnumeratedProperty)>,
) -> bool {
    &&& objs.len() == entries.len() + 1
    &&& ans.len() == entries.len() + 1
    &&& forall|j: int|
        0 <= j < entries.len() ==> init_post(
            objs[j],
            objs[j + 1],
            ans[j],
            ans[j + 1],
            PropertyKind::Init,
            (#[trigger] entries[j]).1.key@,
            entries[j].1.value@,
            entries[j].1.definite,
        )
}

/// Whether `o2` is `o1` with `dep` recorded as a reason the unknown-key
/// properties may not exist.
pub open spec fn spread_finished(o1: ObjectValue, o2: ObjectValue, dep: Seq<DepPart>) -> bool {
    &&& o2.consumed == o1.consumed
    &&& o2.cf_scope == o1.cf_scope
    &&& o2.object_id == o1.object_id
    &&& o2.keyed == o1.keyed
    &&& o2.rest == o1.rest
    &&& o2.prototype == o1.prototype
    &&& o2.mangling_group == o1.mangling_group
    &&& o2.unknown.definite == o1.unknown.definite
    &&& o2.unknown.enumerable == o1.unknown.enumerable
    &&& o2.unknown.possible_values == o1.unknown.possible_values
    &&& o2.unknown.key == o1.unknown.key
    &&& o2.unknown.mangling == o1.unknown.mangling
    &&& o2.unknown.non_existent.node == o1.unknown.non_existent.node
    &&& dep_views(o2.unknown.non_existent.current@) == dep_views(o1.unknown.non_existent.current@).push(dep)
}

/// One group of an enumeration waiting for its getters: whether the key
/// surely exists, the key, and what reading gathered.
pub struct EnumGroup {
    pub definite: bool,
    pub key: Entity,
    pub values: Vec<Entity>,
    pub getters: Vec<Entity>,
    pub extra_deps: Vec<Dep>,
}

/// What an enumeration group should hold: whether the key surely exists,
/// the key (none for the group standing for unknown keys; otherwise the
/// text and, where mangled, the atom), and what reading gathered.
pub struct EnumGroupSpec {
    pub definite: bool,
    pub key: Option<(Seq<char>, Option<u32>)>,
    pub reads: Reads,
}

/// Whether a group holds what `v` says.
pub open spec fn group_matches(g: EnumGroup, v: EnumGroupSpec) -> bool {
    &&& g.definite == v.definite
    &&& entity_views(g.values@) == v.reads.values
    &&& entity_views(g.getters@) == v.reads.getters
    &&& dep_views(g.extra_deps@) == v.reads.extra
    &&& g.key.dep@.len() == 0
    &&& g.key.values@.len() == 1
    &&& match v.key {
        None => g.key.values@[0] == Value::Primitive(crate::primitive::PrimitiveValue::Mixed),
        Some(k) => g.key.values@[0] matches Value::Literal(LiteralValue::String(s, a)) && s@ == k.0 && a == k.1,
    }
}

/// A value that never occurs, as the key of a read that only enumerates.
pub open spec fn never_view() -> EntityView {
    EntityView { values: Seq::empty(), dep: Seq::empty() }
}

/// The groups of the enumerable keyed properties, in order.
pub open spec fn keyed_groups(ks: Seq<(PropertyKeyValue, ObjectProperty)>, mangable: bool) -> Seq<EnumGroupSpec>
    decreases ks.len(),
{
    if ks.len() == 0 {
        Seq::empty()
    } else {
        let p = ks.last().1;
        let prev = keyed_groups(ks.drop_last(), mangable);
        if p.enumerable {
            prev.push(EnumGroupSpec {
                definite: p.definite,
                key: Some((ks.last().0@->String_0, if mangable { p.mangling } else { None })),
                reads: prop_reads(p, never_view(), None),
            })
        } else {
            prev
        }
    }
}

/// Whether no enumerable property has a symbol key.
pub open spec fn string_keyed_enumerables(ks: Seq<(PropertyKeyValue, ObjectProperty)>) -> bool {
    forall|i: int| 0 <= i < ks.len() && (#[trigger] ks[i]).1.enumerable ==> ks[i].0 is String
}

/// The groups an enumeration waits on: first the values under unknown and
/// further keys, then each enumerable keyed property.
pub open spec fn enum_groups(o: ObjectValue) -> Seq<EnumGroupSpec> {
    let first = reads_add(prop_reads(o.unknown, never_view(), None), rest_group_reads(o));
    seq![EnumGroupSpec { definite: false, key: None, reads: first }] + keyed_groups(o.keyed@, o.mangling_group is Some)
}

/// What reading the further-key property gathers, if there is one.
pub open spec fn rest_group_reads(o: ObjectValue) -> Reads {
    match o.rest {
        Some(r) => prop_reads(r, never_view(), None),
        None => no_reads(),
    }
}

/// Whether groups hold what the specs say, one by one.
pub open spec fn groups_match(gs: Seq<EnumGroup>, vs: Seq<EnumGroupSpec>) -> bool {
    gs.len() == vs.len() && forall|i: int| 0 <= i < gs.len() ==> group_matches(#[trigger] gs[i], vs[i])
}

/// What enumerating gives.
pub enum EnumerateOutcome {
    Done(crate::value::EnumeratedProperties),
    Pending(Vec<EnumGroup>),
}

/// A group read from one property.
fn read_group(p: &ObjectProperty, definite: bool, key: Entity) -> (r: EnumGroup)
    ensures
        r.definite == definite,
        r.key == key,
        entity_views(r.values@) == prop_reads(*p, never_view(), None).values,
        entity_views(r.getters@) == prop_reads(*p, never_view(), None).getters,
        dep_views(r.extra_deps@) == prop_reads(*p, never_view(), None).extra,
{
    let mut c = GetPropertyContext { key: Entity::never(), values: Vec::new(), getters: Vec::new(), extra_deps: Vec::new() };
    let ghost c0 = c;
    proof {
        assert(c0.key@ == never_view());
    }
    p.get(&mut c, None);
    proof {
        assert(entity_views(c.values@) =~= entity_views(c0.values@) + prop_reads(*p, never_view(), None).values);
        assert(entity_views(c.values@) =~= prop_reads(*p, never_view(), None).values);
        assert(entity_views(c.getters@) =~= prop_reads(*p, never_view(), None).getters);
        assert(dep_views(c.extra_deps@) =~= prop_reads(*p, never_view(), None).extra);
    }
    EnumGroup { definite, key, values: c.values, getters: c.getters, extra_deps: c.extra_deps }
}

impl ObjectValue {
    /// Enumerates the properties (`for...in`, spread): a consumed object
    /// enumerates as any value; otherwise the read of the whole object is
    /// recorded and the groups (see `enum_groups`) wait for their getters.
    pub fn enumerate_properties(&self, analyzer: &mut Analyzer, dep: &Dep) -> (r: EnumerateOutcome)
        requires
            string_keyed_enumerables(self.keyed@),
        ensures
            self.consumed ==> (r matches EnumerateOutcome::Done(e) && e.known@.len() == 0 && (e.unknown matches Some(u)
                && u.values@ == seq![Value::Unknown] && u.dep@.len() == 0) && (old(analyzer)@.config.unknown_property_read_side_effects
                ==> final(analyzer)@ == old(analyzer)@.log(EffectView::Consume(dep@)).log(EffectView::ReferGlobal)
                && e.dep@.len() == 0) && (!old(analyzer)@.config.unknown_property_read_side_effects ==> final(analyzer)@
                == old(analyzer)@ && e.dep@ == self.self_view().values.map_values(|v: Value| DepPart::Value(v)) + dep@)),
            !self.consumed ==> (r matches EnumerateOutcome::Pending(gs) && groups_match(gs@, enum_groups(*self)))
                && final(analyzer)@ == old(analyzer)@.log(
                EffectView::TrackRead(self.cf_scope, crate::value::ReadWriteTargetView::ObjectAll(self.object_id)),
            ),
    {
        if self.consumed {
            let target = Entity::from_value(Value::Object(self.object_id));
            let e = crate::consumed_object::enumerate_properties(&target, analyzer, dep);
            proof {
                assert(target.as_dep_spec() =~= self.self_view().values.map_values(|v: Value| DepPart::Value(v)));
            }
            return EnumerateOutcome::Done(e);
        }
        let mut c = GetPropertyContext { key: Entity::never(), values: Vec::new(), getters: Vec::new(), extra_deps: Vec::new() };
        let ghost c0 = c;
        proof {
            assert(c0.key@ == never_view());
            assert(entity_views(c0.values@) =~= Seq::<EntityView>::empty());
            assert(entity_views(c0.getters@) =~= Seq::<EntityView>::empty());
            assert(dep_views(c0.extra_deps@) =~= Seq::<Seq<DepPart>>::empty());
        }
        self.unknown.get(&mut c, None);
        let ghost c1 = c;
        if let Some(rest) = &self.rest {
            rest.get(&mut c, None);
        } else {
            proof {
                lemma_ctx_none(c1);
            }
        }
        proof {
            let rr = rest_group_reads(*self);
            lemma_ctx_chain(c0, c1, c, prop_reads(self.unknown, never_view(), None), rr);
            assert(entity_views(c.values@) =~= enum_groups(*self)[0].reads.values);
            assert(entity_views(c.getters@) =~= enum_groups(*self)[0].reads.getters);
            assert(dep_views(c.extra_deps@) =~= enum_groups(*self)[0].reads.extra);
        }
        let first = EnumGroup {
            definite: false,
            key: Entity::primitive(crate::primitive::PrimitiveValue::Mixed),
            values: c.values,
            getters: c.getters,
            extra_deps: c.extra_deps,
        };
        let mut groups: Vec<EnumGroup> = Vec::new();
        groups.push(first);
        let mangable = self.is_mangable();
        let ghost ks = self.keyed@;
        let mut i: usize = 0;
        proof {
            assert(ks.subrange(0, 0) =~= Seq::<(PropertyKeyValue, ObjectProperty)>::empty());
            assert(seq![enum_groups(*self)[0]] + keyed_groups(ks.subrange(0, 0), mangable) =~= seq![enum_groups(*self)[0]]);
            assert(group_matches(groups@[0], enum_groups(*self)[0]));
        }
        while i < self.keyed.len()
            invariant
                i <= ks.len(),
                ks == self.keyed@,
                mangable == (self.mangling_group is Some),
                string_keyed_enumerables(ks),
                groups_match(groups@, seq![enum_groups(*self)[0]] + keyed_groups(ks.subrange(0, i as int), mangable)),
            decreases ks.len() - i,
        {
            let ghost before = groups@;
            let ghost specs = seq![enum_groups(*self)[0]] + keyed_groups(ks.subrange(0, i as int), mangable);
            proof {
                let sub = ks.subrange(0, i + 1);
                assert(sub.drop_last() =~= ks.subrange(0, i as int));
                assert(sub.last() == ks[i as int]);
            }
            let p = &self.keyed[i].1;
            if p.enumerable {
                let k = match &self.keyed[i].0 {
                    PropertyKeyValue::String(s) => s.clone(),
                    PropertyKeyValue::Symbol(_) => {
                        proof {
                            assert(false);
                        }
                        String::new()
                    },
                };
                let atom = if mangable { p.mangling } else { None };
                let key_entity = Entity::from_value(Value::Literal(LiteralValue::String(k, atom)));
                let g = read_group(p, p.definite, key_entity);
                groups.push(g);
                proof {
                    let specs2 = seq![enum_groups(*self)[0]] + keyed_groups(ks.subrange(0, i + 1), mangable);
                    assert(specs2 =~= specs.push(keyed_groups(ks.subrange(0, i + 1), mangable).last()));
                    assert forall|j: int| 0 <= j < groups@.len() implies group_matches(#[trigger] groups@[j], specs2[j]) by {
                        if j < before.len() {
                            assert(groups@[j] == before[j]);
                            assert(specs2[j] == specs[j]);
                        }
                    }
                }
            } else {
                proof {
                    let specs2 = seq![enum_groups(*self)[0]] + keyed_groups(ks.subrange(0, i + 1), mangable);
                    assert(specs2 =~= specs);
                }
            }
            i = i + 1;
        }
        proof {
            assert(ks.subrange(0, ks.len() as int) =~= ks);
        }
        analyzer.record(Effect::TrackRead(self.cf_scope, crate::value::ReadWriteTarget::ObjectAll(self.object_id)));
        EnumerateOutcome::Pending(groups)
    }
}

/// The value of a finished group: the union of its values and its
/// getters' values, if any.
pub open spec fn group_value(values: Seq<EntityView>) -> Option<EntityView> {
    if values.len() == 0 {
        None
    } else {
        Some(EntityView { values: crate::value::union_values(values), dep: crate::value::union_deps(values) })
    }
}

/// What a group gathered, its getters' values included.
pub open spec fn group_gathered(g: EnumGroup, getter_values: Vec<Entity>) -> Seq<EntityView> {
    entity_views(g.values@) + entity_views(getter_values@)
}

/// The view of one enumerated entry: its key, whether it surely exists, the
/// key's value and the property's value.
pub open spec fn entry_view(e: (PropertyKeyValue, crate::value::EnumeratedProperty)) -> (PropertyKeyView, bool, EntityView, EntityView) {
    (e.0@, e.1.definite, e.1.key@, e.1.value@)
}

/// The entries that groups 1 to `i` - 1 give: one for each group that
/// gathered a value, keyed by the group's string key.
pub open spec fn enum_entries(gs: Seq<EnumGroup>, vs: Seq<Vec<Entity>>, i: int) -> Seq<(PropertyKeyView, bool, EntityView, EntityView)>
    decreases i,
{
    if i <= 1 {
        Seq::empty()
    } else {
        let g = gs[i - 1];
        let prev = enum_entries(gs, vs, i - 1);
        match group_value(group_gathered(g, vs[i - 1])) {
            Some(v) => prev.push((
                PropertyKeyView::String(g.key.values@[0]->Literal_0->String_0@),
                g.definite,
                g.key@,
                v,
            )),
            None => prev,
        }
    }
}

/// The extra dependencies of groups 0 to `i` - 1, in order.
pub open spec fn enum_extra(gs: Seq<EnumGroup>, i: int) -> Seq<DepPart>
    decreases i,
{
    if i <= 0 {
        Seq::empty()
    } else {
        enum_extra(gs, i - 1) + crate::dep::flatten_views(dep_views(gs[i - 1].extra_deps@))
    }
}

/// Finishes an enumeration once each group's getters have given
/// `getter_values`: the first group stands for the unknown keys; each
/// other group with a value becomes an entry (see `enum_entries`); the
/// dependency is `dep` with every group's extra dependencies.
pub fn finish_enumeration(groups: Vec<EnumGroup>, getter_values: Vec<Vec<Entity>>, dep: &Dep) -> (r: crate::value::EnumeratedProperties)
    requires
        groups@.len() == getter_values@.len(),
        groups@.len() >= 1,
        forall|i: int| 1 <= i < groups@.len() ==> (#[trigger] groups@[i]).key.values@.len() == 1
            && groups@[i].key.values@[0] matches Value::Literal(LiteralValue::String(_, _)),
    ensures
        crate::value::opt_entity_view(r.unknown) == group_value(group_gathered(groups@[0], getter_values@[0])),
        r.known@.map_values(|e: (PropertyKeyValue, crate::value::EnumeratedProperty)| entry_view(e)) == enum_entries(
            groups@,
            getter_values@,
            groups@.len() as int,
        ),
        r.dep@ == dep@ + enum_extra(groups@, groups@.len() as int),
{
    let mut groups = groups;
    let mut getter_values = getter_values;
    let mut known: Vec<(PropertyKeyValue, crate::value::EnumeratedProperty)> = Vec::new();
    let mut extra = dep.clone();
    let mut unknown: Option<Entity> = None;
    let n = groups.len();
    let mut i: usize = 0;
    let ghost g0 = groups@;
    let ghost v0 = getter_values@;
    while i < n
        invariant
            i <= n,
            n == g0.len(),
            n == v0.len(),
            groups@ == g0,
            getter_values@ == v0,
            known@.map_values(|e: (PropertyKeyValue, crate::value::EnumeratedProperty)| entry_view(e))
                == enum_entries(g0, v0, i as int),
            extra@ == dep@ + enum_extra(g0, i as int),
            forall|j: int| 1 <= j < g0.len() ==> (#[trigger] g0[j]).key.values@.len() == 1
                && g0[j].key.values@[0] matches Value::Literal(LiteralValue::String(_, _)),
            i >= 1 ==> crate::value::opt_entity_view(unknown) == group_value(group_gathered(g0[0], v0[0])),
        decreases n - i,
    {
        let g = &groups[i];
        let mut vals = crate::value::clone_entities(&g.values);
        let mut gv = crate::value::clone_entities(&getter_values[i]);
        let ghost a = entity_views(vals@);
        let ghost b = entity_views(gv@);
        vals.append(&mut gv);
        proof {
            assert(entity_views(vals@) =~= a + b);
        }
        extra = extra.join(&crate::dep::join_all(&g.extra_deps));
        let value = if vals.len() == 0 { None } else { Some(union_all(&vals)) };
        proof {
            assert(crate::value::opt_entity_view(value) == group_value(group_gathered(g0[i as int], v0[i as int])));
            assert(extra@ =~= dep@ + enum_extra(g0, i + 1));
        }
        let ghost kv = known@.map_values(|e: (PropertyKeyValue, crate::value::EnumeratedProperty)| entry_view(e));
        if i == 0 {
            unknown = value;
        } else if let Some(v) = value {
            let k = match &g.key.values[0] {
                Value::Literal(LiteralValue::String(s, _)) => PropertyKeyValue::String(s.clone()),
                _ => {
                    proof {
                        assert(false);
                    }
                    PropertyKeyValue::Symbol(0)
                },
            };
            known.push((k, crate::value::EnumeratedProperty { definite: g.definite, key: g.key.clone(), value: v }));
            proof {
                assert(known@.map_values(|e: (PropertyKeyValue, crate::value::EnumeratedProperty)| entry_view(e))
                    =~= kv.push(entry_view(known@.last())));
            }
        }
        i = i + 1;
    }
    crate::value::EnumeratedProperties { known, unknown, dep: extra }
}


/// Whether a way of holding a value is a writable field.
pub open spec fn pvv_writable_field(v: PVView) -> bool {
    v matches PVView::Field(_, false)
}

/// The ways of holding the value without the writable fields.
pub open spec fn pvv_without_writable(s: Seq<PVView>) -> Seq<PVView>
    decreases s.len(),
{
    if s.len() == 0 {
        s
    } else if pvv_writable_field(s.last()) {
        pvv_without_writable(s.drop_last())
    } else {
        pvv_without_writable(s.drop_last()).push(s.last())
    }
}

/// The index of the last consumed way; -1 if none.
pub open spec fn pvv_last_consumed(s: Seq<PVView>) -> int
    decreases s.len(),
{
    if s.len() == 0 {
        -1
    } else if s.last() is Consumed {
        s.len() - 1
    } else {
        pvv_last_consumed(s.drop_last())
    }
}

/// The values of the fields.
pub open spec fn pvv_fields(s: Seq<PVView>) -> Seq<EntityView>
    decreases s.len(),
{
    if s.len() == 0 {
        Seq::empty()
    } else {
        pvv_fields(s.drop_last()) + match s.last() {
            PVView::Field(v, _) => seq![v],
            _ => Seq::empty(),
        }
    }
}

/// The setters of the accessors.
pub open spec fn pvv_setters(s: Seq<PVView>) -> Seq<EntityView>
    decreases s.len(),
{
    if s.len() == 0 {
        Seq::empty()
    } else {
        pvv_setters(s.drop_last()) + match s.last() {
            PVView::Property(_, Some(st)) => seq![st],
            _ => Seq::empty(),
        }
    }
}

/// Whether a write may land anywhere.
pub open spec fn pvv_has_writable(s: Seq<PVView>) -> bool {
    exists|i: int| 0 <= i < s.len() && (#[trigger] s[i] is Consumed || pvv_writable_field(s[i]))
}

/// What collecting a property's reasons for not existing gives.
pub open spec fn pv_collected(v: PropView) -> Option<Seq<DepPart>> {
    if v.current.len() == 0 && v.node is None {
        None
    } else {
        Some(crate::dep::flatten_views(v.current) + match v.node {
            Some(n) => n,
            None => Seq::empty(),
        })
    }
}

/// The result of writing a property.
pub struct SetResult {
    pub prop: PropView,
    pub setters: Seq<crate::property::PendingSetterView>,
    pub written: bool,
    pub deferred: Seq<EntityView>,
}

/// Writing `value` to a property (see `ObjectProperty::set`): the setters
/// to call; where a write may land, the writable fields go (unless the
/// write is indeterminate and not exhaustive), a determinate write makes
/// the property exist, and the value joins the consumed value (or forms
/// one) under exhaustive tracking or becomes a field otherwise; values
/// written after the consumed value was itself consumed are deferred.
pub open spec fn pv_set(v: PropView, is_exhaustive: bool, indeterminate: bool, value: EntityView, deferred: Seq<EntityView>) -> SetResult {
    let pvs = v.possible_values;
    let setters = crate::property::setter_records(pvv_setters(pvs), pvs.len() > 1 || !v.definite, pv_collected(v));
    if !pvv_has_writable(pvs) {
        SetResult { prop: v, setters, written: false, deferred }
    } else {
        let kept = if !indeterminate || is_exhaustive { pvv_without_writable(pvs) } else { pvs };
        let written = seq![value] + pvv_fields(pvs);
        let wdeps = written.map_values(|e: EntityView| entity_dep_parts(e));
        let k = pvv_last_consumed(kept);
        let v1 = if !indeterminate {
            PropView { definite: true, current: Seq::empty(), node: None, ..v }
        } else {
            v
        };
        if !is_exhaustive {
            SetResult {
                prop: PropView { possible_values: kept.push(PVView::Field(value, false)), ..v1 },
                setters,
                written: pvv_last_consumed(pvs) < 0,
                deferred,
            }
        } else if k < 0 {
            SetResult {
                prop: PropView {
                    possible_values: kept.push(PVView::Consumed(
                        EntityView { values: seq![Value::Unknown], dep: crate::array::entities_dep(written) },
                        Some(wdeps),
                    )),
                    ..v1
                },
                setters,
                written: pvv_last_consumed(pvs) < 0,
                deferred,
            }
        } else {
            let c = kept[k];
            let ld = c->Consumed_1;
            SetResult {
                prop: PropView {
                    possible_values: kept.update(k, PVView::Consumed(c->Consumed_0, match ld {
                        Some(d) => Some(d + wdeps),
                        None => None,
                    })),
                    ..v1
                },
                setters,
                written: pvv_last_consumed(pvs) < 0,
                deferred: match ld {
                    Some(_) => deferred,
                    None => deferred + written,
                },
            }
        }
    }
}

proof fn lemma_pv_seq(s: Seq<crate::property::ObjectPropertyValue>)
    ensures
        pv_views(crate::property::without_writable_fields(s)) == pvv_without_writable(pv_views(s)),
        pvv_last_consumed(pv_views(s)) == crate::property::last_consumed(s),
        pvv_fields(pv_views(s)) == crate::property::read_fields(s),
        pvv_setters(pv_views(s)) == crate::property::read_setters(s),
        pvv_has_writable(pv_views(s)) == crate::property::has_writable(s),
    decreases s.len(),
{
    if s.len() > 0 {
        lemma_pv_seq(s.drop_last());
        assert(pv_views(s).drop_last() =~= pv_views(s.drop_last()));
        assert(pv_views(s).last() == pv_view(s.last()));
        let w = crate::property::without_writable_fields(s.drop_last());
        assert(pv_views(w.push(s.last())) =~= pv_views(w).push(pv_view(s.last())));
        if pvv_has_writable(pv_views(s)) {
            let i = choose|i: int| 0 <= i < pv_views(s).len() && (#[trigger] pv_views(s)[i] is Consumed || pvv_writable_field(pv_views(s)[i]));
            assert(crate::property::is_writable(s[i]));
        }
        if crate::property::has_writable(s) {
            let i = choose|i: int| 0 <= i < s.len() && #[trigger] crate::property::is_writable(s[i]);
            assert(pv_views(s)[i] is Consumed || pvv_writable_field(pv_views(s)[i]));
        }
    } else {
        assert(pv_views(s) =~= Seq::<PVView>::empty());
    }
}

proof fn lemma_collected_view(p: ObjectProperty)
    ensures
        p.non_existent.collected() == pv_collected(prop_view(p)),
{
    lemma_flatten_views(p.non_existent.current@);
}

proof fn lemma_flatten_views(s: Seq<Dep>)
    ensures
        crate::dep::flatten(s) == crate::dep::flatten_views(dep_views(s)),
    decreases s.len(),
{
    if s.len() > 0 {
        lemma_flatten_views(s.drop_last());
        assert(dep_views(s).drop_last() =~= dep_views(s.drop_last()));
    }
}


/// Writes a property, stated over its content (see `pv_set`).
fn set_prop(
    p: &mut ObjectProperty,
    is_exhaustive: bool,
    indeterminate: bool,
    value: Entity,
    setters: &mut Vec<crate::property::PendingSetter>,
    deferred: &mut Vec<Entity>,
) -> (r: bool)
    ensures
        ({
            let res = pv_set(prop_view(*old(p)), is_exhaustive, indeterminate, value@, entity_views(old(deferred)@));
            &&& prop_view(*final(p)) == res.prop
            &&& crate::property::setter_views(final(setters)@) == crate::property::setter_views(old(setters)@) + res.setters
            &&& r == res.written
            &&& entity_views(final(deferred)@) == res.deferred
        }),
        final(p).key == old(p).key,
        final(p).mangling == old(p).mangling,
{
    let ghost p0 = *p;
    let ghost d0 = entity_views(deferred@);
    let ghost gv = value;
    let r = p.set(is_exhaustive, indeterminate, value, setters, deferred);
    proof {
        let pvs = p0.possible_values@;
        lemma_pv_seq(pvs);
        lemma_collected_view(p0);
        lemma_collected_view(*p);
        let kept = if !indeterminate || is_exhaustive { crate::property::without_writable_fields(pvs) } else { pvs };
        lemma_pv_seq(kept);
        let res = pv_set(prop_view(p0), is_exhaustive, indeterminate, gv@, d0);
        if crate::property::has_writable(pvs) {
            if !indeterminate {
                assert(dep_views(p.non_existent.current@) =~= Seq::<Seq<DepPart>>::empty());
            }
            if !is_exhaustive {
                assert(pv_views(p.possible_values@) =~= pv_views(kept).push(PVView::Field(gv@, false)));
            } else if crate::property::last_consumed(kept) < 0 {
                assert(pv_views(p.possible_values@) =~= pv_views(kept).push(pv_view(p.possible_values@.last())));
            } else {
                let k = crate::property::last_consumed(kept);
                crate::property::lemma_last_consumed_bounds(kept);
                assert(pv_views(p.possible_values@) =~= pv_views(kept).update(k, pv_view(p.possible_values@[k])));
            }
            assert(prop_view(*p) == res.prop);
        } else {
            assert(prop_view(*p) == prop_view(p0));
        }
    }
    r
}


/// The setter records reading a property's accessors gives.
pub open spec fn prop_setters(p: ObjectProperty) -> Seq<crate::property::PendingSetterView> {
    crate::property::setter_records(
        crate::property::read_setters(p.possible_values@),
        p.possible_values@.len() > 1,
        p.non_existent.collected(),
    )
}

/// Whether a property surely has a setter.
pub open spec fn prop_found(p: ObjectProperty) -> crate::property::Found {
    if crate::property::read_setters(p.possible_values@).len() > 0 {
        crate::property::Found::True
    } else {
        crate::property::Found::False
    }
}

/// The setters a write under an unknown key may call, along the prototype
/// chain, and whether one is found; an unknown prototype may have any.
pub open spec fn unknown_setters(o: ObjectValue) -> (crate::property::Found, Seq<crate::property::PendingSetterView>)
    decreases o,
{
    let own = prop_setters(o.unknown);
    let f = crate::property::Found::False.combine_spec(prop_found(o.unknown));
    match o.prototype {
        ObjectPrototype::Custom(b) => {
            let r = unknown_setters(*b);
            (f.combine_spec(r.0), own + r.1)
        },
        ObjectPrototype::Unknown(d) => (
            crate::property::Found::Unknown,
            own.push(crate::property::PendingSetterView {
                indeterminate: true,
                dep: Some(d@),
                setter: EntityView { values: seq![Value::Unknown], dep: d@ },
            }),
        ),
        _ => (f, own),
    }
}

/// The setters of a list of properties, in order.
pub open spec fn props_setters(ks: Seq<(PropertyKeyValue, ObjectProperty)>) -> Seq<crate::property::PendingSetterView>
    decreases ks.len(),
{
    if ks.len() == 0 {
        Seq::empty()
    } else {
        props_setters(ks.drop_last()) + prop_setters(ks.last().1)
    }
}

/// Looking the setters of key `k` up on the prototype chain.
pub struct ProtoSetters {
    pub found: crate::property::Found,
    pub setters: Seq<crate::property::PendingSetterView>,
    pub effects: Seq<EffectView>,
    pub obj: ObjectValue,
}

/// Looks the setters of `k` up on `o`'s prototype objects: a prototype
/// object holding `k` gives its property's setters (stopping its mangling
/// where the key has no atom); a definite property with a setter ends the
/// search; an unknown prototype may have one.
pub open spec fn proto_keyed_setters(o: ObjectValue, k: PropertyKeyView, atom: Option<u32>) -> ProtoSetters
    decreases o,
{
    match o.prototype {
        ObjectPrototype::Custom(b) => {
            let p = *b;
            let i = key_index(p.keyed@, k);
            if i >= 0 {
                let off = p.mangling_group is Some && atom is None;
                let atom2 = if p.mangling_group is Some { atom } else { None };
                let e1 = if off { seq![EffectView::DisableMangling(p.mangling_group->0)] } else { Seq::empty() };
                let mg = if off { None } else { p.mangling_group };
                let prop = p.keyed@[i].1;
                let s1 = prop_setters(prop);
                let f = prop_found(prop);
                if prop.definite && f == crate::property::Found::True {
                    ProtoSetters {
                        found: crate::property::Found::True,
                        setters: s1,
                        effects: e1,
                        obj: with_proto(o, ObjectValue { mangling_group: mg, ..p }),
                    }
                } else {
                    let found1 = if f == crate::property::Found::False { f } else { crate::property::Found::Unknown };
                    let rec = proto_keyed_setters(p, k, atom2);
                    ProtoSetters {
                        found: found1.combine_spec(rec.found),
                        setters: s1 + rec.setters,
                        effects: e1 + rec.effects,
                        obj: with_proto(o, ObjectValue { mangling_group: mg, ..rec.obj }),
                    }
                }
            } else {
                let rec = proto_keyed_setters(p, k, atom);
                ProtoSetters {
                    found: crate::property::Found::False.combine_spec(rec.found),
                    setters: rec.setters,
                    effects: rec.effects,
                    obj: with_proto(o, rec.obj),
                }
            }
        },
        ObjectPrototype::Unknown(_) => ProtoSetters { found: crate::property::Found::Unknown, setters: Seq::empty(), effects: Seq::empty(), obj: o },
        _ => ProtoSetters { found: crate::property::Found::False, setters: Seq::empty(), effects: Seq::empty(), obj: o },
    }
}

/// The setters of every keyed property of `o`'s prototype objects, with
/// their mangling stopped.
pub open spec fn proto_any_setters(o: ObjectValue) -> (Seq<crate::property::PendingSetterView>, Seq<EffectView>, ObjectValue)
    decreases o,
{
    match o.prototype {
        ObjectPrototype::Custom(b) => {
            let p = *b;
            let e1 = if p.mangling_group is Some { seq![EffectView::DisableMangling(p.mangling_group->0)] } else { Seq::empty() };
            let rec = proto_any_setters(p);
            (props_setters(p.keyed@) + rec.0, e1 + rec.1, with_proto(o, ObjectValue { mangling_group: None, ..rec.2 }))
        },
        _ => (Seq::empty(), Seq::empty(), o),
    }
}

impl ObjectValue {
    /// Collects the setters a write under an unknown key may call (see
    /// `unknown_setters`).
    pub fn lookup_unknown_keyed_setters(&self, setters: &mut Vec<crate::property::PendingSetter>) -> (r: crate::property::Found)
        ensures
            r == unknown_setters(*self).0,
            crate::property::setter_views(final(setters)@) == crate::property::setter_views(old(setters)@) + unknown_setters(*self).1,
        decreases *self,
    {
        let ghost s0 = crate::property::setter_views(setters@);
        let f0 = self.unknown.lookup_setters(setters);
        let found = crate::property::Found::False.combine(f0);
        let ghost s1 = crate::property::setter_views(setters@);
        match &self.prototype {
            ObjectPrototype::Custom(b) => {
                let f = b.lookup_unknown_keyed_setters(setters);
                proof {
                    assert(crate::property::setter_views(setters@) =~= s0 + (prop_setters(self.unknown) + unknown_setters(**b).1));
                }
                found.combine(f)
            },
            ObjectPrototype::Unknown(d) => {
                let ps = crate::property::PendingSetter { indeterminate: true, dep: Some(d.clone()), setter: Entity::computed_unknown(d.clone()) };
                setters.push(ps);
                proof {
                    assert(crate::property::setter_views(setters@) =~= s1.push(ps@));
                }
                crate::property::Found::Unknown
            },
            _ => found,
        }
    }

    /// Collects the setters of `key` on the prototype objects (see
    /// `proto_keyed_setters`).
    pub fn lookup_keyed_setters_on_proto(
        &mut self,
        analyzer: &mut Analyzer,
        key: &PropertyKeyValue,
        key_atom: Option<u32>,
        setters: &mut Vec<crate::property::PendingSetter>,
    ) -> (r: crate::property::Found)
        ensures
            ({
                let l = proto_keyed_setters(*old(self), key@, key_atom);
                &&& r == l.found
                &&& crate::property::setter_views(final(setters)@) == crate::property::setter_views(old(setters)@) + l.setters
                &&& final(analyzer)@ == old(analyzer)@.log_all(l.effects)
                &&& *final(self) == l.obj
            }),
        decreases *old(self),
    {
        let ghost o = *self;
        let ghost a0 = analyzer@;
        let ghost s0 = crate::property::setter_views(setters@);
        proof {
            lemma_log_small(a0, EffectView::GlobalEffect);
        }
        let is_custom = matches!(self.prototype, ObjectPrototype::Custom(_));
        if !is_custom {
            proof {
                assert(crate::property::setter_views(setters@) =~= s0 + Seq::<crate::property::PendingSetterView>::empty());
            }
            return if matches!(self.prototype, ObjectPrototype::Unknown(_)) {
                crate::property::Found::Unknown
            } else {
                crate::property::Found::False
            };
        }
        match &mut self.prototype {
            ObjectPrototype::Custom(b) => {
                let ghost p = **b;
                let idx = b.find_key(key);
                proof {
                    lemma_key_index_bounds(p.keyed@, key@);
                }
                match idx {
                    Some(i) => {
                        let mut atom = key_atom;
                        let mut off = false;
                        match b.mangling_group {
                            Some(g) => {
                                if atom.is_none() {
                                    analyzer.record(Effect::DisableMangling(g));
                                    off = true;
                                }
                            },
                            None => {
                                atom = None;
                            },
                        }
                        let ghost a1 = analyzer@;
                        let ghost e1 = if off { seq![EffectView::DisableMangling(p.mangling_group->0)] } else { Seq::<EffectView>::empty() };
                        proof {
                            lemma_log_small(a0, EffectView::DisableMangling(p.mangling_group->0));
                        }
                        let f = b.keyed[i].1.lookup_setters(setters);
                        let ghost s1 = crate::property::setter_views(setters@);
                        if b.keyed[i].1.definite && f.must_found() {
                            if off {
                                b.mangling_group = None;
                            }
                            return crate::property::Found::True;
                        }
                        let found1 = if f.must_not_found() { f } else { crate::property::Found::Unknown };
                        let f2 = b.lookup_keyed_setters_on_proto(analyzer, key, atom, setters);
                        if off {
                            b.mangling_group = None;
                        }
                        proof {
                            let rec = proto_keyed_setters(p, key@, atom);
                            lemma_log_chain(a0, e1, rec.effects);
                            assert(crate::property::setter_views(setters@) =~= s0 + (prop_setters(p.keyed@[i as int].1) + rec.setters));
                        }
                        found1.combine(f2)
                    },
                    None => {
                        let f2 = b.lookup_keyed_setters_on_proto(analyzer, key, key_atom, setters);
                        crate::property::Found::False.combine(f2)
                    },
                }
            },
            _ => {
                proof {
                    assert(false);
                }
                crate::property::Found::False
            },
        }
    }

    /// Collects the setters of every keyed property of the prototype
    /// objects (see `proto_any_setters`).
    pub fn lookup_any_string_keyed_setters_on_proto(&mut self, analyzer: &mut Analyzer, setters: &mut Vec<crate::property::PendingSetter>)
        ensures
            ({
                let l = proto_any_setters(*old(self));
                &&& crate::property::setter_views(final(setters)@) == crate::property::setter_views(old(setters)@) + l.0
                &&& final(analyzer)@ == old(analyzer)@.log_all(l.1)
                &&& *final(self) == l.2
            }),
        decreases *old(self),
    {
        let ghost o = *self;
        let ghost a0 = analyzer@;
        let ghost s0 = crate::property::setter_views(setters@);
        proof {
            lemma_log_small(a0, EffectView::GlobalEffect);
        }
        let is_custom = matches!(self.prototype, ObjectPrototype::Custom(_));
        if !is_custom {
            proof {
                assert(crate::property::setter_views(setters@) =~= s0 + Seq::<crate::property::PendingSetterView>::empty());
            }
            return;
        }
        match &mut self.prototype {
            ObjectPrototype::Custom(b) => {
                let ghost p = **b;
                let off = b.mangling_group.is_some();
                if let Some(g) = b.mangling_group {
                    analyzer.record(Effect::DisableMangling(g));
                }
                let ghost e1 = if off { seq![EffectView::DisableMangling(p.mangling_group->0)] } else { Seq::<EffectView>::empty() };
                proof {
                    lemma_log_small(a0, EffectView::DisableMangling(p.mangling_group->0));
                }
                let ghost ks = p.keyed@;
                let mut i: usize = 0;
                proof {
                    assert(ks.subrange(0, 0) =~= Seq::<(PropertyKeyValue, ObjectProperty)>::empty());
                    assert(crate::property::setter_views(setters@) =~= s0 + props_setters(ks.subrange(0, 0)));
                }
                while i < b.keyed.len()
                    invariant
                        i <= ks.len(),
                        **b == p,
                        ks == p.keyed@,
                        crate::property::setter_views(setters@) == s0 + props_setters(ks.subrange(0, i as int)),
                    decreases ks.len() - i,
                {
                    let ghost before = crate::property::setter_views(setters@);
                    b.keyed[i].1.lookup_setters(setters);
                    proof {
                        let sub = ks.subrange(0, i + 1);
                        assert(sub.drop_last() =~= ks.subrange(0, i as int));
                        assert(sub.last() == ks[i as int]);
                        assert(crate::property::setter_views(setters@) =~= s0 + props_setters(sub));
                    }
                    i = i + 1;
                }
                proof {
                    assert(ks.subrange(0, ks.len() as int) =~= ks);
                }
                let ghost s1 = crate::property::setter_views(setters@);
                b.lookup_any_string_keyed_setters_on_proto(analyzer, setters);
                b.mangling_group = None;
                proof {
                    let rec = proto_any_setters(p);
                    lemma_log_chain(a0, e1, rec.1);
                    assert(crate::property::setter_views(setters@) =~= s0 + (props_setters(ks) + rec.0));
                }
            },
            _ => {
                proof {
                    assert(false);
                }
            },
        }
    }
}


/// The state of a write as it goes through literal keys.
pub struct SetState {
    pub keyed: Seq<(PropertyKeyView, PropView)>,
    pub rest: Option<PropView>,
    pub setters: Seq<crate::property::PendingSetterView>,
    pub deferred: Seq<EntityView>,
    pub effects: Seq<EffectView>,
    pub proto: ObjectPrototype,
}

/// What stays fixed while a write goes through literal keys.
pub struct SetCtx {
    pub value: EntityView,
    pub mangable: bool,
    pub group: Option<u64>,
    pub indeterminate: bool,
    pub is_exhaustive: bool,
    pub key: EntityView,
    pub target_depth: usize,
    pub object: ObjectValue,
}

/// Writing under one literal key: an existing property is written (the
/// value tied to both keys where mangled) and, when it then surely exists,
/// that is all; otherwise the further-key property takes the write, or the
/// setters on the prototype chain are looked up and, unless one surely
/// exists, a new property holds the value (a field, or a consumed value
/// under exhaustive tracking).
pub open spec fn set_one(st: SetState, lit: LiteralValue, c: SetCtx) -> SetState {
    let kl = literal_key(lit);
    let k = kl.0;
    let a = kl.1;
    let id = c.object.object_id;
    let field = crate::value::ReadWriteTargetView::ObjectField(id, k);
    let i = view_index(st.keyed, k);
    let st1 = if i >= 0 {
        let v = st.keyed[i].1;
        let value2 = if c.mangable {
            EntityView {
                values: c.value.values,
                dep: c.value.dep + crate::property::mangle_extra(v.key->0, c.key, crate::literal::MangleConstraint::Eq(v.mangling->0, a->0)),
            }
        } else {
            c.value
        };
        let res = pv_set(v, c.is_exhaustive, c.indeterminate, value2, st.deferred);
        SetState {
            keyed: st.keyed.update(i, (k, res.prop)),
            setters: st.setters + res.setters,
            deferred: res.deferred,
            effects: if res.written {
                st.effects + seq![EffectView::TrackWrite(c.target_depth, field), EffectView::RequestExhaustiveCallbacks(field)]
            } else {
                st.effects
            },
            ..st
        }
    } else {
        SetState { effects: st.effects.push(EffectView::RequestExhaustiveCallbacks(field)), ..st }
    };
    if i >= 0 && st1.keyed[i].1.definite {
        st1
    } else if st1.rest is Some {
        let res = pv_set(st1.rest->0, false, true, c.value, st1.deferred);
        SetState { rest: Some(res.prop), setters: st1.setters + res.setters, deferred: res.deferred, ..st1 }
    } else {
        let l = proto_keyed_setters(ObjectValue { prototype: st1.proto, ..c.object }, k, a);
        let st2 = SetState {
            setters: st1.setters + l.setters,
            effects: st1.effects + l.effects,
            proto: l.obj.prototype,
            ..st1
        };
        if l.found == crate::property::Found::True {
            st2
        } else {
            let pv = if c.is_exhaustive {
                PVView::Consumed(
                    EntityView { values: seq![Value::Unknown], dep: crate::array::entities_dep(seq![c.value]) },
                    Some(seq![entity_dep_parts(c.value)]),
                )
            } else {
                PVView::Field(c.value, false)
            };
            let newp = PropView {
                definite: !c.indeterminate && l.found == crate::property::Found::False,
                enumerable: true,
                possible_values: seq![pv],
                current: Seq::empty(),
                node: None,
                key: Some(c.key),
                mangling: if c.mangable { a } else { None },
            };
            SetState {
                keyed: if i >= 0 { st2.keyed.update(i, (k, newp)) } else { st2.keyed.push((k, newp)) },
                effects: if c.mangable { st2.effects.push(EffectView::AddToManglingGroup(c.group->0, a->0)) } else { st2.effects },
                ..st2
            }
        }
    }
}

/// Writing under each literal key in turn.
pub open spec fn set_lits(st: SetState, lits: Seq<LiteralValue>, c: SetCtx) -> SetState
    decreases lits.len(),
{
    if lits.len() == 0 {
        st
    } else {
        set_one(set_lits(st, lits.drop_last(), c), lits.last(), c)
    }
}

proof fn lemma_proto_setters_local(o1: ObjectValue, o2: ObjectValue, k: PropertyKeyView, a: Option<u32>)
    requires
        o1.prototype == o2.prototype,
    ensures
        proto_keyed_setters(o1, k, a).found == proto_keyed_setters(o2, k, a).found,
        proto_keyed_setters(o1, k, a).setters == proto_keyed_setters(o2, k, a).setters,
        proto_keyed_setters(o1, k, a).effects == proto_keyed_setters(o2, k, a).effects,
        proto_keyed_setters(o1, k, a).obj == (ObjectValue { prototype: proto_keyed_setters(o2, k, a).obj.prototype, ..o1 }),
{
}

proof fn lemma_proto_setters_wf(o: ObjectValue, k: PropertyKeyView, a: Option<u32>)
    requires
        wf(o),
    ensures
        wf(proto_keyed_setters(o, k, a).obj),
        proto_keyed_setters(o, k, a).obj.keyed == o.keyed,
        proto_keyed_setters(o, k, a).obj.mangling_group == o.mangling_group,
    decreases o,
{
    if let ObjectPrototype::Custom(b) = o.prototype {
        let p = *b;
        assert(wf(p));
        let i = key_index(p.keyed@, k);
        let atom2 = if p.mangling_group is Some { a } else { None };
        let off = p.mangling_group is Some && a is None;
        let mg = if off { None } else { p.mangling_group };
        if i >= 0 {
            lemma_proto_setters_wf(p, k, atom2);
            let rec = proto_keyed_setters(p, k, atom2);
            let x = ObjectValue { mangling_group: mg, ..rec.obj };
            assert(wf(x)) by {
                assert(x.keyed == p.keyed);
                assert(x.prototype == rec.obj.prototype);
            }
            let y = ObjectValue { mangling_group: mg, ..p };
            assert(wf(y)) by {
                assert(y.keyed == p.keyed);
            }
        } else {
            lemma_proto_setters_wf(p, k, a);
        }
    }
}

/// The state of an object and analyzer as a write state.
pub open spec fn as_set_state(
    o: ObjectValue,
    setters: Seq<crate::property::PendingSetter>,
    deferred: Seq<Entity>,
    a: AnalyzerView,
) -> SetState {
    SetState {
        keyed: keyed_view(o.keyed@),
        rest: opt_prop_view(o.rest),
        setters: crate::property::setter_views(setters),
        deferred: entity_views(deferred),
        effects: a.effects,
        proto: o.prototype,
    }
}

/// Whether the analyzer changed only in its log.
pub open spec fn only_logged(a1: AnalyzerView, a2: AnalyzerView) -> bool {
    a2 == AnalyzerView { effects: a2.effects, ..a1 }
}

/// A consumed value depending on `value`.
fn consumed_of(value: &Entity) -> (r: crate::property::ObjectPropertyValue)
    ensures
        pv_view(r) == PVView::Consumed(
            EntityView { values: seq![Value::Unknown], dep: crate::array::entities_dep(seq![value@]) },
            Some(seq![entity_dep_parts(value@)]),
        ),
{
    let v = vec![value.clone()];
    proof {
        assert(entity_views(v@) =~= seq![value@]);
    }
    let r = crate::property::ObjectPropertyValue::new_consumed(v);
    proof {
        assert(seq![value@].map_values(|e: EntityView| entity_dep_parts(e)) =~= seq![entity_dep_parts(value@)]);
    }
    r
}

impl ObjectValue {
    /// Writes under one literal key (see `set_one`).
    #[verifier::rlimit(60)]
    fn set_literal(
        &mut self,
        analyzer: &mut Analyzer,
        lit: &LiteralValue,
        value: &Entity,
        c: Ghost<SetCtx>,
        mangable: bool,
        indeterminate: bool,
        is_exhaustive: bool,
        key: &Entity,
        target_depth: usize,
        setters: &mut Vec<crate::property::PendingSetter>,
        deferred: &mut Vec<Entity>,
    )
        requires
            wf(*old(self)),
            c@.value == value@,
            c@.mangable == mangable,
            c@.group == old(self).mangling_group,
            c@.indeterminate == indeterminate,
            c@.is_exhaustive == is_exhaustive,
            c@.key == key@,
            c@.target_depth == target_depth,
            c@.object.object_id == old(self).object_id,
            mangable ==> old(self).mangling_group is Some && literal_mangable(*lit),
            !mangable ==> old(self).mangling_group is None,
        ensures
            as_set_state(*final(self), final(setters)@, final(deferred)@, final(analyzer)@) == set_one(
                as_set_state(*old(self), old(setters)@, old(deferred)@, old(analyzer)@),
                *lit,
                c@,
            ),
            only_logged(old(analyzer)@, final(analyzer)@),
            wf(*final(self)),
            final(self).consumed == old(self).consumed,
            final(self).cf_scope == old(self).cf_scope,
            final(self).object_id == old(self).object_id,
            final(self).mangling_group == old(self).mangling_group,
            final(self).unknown == old(self).unknown,
    {
        let ghost o = *self;
        let ghost a0 = analyzer@;
        let ghost st = as_set_state(*self, setters@, deferred@, analyzer@);
        let (k, atom) = literal_to_key(lit);
        let found = self.find_key(&k);
        proof {
            lemma_key_index_bounds(self.keyed@, k@);
            lemma_view_index(self.keyed@, k@);
        }
        let mut done = false;
        match found {
            Some(i) => {
                let value2 = if mangable {
                    let prev_key = match &self.keyed[i].1.key {
                        Some(pk) => pk.clone(),
                        None => {
                            proof {
                                assert(false);
                            }
                            Entity::never()
                        },
                    };
                    let prev_atom = match self.keyed[i].1.mangling {
                        Some(x) => x,
                        None => {
                            proof {
                                assert(false);
                            }
                            0
                        },
                    };
                    let a = match atom {
                        Some(x) => x,
                        None => {
                            proof {
                                assert(false);
                            }
                            0
                        },
                    };
                    let mut d = prev_key.as_dep().join(&key.as_dep());
                    d.parts.push(DepPart::Constraint(crate::literal::MangleConstraint::Eq(prev_atom, a)));
                    let v2 = value.clone().computed(&d);
                    proof {
                        assert(v2@.dep =~= value@.dep + crate::property::mangle_extra(prev_key@, key@, crate::literal::MangleConstraint::Eq(prev_atom, a)));
                    }
                    v2
                } else {
                    value.clone()
                };
                let ghost kv0 = keyed_view(self.keyed@);
                let ghost k0 = self.keyed@;
                let written = set_prop(&mut self.keyed[i].1, is_exhaustive, indeterminate, value2, setters, deferred);
                proof {
                    assert(keyed_view(self.keyed@) =~= kv0.update(i as int, (k@, prop_view(self.keyed@[i as int].1))));
                    assert forall|j: int| 0 <= j < self.keyed@.len() implies (#[trigger] self.keyed@[j]).1.key == k0[j].1.key
                        && self.keyed@[j].1.mangling == k0[j].1.mangling by {}
                }
                let ghost e0 = analyzer@.effects;
                if written {
                    analyzer.record(Effect::TrackWrite(target_depth, crate::value::ReadWriteTarget::ObjectField(self.object_id, copy_key(&k))));
                    analyzer.record(Effect::RequestExhaustiveCallbacks(crate::value::ReadWriteTarget::ObjectField(self.object_id, copy_key(&k))));
                    proof {
                        let field = crate::value::ReadWriteTargetView::ObjectField(o.object_id, k@);
                        assert(analyzer@.effects =~= e0 + seq![EffectView::TrackWrite(target_depth, field), EffectView::RequestExhaustiveCallbacks(field)]);
                    }
                }
                if self.keyed[i].1.definite {
                    done = true;
                }
            },
            None => {
                analyzer.record(Effect::RequestExhaustiveCallbacks(crate::value::ReadWriteTarget::ObjectField(self.object_id, copy_key(&k))));
            },
        }
        if done {
            return;
        }
        let ghost st1 = as_set_state(*self, setters@, deferred@, analyzer@);
        if self.rest.is_some() {
            match &mut self.rest {
                Some(rest) => {
                    set_prop(rest, false, true, value.clone(), setters, deferred);
                },
                None => {},
            }
            return;
        }
        let ghost o1 = *self;
        let f = self.lookup_keyed_setters_on_proto(analyzer, &k, atom, setters);
        proof {
            lemma_proto_setters_local(o1, ObjectValue { prototype: st1.proto, ..c@.object }, k@, atom);
            lemma_proto_setters_wf(o1, k@, atom);
        }
        if f.must_found() {
            return;
        }
        if mangable {
            let g = match self.mangling_group {
                Some(g) => g,
                None => {
                    proof {
                        assert(false);
                    }
                    0
                },
            };
            let a = match atom {
                Some(x) => x,
                None => {
                    proof {
                        assert(false);
                    }
                    0
                },
            };
            analyzer.record(Effect::AddToManglingGroup(g, a));
        }
        let pv = if is_exhaustive { consumed_of(value) } else { crate::property::ObjectPropertyValue::Field(value.clone(), false) };
        let mangling = if mangable { atom } else { None };
        let prop = fresh_property(pv, !indeterminate && f.must_not_found(), key, mangling);
        let ghost kv0 = keyed_view(self.keyed@);
        let ghost k0 = self.keyed@;
        match found {
            Some(i) => {
                self.keyed.set(i, (k, prop));
                proof {
                    assert(keyed_view(self.keyed@) =~= kv0.update(i as int, (k@, prop_view(prop))));
                }
            },
            None => {
                self.keyed.push((k, prop));
                proof {
                    assert(keyed_view(self.keyed@) =~= kv0.push((k@, prop_view(prop))));
                }
            },
        }
        proof {
            assert forall|j: int| 0 <= j < self.keyed@.len() && self.mangling_group is Some implies (#[trigger] self.keyed@[j]).1.key is Some
                && self.keyed@[j].1.mangling is Some by {
                if j < k0.len() && (found is None || j != found->0) {
                    assert(self.keyed@[j] == k0[j]);
                }
            }
        }
    }
}


/// A write waiting for its setters to be called: the setters, whether the
/// scope they run in is indeterminate, the value they are called with, and
/// the values to consume once they ran.
pub struct PendingSet {
    pub setters: Vec<crate::property::PendingSetter>,
    pub indeterminate: bool,
    pub value: Entity,
    pub deferred: Vec<Entity>,
}

/// What writing a property gives: done, or a write waiting for setters.
pub enum SetPropertyOutcome {
    Done,
    Pending(PendingSet),
}

/// The indeterminacy of the scope setters run in.
pub open spec fn setter_scope_indeterminate(indeterminate: bool, setters: Seq<crate::property::PendingSetterView>) -> bool {
    indeterminate || setters.len() > 1 || (setters.len() == 1 && setters[0].indeterminate)
}

/// The plan of a write to an object that is not consumed, given the state
/// after its mutation was prepared.
pub struct SetPlan {
    pub keyed: Seq<(PropertyKeyView, PropView)>,
    pub rest: Option<PropView>,
    pub unknown: PropView,
    pub proto: ObjectPrototype,
    pub mangling_group: Option<u64>,
    pub setters: Seq<crate::property::PendingSetterView>,
    pub deferred: Seq<EntityView>,
    pub effects: Seq<EffectView>,
    pub indeterminate: bool,
}

/// Writing `value` (already depending on the mutation's dependencies) to
/// `key`: the setters for unknown keys are collected first (making the
/// write indeterminate where one may exist); literal keys are written in
/// turn (see `set_lits`), the value depending on the key unless the keys
/// are mangled; under an unknown key the value goes to the unknown-key
/// properties, mangling stops, and every setter that may be hit is
/// collected.
pub open spec fn set_plan(
    o: ObjectValue,
    effects0: Seq<EffectView>,
    value: EntityView,
    key: EntityView,
    indeterminate: bool,
    is_exhaustive: bool,
    target_depth: usize,
) -> SetPlan {
    let nmv = EntityView { values: value.values, dep: value.dep + entity_dep_parts(key) };
    let us = unknown_setters(o);
    let indet1 = indeterminate || us.0 != crate::property::Found::False;
    if crate::entity::all_literals(key.values) {
        let lits = key_literals(key);
        let indet2 = indet1 || lits.len() > 1;
        let m = mangable_check(o, lits);
        let off = o.mangling_group is Some && !m;
        let e1 = if off { seq![EffectView::DisableMangling(o.mangling_group->0)] } else { Seq::empty() };
        let c = SetCtx {
            value: if m { value } else { nmv },
            mangable: m,
            group: if off { None } else { o.mangling_group },
            indeterminate: indet2,
            is_exhaustive,
            key,
            target_depth,
            object: o,
        };
        let st0 = SetState {
            keyed: keyed_view(o.keyed@),
            rest: opt_prop_view(o.rest),
            setters: us.1,
            deferred: Seq::empty(),
            effects: effects0 + e1,
            proto: o.prototype,
        };
        let st = set_lits(st0, lits, c);
        SetPlan {
            keyed: st.keyed,
            rest: st.rest,
            unknown: prop_view(o.unknown),
            proto: st.proto,
            mangling_group: if off { None } else { o.mangling_group },
            setters: st.setters,
            deferred: st.deferred,
            effects: st.effects,
            indeterminate: setter_scope_indeterminate(indet2, st.setters),
        }
    } else {
        let e1 = if o.mangling_group is Some { seq![EffectView::DisableMangling(o.mangling_group->0)] } else { Seq::empty() };
        let o1 = ObjectValue { mangling_group: None, ..o };
        let any = proto_any_setters(o1);
        let rest_setters = match o.rest {
            Some(r) => prop_setters(r),
            None => Seq::empty(),
        };
        SetPlan {
            keyed: keyed_view(o.keyed@),
            rest: opt_prop_view(o.rest),
            unknown: PropView {
                possible_values: prop_view(o.unknown).possible_values.push(PVView::Field(nmv, false)),
                ..prop_view(o.unknown)
            },
            proto: any.2.prototype,
            mangling_group: None,
            setters: us.1 + props_setters(o.keyed@) + rest_setters + any.0,
            deferred: Seq::empty(),
            effects: effects0 + seq![EffectView::RequestExhaustiveCallbacks(crate::value::ReadWriteTargetView::ObjectAll(o.object_id))]
                + e1 + any.1,
            indeterminate: true,
        }
    }
}

impl ObjectValue {
    /// Writes a property. A consumed object, or a write under an unknown
    /// key with exhaustive tracking (which consumes the object first), goes
    /// as for a consumed value; otherwise the write is planned as
    /// `set_plan` says and waits for its setters.
    pub fn set_property(&mut self, analyzer: &mut Analyzer, dep: &Dep, key: &Entity, value: &Entity) -> (r: SetPropertyOutcome)
        requires
            wf(*old(self)),
        ensures
            wf(*final(self)),
            old(self).consumed ==> r is Done && *final(self) == *old(self) && final(analyzer)@ == old(analyzer)@.log(
                EffectView::ReferGlobal,
            ).log(EffectView::Consume(dep@ + key.as_dep_spec() + value.as_dep_spec())),
            !old(self).consumed ==> ({
                let stack = old(analyzer)@.cf_stack;
                let t = first_different_depth(stack, old(self).cf_scope) as int;
                let a1 = AnalyzerView { cf_stack: fold_from(stack, t), ..old(analyzer)@ };
                let deps = dep@ + scopes_deps(stack, t, stack.len() as int);
                let exh = any_exhaustive(stack, t);
                let vd = EntityView { values: value@.values, dep: value@.dep + deps };
                let plan = set_plan(*old(self), a1.effects, vd, key@, any_indeterminate(stack, t), exh, t as usize);
                &&& exh && !crate::entity::all_literals(key@.values) ==> r is Done && *final(self) == (ObjectValue {
                    consumed: true,
                    ..*old(self)
                }) && final(analyzer)@ == a1.log_all(object_consume_effects(*old(self))).log(EffectView::ReferGlobal).log(
                    EffectView::Consume(dep@ + key.as_dep_spec() + value.as_dep_spec()),
                )
                &&& !(exh && !crate::entity::all_literals(key@.values)) ==> (r matches SetPropertyOutcome::Pending(p)
                    && keyed_view(final(self).keyed@) == plan.keyed && opt_prop_view(final(self).rest) == plan.rest
                    && prop_view(final(self).unknown) == plan.unknown && final(self).prototype == plan.proto
                    && final(self).mangling_group == plan.mangling_group && final(self).consumed == old(self).consumed
                    && final(self).object_id == old(self).object_id && final(self).cf_scope == old(self).cf_scope
                    && crate::property::setter_views(p.setters@) == plan.setters && entity_views(p.deferred@) == plan.deferred
                    && p.indeterminate == plan.indeterminate && p.value@ == (EntityView {
                    values: vd.values,
                    dep: vd.dep + key.as_dep_spec(),
                }) && final(analyzer)@ == (AnalyzerView { effects: plan.effects, ..a1 }))
            }),
    {
        if self.consumed {
            crate::consumed_object::set_property(analyzer, dep, key, value);
            return SetPropertyOutcome::Done;
        }
        let m = prepare_scopes(analyzer, self.cf_scope, dep);
        let lits_opt = key.get_to_literals();
        if m.is_exhaustive && lits_opt.is_none() {
            self.consume(analyzer);
            crate::consumed_object::set_property(analyzer, dep, key, value);
            return SetPropertyOutcome::Done;
        }
        let ghost o = *self;
        let ghost a1 = analyzer@;
        let v = value.clone().computed(&m.exec_deps);
        let nmv = v.clone().computed(&key.as_dep());
        let mut setters: Vec<crate::property::PendingSetter> = Vec::new();
        let mut deferred: Vec<Entity> = Vec::new();
        proof {
            assert(crate::property::setter_views(setters@) =~= Seq::<crate::property::PendingSetterView>::empty());
            assert(entity_views(deferred@) =~= Seq::<EntityView>::empty());
        }
        let uf = self.lookup_unknown_keyed_setters(&mut setters);
        let mut indeterminate = m.indeterminate || uf.may_found();
        match lits_opt {
            Some(lits) => {
                proof {
                    assert(lits@ =~= key_literals(key@));
                }
                indeterminate = indeterminate || lits.len() > 1;
                let mangable = self.check_mangable(analyzer, &lits);
                let val = if mangable { v } else { nmv.clone() };
                let ghost c = SetCtx {
                    value: val@,
                    mangable,
                    group: self.mangling_group,
                    indeterminate,
                    is_exhaustive: m.is_exhaustive,
                    key: key@,
                    target_depth: m.target_depth,
                    object: o,
                };
                let ghost us = unknown_setters(o);
                let ghost off = o.mangling_group is Some && !mangable;
                let ghost e1 = if off { seq![EffectView::DisableMangling(o.mangling_group->0)] } else { Seq::<EffectView>::empty() };
                proof {
                    lemma_log_small(a1, EffectView::DisableMangling(o.mangling_group->0));
                    assert(analyzer@.effects == a1.effects + e1);
                    assert(as_set_state(*self, setters@, deferred@, analyzer@) == (SetState {
                        keyed: keyed_view(o.keyed@),
                        rest: opt_prop_view(o.rest),
                        setters: us.1,
                        deferred: Seq::empty(),
                        effects: a1.effects + e1,
                        proto: o.prototype,
                    }));
                }
                self.set_literals(analyzer, &lits, &val, Ghost(c), mangable, indeterminate, m.is_exhaustive, key, m.target_depth, &mut setters, &mut deferred);
            },
            None => {
                analyzer.record(Effect::RequestExhaustiveCallbacks(crate::value::ReadWriteTarget::ObjectAll(self.object_id)));
                self.disable_mangling(analyzer);
                indeterminate = true;
                self.set_unknown_key(analyzer, &nmv, &mut setters);
                proof {
                    lemma_proto_any_local(ObjectValue { mangling_group: None, ..o }, o);
                    lemma_proto_any_wf(ObjectValue { mangling_group: None, ..o });
                    lemma_log_small(a1, EffectView::DisableMangling(o.mangling_group->0));
                }
            },
        }
        let n = setters.len();
        let scope_indeterminate = indeterminate || n > 1 || (n == 1 && setters[0].indeterminate);
        proof {
            if n == 1 {
                assert(crate::property::setter_views(setters@)[0].indeterminate == setters@[0].indeterminate);
            }
        }
        SetPropertyOutcome::Pending(PendingSet { setters, indeterminate: scope_indeterminate, value: nmv, deferred })
    }
}

proof fn lemma_proto_any_wf(o: ObjectValue)
    requires
        wf(o),
    ensures
        wf(proto_any_setters(o).2),
        proto_any_setters(o).2.keyed == o.keyed,
        proto_any_setters(o).2.mangling_group == o.mangling_group,
    decreases o,
{
    if let ObjectPrototype::Custom(b) = o.prototype {
        let p = *b;
        assert(wf(p));
        lemma_proto_any_wf(p);
        let rec = proto_any_setters(p);
        let x = ObjectValue { mangling_group: None, ..rec.2 };
        assert(wf(x)) by {
            assert(x.prototype == rec.2.prototype);
        }
    }
}

proof fn lemma_proto_any_local(o1: ObjectValue, o2: ObjectValue)
    requires
        o1.prototype == o2.prototype,
    ensures
        proto_any_setters(o1).0 == proto_any_setters(o2).0,
        proto_any_setters(o1).1 == proto_any_setters(o2).1,
        proto_any_setters(o1).2 == (ObjectValue { prototype: proto_any_setters(o2).2.prototype, ..o1 }),
{
}

impl ObjectValue {
    /// Writes under each literal key in turn (see `set_lits`).
    fn set_literals(
        &mut self,
        analyzer: &mut Analyzer,
        lits: &Vec<LiteralValue>,
        val: &Entity,
        c: Ghost<SetCtx>,
        mangable: bool,
        indeterminate: bool,
        is_exhaustive: bool,
        key: &Entity,
        target_depth: usize,
        setters: &mut Vec<crate::property::PendingSetter>,
        deferred: &mut Vec<Entity>,
    )
        requires
            wf(*old(self)),
            c@.value == val@,
            c@.mangable == mangable,
            c@.group == old(self).mangling_group,
            c@.indeterminate == indeterminate,
            c@.is_exhaustive == is_exhaustive,
            c@.key == key@,
            c@.target_depth == target_depth,
            c@.object.object_id == old(self).object_id,
            mangable == mangable_check(c@.object, lits@),
            mangable ==> old(self).mangling_group is Some,
            !mangable ==> old(self).mangling_group is None,
        ensures
            as_set_state(*final(self), final(setters)@, final(deferred)@, final(analyzer)@) == set_lits(
                as_set_state(*old(self), old(setters)@, old(deferred)@, old(analyzer)@),
                lits@,
                c@,
            ),
            only_logged(old(analyzer)@, final(analyzer)@),
            wf(*final(self)),
            final(self).consumed == old(self).consumed,
            final(self).cf_scope == old(self).cf_scope,
            final(self).object_id == old(self).object_id,
            final(self).mangling_group == old(self).mangling_group,
            final(self).unknown == old(self).unknown,
    {
        let ghost st0 = as_set_state(*self, setters@, deferred@, analyzer@);
        let ghost o = *self;
        let ghost a1 = analyzer@;
        let mut i: usize = 0;
        proof {
            assert(lits@.subrange(0, 0) =~= Seq::<LiteralValue>::empty());
        }
        while i < lits.len()
            invariant
                i <= lits@.len(),
                wf(*self),
                self.mangling_group == o.mangling_group,
                c@.value == val@,
                c@.mangable == mangable,
                c@.group == o.mangling_group,
                c@.indeterminate == indeterminate,
                c@.is_exhaustive == is_exhaustive,
                c@.key == key@,
                c@.target_depth == target_depth,
                c@.object.object_id == o.object_id,
                mangable ==> self.mangling_group is Some,
                !mangable ==> self.mangling_group is None,
                mangable == mangable_check(c@.object, lits@),
                self.object_id == o.object_id && self.consumed == o.consumed && self.cf_scope == o.cf_scope,
                self.unknown == o.unknown,
                only_logged(a1, analyzer@),
                as_set_state(*self, setters@, deferred@, analyzer@) == set_lits(st0, lits@.subrange(0, i as int), c@),
            decreases lits@.len() - i,
        {
            proof {
                let sub = lits@.subrange(0, i + 1);
                assert(sub.drop_last() =~= lits@.subrange(0, i as int));
                assert(sub.last() == lits@[i as int]);
                if mangable {
                    assert(literal_mangable(lits@[i as int]));
                }
            }
            self.set_literal(analyzer, &lits[i], val, c, mangable, indeterminate, is_exhaustive, key, target_depth, setters, deferred);
            i = i + 1;
        }
        proof {
            assert(lits@.subrange(0, lits@.len() as int) =~= lits@);
        }
    }

    /// A write under an unknown key, after mangling stopped: the value goes
    /// to the unknown-key properties, and every setter that may be hit is
    /// collected: of the keyed properties, the further-key property, and the
    /// prototype objects.
    fn set_unknown_key(&mut self, analyzer: &mut Analyzer, nmv: &Entity, setters: &mut Vec<crate::property::PendingSetter>)
        ensures
            ({
                let any = proto_any_setters(*old(self));
                let rest_setters = match old(self).rest {
                    Some(r) => prop_setters(r),
                    None => Seq::empty(),
                };
                &&& crate::property::setter_views(final(setters)@) == crate::property::setter_views(old(setters)@)
                    + props_setters(old(self).keyed@) + rest_setters + any.0
                &&& final(analyzer)@ == old(analyzer)@.log_all(any.1)
                &&& final(self).prototype == any.2.prototype
                &&& prop_view(final(self).unknown) == (PropView {
                    possible_values: prop_view(old(self).unknown).possible_values.push(PVView::Field(nmv@, false)),
                    ..prop_view(old(self).unknown)
                })
                &&& final(self).keyed == old(self).keyed
                &&& final(self).rest == old(self).rest
                &&& final(self).mangling_group == old(self).mangling_group
                &&& final(self).consumed == old(self).consumed
                &&& final(self).object_id == old(self).object_id
                &&& final(self).cf_scope == old(self).cf_scope
            }),
    {
        let ghost o = *self;
        let ghost u0 = pv_views(self.unknown.possible_values@);
        let f = crate::property::ObjectPropertyValue::Field(nmv.clone(), false);
        let ghost gf = f;
        self.unknown.possible_values.push(f);
        proof {
            assert(pv_views(self.unknown.possible_values@) =~= u0.push(pv_view(gf)));
        }
        let ghost s0 = crate::property::setter_views(setters@);
        let ghost ks = self.keyed@;
        let mut i: usize = 0;
        proof {
            assert(ks.subrange(0, 0) =~= Seq::<(PropertyKeyValue, ObjectProperty)>::empty());
            assert(crate::property::setter_views(setters@) =~= s0 + props_setters(ks.subrange(0, 0)));
        }
        while i < self.keyed.len()
            invariant
                i <= ks.len(),
                ks == self.keyed@,
                crate::property::setter_views(setters@) == s0 + props_setters(ks.subrange(0, i as int)),
            decreases ks.len() - i,
        {
            self.keyed[i].1.lookup_setters(setters);
            proof {
                let sub = ks.subrange(0, i + 1);
                assert(sub.drop_last() =~= ks.subrange(0, i as int));
                assert(sub.last() == ks[i as int]);
                assert(crate::property::setter_views(setters@) =~= s0 + props_setters(sub));
            }
            i = i + 1;
        }
        proof {
            assert(ks.subrange(0, ks.len() as int) =~= ks);
        }
        let ghost s1 = crate::property::setter_views(setters@);
        if let Some(rest) = &self.rest {
            rest.lookup_setters(setters);
        } else {
            proof {
                assert(crate::property::setter_views(setters@) =~= s1 + Seq::<crate::property::PendingSetterView>::empty());
            }
        }
        let ghost o2 = *self;
        let ghost s2 = crate::property::setter_views(setters@);
        self.lookup_any_string_keyed_setters_on_proto(analyzer, setters);
        proof {
            lemma_proto_any_local(o2, o);
        }
    }
}

/// Finishes a write once its setters ran: the deferred values are
/// consumed, in order.
pub fn finish_set(analyzer: &mut Analyzer, deferred: &Vec<Entity>)
    ensures
        final(analyzer)@ == old(analyzer)@.log_all(consume_views(entity_views(deferred@))),
{
    let ghost a0 = analyzer@;
    let ghost sv = entity_views(deferred@);
    let mut j: usize = 0;
    proof {
        assert(consume_views(sv.subrange(0, 0)) =~= Seq::<EffectView>::empty());
        lemma_log_small(a0, EffectView::GlobalEffect);
    }
    while j < deferred.len()
        invariant
            j <= deferred@.len(),
            sv == entity_views(deferred@),
            analyzer@ == a0.log_all(consume_views(sv.subrange(0, j as int))),
        decreases deferred@.len() - j,
    {
        analyzer.consume(deferred[j].as_dep());
        proof {
            assert(consume_views(sv.subrange(0, j + 1)) =~= consume_views(sv.subrange(0, j as int)).push(
                EffectView::Consume(entity_dep_parts(sv[j as int]))));
            assert(analyzer@.effects =~= a0.log_all(consume_views(sv.subrange(0, j + 1))).effects);
        }
        j = j + 1;
    }
    proof {
        assert(sv.subrange(0, sv.len() as int) =~= sv);
    }
}

proof fn lemma_key_index_view(ks: Seq<(PropertyKeyValue, ObjectProperty)>, k: PropertyKeyView)
    ensures
        key_index(ks, k) == view_index(keyed_view(ks), k),
    decreases ks.len(),
{
    if ks.len() > 0 {
        lemma_key_index_view(ks.drop_last(), k);
        assert(keyed_view(ks).drop_last() =~= keyed_view(ks.drop_last()));
        assert(keyed_view(ks).last() == (ks.last().0@, prop_view(ks.last().1)));
    }
}

proof fn lemma_view_index_found(ks: Seq<(PropertyKeyView, PropView)>, k: PropertyKeyView)
    ensures
        view_index(ks, k) >= 0 ==> view_index(ks, k) < ks.len() && ks[view_index(ks, k)].0 == k,
        view_index(ks, k) < 0 ==> view_index(ks, k) == -1 && forall|j: int| 0 <= j < ks.len() ==> (#[trigger] ks[j]).0 != k,
    decreases ks.len(),
{
    if ks.len() > 0 {
        lemma_view_index_found(ks.drop_last(), k);
        if view_index(ks.drop_last(), k) < 0 {
            assert forall|j: int| 0 <= j < ks.len() - 1 implies (#[trigger] ks[j]).0 != k by {
                assert(ks.drop_last()[j] == ks[j]);
            }
        } else {
            assert(ks.drop_last()[view_index(ks.drop_last(), k)] == ks[view_index(ks.drop_last(), k)]);
        }
    }
}

proof fn lemma_view_index_update(ks: Seq<(PropertyKeyView, PropView)>, k: PropertyKeyView, p: PropView)
    requires
        view_index(ks, k) >= 0,
    ensures
        view_index(ks.update(view_index(ks, k), (k, p)), k) == view_index(ks, k),
    decreases ks.len(),
{
    let i = view_index(ks, k);
    let ks2 = ks.update(i, (k, p));
    lemma_view_index_found(ks, k);
    lemma_view_index_found(ks.drop_last(), k);
    if i == ks.len() - 1 {
        assert(ks2.drop_last() =~= ks.drop_last());
        assert(view_index(ks.drop_last(), k) < 0);
    } else {
        assert(view_index(ks.drop_last(), k) == i);
        lemma_view_index_update(ks.drop_last(), k, p);
        assert(ks2.drop_last() =~= ks.drop_last().update(i, (k, p)));
    }
}

proof fn lemma_view_index_push(ks: Seq<(PropertyKeyView, PropView)>, k: PropertyKeyView, p: PropView)
    requires
        view_index(ks, k) < 0,
    ensures
        view_index(ks.push((k, p)), k) == ks.len(),
{
    assert(ks.push((k, p)).drop_last() =~= ks);
}

/// A determinate write that is not tracked exhaustively, of a value under a
/// single string key without a mangling atom, to an object whose keys are
/// not mangled, is read back: a later read of that key gathers the written
/// value (depending on the key). This holds where the write lands: the key
/// names a property holding a writable value, or none, and the object has
/// neither properties for further keys nor a prototype object. Where that
/// property held nothing but writable values, no property under an unknown
/// key may hold a value, and the rest of the object is as the write left it,
/// the read gives exactly the written value.
pub proof fn law_object_read_after_write(
    o: ObjectValue,
    o2: ObjectValue,
    effects0: Seq<EffectView>,
    value: EntityView,
    key: EntityView,
    t: usize,
)
    requires
        !o.consumed,
        o.mangling_group is None,
        o.rest is None,
        !(o.prototype is Custom),
        !(o.prototype is Unknown),
        key.values.len() == 1,
        key.values[0] matches Value::Literal(LiteralValue::String(_, None)),
        ({
            let k = literal_key(key.values[0]->Literal_0).0;
            let i = view_index(keyed_view(o.keyed@), k);
            i >= 0 ==> pvv_has_writable(keyed_view(o.keyed@)[i].1.possible_values)
        }),
        !set_plan(o, effects0, value, key, false, false, t).indeterminate,
        keyed_view(o2.keyed@) == set_plan(o, effects0, value, key, false, false, t).keyed,
        o2.mangling_group is None,
    ensures
        get_plan(o2, key).reads.values.contains(
            EntityView { values: value.values, dep: value.dep + entity_dep_parts(key) },
        ),
        ({
            let k = literal_key(key.values[0]->Literal_0).0;
            let ks = keyed_view(o.keyed@);
            let i = view_index(ks, k);
            let plan = set_plan(o, effects0, value, key, false, false, t);
            &&& i >= 0 ==> pvv_without_writable(ks[i].1.possible_values).len() == 0
            &&& o.unknown.possible_values@.len() == 0
            &&& prop_view(o2.unknown) == plan.unknown
            &&& o2.prototype == plan.proto
        }) ==> get_plan(o2, key).reads.values == seq![
            EntityView { values: value.values, dep: value.dep + entity_dep_parts(key) },
        ],
{
    let nmv = EntityView { values: value.values, dep: value.dep + entity_dep_parts(key) };
    let lit = key.values[0]->Literal_0;
    let lits = key_literals(key);
    assert(lits =~= seq![lit]);
    assert(crate::entity::all_literals(key.values));
    let k = literal_key(lit).0;
    let plan = set_plan(o, effects0, value, key, false, false, t);
    let us = unknown_setters(o);
    let indet1 = us.0 != crate::property::Found::False;
    let c = SetCtx {
        value: nmv,
        mangable: false,
        group: None,
        indeterminate: indet1,
        is_exhaustive: false,
        key,
        target_depth: t,
        object: o,
    };
    let st0 = SetState {
        keyed: keyed_view(o.keyed@),
        rest: opt_prop_view(o.rest),
        setters: us.1,
        deferred: Seq::empty(),
        effects: effects0 + Seq::empty(),
        proto: o.prototype,
    };
    assert(!mangable_check(o, lits));
    assert(lits.drop_last() =~= Seq::<LiteralValue>::empty());
    assert(set_lits(st0, lits.drop_last(), c) == st0);
    assert(set_lits(st0, lits, c) == set_one(st0, lit, c));
    let st = set_one(st0, lit, c);
    assert(plan.keyed == st.keyed);
    assert(!indet1);
    let ks = keyed_view(o.keyed@);
    let i = view_index(ks, k);
    lemma_view_index_found(ks, k);
    // Where the written value ends up, and that it is found first there.
    let j = if i >= 0 { i } else { ks.len() as int };
    if i >= 0 {
        let v = ks[i].1;
        let res = pv_set(v, false, false, nmv, Seq::empty());
        assert(res.prop.possible_values == pvv_without_writable(v.possible_values).push(PVView::Field(nmv, false)));
        assert(res.prop.definite);
        lemma_view_index_update(ks, k, res.prop);
        assert(plan.keyed == ks.update(i, (k, res.prop)));
    } else {
        lemma_view_index_push(ks, k, st.keyed.last().1);
        assert(plan.keyed.last().1.possible_values == seq![PVView::Field(nmv, false)]);
    }
    assert(view_index(plan.keyed, k) == j);
    assert(plan.keyed[j].1.definite);
    assert(plan.keyed[j].1.possible_values.last() == PVView::Field(nmv, false));
    // The read finds the property first and reads its values.
    lemma_key_index_view(o2.keyed@, k);
    assert(key_index(o2.keyed@, k) == j);
    let p = o2.keyed@[j].1;
    assert(keyed_view(o2.keyed@)[j] == (o2.keyed@[j].0@, prop_view(p)));
    let pvs = p.possible_values@;
    assert(pv_views(pvs).last() == PVView::Field(nmv, false));
    assert(pv_views(pvs)[pvs.len() - 1] == pv_view(pvs[pvs.len() - 1]));
    assert(crate::property::read_value(pvs.last()) == Some(nmv));
    assert(pvs.drop_last().push(pvs.last()) =~= pvs);
    assert(crate::property::read_values(pvs) == crate::property::read_values(pvs.drop_last()) + seq![nmv]);
    let rv = crate::property::read_values(pvs);
    assert(rv[rv.len() - 1] == nmv);
    let own = prop_reads(p, key, None);
    assert(own.values[rv.len() - 1] == nmv) by {
        assert(crate::property::read_extra(p, key, None) =~= Seq::<DepPart>::empty());
        assert(nmv.dep + Seq::<DepPart>::empty() =~= nmv.dep);
    }
    let l0 = lits_lookup(o2, lits.drop_last(), key);
    assert(l0.obj == o2);
    let lk = keyed_lookup(o2, k, None, key);
    assert(lk.reads == own);
    let l = lits_lookup(o2, lits, key);
    assert(l.reads.values =~= own.values);
    let g = get_plan(o2, key);
    assert(g.reads.values[rv.len() - 1] == nmv);
    // The exact read, where nothing else can be gathered.
    if (i >= 0 ==> pvv_without_writable(ks[i].1.possible_values).len() == 0) && o.unknown.possible_values@.len() == 0
        && prop_view(o2.unknown) == plan.unknown && o2.prototype == plan.proto {
        assert(plan.proto == o.prototype);
        assert(pv_views(pvs) =~= seq![PVView::Field(nmv, false)]);
        assert(pvs.len() == 1);
        assert(pvs.drop_last() =~= Seq::<crate::property::ObjectPropertyValue>::empty());
        assert(crate::property::read_values(pvs.drop_last()) =~= Seq::<EntityView>::empty());
        assert(rv =~= seq![nmv]);
        assert(own.values =~= seq![nmv]);
        assert(l.all_found);
        assert(l.obj == o2);
        let u = unknown_keyed(o2, key);
        assert(pv_views(o2.unknown.possible_values@).len() == 0);
        assert(o2.unknown.possible_values@ =~= Seq::<crate::property::ObjectPropertyValue>::empty());
        assert(crate::property::read_values(o2.unknown.possible_values@) =~= Seq::<EntityView>::empty());
        assert(u.1.values =~= Seq::<EntityView>::empty());
        assert(g.reads.values =~= seq![nmv]);
    }
}

/// A determinate delete under a single string key without a mangling atom,
/// from an object whose keys are not mangled and that has neither
/// properties for further keys nor a prototype, is read back: a later read
/// of that key gathers `undefined`, and the deleted property itself gives
/// no value.
pub proof fn law_object_read_after_delete(
    o: ObjectValue,
    o2: ObjectValue,
    a1: AnalyzerView,
    a2: AnalyzerView,
    deps: Seq<DepPart>,
    key: EntityView,
)
    requires
        o.mangling_group is None,
        o.rest is None,
        o.prototype is ImplicitOrNull,
        key.values.len() == 1,
        key.values[0] matches Value::Literal(LiteralValue::String(_, None)),
        delete_post(o, o2, a1, a2, deps, false, key),
    ensures
        get_plan(o2, key).reads.values.contains(crate::array::undefined_view()),
        ({
            let k = literal_key(key.values[0]->Literal_0).0;
            let i = key_index(o2.keyed@, k);
            i >= 0 ==> crate::property::read_values(o2.keyed@[i].1.possible_values@).len() == 0
                && !o2.keyed@[i].1.definite
        }),
{
    let lit = key.values[0]->Literal_0;
    let lits = key_literals(key);
    assert(lits =~= seq![lit]);
    assert(crate::entity::all_literals(key.values));
    let k = literal_key(lit).0;
    let kd = deps + entity_dep_parts(key);
    assert(!mangable_check(o, lits));
    let st0 = DeleteState { keyed: keyed_view(o.keyed@), rest: opt_prop_view(o.rest), effects: Seq::empty() };
    assert(lits.drop_last() =~= Seq::<LiteralValue>::empty());
    assert(delete_lits(st0, lits.drop_last(), false, None, false, kd, key) == st0);
    let st = delete_lits(st0, lits, false, None, false, kd, key);
    assert(st == delete_one(st0, lit, false, None, false, kd, key));
    let ks = keyed_view(o.keyed@);
    let i = view_index(ks, k);
    lemma_view_index_found(ks, k);
    if i >= 0 {
        lemma_view_index_update(ks, k, pv_delete(ks[i].1, false, kd));
        assert(view_index(st.keyed, k) == i);
        assert(st.keyed[i].1.possible_values.len() == 0);
        assert(!st.keyed[i].1.definite);
    } else {
        assert(st.keyed == ks);
    }
    assert(keyed_view(o2.keyed@) == st.keyed);
    lemma_key_index_view(o2.keyed@, k);
    let j = key_index(o2.keyed@, k);
    assert(j == view_index(st.keyed, k));
    if j >= 0 {
        let p = o2.keyed@[j].1;
        assert(keyed_view(o2.keyed@)[j] == (o2.keyed@[j].0@, prop_view(p)));
        assert(pv_views(p.possible_values@).len() == 0);
        assert(p.possible_values@ =~= Seq::<crate::property::ObjectPropertyValue>::empty());
        assert(crate::property::read_values(p.possible_values@) =~= Seq::<EntityView>::empty());
    }
    assert(opt_prop_view(o2.rest) == st.rest);
    assert(o2.rest is None);
    assert(o2.mangling_group is None);
    let l0 = lits_lookup(o2, lits.drop_last(), key);
    assert(l0.obj == o2);
    let lk = keyed_lookup(o2, k, None, key);
    assert(!lk.found);
    assert(lk.obj == o2);
    let l = lits_lookup(o2, lits, key);
    assert(!l.all_found);
    assert(l.obj == o2);
    let rr = rest_reads(o2, true, key);
    assert(rr.values == seq![crate::array::undefined_view()]);
    let g = get_plan(o2, key);
    assert(g.reads.values == l.reads.values + rr.values + unknown_keyed(l.obj, key).1.values);
    assert(g.reads.values[l.reads.values.len() as int] == crate::array::undefined_view());
}

/// A definite plain property defined under a single string key without a
/// mangling atom, in an object whose keys are not mangled, is read back: the
/// property then holds exactly the defined value (depending on the key),
/// and a later read of that key gathers it.
pub proof fn law_object_read_after_init(
    o: ObjectValue,
    o2: ObjectValue,
    a1: AnalyzerView,
    a2: AnalyzerView,
    key: EntityView,
    value: EntityView,
)
    requires
        o.mangling_group is None,
        key.values.len() == 1,
        key.values[0] matches Value::Literal(LiteralValue::String(_, None)),
        init_post(o, o2, a1, a2, PropertyKind::Init, key, value, true),
    ensures
        ({
            let v = EntityView { values: value.values, dep: value.dep + entity_dep_parts(key) };
            let k = literal_key(key.values[0]->Literal_0).0;
            let i = key_index(o2.keyed@, k);
            &&& i >= 0
            &&& o2.keyed@[i].1.definite
            &&& crate::property::read_values(o2.keyed@[i].1.possible_values@) == seq![v]
            &&& get_plan(o2, key).reads.values.contains(v)
        }),
{
    let v = EntityView { values: value.values, dep: value.dep + entity_dep_parts(key) };
    let lit = key.values[0]->Literal_0;
    let lits = key_literals(key);
    assert(lits =~= seq![lit]);
    assert(crate::entity::all_literals(key.values));
    let k = literal_key(lit).0;
    assert(!mangable_check(o, lits));
    let st0 = InitState { keyed: keyed_view(o.keyed@), effects: Seq::empty() };
    assert(lits.drop_last() =~= Seq::<LiteralValue>::empty());
    assert(init_lits(st0, lits.drop_last(), PropertyKind::Init, v, true, false, None, key) == st0);
    let st = init_lits(st0, lits, PropertyKind::Init, v, true, false, None, key);
    assert(st == init_one(st0, lit, PropertyKind::Init, v, true, false, None, key));
    let ks = keyed_view(o.keyed@);
    let i = view_index(ks, k);
    lemma_view_index_found(ks, k);
    let fresh = PropView {
        definite: true,
        enumerable: true,
        possible_values: seq![PVView::Field(v, false)],
        current: Seq::empty(),
        node: None,
        key: Some(key),
        mangling: None,
    };
    let j = if i >= 0 { i } else { ks.len() as int };
    if i >= 0 {
        lemma_view_index_update(ks, k, fresh);
        assert(st.keyed == ks.update(i, (k, fresh)));
    } else {
        lemma_view_index_push(ks, k, fresh);
        assert(st.keyed == ks.push((k, fresh)));
    }
    assert(view_index(st.keyed, k) == j);
    assert(st.keyed[j].1 == fresh);
    lemma_key_index_view(o2.keyed@, k);
    assert(key_index(o2.keyed@, k) == j);
    let p = o2.keyed@[j].1;
    assert(keyed_view(o2.keyed@)[j] == (o2.keyed@[j].0@, prop_view(p)));
    let pvs = p.possible_values@;
    assert(pv_views(pvs) == seq![PVView::Field(v, false)]);
    assert(pv_views(pvs).len() == pvs.len());
    assert(pvs.len() == 1);
    assert(pv_views(pvs)[0] == pv_view(pvs[0]));
    assert(crate::property::read_value(pvs[0]) == Some(v));
    assert(pvs.drop_last() =~= Seq::<crate::property::ObjectPropertyValue>::empty());
    assert(pvs.last() == pvs[0]);
    assert(crate::property::read_values(pvs.drop_last()) =~= Seq::<EntityView>::empty());
    assert(crate::property::read_values(pvs) =~= seq![v]);
    let own = prop_reads(p, key, None);
    assert(own.values[0] == v) by {
        assert(crate::property::read_extra(p, key, None) =~= Seq::<DepPart>::empty());
        assert(v.dep + Seq::<DepPart>::empty() =~= v.dep);
    }
    assert(o2.mangling_group is None);
    let l0 = lits_lookup(o2, lits.drop_last(), key);
    assert(l0.obj == o2);
    let lk = keyed_lookup(o2, k, None, key);
    assert(lk.reads == own);
    let l = lits_lookup(o2, lits, key);
    assert(l.reads.values =~= own.values);
    let g = get_plan(o2, key);
    assert(g.reads.values[0] == v);
}


/// A getter and then a setter defined under one single string key without
/// a mangling atom, in an object whose keys are not mangled and that held
/// no property under that key, make one accessor: the property is definite
/// and enumerable, and holds the getter and setter together where the
/// setter is definite, or the getter's accessor followed by one with the
/// setter alone where it is not (each depending on the key).
pub proof fn law_object_getter_then_setter(
    o: ObjectValue,
    o1: ObjectValue,
    o2: ObjectValue,
    a0: AnalyzerView,
    a1: AnalyzerView,
    a2: AnalyzerView,
    key: EntityView,
    getter: EntityView,
    setter: EntityView,
    definite: bool,
)
    requires
        o.mangling_group is None,
        key.values.len() == 1,
        key.values[0] matches Value::Literal(LiteralValue::String(_, None)),
        view_index(keyed_view(o.keyed@), literal_key(key.values[0]->Literal_0).0) < 0,
        init_post(o, o1, a0, a1, PropertyKind::Getter, key, getter, true),
        init_post(o1, o2, a1, a2, PropertyKind::Setter, key, setter, definite),
    ensures
        ({
            let gv = EntityView { values: getter.values, dep: getter.dep + entity_dep_parts(key) };
            let sv = EntityView { values: setter.values, dep: setter.dep + entity_dep_parts(key) };
            let k = literal_key(key.values[0]->Literal_0).0;
            let i = key_index(o2.keyed@, k);
            &&& i >= 0
            &&& o2.keyed@[i].1.definite
            &&& o2.keyed@[i].1.enumerable
            &&& pv_views(o2.keyed@[i].1.possible_values@) == if definite {
                seq![PVView::Property(Some(gv), Some(sv))]
            } else {
                seq![PVView::Property(Some(gv), None), PVView::Property(None, Some(sv))]
            }
        }),
{
    let gv = EntityView { values: getter.values, dep: getter.dep + entity_dep_parts(key) };
    let sv = EntityView { values: setter.values, dep: setter.dep + entity_dep_parts(key) };
    let lit = key.values[0]->Literal_0;
    let lits = key_literals(key);
    assert(lits =~= seq![lit]);
    assert(crate::entity::all_literals(key.values));
    let k = literal_key(lit).0;
    assert(lits.drop_last() =~= Seq::<LiteralValue>::empty());
    // The getter makes a new accessor at the end.
    assert(!mangable_check(o, lits));
    let ks = keyed_view(o.keyed@);
    let st0 = InitState { keyed: ks, effects: Seq::empty() };
    assert(init_lits(st0, lits.drop_last(), PropertyKind::Getter, gv, true, false, None, key) == st0);
    let st1 = init_lits(st0, lits, PropertyKind::Getter, gv, true, false, None, key);
    assert(st1 == init_one(st0, lit, PropertyKind::Getter, gv, true, false, None, key));
    let gp = PropView {
        definite: true,
        enumerable: true,
        possible_values: seq![PVView::Property(Some(gv), None)],
        current: Seq::empty(),
        node: None,
        key: Some(key),
        mangling: None,
    };
    assert(st1.keyed == ks.push((k, gp)));
    lemma_view_index_push(ks, k, gp);
    let j = ks.len() as int;
    // The setter finds it and completes it, or adds to it.
    assert(o1.mangling_group is None);
    assert(!mangable_check(o1, lits));
    let ks1 = keyed_view(o1.keyed@);
    assert(ks1 == st1.keyed);
    let s0 = InitState { keyed: ks1, effects: Seq::empty() };
    assert(init_lits(s0, lits.drop_last(), PropertyKind::Setter, sv, definite, false, None, key) == s0);
    let st2 = init_lits(s0, lits, PropertyKind::Setter, sv, definite, false, None, key);
    assert(st2 == init_one(s0, lit, PropertyKind::Setter, sv, definite, false, None, key));
    assert(view_index(ks1, k) == j);
    assert(ks1[j].1 == gp);
    let gpvs = gp.possible_values;
    assert(first_accessor(gpvs) == Some((Some(gv), Option::<EntityView>::None)));
    let np = if definite {
        PropView {
            definite: true,
            enumerable: true,
            possible_values: seq![PVView::Property(Some(gv), Some(sv))],
            current: Seq::empty(),
            node: None,
            key: Some(key),
            mangling: None,
        }
    } else {
        PropView { possible_values: gpvs.push(PVView::Property(None, Some(sv))), ..gp }
    };
    assert(st2.keyed == ks1.update(j, (k, np)));
    lemma_view_index_update(ks1, k, np);
    assert(keyed_view(o2.keyed@) == st2.keyed);
    lemma_key_index_view(o2.keyed@, k);
    assert(key_index(o2.keyed@, k) == j);
    let p = o2.keyed@[j].1;
    assert(keyed_view(o2.keyed@)[j] == (o2.keyed@[j].0@, prop_view(p)));
    assert(prop_view(p) == np);
    if !definite {
        assert(np.possible_values =~= seq![PVView::Property(Some(gv), None), PVView::Property(None, Some(sv))]);
    }
}


/// A write under a single string key without a mangling atom, to an object
/// whose keys are not mangled, that has no property under that key, no
/// properties for further keys and no prototype object, creates the
/// property as a new own property after the existing ones: it is
/// enumerable, definite unless the write is indeterminate or a setter
/// under an unknown key may exist, and, where the write is not tracked exhaustively, it holds
/// just the written value (depending on the key). A later enumeration
/// therefore lists it.
pub proof fn law_object_write_creates_enumerable(
    o: ObjectValue,
    o2: ObjectValue,
    effects0: Seq<EffectView>,
    value: EntityView,
    key: EntityView,
    indeterminate: bool,
    is_exhaustive: bool,
    t: usize,
)
    requires
        !o.consumed,
        o.mangling_group is None,
        o.rest is None,
        !(o.prototype is Custom),
        !(o.prototype is Unknown),
        key.values.len() == 1,
        key.values[0] matches Value::Literal(LiteralValue::String(_, None)),
        view_index(keyed_view(o.keyed@), literal_key(key.values[0]->Literal_0).0) < 0,
        keyed_view(o2.keyed@) == set_plan(o, effects0, value, key, indeterminate, is_exhaustive, t).keyed,
    ensures
        ({
            let nmv = EntityView { values: value.values, dep: value.dep + entity_dep_parts(key) };
            let k = literal_key(key.values[0]->Literal_0).0;
            let i = key_index(o2.keyed@, k);
            &&& i == o.keyed@.len()
            &&& o2.keyed@.len() == o.keyed@.len() + 1
            &&& o2.keyed@[i].1.enumerable
            &&& o2.keyed@[i].1.definite == (!indeterminate && unknown_setters(o).0 == crate::property::Found::False)
            &&& !is_exhaustive ==> pv_views(o2.keyed@[i].1.possible_values@) == seq![PVView::Field(nmv, false)]
        }),
{
    let nmv = EntityView { values: value.values, dep: value.dep + entity_dep_parts(key) };
    let lit = key.values[0]->Literal_0;
    let lits = key_literals(key);
    assert(lits =~= seq![lit]);
    assert(crate::entity::all_literals(key.values));
    let k = literal_key(lit).0;
    let plan = set_plan(o, effects0, value, key, indeterminate, is_exhaustive, t);
    let us = unknown_setters(o);
    let indet1 = indeterminate || us.0 != crate::property::Found::False;
    let c = SetCtx {
        value: nmv,
        mangable: false,
        group: None,
        indeterminate: indet1,
        is_exhaustive,
        key,
        target_depth: t,
        object: o,
    };
    let st0 = SetState {
        keyed: keyed_view(o.keyed@),
        rest: opt_prop_view(o.rest),
        setters: us.1,
        deferred: Seq::empty(),
        effects: effects0 + Seq::empty(),
        proto: o.prototype,
    };
    assert(!mangable_check(o, lits));
    assert(lits.drop_last() =~= Seq::<LiteralValue>::empty());
    assert(set_lits(st0, lits.drop_last(), c) == st0);
    assert(set_lits(st0, lits, c) == set_one(st0, lit, c));
    let st = set_one(st0, lit, c);
    assert(plan.keyed == st.keyed);
    let ks = keyed_view(o.keyed@);
    lemma_view_index_found(ks, k);
    let l = proto_keyed_setters(ObjectValue { prototype: o.prototype, ..o }, k, None);
    assert(l.found == crate::property::Found::False);
    let pv = if is_exhaustive {
        PVView::Consumed(
            EntityView { values: seq![Value::Unknown], dep: crate::array::entities_dep(seq![nmv]) },
            Some(seq![entity_dep_parts(nmv)]),
        )
    } else {
        PVView::Field(nmv, false)
    };
    let newp = PropView {
        definite: !indet1,
        enumerable: true,
        possible_values: seq![pv],
        current: Seq::empty(),
        node: None,
        key: Some(key),
        mangling: None,
    };
    assert(st.keyed == ks.push((k, newp)));
    lemma_view_index_push(ks, k, newp);
    lemma_key_index_view(o2.keyed@, k);
    let j = ks.len() as int;
    assert(key_index(o2.keyed@, k) == j);
    assert(keyed_view(o2.keyed@).len() == o2.keyed@.len());
    let p = o2.keyed@[j].1;
    assert(keyed_view(o2.keyed@)[j] == (o2.keyed@[j].0@, prop_view(p)));
    assert(prop_view(p) == newp);
}

} // verus!
