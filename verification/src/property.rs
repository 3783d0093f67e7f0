use vstd::prelude::*;

use crate::analyzer::{Analyzer, AnalyzerView};
use crate::array::{entities_dep, undefined_view};
use crate::dep::{dep_views, DepCollector, LazyDep};
use crate::entity::{entity_dep_parts, Dep, DepPart, Entity, EntityView, Value};
use crate::literal::MangleConstraint;
use crate::value::{clone_opt_entity, entity_views};

verus! {

/// Whether something was found: surely, surely not, or maybe.
#[derive(Debug, Clone, Copy, PartialEq, Eq, Structural)]
pub enum Found {
    True,
    False,
    Unknown,
}

impl Found {
    /// `True` or `False` as `b` says.
    pub fn known(b: bool) -> (r: Found)
        ensures
            r == (if b { Found::True } else { Found::False }),
    {
        if b {
            Found::True
        } else {
            Found::False
        }
    }

    /// Whether it may have been found.
    pub fn may_found(self) -> (r: bool)
        ensures
            r == (self != Found::False),
    {
        !matches!(self, Found::False)
    }

    /// Whether it was surely found.
    pub fn must_found(self) -> (r: bool)
        ensures
            r == (self == Found::True),
    {
        matches!(self, Found::True)
    }

    /// Whether it was surely not found.
    pub fn must_not_found(self) -> (r: bool)
        ensures
            r == (self == Found::False),
    {
        matches!(self, Found::False)
    }

    /// What two searches found together: surely when either surely found,
    /// surely not when neither may have, maybe otherwise.
    pub open spec fn combine_spec(self, other: Found) -> Found {
        if self == Found::True || other == Found::True {
            Found::True
        } else if self == Found::False && other == Found::False {
            Found::False
        } else {
            Found::Unknown
        }
    }

    /// What two searches found together.
    pub fn combine(self, other: Found) -> (r: Found)
        ensures
            r == self.combine_spec(other),
    {
        if matches!(self, Found::True) || matches!(other, Found::True) {
            Found::True
        } else if matches!(self, Found::False) && matches!(other, Found::False) {
            Found::False
        } else {
            Found::Unknown
        }
    }
}

/// One way a property may hold its value.
#[derive(Debug)]
pub enum ObjectPropertyValue {
    /// The property was written where the write could not be tracked: any
    /// value, depending on everything written to it.
    Consumed(Entity, LazyDep),
    /// A data field: the value and whether it is read-only.
    Field(Entity, bool),
    /// An accessor: the getter and the setter.
    Property(Option<Entity>, Option<Entity>),
}

/// A setter that a write has to call.
#[derive(Debug)]
pub struct PendingSetter {
    pub indeterminate: bool,
    pub dep: Option<Dep>,
    pub setter: Entity,
}

/// The view of a pending setter.
pub struct PendingSetterView {
    pub indeterminate: bool,
    pub dep: Option<Seq<DepPart>>,
    pub setter: EntityView,
}

impl View for PendingSetter {
    type V = PendingSetterView;

    open spec fn view(&self) -> PendingSetterView {
        PendingSetterView {
            indeterminate: self.indeterminate,
            dep: crate::dep::opt_view(self.dep),
            setter: self.setter@,
        }
    }
}

/// What reading properties gathers: the values read, the getters still to
/// be called, and further dependencies of the result.
pub struct GetPropertyContext {
    pub key: Entity,
    pub values: Vec<Entity>,
    pub getters: Vec<Entity>,
    pub extra_deps: Vec<Dep>,
}

/// A property of an object.
#[derive(Debug)]
pub struct ObjectProperty {
    /// Whether the property surely exists.
    pub definite: bool,
    pub enumerable: bool,
    /// The ways it may hold its value.
    pub possible_values: Vec<ObjectPropertyValue>,
    /// Why the property may not exist.
    pub non_existent: DepCollector,
    /// The key entity, where the key can be mangled.
    pub key: Option<Entity>,
    /// The mangling atom of the key, where the key can be mangled.
    pub mangling: Option<u32>,
}

/// The sequence holding `o`'s value, if any.
pub open spec fn opt_seq(o: Option<EntityView>) -> Seq<EntityView> {
    match o {
        Some(e) => seq![e],
        None => Seq::empty(),
    }
}

/// The value that reading gives from one way of holding it: the value of a
/// field, `undefined` for an accessor without getter, nothing for an
/// accessor with a getter (the getter gives it).
pub open spec fn read_value(pv: ObjectPropertyValue) -> Option<EntityView> {
    match pv {
        ObjectPropertyValue::Consumed(v, _) => Some(v@),
        ObjectPropertyValue::Field(v, _) => Some(v@),
        ObjectPropertyValue::Property(Some(_), _) => None,
        ObjectPropertyValue::Property(None, _) => Some(undefined_view()),
    }
}

/// The getter of an accessor, if any.
pub open spec fn read_getter(pv: ObjectPropertyValue) -> Option<EntityView> {
    match pv {
        ObjectPropertyValue::Property(Some(g), _) => Some(g@),
        _ => None,
    }
}

/// The setter of an accessor, if any.
pub open spec fn read_setter(pv: ObjectPropertyValue) -> Option<EntityView> {
    match pv {
        ObjectPropertyValue::Property(_, Some(s)) => Some(s@),
        _ => None,
    }
}

/// The value of a field, if it is one.
pub open spec fn read_field(pv: ObjectPropertyValue) -> Option<EntityView> {
    match pv {
        ObjectPropertyValue::Field(v, _) => Some(v@),
        _ => None,
    }
}

/// The values reading gives from each way of holding it, in order.
pub open spec fn read_values(s: Seq<ObjectPropertyValue>) -> Seq<EntityView>
    decreases s.len(),
{
    if s.len() == 0 {
        Seq::empty()
    } else {
        read_values(s.drop_last()) + opt_seq(read_value(s.last()))
    }
}

/// The getters, in order.
pub open spec fn read_getters(s: Seq<ObjectPropertyValue>) -> Seq<EntityView>
    decreases s.len(),
{
    if s.len() == 0 {
        Seq::empty()
    } else {
        read_getters(s.drop_last()) + opt_seq(read_getter(s.last()))
    }
}

/// The setters, in order.
pub open spec fn read_setters(s: Seq<ObjectPropertyValue>) -> Seq<EntityView>
    decreases s.len(),
{
    if s.len() == 0 {
        Seq::empty()
    } else {
        read_setters(s.drop_last()) + opt_seq(read_setter(s.last()))
    }
}

/// The values of the fields, in order.
pub open spec fn read_fields(s: Seq<ObjectPropertyValue>) -> Seq<EntityView>
    decreases s.len(),
{
    if s.len() == 0 {
        Seq::empty()
    } else {
        read_fields(s.drop_last()) + opt_seq(read_field(s.last()))
    }
}

/// Each value, additionally depending on `extra`.
pub open spec fn with_extra(s: Seq<EntityView>, extra: Seq<DepPart>) -> Seq<EntityView> {
    s.map_values(|e: EntityView| EntityView { values: e.values, dep: e.dep + extra })
}

/// What a value read through a mangled key additionally depends on: both
/// keys, and that their mangled names stay equal.
pub open spec fn mangle_extra(prev_key: EntityView, key: EntityView, constraint: MangleConstraint) -> Seq<DepPart> {
    entity_dep_parts(prev_key) + entity_dep_parts(key) + seq![DepPart::Constraint(constraint)]
}

/// The pending setter records for `setters`.
pub open spec fn setter_records(setters: Seq<EntityView>, indeterminate: bool, dep: Option<Seq<DepPart>>) -> Seq<
    PendingSetterView,
> {
    setters.map_values(|s: EntityView| PendingSetterView { indeterminate, dep, setter: s })
}

/// The views of pending setters.
pub open spec fn setter_views(s: Seq<PendingSetter>) -> Seq<PendingSetterView> {
    s.map_values(|p: PendingSetter| p@)
}

/// Whether a way of holding the value is a writable field.
pub open spec fn is_writable_field(pv: ObjectPropertyValue) -> bool {
    pv matches ObjectPropertyValue::Field(_, false)
}

/// Whether a write may land in this way of holding the value.
pub open spec fn is_writable(pv: ObjectPropertyValue) -> bool {
    pv is Consumed || is_writable_field(pv)
}

/// Whether the first way of holding the value that decides it is a
/// writable field; a property that may not exist counts as one.
pub open spec fn unconsumed_field(s: Seq<ObjectPropertyValue>, definite: bool) -> bool
    decreases s.len(),
{
    if s.len() == 0 {
        !definite
    } else if s[0] is Consumed {
        false
    } else if is_writable_field(s[0]) {
        true
    } else {
        unconsumed_field(s.skip(1), definite)
    }
}

/// The requests consuming a way of holding the value makes, as uses of its
/// values: the value of a field, the getter and setter of an accessor.
pub open spec fn held_entities(pv: ObjectPropertyValue) -> Seq<EntityView> {
    match pv {
        ObjectPropertyValue::Consumed(v, _) => seq![v@],
        ObjectPropertyValue::Field(v, _) => seq![v@],
        ObjectPropertyValue::Property(g, s) => opt_seq(crate::value::opt_entity_view(g)) + opt_seq(
            crate::value::opt_entity_view(s),
        ),
    }
}

/// Every entity held, in order.
pub open spec fn all_held(s: Seq<ObjectPropertyValue>) -> Seq<EntityView>
    decreases s.len(),
{
    if s.len() == 0 {
        Seq::empty()
    } else {
        all_held(s.drop_last()) + held_entities(s.last())
    }
}

impl ObjectPropertyValue {
    /// A consumed value depending on `deps`, which are kept for later
    /// writes to join.
    pub fn new_consumed(deps: Vec<Entity>) -> (r: ObjectPropertyValue)
        ensures
            r matches ObjectPropertyValue::Consumed(v, l) && v@ == (EntityView {
                values: seq![Value::Unknown],
                dep: entities_dep(entity_views(deps@)),
            }) && (l.deps matches Some(d) && dep_views(d@) == entity_views(deps@).map_values(
                |e: EntityView| entity_dep_parts(e),
            )),
    {
        let d = crate::array::entities_as_dep(&deps);
        let mut kept: Vec<Dep> = Vec::new();
        let mut i: usize = 0;
        while i < deps.len()
            invariant
                i <= deps.len(),
                dep_views(kept@) == entity_views(deps@).subrange(0, i as int).map_values(|e: EntityView| entity_dep_parts(e)),
            decreases deps.len() - i,
        {
            let ghost before = dep_views(kept@);
            let dd = deps[i].as_dep();
            kept.push(dd);
            proof {
                assert(dep_views(kept@) =~= before.push(dd@));
                assert(entity_views(deps@).subrange(0, i + 1).map_values(|e: EntityView| entity_dep_parts(e)) =~= entity_views(deps@).subrange(0, i as int).map_values(|e: EntityView| entity_dep_parts(e)).push(entity_dep_parts(deps@[i as int]@)));
            }
            i = i + 1;
        }
        proof {
            assert(entity_views(deps@).subrange(0, deps@.len() as int) =~= entity_views(deps@));
        }
        ObjectPropertyValue::Consumed(Entity::computed_unknown(d), LazyDep::new(kept))
    }
}

impl ObjectProperty {
    /// A definite, enumerable property with no value yet.
    pub fn new_in() -> (r: ObjectProperty)
        ensures
            r.definite,
            r.enumerable,
            r.possible_values@.len() == 0,
            r.non_existent.is_empty_spec(),
            r.key is None,
            r.mangling is None,
    {
        ObjectProperty {
            definite: true,
            enumerable: true,
            possible_values: Vec::new(),
            non_existent: DepCollector::new(Vec::new()),
            key: None,
            mangling: None,
        }
    }

    /// Whether a read may see a value that a write through a field made:
    /// decided by the first way of holding the value that is consumed or a
    /// writable field, and by whether the property may not exist otherwise.
    pub fn may_be_unconsumed_field(&self) -> (r: bool)
        ensures
            r == unconsumed_field(self.possible_values@, self.definite),
    {
        let mut i: usize = 0;
        proof {
            assert(self.possible_values@.skip(0) =~= self.possible_values@);
        }
        while i < self.possible_values.len()
            invariant
                i <= self.possible_values@.len(),
                unconsumed_field(self.possible_values@.skip(i as int), self.definite) == unconsumed_field(
                    self.possible_values@,
                    self.definite,
                ),
            decreases self.possible_values@.len() - i,
        {
            proof {
                assert(self.possible_values@.skip(i as int)[0] == self.possible_values@[i as int]);
                assert(self.possible_values@.skip(i as int).skip(1) =~= self.possible_values@.skip(i + 1));
            }
            match &self.possible_values[i] {
                ObjectPropertyValue::Consumed(_, _) => return false,
                ObjectPropertyValue::Field(_, false) => return true,
                _ => {},
            }
            i = i + 1;
        }
        proof {
            assert(self.possible_values@.skip(i as int).len() == 0);
        }
        !self.definite
    }
}


/// What reading a property through `key` additionally depends on: nothing
/// when the key is not mangled; both keys and the equality of their mangled
/// names when it is.
pub open spec fn read_extra(p: ObjectProperty, key: EntityView, key_atom: Option<u32>) -> Seq<DepPart> {
    match key_atom {
        Some(a) => mangle_extra(p.key->0@, key, MangleConstraint::Eq(p.mangling->0, a)),
        None => Seq::empty(),
    }
}

/// Whether `p2` is `p1` with nothing changed but how its non-existence
/// dependencies are folded.
pub open spec fn same_property(p1: ObjectProperty, p2: ObjectProperty) -> bool {
    &&& p2.definite == p1.definite
    &&& p2.enumerable == p1.enumerable
    &&& p2.possible_values@ == p1.possible_values@
    &&& p2.key == p1.key
    &&& p2.mangling == p1.mangling
    &&& p2.non_existent.total() == p1.non_existent.total()
    &&& p2.non_existent.collected() == p1.non_existent.collected()
}

/// Whether `c2` is `c1` after reading property `p` through `key_atom`.
pub open spec fn read_into(c1: GetPropertyContext, c2: GetPropertyContext, p: ObjectProperty, key_atom: Option<u32>) -> bool {
    let extra = read_extra(p, c1.key@, key_atom);
    &&& c2.key == c1.key
    &&& entity_views(c2.values@) == entity_views(c1.values@) + with_extra(read_values(p.possible_values@), extra)
    &&& entity_views(c2.getters@) == entity_views(c1.getters@) + with_extra(read_getters(p.possible_values@), extra)
    &&& dep_views(c2.extra_deps@) == dep_views(c1.extra_deps@) + match p.non_existent.collected() {
        Some(d) => seq![d],
        None => Seq::empty(),
    }
}

/// Appends what reading each of `pvs` gives, each additionally depending
/// on `extra`.
fn push_reads(pvs: &Vec<ObjectPropertyValue>, extra: &Dep, values: &mut Vec<Entity>, getters: &mut Vec<Entity>)
    ensures
        entity_views(final(values)@) == entity_views(old(values)@) + with_extra(read_values(pvs@), extra@),
        entity_views(final(getters)@) == entity_views(old(getters)@) + with_extra(read_getters(pvs@), extra@),
{
    let mut i: usize = 0;
    proof {
        assert(read_values(pvs@.subrange(0, 0)) =~= Seq::<EntityView>::empty());
        assert(read_getters(pvs@.subrange(0, 0)) =~= Seq::<EntityView>::empty());
        assert(entity_views(values@) =~= entity_views(old(values)@) + with_extra(Seq::<EntityView>::empty(), extra@));
        assert(entity_views(getters@) =~= entity_views(old(getters)@) + with_extra(Seq::<EntityView>::empty(), extra@));
    }
    while i < pvs.len()
        invariant
            i <= pvs@.len(),
            entity_views(values@) == entity_views(old(values)@) + with_extra(read_values(pvs@.subrange(0, i as int)), extra@),
            entity_views(getters@) == entity_views(old(getters)@) + with_extra(read_getters(pvs@.subrange(0, i as int)), extra@),
        decreases pvs@.len() - i,
    {
        let ghost vs = entity_views(values@);
        let ghost gs = entity_views(getters@);
        let ghost sub = pvs@.subrange(0, i + 1);
        proof {
            assert(sub.drop_last() =~= pvs@.subrange(0, i as int));
            assert(sub.last() == pvs@[i as int]);
        }
        match &pvs[i] {
            ObjectPropertyValue::Consumed(v, _) | ObjectPropertyValue::Field(v, _) => {
                let e = v.clone().computed(extra);
                proof {
                    crate::value::lemma_views_push(values@, e);
                }
                values.push(e);
                proof {
                    assert(entity_views(values@) =~= entity_views(old(values)@) + with_extra(read_values(sub), extra@));
                    assert(entity_views(getters@) =~= entity_views(old(getters)@) + with_extra(read_getters(sub), extra@));
                }
            },
            ObjectPropertyValue::Property(Some(g), _) => {
                let e = g.clone().computed(extra);
                proof {
                    crate::value::lemma_views_push(getters@, e);
                }
                getters.push(e);
                proof {
                    assert(entity_views(values@) =~= entity_views(old(values)@) + with_extra(read_values(sub), extra@));
                    assert(entity_views(getters@) =~= entity_views(old(getters)@) + with_extra(read_getters(sub), extra@));
                }
            },
            ObjectPropertyValue::Property(None, _) => {
                let e = Entity::undefined().computed(extra);
                proof {
                    crate::value::lemma_views_push(values@, e);
                }
                values.push(e);
                proof {
                    assert(entity_views(values@) =~= entity_views(old(values)@) + with_extra(read_values(sub), extra@));
                    assert(entity_views(getters@) =~= entity_views(old(getters)@) + with_extra(read_getters(sub), extra@));
                }
            },
        }
        i = i + 1;
    }
    proof {
        assert(pvs@.subrange(0, pvs@.len() as int) =~= pvs@);
    }
}

impl ObjectProperty {
    /// Reads the property into `context`: its values and getters, through
    /// a mangled key when `key_atom` is given, and why it may not exist.
    pub fn get(&self, context: &mut GetPropertyContext, key_atom: Option<u32>)
        requires
            key_atom is Some ==> self.key is Some && self.mangling is Some,
        ensures
            read_into(*old(context), *final(context), *self, key_atom),
    {
        if let Some(atom) = key_atom {
            self.get_mangable(context, atom);
        } else {
            self.get_unmangable(context);
        }
        let ghost before = dep_views(context.extra_deps@);
        if let Some(dep) = self.non_existent.peek() {
            context.extra_deps.push(dep);
            proof {
                assert(dep_views(context.extra_deps@) =~= before + seq![dep@]);
            }
        } else {
            proof {
                assert(dep_views(context.extra_deps@) =~= before + Seq::<Seq<DepPart>>::empty());
            }
        }
    }

    /// Reads the values and getters as they are.
    fn get_unmangable(&self, context: &mut GetPropertyContext)
        ensures
            final(context).key == old(context).key,
            final(context).extra_deps@ == old(context).extra_deps@,
            entity_views(final(context).values@) == entity_views(old(context).values@) + with_extra(
                read_values(self.possible_values@),
                Seq::empty(),
            ),
            entity_views(final(context).getters@) == entity_views(old(context).getters@) + with_extra(
                read_getters(self.possible_values@),
                Seq::empty(),
            ),
    {
        let none = Dep::none();
        push_reads(&self.possible_values, &none, &mut context.values, &mut context.getters);
    }

    /// Reads the values and getters through a mangled key: each depends on
    /// both keys and on their mangled names staying equal.
    fn get_mangable(&self, context: &mut GetPropertyContext, key_atom: u32)
        requires
            self.key is Some,
            self.mangling is Some,
        ensures
            final(context).key == old(context).key,
            final(context).extra_deps@ == old(context).extra_deps@,
            entity_views(final(context).values@) == entity_views(old(context).values@) + with_extra(
                read_values(self.possible_values@),
                read_extra(*self, old(context).key@, Some(key_atom)),
            ),
            entity_views(final(context).getters@) == entity_views(old(context).getters@) + with_extra(
                read_getters(self.possible_values@),
                read_extra(*self, old(context).key@, Some(key_atom)),
            ),
    {
        let prev_key = match &self.key {
            Some(k) => k,
            None => {
                proof {
                    assert(false);
                }
                return;
            },
        };
        let prev_atom = match self.mangling {
            Some(a) => a,
            None => {
                proof {
                    assert(false);
                }
                return;
            },
        };
        let mut extra = prev_key.as_dep().join(&context.key.as_dep());
        extra.parts.push(DepPart::Constraint(MangleConstraint::Eq(prev_atom, key_atom)));
        proof {
            assert(extra@ =~= read_extra(*self, context.key@, Some(key_atom)));
        }
        push_reads(&self.possible_values, &extra, &mut context.values, &mut context.getters);
    }
}


impl ObjectProperty {
    /// Collects the setters a write has to call; found when there is one.
    pub fn lookup_setters(&self, setters: &mut Vec<PendingSetter>) -> (r: Found)
        ensures
            setter_views(final(setters)@) == setter_views(old(setters)@) + setter_records(
                read_setters(self.possible_values@),
                self.possible_values@.len() > 1,
                self.non_existent.collected(),
            ),
            r == (if read_setters(self.possible_values@).len() > 0 { Found::True } else { Found::False }),
    {
        let ghost pvs = self.possible_values@;
        let ghost collected = self.non_existent.collected();
        let indeterminate = self.possible_values.len() > 1;
        let mut found_setter = false;
        let mut i: usize = 0;
        proof {
            assert(read_setters(pvs.subrange(0, 0)) =~= Seq::<EntityView>::empty());
            assert(setter_views(setters@) =~= setter_views(old(setters)@) + setter_records(Seq::<EntityView>::empty(), indeterminate, collected));
        }
        while i < self.possible_values.len()
            invariant
                i <= pvs.len(),
                self.possible_values@ == pvs,
                collected == self.non_existent.collected(),
                indeterminate == (pvs.len() > 1),
                setter_views(setters@) == setter_views(old(setters)@) + setter_records(
                    read_setters(pvs.subrange(0, i as int)),
                    indeterminate,
                    collected,
                ),
                found_setter == (read_setters(pvs.subrange(0, i as int)).len() > 0),
            decreases pvs.len() - i,
        {
            let ghost sub = pvs.subrange(0, i + 1);
            let ghost before = setter_views(setters@);
            proof {
                assert(sub.drop_last() =~= pvs.subrange(0, i as int));
                assert(sub.last() == pvs[i as int]);
            }
            let setter = match &self.possible_values[i] {
                ObjectPropertyValue::Property(_, Some(s)) => Some(s.clone()),
                _ => None,
            };
            if let Some(st) = setter {
                let dep = self.non_existent.peek();
                let ps = PendingSetter { indeterminate, dep, setter: st };
                setters.push(ps);
                found_setter = true;
                proof {
                    assert(setter_views(setters@) =~= before.push(ps@));
                    assert(setter_views(setters@) =~= setter_views(old(setters)@) + setter_records(
                        read_setters(sub), indeterminate, collected));
                }
            } else {
                proof {
                    assert(read_setters(sub) =~= read_setters(pvs.subrange(0, i as int)));
                }
            }
            i = i + 1;
        }
        proof {
            assert(pvs.subrange(0, pvs.len() as int) =~= pvs);
        }
        Found::known(found_setter)
    }

    /// Records that the property may have been deleted: it no longer surely
    /// exists; a determinate delete also drops its values and earlier
    /// reasons.
    pub fn delete(&mut self, indeterminate: bool, dep: Dep)
        ensures
            !final(self).definite,
            final(self).enumerable == old(self).enumerable,
            final(self).key == old(self).key,
            final(self).mangling == old(self).mangling,
            indeterminate ==> final(self).possible_values@ == old(self).possible_values@
                && final(self).non_existent.current@ == old(self).non_existent.current@.push(dep)
                && final(self).non_existent.node == old(self).non_existent.node,
            !indeterminate ==> final(self).possible_values@.len() == 0
                && final(self).non_existent.current@ == seq![dep]
                && final(self).non_existent.node is None,
    {
        self.definite = false;
        if !indeterminate {
            self.possible_values.clear();
            self.non_existent.force_clear();
        }
        self.non_existent.push(dep);
        proof {
            if !indeterminate {
                assert(self.non_existent.current@ =~= seq![dep]);
            }
        }
    }

    /// Consumes the property: every value, getter and setter it holds goes
    /// to `suspended`, then the reasons it may not exist are consumed, then
    /// its key goes to `suspended`.
    pub fn consume(&self, analyzer: &mut Analyzer, suspended: &mut Vec<Entity>)
        ensures
            entity_views(final(suspended)@) == entity_views(old(suspended)@) + all_held(self.possible_values@)
                + opt_seq(crate::value::opt_entity_view(self.key)),
            final(analyzer)@ == (AnalyzerView {
                effects: old(analyzer)@.effects + self.non_existent.consume_all_effects(),
                ..old(analyzer)@
            }),
    {
        let ghost pvs = self.possible_values@;
        let mut i: usize = 0;
        proof {
            assert(all_held(pvs.subrange(0, 0)) =~= Seq::<EntityView>::empty());
            assert(entity_views(suspended@) =~= entity_views(old(suspended)@) + Seq::<EntityView>::empty());
        }
        while i < self.possible_values.len()
            invariant
                i <= pvs.len(),
                self.possible_values@ == pvs,
                entity_views(suspended@) == entity_views(old(suspended)@) + all_held(pvs.subrange(0, i as int)),
            decreases pvs.len() - i,
        {
            let ghost sub = pvs.subrange(0, i + 1);
            let ghost before = entity_views(suspended@);
            proof {
                assert(sub.drop_last() =~= pvs.subrange(0, i as int));
                assert(sub.last() == pvs[i as int]);
            }
            match &self.possible_values[i] {
                ObjectPropertyValue::Consumed(v, _) | ObjectPropertyValue::Field(v, _) => {
                    let c = v.clone();
                    suspended.push(c);
                    proof {
                        assert(entity_views(suspended@) =~= before.push(c@));
                    }
                },
                ObjectPropertyValue::Property(g, st) => {
                    if let Some(g) = g {
                        let c = g.clone();
                        suspended.push(c);
                        proof {
                            assert(entity_views(suspended@) =~= before.push(c@));
                        }
                    }
                    let ghost mid = entity_views(suspended@);
                    if let Some(st) = st {
                        let c = st.clone();
                        suspended.push(c);
                        proof {
                            assert(entity_views(suspended@) =~= mid.push(c@));
                        }
                    }
                },
            }
            proof {
                assert(entity_views(suspended@) =~= entity_views(old(suspended)@) + all_held(sub));
            }
            i = i + 1;
        }
        proof {
            assert(pvs.subrange(0, pvs.len() as int) =~= pvs);
        }
        self.non_existent.consume_all(analyzer);
        let ghost before = entity_views(suspended@);
        if let Some(k) = &self.key {
            let c = k.clone();
            suspended.push(c);
            proof {
                assert(entity_views(suspended@) =~= before + seq![c@]);
            }
        } else {
            proof {
                assert(entity_views(suspended@) =~= before + Seq::<EntityView>::empty());
            }
        }
    }
}


/// The ways of holding the value without the writable fields, in order.
pub open spec fn without_writable_fields(s: Seq<ObjectPropertyValue>) -> Seq<ObjectPropertyValue>
    decreases s.len(),
{
    if s.len() == 0 {
        s
    } else if is_writable_field(s.last()) {
        without_writable_fields(s.drop_last())
    } else {
        without_writable_fields(s.drop_last()).push(s.last())
    }
}

/// The index of the last consumed way of holding the value; -1 if none.
pub open spec fn last_consumed(s: Seq<ObjectPropertyValue>) -> int
    decreases s.len(),
{
    if s.len() == 0 {
        -1
    } else if s.last() is Consumed {
        s.len() - 1
    } else {
        last_consumed(s.drop_last())
    }
}

/// Whether a write may land anywhere.
pub open spec fn has_writable(s: Seq<ObjectPropertyValue>) -> bool {
    exists|i: int| 0 <= i < s.len() && #[trigger] is_writable(s[i])
}

proof fn lemma_all_writable_removed(s: Seq<ObjectPropertyValue>)
    requires
        forall|i: int| 0 <= i < s.len() ==> is_writable_field(#[trigger] s[i]),
    ensures
        without_writable_fields(s) == Seq::<ObjectPropertyValue>::empty(),
    decreases s.len(),
{
    if s.len() > 0 {
        assert(is_writable_field(s[s.len() - 1]));
        lemma_all_writable_removed(s.drop_last());
    }
}

/// A determinate write that is not tracked exhaustively leaves, besides
/// the values that cannot be written over, only the written value: a read
/// afterwards gives those values and then exactly the written one, with
/// the same getters as before; where every value was a writable field, it
/// gives the written value alone and no getter.
pub proof fn law_read_after_write(pvs: Seq<ObjectPropertyValue>, value: Entity)
    ensures
        ({
            let after = without_writable_fields(pvs).push(ObjectPropertyValue::Field(value, false));
            &&& read_values(after) == read_values(without_writable_fields(pvs)) + seq![value@]
            &&& read_getters(after) == read_getters(without_writable_fields(pvs))
            &&& (forall|i: int| 0 <= i < pvs.len() ==> is_writable_field(#[trigger] pvs[i])) ==> read_values(after)
                == seq![value@] && read_getters(after) == Seq::<EntityView>::empty()
        }),
{
    let kept = without_writable_fields(pvs);
    let after = kept.push(ObjectPropertyValue::Field(value, false));
    assert(after.drop_last() =~= kept);
    assert(read_values(after) =~= read_values(kept) + seq![value@]);
    assert(read_getters(after) =~= read_getters(kept));
    if forall|i: int| 0 <= i < pvs.len() ==> is_writable_field(#[trigger] pvs[i]) {
        lemma_all_writable_removed(pvs);
        assert(read_values(kept) =~= Seq::<EntityView>::empty());
        assert(read_getters(kept) =~= Seq::<EntityView>::empty());
    }
}

/// Whether `after` is the consumed value `before`, with `written` joined to
/// its kept dependencies, or deferred (from `d1` to `d2`) once those were
/// consumed.
pub open spec fn lazy_extended(
    before: ObjectPropertyValue,
    after: ObjectPropertyValue,
    written: Seq<EntityView>,
    d1: Seq<EntityView>,
    d2: Seq<EntityView>,
) -> bool {
    &&& before matches ObjectPropertyValue::Consumed(v, l)
    &&& after matches ObjectPropertyValue::Consumed(v2, l2)
    &&& v2@ == before->Consumed_0@
    &&& match before->Consumed_1.deps {
        Some(d) => after->Consumed_1.deps matches Some(dd) && dep_views(dd@) == dep_views(d@) + written.map_values(
            |e: EntityView| entity_dep_parts(e),
        ) && d2 == d1,
        None => after->Consumed_1.deps is None && d2 == d1 + written,
    }
}

pub proof fn lemma_last_consumed_bounds(s: Seq<ObjectPropertyValue>)
    ensures
        -1 <= last_consumed(s) < s.len(),
        last_consumed(s) >= 0 ==> s[last_consumed(s)] is Consumed,
        last_consumed(s) < 0 ==> forall|i: int| 0 <= i < s.len() ==> !(#[trigger] s[i] is Consumed),
    decreases s.len(),
{
    if s.len() > 0 {
        lemma_last_consumed_bounds(s.drop_last());
        assert forall|i: int| 0 <= i < s.len() - 1 implies s.drop_last()[i] == #[trigger] s[i] by {}
    }
}

proof fn lemma_consumed_kept(s: Seq<ObjectPropertyValue>)
    ensures
        (last_consumed(s) >= 0) == (last_consumed(without_writable_fields(s)) >= 0),
    decreases s.len(),
{
    if s.len() > 0 {
        lemma_consumed_kept(s.drop_last());
        let w = without_writable_fields(s.drop_last());
        assert(w.push(s.last()).drop_last() =~= w);
    }
}

impl ObjectProperty {
    /// Writes `value`. Setters of accessors go to `setters`. Where the
    /// property holds writable values: a determinate write (or one under
    /// exhaustive tracking) replaces the writable fields; a determinate
    /// write makes the property exist; under exhaustive tracking the written
    /// values join the consumed value (or form one), otherwise the value
    /// becomes a new field. Returns whether a field was written and nothing
    /// was consumed.
    pub fn set(
        &mut self,
        is_exhaustive: bool,
        indeterminate: bool,
        value: Entity,
        setters: &mut Vec<PendingSetter>,
        deferred_deps: &mut Vec<Entity>,
    ) -> (r: bool)
        ensures
            ({
                let pvs = old(self).possible_values@;
                let written = seq![value@] + read_fields(pvs);
                let kept = if !indeterminate || is_exhaustive { without_writable_fields(pvs) } else { pvs };
                let k = last_consumed(kept);
                &&& setter_views(final(setters)@) == setter_views(old(setters)@) + setter_records(
                    read_setters(pvs),
                    pvs.len() > 1 || !old(self).definite,
                    old(self).non_existent.collected(),
                )
                &&& r == (has_writable(pvs) && last_consumed(pvs) < 0)
                &&& final(self).enumerable == old(self).enumerable
                &&& final(self).key == old(self).key
                &&& final(self).mangling == old(self).mangling
                &&& !has_writable(pvs) ==> *final(self) == *old(self) && final(deferred_deps)@
                    == old(deferred_deps)@
                &&& has_writable(pvs) && !indeterminate ==> final(self).definite
                    && final(self).non_existent.is_empty_spec()
                &&& has_writable(pvs) && indeterminate ==> final(self).definite == old(self).definite
                    && final(self).non_existent == old(self).non_existent
                &&& has_writable(pvs) && !is_exhaustive ==> final(self).possible_values@ == kept.push(
                    ObjectPropertyValue::Field(value, false),
                ) && final(deferred_deps)@ == old(deferred_deps)@
                &&& has_writable(pvs) && is_exhaustive && k < 0 ==> final(deferred_deps)@ == old(deferred_deps)@
                    && final(self).possible_values@.len() == kept.len() + 1
                    && final(self).possible_values@.drop_last() == kept
                    && (final(self).possible_values@.last() matches ObjectPropertyValue::Consumed(v, l)
                    && v@ == (EntityView { values: seq![Value::Unknown], dep: entities_dep(written) })
                    && (l.deps matches Some(d) && dep_views(d@) == written.map_values(|e: EntityView| entity_dep_parts(e))))
                &&& has_writable(pvs) && is_exhaustive && k >= 0 ==> final(self).possible_values@ == kept.update(
                    k,
                    final(self).possible_values@[k],
                ) && lazy_extended(
                    kept[k],
                    final(self).possible_values@[k],
                    written,
                    entity_views(old(deferred_deps)@),
                    entity_views(final(deferred_deps)@),
                )
            }),
    {
        let ghost pvs = self.possible_values@;
        let ghost orig = *self;
        let ghost collected = self.non_existent.collected();
        let setter_indeterminate = self.possible_values.len() > 1 || !self.definite;
        let mut writable = false;
        let mut was_consumed = false;
        let mut field_values: Vec<Entity> = Vec::new();
        field_values.push(value.clone());
        let mut i: usize = 0;
        proof {
            assert(read_setters(pvs.subrange(0, 0)) =~= Seq::<EntityView>::empty());
            assert(read_fields(pvs.subrange(0, 0)) =~= Seq::<EntityView>::empty());
            assert(setter_views(setters@) =~= setter_views(old(setters)@) + setter_records(Seq::<EntityView>::empty(), setter_indeterminate, collected));
            assert(entity_views(field_values@) =~= seq![value@] + Seq::<EntityView>::empty());
        }
        while i < self.possible_values.len()
            invariant
                i <= pvs.len(),
                self.possible_values@ == pvs,
                *self == orig,
                collected == orig.non_existent.collected(),
                setter_indeterminate == (pvs.len() > 1 || !orig.definite),
                setter_views(setters@) == setter_views(old(setters)@) + setter_records(
                    read_setters(pvs.subrange(0, i as int)),
                    setter_indeterminate,
                    collected,
                ),
                entity_views(field_values@) == seq![value@] + read_fields(pvs.subrange(0, i as int)),
                writable == has_writable(pvs.subrange(0, i as int)),
                was_consumed == (last_consumed(pvs.subrange(0, i as int)) >= 0),
            decreases pvs.len() - i,
        {
            let ghost sub = pvs.subrange(0, i + 1);
            let ghost before = setter_views(setters@);
            let ghost fbefore = entity_views(field_values@);
            proof {
                assert(sub.drop_last() =~= pvs.subrange(0, i as int));
                assert(sub.last() == pvs[i as int]);
                assert(has_writable(sub) == (has_writable(pvs.subrange(0, i as int)) || is_writable(pvs[i as int]))) by {
                    if has_writable(sub) {
                        let j = choose|j: int| 0 <= j < sub.len() && #[trigger] is_writable(sub[j]);
                        if j < i {
                            assert(pvs.subrange(0, i as int)[j] == sub[j]);
                        }
                    }
                    if has_writable(pvs.subrange(0, i as int)) {
                        let j = choose|j: int| 0 <= j < i && #[trigger] is_writable(pvs.subrange(0, i as int)[j]);
                        assert(sub[j] == pvs.subrange(0, i as int)[j]);
                    }
                    if is_writable(pvs[i as int]) {
                        assert(is_writable(sub[i as int]));
                    }
                }
            }
            match &self.possible_values[i] {
                ObjectPropertyValue::Consumed(_, _) => {
                    writable = true;
                    was_consumed = true;
                    proof {
                        assert(read_setters(sub) =~= read_setters(pvs.subrange(0, i as int)));
                        assert(read_fields(sub) =~= read_fields(pvs.subrange(0, i as int)));
                    }
                },
                ObjectPropertyValue::Field(v, readonly) => {
                    writable = writable || !*readonly;
                    let c = v.clone();
                    field_values.push(c);
                    proof {
                        assert(entity_views(field_values@) =~= fbefore.push(c@));
                        assert(entity_views(field_values@) =~= seq![value@] + read_fields(sub));
                        assert(read_setters(sub) =~= read_setters(pvs.subrange(0, i as int)));
                    }
                },
                ObjectPropertyValue::Property(_, Some(st)) => {
                    let st = st.clone();
                    let dep = self.non_existent.peek();
                    let ps = PendingSetter { indeterminate: setter_indeterminate, dep, setter: st };
                    setters.push(ps);
                    proof {
                        assert(setter_views(setters@) =~= before.push(ps@));
                        assert(setter_views(setters@) =~= setter_views(old(setters)@) + setter_records(
                            read_setters(sub), setter_indeterminate, collected));
                        assert(read_fields(sub) =~= read_fields(pvs.subrange(0, i as int)));
                    }
                },
                ObjectPropertyValue::Property(_, None) => {
                    proof {
                        assert(read_setters(sub) =~= read_setters(pvs.subrange(0, i as int)));
                        assert(read_fields(sub) =~= read_fields(pvs.subrange(0, i as int)));
                    }
                },
            }
            i = i + 1;
        }
        proof {
            assert(pvs.subrange(0, pvs.len() as int) =~= pvs);
        }
        if writable {
            if !indeterminate || is_exhaustive {
                self.drop_writable_fields();
            }
            if !indeterminate {
                self.definite = true;
                self.non_existent.force_clear();
            }
            if is_exhaustive {
                if was_consumed {
                    let ghost kept = self.possible_values@;
                    proof {
                        lemma_consumed_kept(pvs);
                        lemma_last_consumed_bounds(kept);
                    }
                    let k = self.last_consumed_index();
                    let mut pv = self.possible_values.remove(k);
                    let ghost pv0 = pv;
                    let ghost d1 = entity_views(deferred_deps@);
                    match &mut pv {
                        ObjectPropertyValue::Consumed(_, lazy) => {
                            Self::defer_all(lazy, field_values, deferred_deps);
                        },
                        _ => {
                            proof {
                                assert(false);
                            }
                        },
                    }
                    let ghost pv1 = pv;
                    self.possible_values.insert(k, pv);
                    proof {
                        assert(self.possible_values@ =~= kept.update(k as int, pv1));
                        assert(lazy_extended(pv0, pv1, seq![value@] + read_fields(pvs), d1, entity_views(deferred_deps@)));
                    }
                } else {
                    proof {
                        lemma_consumed_kept(pvs);
                    }
                    let c = ObjectPropertyValue::new_consumed(field_values);
                    self.possible_values.push(c);
                    proof {
                        assert(self.possible_values@.drop_last() =~= without_writable_fields(pvs));
                    }
                }
            } else {
                self.possible_values.push(ObjectPropertyValue::Field(value, false));
            }
        }
        writable && !was_consumed
    }

    /// Drops the writable fields, keeping the rest in order.
    fn drop_writable_fields(&mut self)
        ensures
            final(self).possible_values@ == without_writable_fields(old(self).possible_values@),
            final(self).definite == old(self).definite,
            final(self).enumerable == old(self).enumerable,
            final(self).key == old(self).key,
            final(self).mangling == old(self).mangling,
            final(self).non_existent == old(self).non_existent,
    {
        let ghost pvs = self.possible_values@;
        let total = self.possible_values.len();
        let mut rest: Vec<ObjectPropertyValue> = Vec::new();
        std::mem::swap(&mut rest, &mut self.possible_values);
        let mut n: usize = 0;
        proof {
            assert(without_writable_fields(pvs.subrange(0, 0)) =~= Seq::<ObjectPropertyValue>::empty());
            assert(rest@ =~= pvs.skip(0));
        }
        while rest.len() > 0
            invariant
                n <= pvs.len(),
                total == pvs.len(),
                rest@ == pvs.skip(n as int),
                self.possible_values@ == without_writable_fields(pvs.subrange(0, n as int)),
                self.definite == old(self).definite,
                self.enumerable == old(self).enumerable,
                self.key == old(self).key,
                self.mangling == old(self).mangling,
                self.non_existent == old(self).non_existent,
            decreases rest@.len(),
        {
            proof {
                assert(pvs.skip(n as int).len() > 0);
            }
            let pv = rest.remove(0);
            let ghost sub = pvs.subrange(0, n + 1);
            proof {
                assert(pv == pvs[n as int]);
                assert(sub.drop_last() =~= pvs.subrange(0, n as int));
                assert(sub.last() == pvs[n as int]);
                assert(rest@ =~= pvs.skip(n + 1));
            }
            let writable_field = matches!(&pv, ObjectPropertyValue::Field(_, false));
            if !writable_field {
                self.possible_values.push(pv);
            }
            n = n + 1;
        }
        proof {
            assert(pvs.subrange(0, pvs.len() as int) =~= pvs);
        }
    }

    /// The index of the last consumed way of holding the value.
    fn last_consumed_index(&self) -> (r: usize)
        requires
            last_consumed(self.possible_values@) >= 0,
        ensures
            r as int == last_consumed(self.possible_values@),
    {
        let ghost pvs = self.possible_values@;
        let mut i: usize = self.possible_values.len();
        proof {
            assert(pvs.subrange(0, pvs.len() as int) =~= pvs);
        }
        while i > 0
            invariant
                i <= pvs.len(),
                self.possible_values@ == pvs,
                last_consumed(pvs.subrange(0, i as int)) == last_consumed(pvs),
            decreases i,
        {
            proof {
                let sub = pvs.subrange(0, i as int);
                assert(sub.drop_last() =~= pvs.subrange(0, i - 1));
                assert(sub.last() == pvs[i - 1]);
            }
            if matches!(&self.possible_values[i - 1], ObjectPropertyValue::Consumed(_, _)) {
                return i - 1;
            }
            i = i - 1;
        }
        proof {
            assert(pvs.subrange(0, 0) =~= Seq::<ObjectPropertyValue>::empty());
        }
        0
    }

    /// Joins each written value to a consumed value's kept dependencies,
    /// in order.
    fn defer_all(lazy: &mut LazyDep, values: Vec<Entity>, deferred: &mut Vec<Entity>)
        ensures
            old(lazy).deps matches Some(d) ==> (final(lazy).deps matches Some(dd) && dep_views(dd@) == dep_views(d@)
                + entity_views(values@).map_values(|e: EntityView| entity_dep_parts(e)))
                && final(deferred)@ == old(deferred)@,
            old(lazy).deps is None ==> final(lazy).deps is None && entity_views(final(deferred)@) == entity_views(
                old(deferred)@,
            ) + entity_views(values@),
    {
        let ghost vs = entity_views(values@);
        let mut i: usize = 0;
        proof {
            assert(vs.subrange(0, 0).map_values(|e: EntityView| entity_dep_parts(e)) =~= Seq::<Seq<DepPart>>::empty());
            if lazy.deps is Some {
                let d = lazy.deps->0;
                assert(dep_views(d@) =~= dep_views(d@) + vs.subrange(0, 0).map_values(|e: EntityView| entity_dep_parts(e)));
            }
            assert(entity_views(deferred@) =~= entity_views(old(deferred)@) + vs.subrange(0, 0));
        }
        while i < values.len()
            invariant
                i <= values@.len(),
                vs == entity_views(values@),
                old(lazy).deps is Some ==> (lazy.deps matches Some(dd) && dep_views(dd@) == dep_views(old(lazy).deps->0@)
                    + vs.subrange(0, i as int).map_values(|e: EntityView| entity_dep_parts(e)))
                    && deferred@ == old(deferred)@,
                old(lazy).deps is None ==> lazy.deps is None && entity_views(deferred@) == entity_views(old(deferred)@)
                    + vs.subrange(0, i as int),
            decreases values@.len() - i,
        {
            let ghost dbefore = entity_views(deferred@);
            let v = values[i].clone();
            lazy.push_defer(v, deferred);
            proof {
                assert(vs.subrange(0, i + 1) =~= vs.subrange(0, i as int).push(vs[i as int]));
                assert(vs.subrange(0, i + 1).map_values(|e: EntityView| entity_dep_parts(e)) =~= vs.subrange(0, i as int).map_values(
                    |e: EntityView| entity_dep_parts(e)).push(entity_dep_parts(vs[i as int])));
                if old(lazy).deps is None {
                    assert(entity_views(deferred@) =~= dbefore.push(v@));
                }
            }
            i = i + 1;
        }
        proof {
            assert(vs.subrange(0, values@.len() as int) =~= vs);
        }
    }
}

} // verus!
