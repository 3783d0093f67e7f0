use vstd::prelude::*;
use vstd::string::*;

use crate::entity::{Dep, DepPart, Entity, EntityView};

verus! {

/// The key of an object property.
#[derive(Debug)]
pub enum PropertyKeyValue {
    String(String),
    Symbol(u32),
}

/// The mathematical content of a property key.
pub enum PropertyKeyView {
    String(Seq<char>),
    Symbol(u32),
}

impl View for PropertyKeyValue {
    type V = PropertyKeyView;

    open spec fn view(&self) -> PropertyKeyView {
        match self {
            PropertyKeyValue::String(s) => PropertyKeyView::String(s@),
            PropertyKeyValue::Symbol(i) => PropertyKeyView::Symbol(*i),
        }
    }
}

impl Clone for PropertyKeyValue {
    fn clone(&self) -> (r: PropertyKeyValue)
        ensures
            r@ == self@,
    {
        match self {
            PropertyKeyValue::String(s) => PropertyKeyValue::String(s.clone()),
            PropertyKeyValue::Symbol(i) => PropertyKeyValue::Symbol(*i),
        }
    }
}

impl PropertyKeyValue {
    /// Whether two keys are the same key.
    pub fn same_key(&self, other: &PropertyKeyValue) -> (r: bool)
        ensures
            r == (self@ == other@),
    {
        match (self, other) {
            (PropertyKeyValue::String(a), PropertyKeyValue::String(b)) => *a == *b,
            (PropertyKeyValue::Symbol(a), PropertyKeyValue::Symbol(b)) => *a == *b,
            _ => false,
        }
    }
}

/// What the analyzer tracks reads and writes of.
#[derive(Debug)]
pub enum ReadWriteTarget {
    /// Every property of an object.
    ObjectAll(u64),
    /// One property of an object.
    ObjectField(u64, PropertyKeyValue),
    /// A variable.
    Variable(u64),
}

/// The mathematical content of a read/write target.
pub enum ReadWriteTargetView {
    ObjectAll(u64),
    ObjectField(u64, PropertyKeyView),
    Variable(u64),
}

impl View for ReadWriteTarget {
    type V = ReadWriteTargetView;

    open spec fn view(&self) -> ReadWriteTargetView {
        match self {
            ReadWriteTarget::ObjectAll(i) => ReadWriteTargetView::ObjectAll(*i),
            ReadWriteTarget::ObjectField(i, k) => ReadWriteTargetView::ObjectField(*i, k@),
            ReadWriteTarget::Variable(i) => ReadWriteTargetView::Variable(*i),
        }
    }
}

impl Clone for ReadWriteTarget {
    fn clone(&self) -> (r: ReadWriteTarget)
        ensures
            r@ == self@,
    {
        match self {
            ReadWriteTarget::ObjectAll(i) => ReadWriteTarget::ObjectAll(*i),
            ReadWriteTarget::ObjectField(i, k) => ReadWriteTarget::ObjectField(*i, k.clone()),
            ReadWriteTarget::Variable(i) => ReadWriteTarget::Variable(*i),
        }
    }
}

impl ReadWriteTarget {
    /// Whether two targets are the same.
    pub fn same_target(&self, other: &ReadWriteTarget) -> (r: bool)
        ensures
            r == (self@ == other@),
    {
        match (self, other) {
            (ReadWriteTarget::ObjectAll(a), ReadWriteTarget::ObjectAll(b)) => *a == *b,
            (ReadWriteTarget::ObjectField(a, k), ReadWriteTarget::ObjectField(b, l)) => *a == *b
                && k.same_key(l),
            (ReadWriteTarget::Variable(a), ReadWriteTarget::Variable(b)) => *a == *b,
            _ => false,
        }
    }
}

/// One enumerated property: (definitely present, key, value).
pub struct EnumeratedProperty {
    pub definite: bool,
    pub key: Entity,
    pub value: Entity,
}

/// The properties a value enumerates (`for...in`, spread): those with a
/// known key, a value standing for all others if there may be any, and the
/// dependency of the enumeration.
pub struct EnumeratedProperties {
    pub known: Vec<(PropertyKeyValue, EnumeratedProperty)>,
    pub unknown: Option<Entity>,
    pub dep: Dep,
}

/// The elements a value iterates (`for...of`, spread): the known leading
/// elements, a value standing for all further elements if there may be
/// any, and the dependency of the iteration.
pub struct IteratedElements {
    pub elements: Vec<Entity>,
    pub rest: Option<Entity>,
    pub dep: Dep,
}

/// Whether two strings hold the same text.
pub fn str_eq(a: &str, b: &str) -> (r: bool)
    ensures
        r == (a@ == b@),
{
    let n = a.unicode_len();
    if n != b.unicode_len() {
        return false;
    }
    let mut i: usize = 0;
    while i < n
        invariant
            n == a@.len(),
            n == b@.len(),
            i <= n,
            forall|j: int| 0 <= j < i ==> a@[j] == b@[j],
        decreases n - i,
    {
        if a.get_char(i) != b.get_char(i) {
            return false;
        }
        i = i + 1;
    }
    proof {
        assert(a@ =~= b@);
    }
    true
}

/// The views of a sequence of entities.
pub open spec fn entity_views(s: Seq<Entity>) -> Seq<EntityView> {
    s.map_values(|e: Entity| e@)
}

/// The view of an optional entity.
pub open spec fn opt_entity_view(e: Option<Entity>) -> Option<EntityView> {
    match e {
        Some(x) => Some(x@),
        None => None,
    }
}

/// Pushing an entity appends its view.
pub proof fn lemma_views_push(s: Seq<Entity>, x: Entity)
    ensures
        entity_views(s.push(x)) == entity_views(s).push(x@),
{
    assert(entity_views(s.push(x)) =~= entity_views(s).push(x@));
}

/// Copies a vector of entities.
pub fn clone_entities(v: &Vec<Entity>) -> (r: Vec<Entity>)
    ensures
        entity_views(r@) == entity_views(v@),
{
    let mut r: Vec<Entity> = Vec::new();
    let mut i: usize = 0;
    while i < v.len()
        invariant
            i <= v.len(),
            r@.len() == i,
            forall|j: int| 0 <= j < i ==> #[trigger] r@[j]@ == v@[j]@,
        decreases v.len() - i,
    {
        r.push(v[i].clone());
        i = i + 1;
    }
    proof {
        assert(entity_views(r@) =~= entity_views(v@));
    }
    r
}

/// Copies an optional entity.
pub fn clone_opt_entity(e: &Option<Entity>) -> (r: Option<Entity>)
    ensures
        opt_entity_view(r) == opt_entity_view(*e),
{
    match e {
        Some(x) => Some(x.clone()),
        None => None,
    }
}

/// The dependency on all of `a`, `b` and `c`, in that order.
pub fn dep3(a: &Dep, b: &Dep, c: &Dep) -> (r: Dep)
    ensures
        r@ == a@ + b@ + c@,
{
    let ab = a.join(b);
    ab.join(c)
}

/// The union of a sequence of entities' values and dependencies.
pub open spec fn union_values(s: Seq<EntityView>) -> Seq<crate::entity::Value>
    decreases s.len(),
{
    if s.len() == 0 {
        Seq::empty()
    } else {
        union_values(s.drop_last()) + s.last().values
    }
}

/// The union of a sequence of entities' dependencies.
pub open spec fn union_deps(s: Seq<EntityView>) -> Seq<DepPart>
    decreases s.len(),
{
    if s.len() == 0 {
        Seq::empty()
    } else {
        union_deps(s.drop_last()) + s.last().dep
    }
}

/// The union of all the given entities.
pub fn union_all(es: &Vec<Entity>) -> (r: Entity)
    ensures
        r.values@ == union_values(entity_views(es@)),
        r.dep@ == union_deps(entity_views(es@)),
{
    let mut r = Entity::never();
    let mut i: usize = 0;
    while i < es.len()
        invariant
            i <= es.len(),
            r.values@ == union_values(entity_views(es@.subrange(0, i as int))),
            r.dep@ == union_deps(entity_views(es@.subrange(0, i as int))),
        decreases es.len() - i,
    {
        r = r.union(&es[i]);
        i = i + 1;
        proof {
            let s = entity_views(es@.subrange(0, i as int));
            assert(s.drop_last() =~= entity_views(es@.subrange(0, i - 1)));
        }
    }
    proof {
        assert(es@.subrange(0, es@.len() as int) =~= es@);
    }
    r
}

} // verus!
