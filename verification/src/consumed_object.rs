use vstd::prelude::*;

use crate::analyzer::{Analyzer, AnalyzerView, EffectView};
use crate::entity::{entity_dep_parts, Dep, DepPart, Entity, EntityView, Value};
use crate::primitive::PrimitiveValue;
use crate::value::{dep3, EnumeratedProperties, IteratedElements};

verus! {

// The behaviour of values whose contents are no longer tracked: every use
// is passed on to the analyzer as a use of the global state.

/// Mutating such a value refers to the global state and consumes the reason.
pub fn unknown_mutate(analyzer: &mut Analyzer, dep: Dep)
    ensures
        final(analyzer)@ == old(analyzer)@.log(EffectView::ReferGlobal).log(
            EffectView::Consume(dep@),
        ),
{
    analyzer.refer_to_global();
    analyzer.consume(dep);
}

/// What reading a property of such a value does: when a pure call is
/// analyzed, the value is mutated in an unknown way and the result depends
/// on the read; when reads have side effects, the read is consumed and the
/// global state referred to; otherwise the result depends on the read.
pub open spec fn get_property_post(
    a0: AnalyzerView,
    a1: AnalyzerView,
    target: EntityView,
    dep: Seq<DepPart>,
    key: EntityView,
    r: EntityView,
) -> bool {
    let d = entity_dep_parts(target) + dep + entity_dep_parts(key);
    if a0.inside_pure {
        &&& a1 == a0.log(EffectView::UnknownMutate(target, d))
        &&& r == (EntityView { values: seq![Value::Unknown], dep: d })
    } else if a0.config.unknown_property_read_side_effects {
        &&& a1 == a0.log(EffectView::Consume(d)).log(EffectView::ReferGlobal)
        &&& r == (EntityView { values: seq![Value::Unknown], dep: Seq::empty() })
    } else {
        &&& a1 == a0
        &&& r == (EntityView { values: seq![Value::Unknown], dep: d })
    }
}

/// Reading a property of such a value.
pub fn get_property(target: &Entity, analyzer: &mut Analyzer, dep: &Dep, key: &Entity) -> (r: Entity)
    ensures
        get_property_post(old(analyzer)@, final(analyzer)@, target@, dep@, key@, r@),
{
    let d = dep3(&target.as_dep(), dep, &key.as_dep());
    if analyzer.inside_pure {
        analyzer.unknown_mutate(target.clone(), d.clone());
        Entity::computed_unknown(d)
    } else if analyzer.config.unknown_property_read_side_effects {
        analyzer.consume(d);
        analyzer.refer_to_global();
        Entity::unknown()
    } else {
        Entity::computed_unknown(d)
    }
}

/// Writing a property of such a value.
pub fn set_property(analyzer: &mut Analyzer, dep: &Dep, key: &Entity, value: &Entity)
    ensures
        final(analyzer)@ == old(analyzer)@.log(EffectView::ReferGlobal).log(
            EffectView::Consume(dep@ + key.as_dep_spec() + value.as_dep_spec()),
        ),
{
    analyzer.refer_to_global();
    analyzer.consume(dep3(dep, &key.as_dep(), &value.as_dep()));
}

/// Enumerating the properties of such a value: nothing is known.
pub fn enumerate_properties(target: &Entity, analyzer: &mut Analyzer, dep: &Dep) -> (r: EnumeratedProperties)
    ensures
        r.known@.len() == 0,
        r.unknown matches Some(u) && u.values@ == seq![Value::Unknown] && u.dep@.len() == 0,
        old(analyzer)@.config.unknown_property_read_side_effects ==> final(analyzer)@ == old(
            analyzer,
        )@.log(EffectView::Consume(dep@)).log(EffectView::ReferGlobal) && r.dep@.len() == 0,
        !old(analyzer)@.config.unknown_property_read_side_effects ==> final(analyzer)@ == old(
            analyzer,
        )@ && r.dep@ == target.as_dep_spec() + dep@,
{
    let d = if analyzer.config.unknown_property_read_side_effects {
        analyzer.consume(dep.clone());
        analyzer.refer_to_global();
        Dep::none()
    } else {
        target.as_dep().join(dep)
    };
    EnumeratedProperties { known: Vec::new(), unknown: Some(Entity::unknown()), dep: d }
}

/// Deleting a property of such a value.
pub fn delete_property(analyzer: &mut Analyzer, dep: &Dep, key: &Entity)
    ensures
        final(analyzer)@ == old(analyzer)@.log(EffectView::ReferGlobal).log(
            EffectView::Consume(dep@ + key.as_dep_spec()),
        ),
{
    analyzer.refer_to_global();
    analyzer.consume(dep.join(&key.as_dep()));
}

/// Calling such a value.
pub fn call(target: &Entity, analyzer: &mut Analyzer, dep: &Dep, this: &Entity, args: &Entity) -> (r: Entity)
    ensures
        ({
            let d = target.as_dep_spec() + dep@ + this.as_dep_spec() + args.as_dep_spec();
            if old(analyzer)@.inside_pure {
                &&& final(analyzer)@ == old(analyzer)@.log(EffectView::UnknownMutate(this@, d)).log(
                    EffectView::UnknownMutate(args@, d),
                )
                &&& r.values@ == seq![Value::Unknown]
                &&& r.dep@ == d
            } else {
                &&& final(analyzer)@ == old(analyzer)@.log(EffectView::Consume(d)).log(
                    EffectView::ReferGlobal,
                )
                &&& r.values@ == seq![Value::Unknown]
                &&& r.dep@.len() == 0
            }
        }),
{
    let d = dep3(&target.as_dep(), dep, &this.as_dep()).join(&args.as_dep());
    if analyzer.inside_pure {
        analyzer.unknown_mutate(this.clone(), d.clone());
        analyzer.unknown_mutate(args.clone(), d.clone());
        Entity::computed_unknown(d)
    } else {
        analyzer.consume(d);
        analyzer.refer_to_global();
        Entity::unknown()
    }
}

/// Constructing with such a value.
pub fn construct(target: &Entity, analyzer: &mut Analyzer, dep: &Dep, args: &Entity) -> (r: Entity)
    ensures
        ({
            let d = target.as_dep_spec() + dep@ + args.as_dep_spec();
            if old(analyzer)@.inside_pure {
                &&& final(analyzer)@ == old(analyzer)@.log(EffectView::UnknownMutate(args@, d))
                &&& r.values@ == seq![Value::Unknown]
                &&& r.dep@ == dep@
            } else {
                &&& final(analyzer)@ == old(analyzer)@.log(EffectView::Consume(d)).log(
                    EffectView::ReferGlobal,
                )
                &&& r.values@ == seq![Value::Unknown]
                &&& r.dep@.len() == 0
            }
        }),
{
    let d = dep3(&target.as_dep(), dep, &args.as_dep());
    if analyzer.inside_pure {
        analyzer.unknown_mutate(args.clone(), d);
        Entity::computed_unknown(dep.clone())
    } else {
        analyzer.consume(d);
        analyzer.refer_to_global();
        Entity::unknown()
    }
}

/// Rendering such a value as a JSX element: an unknown value depending on
/// the target and the props, with nothing consumed.
pub fn jsx(target: &Entity, props: &Entity) -> (r: Entity)
    ensures
        r.values@ == seq![Value::Unknown],
        r.dep@ == target.as_dep_spec() + props.as_dep_spec(),
{
    Entity::computed_unknown(target.as_dep().join(&props.as_dep()))
}

/// Awaiting such a value.
pub fn await_value(analyzer: &mut Analyzer, dep: Dep) -> (r: Entity)
    ensures
        final(analyzer)@ == old(analyzer)@.log(EffectView::Consume(dep@)).log(
            EffectView::ReferGlobal,
        ),
        r.values@ == seq![Value::Unknown],
        r.dep@.len() == 0,
{
    analyzer.consume(dep);
    analyzer.refer_to_global();
    Entity::unknown()
}

/// Iterating such a value: any elements.
pub fn iterate(analyzer: &mut Analyzer, dep: Dep) -> (r: IteratedElements)
    ensures
        r.elements@.len() == 0,
        r.rest matches Some(u) && u.values@ == seq![Value::Unknown] && u.dep@.len() == 0,
        old(analyzer)@.config.iterate_side_effects ==> final(analyzer)@ == old(analyzer)@.log(
            EffectView::Consume(dep@),
        ).log(EffectView::ReferGlobal) && r.dep@.len() == 0,
        !old(analyzer)@.config.iterate_side_effects ==> final(analyzer)@ == old(analyzer)@
            && r.dep@ == dep@,
{
    if analyzer.config.iterate_side_effects {
        analyzer.consume(dep);
        analyzer.refer_to_global();
        IteratedElements { elements: Vec::new(), rest: Some(Entity::unknown()), dep: Dep::none() }
    } else {
        IteratedElements { elements: Vec::new(), rest: Some(Entity::unknown()), dep }
    }
}

/// Converting such a value to a string: any string.
pub fn get_to_string() -> (r: Entity)
    ensures
        r.values@ == seq![Value::Primitive(PrimitiveValue::String)],
        r.dep@.len() == 0,
{
    Entity::primitive(PrimitiveValue::String)
}

/// Converting such a value to a number: possibly a number or a bigint.
pub fn get_to_numeric() -> (r: Entity)
    ensures
        r.values@ == seq![Value::Unknown],
        r.dep@.len() == 0,
{
    Entity::unknown()
}

} // verus!
