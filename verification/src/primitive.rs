use vstd::prelude::*;

use crate::analyzer::{Analyzer, AnalyzerView, EffectView};
use crate::builtins::{literal_keys_are_keys, proto_results, BuiltinPrototype};
use crate::entity::{all_literals, entity_dep_parts, Dep, DepPart, Entity, EntityView, Value};
use crate::value::{union_deps, union_values, EnumeratedProperties, IteratedElements};
use crate::typeof_result::{
    TypeofResult, TYPEOF_BIGINT, TYPEOF_BOOLEAN, TYPEOF_NUMBER, TYPEOF_STRING, TYPEOF_SYMBOL,
    TYPEOF_UNKNOWN,
};

verus! {

/// A primitive value of which only the kind is known.
#[derive(Debug, Clone, Copy, PartialEq, Eq, Structural)]
pub enum PrimitiveValue {
    /// Any primitive.
    Mixed,
    String,
    Number,
    BigInt,
    Boolean,
    Symbol,
}

/// The kinds of primitive under the name the entity layer gives them.
pub type PrimitiveEntity = PrimitiveValue;

/// The builtin prototypes that primitive values read their properties from.
#[derive(Debug, Clone, Copy, PartialEq, Eq, Structural)]
pub enum BuiltinPrototypeKind {
    Array,
    BigInt,
    Boolean,
    Function,
    Null,
    Number,
    Object,
    Promise,
    RegExp,
    String,
    Symbol,
}

/// The typeof bits of a primitive kind.
pub open spec fn primitive_typeof(p: PrimitiveValue) -> u8 {
    match p {
        PrimitiveValue::String => TYPEOF_STRING,
        PrimitiveValue::Number => TYPEOF_NUMBER,
        PrimitiveValue::BigInt => TYPEOF_BIGINT,
        PrimitiveValue::Boolean => TYPEOF_BOOLEAN,
        PrimitiveValue::Symbol => TYPEOF_SYMBOL,
        PrimitiveValue::Mixed => TYPEOF_UNKNOWN,
    }
}

/// The prototype a primitive kind reads properties from; `Mixed` has none.
pub open spec fn primitive_prototype(p: PrimitiveValue) -> BuiltinPrototypeKind
    recommends
        p != PrimitiveValue::Mixed,
{
    match p {
        PrimitiveValue::String => BuiltinPrototypeKind::String,
        PrimitiveValue::Number => BuiltinPrototypeKind::Number,
        PrimitiveValue::BigInt => BuiltinPrototypeKind::BigInt,
        PrimitiveValue::Boolean => BuiltinPrototypeKind::Boolean,
        _ => BuiltinPrototypeKind::Symbol,
    }
}

impl PrimitiveValue {
    /// The `typeof` results a value of this kind may have.
    pub fn test_typeof(&self) -> (r: TypeofResult)
        ensures
            r.bits == primitive_typeof(*self),
    {
        match self {
            PrimitiveValue::String => TypeofResult::from_bits(TYPEOF_STRING),
            PrimitiveValue::Number => TypeofResult::from_bits(TYPEOF_NUMBER),
            PrimitiveValue::BigInt => TypeofResult::from_bits(TYPEOF_BIGINT),
            PrimitiveValue::Boolean => TypeofResult::from_bits(TYPEOF_BOOLEAN),
            PrimitiveValue::Symbol => TypeofResult::from_bits(TYPEOF_SYMBOL),
            PrimitiveValue::Mixed => TypeofResult::from_bits(TYPEOF_UNKNOWN),
        }
    }

    /// Truthiness: known only for symbols, which are always truthy.
    pub fn test_truthy(&self) -> (r: Option<bool>)
        ensures
            r == (if *self == PrimitiveValue::Symbol { Some(true) } else { None::<bool> }),
    {
        match self {
            PrimitiveValue::Symbol => Some(true),
            _ => None,
        }
    }

    /// A primitive is never `null` or `undefined`.
    pub fn test_nullish(&self) -> (r: Option<bool>)
        ensures
            r == Some(false),
    {
        Some(false)
    }

    /// Whether the own keys of such a value are known to be none: all but
    /// strings have no own keys.
    pub fn has_no_own_keys(&self) -> (r: bool)
        ensures
            r == (*self != PrimitiveValue::String),
    {
        match self {
            PrimitiveValue::String => false,
            _ => true,
        }
    }

    /// Whether such a value renders as an unknown string when used as a JSX
    /// child (otherwise it renders as the empty string).
    pub fn jsx_child_is_unknown_string(&self) -> (r: bool)
        ensures
            r == (*self == PrimitiveValue::Mixed || *self == PrimitiveValue::String || *self
                == PrimitiveValue::Number),
    {
        match self {
            PrimitiveValue::Mixed | PrimitiveValue::String | PrimitiveValue::Number => true,
            _ => false,
        }
    }

    /// The builtin prototype such a value reads its properties from.
    pub fn get_prototype(&self) -> (r: BuiltinPrototypeKind)
        requires
            *self != PrimitiveValue::Mixed,
        ensures
            r == primitive_prototype(*self),
    {
        match self {
            PrimitiveValue::String => BuiltinPrototypeKind::String,
            PrimitiveValue::Number => BuiltinPrototypeKind::Number,
            PrimitiveValue::BigInt => BuiltinPrototypeKind::BigInt,
            PrimitiveValue::Boolean => BuiltinPrototypeKind::Boolean,
            _ => BuiltinPrototypeKind::Symbol,
        }
    }
}

/// The entity holding a primitive of this kind.
pub open spec fn primitive_view(p: PrimitiveValue) -> EntityView {
    EntityView { values: seq![Value::Primitive(p)], dep: Seq::empty() }
}

/// What a failed operation on a value leaves: the error is reported, and
/// then, when exceptions are preserved, the fallback happens, otherwise the
/// value never completes.
pub open spec fn error_then(a0: AnalyzerView, message: Seq<char>) -> AnalyzerView {
    a0.log(EffectView::BuiltinError(message))
}

impl PrimitiveValue {
    /// The entity holding a primitive of this kind.
    pub fn self_entity(&self) -> (r: Entity)
        ensures
            r@ == primitive_view(*self),
    {
        Entity::primitive(*self)
    }

    /// Reads `key`: a string or a mixed primitive reads as any value;
    /// another kind reads from its prototype `proto` (see
    /// `BuiltinPrototype::get_property`).
    pub fn get_property(&self, proto: &BuiltinPrototype, dep: &Dep, key: &Entity) -> (r: Entity)
        requires
            literal_keys_are_keys(key@),
        ensures
            ({
                let d = entity_dep_parts(primitive_view(*self)) + dep@ + entity_dep_parts(key@);
                let pd = dep@ + entity_dep_parts(primitive_view(*self)) + entity_dep_parts(key@);
                if *self == PrimitiveValue::Mixed || *self == PrimitiveValue::String {
                    r@ == EntityView { values: seq![Value::Unknown], dep: d }
                } else if all_literals(key@.values) {
                    let res = proto_results(*proto, key@.values.map_values(|v: Value| v->Literal_0));
                    r@ == EntityView { values: union_values(res), dep: union_deps(res) + pd }
                } else {
                    r@ == EntityView { values: seq![Value::Unknown], dep: pd }
                }
            }),
    {
        match self {
            PrimitiveValue::Mixed | PrimitiveValue::String => {
                Entity::computed_unknown(crate::value::dep3(&self.self_entity().as_dep(), dep, &key.as_dep()))
            },
            _ => proto.get_property(&self.self_entity(), key, dep),
        }
    }

    /// Enumerates the properties: a string has properties with unknown keys
    /// and string values; no other kind has any.
    pub fn enumerate_properties(&self, dep: &Dep) -> (r: EnumeratedProperties)
        ensures
            r.known@.len() == 0,
            r.dep@ == entity_dep_parts(primitive_view(*self)) + dep@,
            *self == PrimitiveValue::String ==> (r.unknown matches Some(u) && u@ == primitive_view(
                PrimitiveValue::String,
            )),
            *self != PrimitiveValue::String ==> r.unknown is None,
    {
        let d = self.self_entity().as_dep().join(dep);
        let unknown = match self {
            PrimitiveValue::String => Some(Entity::primitive(PrimitiveValue::String)),
            _ => None,
        };
        EnumeratedProperties { known: Vec::new(), unknown, dep: d }
    }

    /// Calling a primitive throws; with exceptions preserved the call goes
    /// on as on a value whose contents are unknown, otherwise it never
    /// completes.
    pub fn call(&self, analyzer: &mut Analyzer, dep: &Dep, this: &Entity, args: &Entity) -> (r: Entity)
        ensures
            ({
                let a1 = error_then(old(analyzer)@, "Cannot call non-object"@);
                if old(analyzer)@.config.preserve_exceptions {
                    let d = entity_dep_parts(primitive_view(*self)) + dep@ + this.as_dep_spec() + args.as_dep_spec();
                    if a1.inside_pure {
                        &&& final(analyzer)@ == a1.log(EffectView::UnknownMutate(this@, d)).log(
                            EffectView::UnknownMutate(args@, d),
                        )
                        &&& r@ == EntityView { values: seq![Value::Unknown], dep: d }
                    } else {
                        &&& final(analyzer)@ == a1.log(EffectView::Consume(d)).log(EffectView::ReferGlobal)
                        &&& r@ == EntityView { values: seq![Value::Unknown], dep: Seq::empty() }
                    }
                } else {
                    final(analyzer)@ == a1 && r.values@.len() == 0 && r.dep@.len() == 0
                }
            }),
    {
        proof {
            reveal_strlit("Cannot call non-object");
        }
        analyzer.throw_builtin_error(String::from_str("Cannot call non-object"));
        if analyzer.config.preserve_exceptions {
            let r = crate::consumed_object::call(&self.self_entity(), analyzer, dep, this, args);
            proof {
                assert(r.dep@ == r@.dep);
            }
            r
        } else {
            Entity::never()
        }
    }

    /// Constructing with a primitive throws; with exceptions preserved it
    /// goes on as on a value whose contents are unknown, otherwise it never
    /// completes.
    pub fn construct(&self, analyzer: &mut Analyzer, dep: &Dep, args: &Entity) -> (r: Entity)
        ensures
            ({
                let a1 = error_then(old(analyzer)@, "Cannot construct non-object"@);
                if old(analyzer)@.config.preserve_exceptions {
                    let d = entity_dep_parts(primitive_view(*self)) + dep@ + args.as_dep_spec();
                    if a1.inside_pure {
                        &&& final(analyzer)@ == a1.log(EffectView::UnknownMutate(args@, d))
                        &&& r@ == EntityView { values: seq![Value::Unknown], dep: dep@ }
                    } else {
                        &&& final(analyzer)@ == a1.log(EffectView::Consume(d)).log(EffectView::ReferGlobal)
                        &&& r@ == EntityView { values: seq![Value::Unknown], dep: Seq::empty() }
                    }
                } else {
                    final(analyzer)@ == a1 && r.values@.len() == 0 && r.dep@.len() == 0
                }
            }),
    {
        proof {
            reveal_strlit("Cannot construct non-object");
        }
        analyzer.throw_builtin_error(String::from_str("Cannot construct non-object"));
        if analyzer.config.preserve_exceptions {
            crate::consumed_object::construct(&self.self_entity(), analyzer, dep, args)
        } else {
            Entity::never()
        }
    }

    /// Iterates: a string gives any number of unknown elements; iterating
    /// another kind throws, and then goes on as on a value whose contents
    /// are unknown when exceptions are preserved, or gives nothing.
    pub fn iterate(&self, analyzer: &mut Analyzer, dep: Dep) -> (r: IteratedElements)
        ensures
            r.elements@.len() == 0,
            *self == PrimitiveValue::String ==> final(analyzer)@ == old(analyzer)@ && (r.rest matches Some(u)
                && u@ == (EntityView { values: seq![Value::Unknown], dep: Seq::empty() })) && r.dep@
                == entity_dep_parts(primitive_view(*self)) + dep@,
            *self != PrimitiveValue::String ==> ({
                let a1 = error_then(old(analyzer)@, "Cannot iterate non-object"@);
                if old(analyzer)@.config.preserve_exceptions {
                    &&& r.rest matches Some(u) && u@ == (EntityView { values: seq![Value::Unknown], dep: Seq::empty() })
                    &&& a1.config.iterate_side_effects ==> final(analyzer)@ == a1.log(EffectView::Consume(dep@)).log(
                        EffectView::ReferGlobal,
                    ) && r.dep@.len() == 0
                    &&& !a1.config.iterate_side_effects ==> final(analyzer)@ == a1 && r.dep@ == dep@
                } else {
                    final(analyzer)@ == a1 && r.rest is None && r.dep@.len() == 0
                }
            }),
    {
        if let PrimitiveValue::String = self {
            let d = self.self_entity().as_dep().join(&dep);
            return IteratedElements { elements: Vec::new(), rest: Some(Entity::unknown()), dep: d };
        }
        proof {
            reveal_strlit("Cannot iterate non-object");
        }
        analyzer.throw_builtin_error(String::from_str("Cannot iterate non-object"));
        if analyzer.config.preserve_exceptions {
            crate::consumed_object::iterate(analyzer, dep)
        } else {
            crate::never::NeverEntity.iterate()
        }
    }

    /// Rendering as a JSX element gives any value, depending on the value
    /// and the props.
    pub fn jsx(&self, props: &Entity) -> (r: Entity)
        ensures
            r@ == (EntityView {
                values: seq![Value::Unknown],
                dep: entity_dep_parts(primitive_view(*self)) + props.as_dep_spec(),
            }),
    {
        crate::consumed_object::jsx(&self.self_entity(), props)
    }

    /// Awaiting gives the value itself, depending on the await.
    pub fn await_value(&self, dep: Dep) -> (r: Entity)
        ensures
            r@ == (EntityView { values: seq![Value::Primitive(*self)], dep: dep@ }),
    {
        self.self_entity().computed(&dep)
    }

    /// The result of `typeof`: the kind's name, or any string for a mixed
    /// primitive.
    pub fn get_typeof(&self) -> (r: Entity)
        ensures
            *self == PrimitiveValue::Mixed ==> r@ == primitive_view(PrimitiveValue::String),
            *self != PrimitiveValue::Mixed ==> r.dep@.len() == 0 && crate::typeof_result::are_plain_strings(
                r.values@,
                crate::typeof_result::typeof_names(primitive_typeof(*self)),
            ),
    {
        proof {
            reveal_with_fuel(crate::typeof_result::popcount, 9);
        }
        let t = self.test_typeof();
        t.to_entity()
    }

    /// Conversion to a boolean: `true` for a symbol, any boolean otherwise.
    pub fn get_to_boolean(&self) -> (r: Entity)
        ensures
            *self == PrimitiveValue::Symbol ==> r@ == (EntityView {
                values: seq![Value::Literal(crate::literal::LiteralValue::Boolean(true))],
                dep: Seq::empty(),
            }),
            *self != PrimitiveValue::Symbol ==> r@ == primitive_view(PrimitiveValue::Boolean),
    {
        match self.test_truthy() {
            Some(b) => Entity::boolean(b),
            None => Entity::primitive(PrimitiveValue::Boolean),
        }
    }

    /// Conversion to a JSX child: any string for a value that renders as
    /// text, the empty string otherwise.
    pub fn get_to_jsx_child(&self) -> (r: Entity)
        ensures
            self.jsx_renders_text() ==> r@ == primitive_view(PrimitiveValue::String),
            !self.jsx_renders_text() ==> r.dep@.len() == 0 && r.values@.len() == 1 && (r.values@[0] matches Value::Literal(
                crate::literal::LiteralValue::String(s, None),
            ) && s@.len() == 0),
    {
        if self.jsx_child_is_unknown_string() {
            Entity::primitive(PrimitiveValue::String)
        } else {
            Entity::string(String::new())
        }
    }

    /// Whether such a value renders as text when used as a JSX child.
    pub open spec fn jsx_renders_text(&self) -> bool {
        *self == PrimitiveValue::Mixed || *self == PrimitiveValue::String || *self == PrimitiveValue::Number
    }

    /// The own keys: unknown for a string, none otherwise.
    pub fn get_own_keys(&self) -> (r: Option<Vec<(bool, Entity)>>)
        ensures
            *self == PrimitiveValue::String ==> r is None,
            *self != PrimitiveValue::String ==> (r matches Some(v) && v@.len() == 0),
    {
        match self {
            PrimitiveValue::String => None,
            _ => Some(Vec::new()),
        }
    }
}

} // verus!
