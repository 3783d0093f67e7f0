use jsshaker::analyzer::{Analyzer, Effect, TreeShakeConfig, TreeShakeJsxPreset};
use jsshaker::builtins::BuiltinPrototype;
use jsshaker::entity::{Dep, DepPart, Entity, Value};
use jsshaker::literal::{JsNumber, LiteralValue, ONE_BITS, POSITIVE_ZERO_BITS};
use jsshaker::primitive::{BuiltinPrototypeKind, PrimitiveValue};
use jsshaker::value::PropertyKeyValue;

fn config(preserve_exceptions: bool) -> TreeShakeConfig {
    TreeShakeConfig {
        enabled: true,
        jsx: TreeShakeJsxPreset::Disabled,
        preserve_exceptions,
        unknown_property_read_side_effects: false,
        iterate_side_effects: false,
        max_simple_string_length: 4,
        min_simple_number_value: -999,
        max_simple_number_value: 999,
        max_recursion_depth: 2,
        remember_exhausted_variables: true,
        eager_exhaustive_callbacks: false,
        enable_fn_cache: false,
        enable_fn_stats: false,
        fn_cache_size_limit: 100,
    }
}

fn key(s: &str) -> Entity {
    Entity::string(s.to_string())
}

fn string_text(e: &Entity) -> Option<&str> {
    match e.values.as_slice() {
        [Value::Literal(LiteralValue::String(s, _))] => Some(s.as_str()),
        _ => None,
    }
}

fn string_proto() -> BuiltinPrototype {
    let mut p = BuiltinPrototype::new_in();
    p.insert_string_keyed("toString".to_string(), Entity::from_value(Value::BuiltinFn(8)));
    p
}

#[test]
fn string_own_properties() {
    let s = LiteralValue::String("héllo".to_string(), None);
    let len = s.get_known_instance_property(&LiteralValue::String("length".to_string(), None)).unwrap();
    assert!(matches!(&len.values[..], [Value::Literal(LiteralValue::Number(n, None))] if n.text == "6" && n.bits == 6f64.to_bits()));
    let h = s.get_known_instance_property(&LiteralValue::String("0".to_string(), None)).unwrap();
    assert_eq!(string_text(&h), Some("h"));
    let mid = s.get_known_instance_property(&LiteralValue::String("1".to_string(), None)).unwrap();
    assert!(matches!(mid.values[..], [Value::Literal(LiteralValue::Undefined)]));
    let l = s.get_known_instance_property(&LiteralValue::String("3".to_string(), None)).unwrap();
    assert_eq!(string_text(&l), Some("l"));
    let past = s.get_known_instance_property(&LiteralValue::String("6".to_string(), None)).unwrap();
    assert!(matches!(past.values[..], [Value::Literal(LiteralValue::Undefined)]));
    assert!(s.get_known_instance_property(&LiteralValue::String("charAt".to_string(), None)).is_none());
    assert!(LiteralValue::Boolean(true).get_known_instance_property(&LiteralValue::String("length".to_string(), None)).is_none());
}

#[test]
fn own_property_depends_on_atoms() {
    let s = LiteralValue::String("ab".to_string(), Some(3));
    let b = s.get_known_instance_property(&LiteralValue::String("1".to_string(), Some(4))).unwrap();
    assert_eq!(string_text(&b), Some("b"));
    assert!(matches!(b.dep.parts[..], [DepPart::MangleAtom(3), DepPart::MangleAtom(4)]));
}

#[test]
fn literal_reads_own_then_prototype() {
    let mut a = Analyzer::new(config(false));
    let s = LiteralValue::String("abc".to_string(), None);
    let r = s.get_property(&mut a, &string_proto(), &Dep::none(), &key("2"));
    assert_eq!(string_text(&r), Some("c"));
    let f = s.get_property(&mut a, &string_proto(), &Dep::none(), &key("toString"));
    assert!(matches!(f.values[..], [Value::BuiltinFn(8)]));
    let u = s.get_property(&mut a, &string_proto(), &Dep::none(), &key("nope"));
    assert!(matches!(u.values[..], [Value::UnmatchedPrototypeProperty]));
    let both = s.get_property(&mut a, &string_proto(), &Dep::none(), &key("0").union(&key("toString")));
    assert_eq!(both.values.len(), 2);
    let any = s.get_property(&mut a, &string_proto(), &Dep::none(), &Entity::unknown());
    assert!(matches!(any.values[..], [Value::Unknown]));
    assert!(a.effects.is_empty());
    assert_eq!(s.get_prototype(), BuiltinPrototypeKind::String);
    assert_eq!(LiteralValue::NaN.get_prototype(), BuiltinPrototypeKind::Number);
}

#[test]
fn null_property_read_throws() {
    let mut a = Analyzer::new(config(false));
    let r = LiteralValue::Null.get_property(&mut a, &BuiltinPrototype::new_in(), &Dep::none(), &key("x"));
    assert!(r.values.is_empty());
    assert!(matches!(&a.effects[..], [Effect::BuiltinError(m)] if m == "Cannot get property of null or undefined"));

    let mut b = Analyzer::new(config(true));
    let r = LiteralValue::Undefined.get_property(&mut b, &BuiltinPrototype::new_in(), &Dep::none(), &key("x"));
    assert!(matches!(r.values[..], [Value::Unknown]));
}

#[test]
fn null_write_and_delete_throw() {
    let mut a = Analyzer::new(config(true));
    LiteralValue::Null.set_property(&mut a, &Dep::atom(1), &key("x"), &key("v"));
    assert!(matches!(&a.effects[..], [Effect::BuiltinError(_), Effect::ReferGlobal, Effect::Consume(_)]));
    let mut b = Analyzer::new(config(false));
    LiteralValue::Undefined.delete_property(&mut b, &Dep::atom(1));
    assert_eq!(b.effects.len(), 1);
    let mut c = Analyzer::new(config(true));
    LiteralValue::Boolean(true).set_property(&mut c, &Dep::none(), &key("x"), &key("v"));
    LiteralValue::Boolean(true).delete_property(&mut c, &Dep::none());
    assert!(c.effects.is_empty());
}

#[test]
fn short_string_enumerates_characters() {
    let a = Analyzer::new(config(false));
    let s = LiteralValue::String("aéb".to_string(), Some(2));
    let e = s.enumerate_properties(&a, &Dep::atom(1));
    let keys: Vec<String> = e
        .known
        .iter()
        .map(|(k, _)| match k {
            PropertyKeyValue::String(s) => s.clone(),
            PropertyKeyValue::Symbol(_) => panic!("symbol key"),
        })
        .collect();
    assert_eq!(keys, vec!["0", "1", "3"]);
    let values: Vec<&str> = e.known.iter().map(|(_, p)| string_text(&p.value).unwrap()).collect();
    assert_eq!(values, vec!["a", "é", "b"]);
    assert!(e.known.iter().all(|(_, p)| p.definite));
    assert!(e.unknown.is_none());
    assert!(matches!(e.dep.parts[..], [DepPart::Atom(1), DepPart::MangleAtom(2)]));

    let long = LiteralValue::String("abcde".to_string(), None);
    let e = long.enumerate_properties(&a, &Dep::none());
    assert!(e.known.is_empty());
    assert!(matches!(e.unknown.as_ref().map(|u| &u.values[..]), Some([Value::Primitive(PrimitiveValue::String)])));
    let none = LiteralValue::Boolean(true).enumerate_properties(&a, &Dep::none());
    assert!(none.known.is_empty() && none.unknown.is_none());
}

#[test]
fn calling_a_literal_throws() {
    let mut a = Analyzer::new(config(false));
    let r = LiteralValue::Number(JsNumber::one(), None).call(&mut a, &Dep::none(), &Entity::undefined(), &Entity::unknown());
    assert!(r.values.is_empty());
    assert!(matches!(&a.effects[..], [Effect::BuiltinError(m)] if m == "Cannot call a non-function object 1"));
    let mut b = Analyzer::new(config(true));
    let r = LiteralValue::Null.construct(&mut b, &Dep::none(), &Entity::unknown());
    assert!(matches!(r.values[..], [Value::Unknown]));
    assert!(matches!(&b.effects[0], Effect::BuiltinError(m) if m == "Cannot construct a non-constructor object null"));
}

#[test]
fn literal_iteration() {
    let mut a = Analyzer::new(config(false));
    let it = LiteralValue::String("ab".to_string(), None).iterate(&mut a, Dep::none());
    assert!(it.elements.is_empty());
    assert!(matches!(it.rest.as_ref().map(|u| &u.values[..]), Some([Value::Primitive(PrimitiveValue::String)])));
    let empty = LiteralValue::String(String::new(), None).iterate(&mut a, Dep::none());
    assert!(empty.rest.is_none());
    assert!(a.effects.is_empty());
    let bad = LiteralValue::Boolean(true).iterate(&mut a, Dep::none());
    assert!(bad.rest.is_none());
    assert!(matches!(&a.effects[..], [Effect::BuiltinError(m)] if m == "Cannot iterate over a non-iterable object"));
}

#[test]
fn literal_conversions() {
    let s = LiteralValue::String("x".to_string(), Some(5));
    assert!(matches!(&s.get_to_string().values[..], [Value::Literal(LiteralValue::String(t, Some(5)))] if t == "x"));
    assert_eq!(string_text(&LiteralValue::Null.get_to_string()), Some("null"));
    assert_eq!(string_text(&LiteralValue::Infinity(false).get_to_property_key()), Some("-Infinity"));
    let sym = LiteralValue::Symbol(4, "Symbol(a)".to_string());
    assert!(matches!(&sym.get_to_property_key().values[..], [Value::Literal(LiteralValue::Symbol(4, _))]));
    assert_eq!(string_text(&LiteralValue::Number(JsNumber::one(), None).get_to_jsx_child()), Some("1"));
    assert_eq!(string_text(&LiteralValue::Boolean(true).get_to_jsx_child()), Some(""));
    assert_eq!(LiteralValue::String(String::new(), None).get_to_boolean().test_truthy(), Some(false));
    assert!(LiteralValue::String("a".to_string(), None).get_own_keys().is_none());
    assert_eq!(LiteralValue::Null.get_own_keys().map(|k| k.len()), Some(0));
}

#[test]
fn literal_to_numeric() {
    let t = LiteralValue::Boolean(true).get_to_numeric(&None);
    assert!(matches!(&t.values[..], [Value::Literal(LiteralValue::Number(n, Some(raw)))] if n.bits == ONE_BITS && raw == "1"));
    let z = LiteralValue::Null.get_to_numeric(&None);
    assert!(matches!(&z.values[..], [Value::Literal(LiteralValue::Number(n, Some(raw)))] if n.bits == POSITIVE_ZERO_BITS && raw == "0"));
    assert!(matches!(LiteralValue::Undefined.get_to_numeric(&None).values[..], [Value::Literal(LiteralValue::NaN)]));
    assert!(matches!(LiteralValue::Symbol(1, String::new()).get_to_numeric(&None).values[..], [Value::Unknown]));
    let s = LiteralValue::String("12".to_string(), Some(7));
    let n = s.get_to_numeric(&Some(LiteralValue::Number(JsNumber::from_index(12), None)));
    assert!(matches!(&n.values[..], [Value::Literal(LiteralValue::Number(j, None))] if j.text == "12"));
    assert!(matches!(n.dep.parts[..], [DepPart::MangleAtom(7)]));
}

#[test]
fn literal_consume_uses_atom() {
    let mut a = Analyzer::new(config(false));
    LiteralValue::String("k".to_string(), Some(9)).consume(&mut a);
    LiteralValue::String("k".to_string(), None).consume(&mut a);
    assert!(matches!(&a.effects[..], [Effect::ConsumeMangleAtom(9)]));
}

#[test]
fn primitive_operations() {
    let mut a = Analyzer::new(config(false));
    let mut proto = BuiltinPrototype::new_in();
    proto.insert_string_keyed("toFixed".to_string(), Entity::from_value(Value::BuiltinFn(2)));
    let r = PrimitiveValue::Number.get_property(&proto, &Dep::none(), &key("toFixed"));
    assert!(matches!(r.values[..], [Value::BuiltinFn(2)]));
    let s = PrimitiveValue::String.get_property(&proto, &Dep::none(), &key("toFixed"));
    assert!(matches!(s.values[..], [Value::Unknown]));
    let c = PrimitiveValue::Boolean.call(&mut a, &Dep::none(), &Entity::undefined(), &Entity::unknown());
    assert!(c.values.is_empty());
    assert!(matches!(&a.effects[..], [Effect::BuiltinError(m)] if m == "Cannot call non-object"));
    assert!(PrimitiveValue::String.enumerate_properties(&Dep::none()).unknown.is_some());
    assert!(PrimitiveValue::Number.enumerate_properties(&Dep::none()).unknown.is_none());
    assert_eq!(PrimitiveValue::Symbol.get_to_boolean().test_truthy(), Some(true));
    assert_eq!(PrimitiveValue::Number.get_to_boolean().test_truthy(), None);
    assert!(matches!(PrimitiveValue::Number.get_to_jsx_child().values[..], [Value::Primitive(PrimitiveValue::String)]));
    assert_eq!(string_text(&PrimitiveValue::Boolean.get_to_jsx_child()), Some(""));
    let it = PrimitiveValue::String.iterate(&mut a, Dep::none());
    assert!(it.rest.is_some());
}

#[test]
fn primitive_typeof_text() {
    assert_eq!(string_text(&PrimitiveValue::Number.get_typeof()), Some("number"));
    assert_eq!(string_text(&PrimitiveValue::Symbol.get_typeof()), Some("symbol"));
    assert!(matches!(PrimitiveValue::Mixed.get_typeof().values[..], [Value::Primitive(PrimitiveValue::String)]));
}
