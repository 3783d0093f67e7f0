use jsshaker::analyzer::{Analyzer, CfScope, Effect, TreeShakeConfig, TreeShakeJsxPreset};
use jsshaker::dep::DepCollector;
use jsshaker::entity::{Dep, Entity, Value};
use jsshaker::literal::LiteralValue;
use jsshaker::object::{
    finish_set, GetPropertyOutcome, ObjectPrototype, ObjectValue, PropertyKind, SetPropertyOutcome,
};
use jsshaker::property::{Found, ObjectPropertyValue};

fn config() -> TreeShakeConfig {
    TreeShakeConfig {
        enabled: true,
        jsx: TreeShakeJsxPreset::Disabled,
        preserve_exceptions: false,
        unknown_property_read_side_effects: false,
        iterate_side_effects: false,
        max_simple_string_length: 12,
        min_simple_number_value: -999,
        max_simple_number_value: 999,
        max_recursion_depth: 2,
        remember_exhausted_variables: true,
        eager_exhaustive_callbacks: false,
        enable_fn_cache: false,
        enable_fn_stats: false,
        fn_cache_size_limit: 100,
    }
}

fn analyzer() -> Analyzer {
    let mut a = Analyzer::new(config());
    a.cf_stack.push(CfScope { id: 7, exhaustive: false, indeterminate: false, deps: DepCollector::new(Vec::new()) });
    a
}

fn key(s: &str) -> Entity {
    Entity::string(s.to_string())
}

fn has_string(e: &Entity, s: &str) -> bool {
    e.values.iter().any(|v| matches!(v, Value::Literal(LiteralValue::String(t, _)) if t == s))
}

fn has_undefined(e: &Entity) -> bool {
    e.values.iter().any(|v| matches!(v, Value::Literal(LiteralValue::Undefined)))
}

fn read(o: &mut ObjectValue, a: &mut Analyzer, k: &str) -> Entity {
    let k = key(k);
    match o.get_property(a, &Dep::none(), &k) {
        GetPropertyOutcome::Done(e) => e,
        GetPropertyOutcome::Pending(p) => {
            assert!(p.context.getters.is_empty());
            p.finish(Vec::new(), &Dep::none(), &k)
        }
    }
}

fn write(o: &mut ObjectValue, a: &mut Analyzer, k: &str, v: Entity) {
    match o.set_property(a, &Dep::none(), &key(k), &v) {
        SetPropertyOutcome::Done => {}
        SetPropertyOutcome::Pending(p) => {
            assert!(p.setters.is_empty());
            finish_set(a, &p.deferred);
        }
    }
}

#[test]
fn read_gives_what_was_defined() {
    let mut a = analyzer();
    let mut o = ObjectValue::new_in(7, 1, ObjectPrototype::ImplicitOrNull, None);
    o.init_property(&mut a, PropertyKind::Init, &key("x"), key("one"), true);
    o.init_property(&mut a, PropertyKind::Init, &key("y"), key("two"), true);
    let x = read(&mut o, &mut a, "x");
    assert!(has_string(&x, "one"));
    assert!(!has_string(&x, "two"));
    assert!(!has_undefined(&x));
    let z = read(&mut o, &mut a, "z");
    assert!(has_undefined(&z));
    assert!(!has_string(&z, "one"));
}

#[test]
fn read_gives_what_was_written() {
    let mut a = analyzer();
    let mut o = ObjectValue::new_in(7, 1, ObjectPrototype::ImplicitOrNull, None);
    o.init_property(&mut a, PropertyKind::Init, &key("x"), key("old"), true);
    write(&mut o, &mut a, "x", key("new"));
    let x = read(&mut o, &mut a, "x");
    assert!(has_string(&x, "new"));
    assert!(!has_string(&x, "old"));
    write(&mut o, &mut a, "w", key("fresh"));
    let w = read(&mut o, &mut a, "w");
    assert!(has_string(&w, "fresh"));
}

#[test]
fn deleted_property_reads_undefined() {
    let mut a = analyzer();
    let mut o = ObjectValue::new_in(7, 1, ObjectPrototype::ImplicitOrNull, None);
    o.init_property(&mut a, PropertyKind::Init, &key("x"), key("one"), true);
    o.delete_property(&mut a, &Dep::none(), &key("x"));
    let x = read(&mut o, &mut a, "x");
    assert!(has_undefined(&x));
    assert!(!has_string(&x, "one"));
}

#[test]
fn getter_is_left_to_the_caller() {
    let mut a = analyzer();
    let mut o = ObjectValue::new_in(7, 1, ObjectPrototype::ImplicitOrNull, None);
    o.init_property(&mut a, PropertyKind::Getter, &key("g"), Entity::from_value(Value::Function(3)), true);
    let k = key("g");
    match o.get_property(&mut a, &Dep::none(), &k) {
        GetPropertyOutcome::Pending(p) => {
            assert_eq!(p.context.getters.len(), 1);
            assert!(matches!(p.context.getters[0].values[..], [Value::Function(3)]));
            let v = p.finish(vec![key("from getter")], &Dep::none(), &k);
            assert!(has_string(&v, "from getter"));
        }
        GetPropertyOutcome::Done(_) => panic!("a getter must be called"),
    }
}

#[test]
fn consumed_object_reads_unknown() {
    let mut a = analyzer();
    let mut o = ObjectValue::new_in(7, 1, ObjectPrototype::ImplicitOrNull, None);
    o.init_property(&mut a, PropertyKind::Init, &key("x"), key("one"), true);
    o.consume(&mut a);
    assert!(o.consumed);
    let x = read(&mut o, &mut a, "x");
    assert!(x.values.iter().any(|v| matches!(v, Value::Unknown)));
    let n = a.effects.len();
    o.consume(&mut a);
    assert_eq!(a.effects.len(), n);
}

#[test]
fn unknown_key_read_stops_mangling() {
    let mut a = analyzer();
    let mut o = ObjectValue::new_in(7, 1, ObjectPrototype::ImplicitOrNull, Some(4));
    assert!(o.is_mangable());
    o.init_property(&mut a, PropertyKind::Init, &Entity::from_value(Value::Literal(LiteralValue::String("x".to_string(), Some(1)))), key("one"), true);
    let k = Entity::unknown();
    let r = o.get_property(&mut a, &Dep::none(), &k);
    assert!(!o.is_mangable());
    assert!(a.effects.iter().any(|e| matches!(e, Effect::DisableMangling(4))));
    match r {
        GetPropertyOutcome::Pending(p) => {
            let v = p.finish(Vec::new(), &Dep::none(), &k);
            assert!(has_string(&v, "one"));
        }
        GetPropertyOutcome::Done(_) => panic!("object is not consumed"),
    }
}

#[test]
fn found_combination() {
    assert!(Found::known(true).must_found());
    assert!(Found::known(false).must_not_found());
    assert!(Found::Unknown.may_found());
    assert!(!Found::False.may_found());
    assert!(Found::True.combine(Found::False).may_found());
}

#[test]
fn enumeration_calls_getters_then_finishes() {
    use_enumeration();
}

fn use_enumeration() {
    let mut a = analyzer();
    let mut o = ObjectValue::new_in(7, 1, ObjectPrototype::ImplicitOrNull, None);
    o.init_property(&mut a, PropertyKind::Init, &key("x"), key("one"), true);
    o.init_property(&mut a, PropertyKind::Getter, &key("y"), Entity::from_value(Value::Function(3)), true);
    match o.enumerate_properties(&mut a, &Dep::none()) {
        jsshaker::object::EnumerateOutcome::Pending(groups) => {
            let getter_values: Vec<Vec<Entity>> =
                groups.iter().map(|g| g.getters.iter().map(|_| key("got")).collect()).collect();
            let props = jsshaker::object::finish_enumeration(groups, getter_values, &Dep::none());
            let entries: Vec<(String, String)> = props
                .known
                .iter()
                .map(|(k, p)| {
                    let k = match k {
                        jsshaker::value::PropertyKeyValue::String(s) => s.clone(),
                        _ => panic!("symbol key"),
                    };
                    let v = match &p.value.values[..] {
                        [Value::Literal(LiteralValue::String(s, _))] => s.clone(),
                        other => panic!("unexpected {:?}", other),
                    };
                    (k, v)
                })
                .collect();
            assert_eq!(entries, vec![("x".to_string(), "one".to_string()), ("y".to_string(), "got".to_string())]);
        }
        jsshaker::object::EnumerateOutcome::Done(_) => panic!("object is not consumed"),
    }
}

#[test]
fn spread_defines_each_property() {
    let mut a = analyzer();
    let mut src = ObjectValue::new_in(7, 1, ObjectPrototype::ImplicitOrNull, None);
    src.init_property(&mut a, PropertyKind::Init, &key("p"), key("v"), true);
    let props = match src.enumerate_properties(&mut a, &Dep::none()) {
        jsshaker::object::EnumerateOutcome::Pending(groups) => {
            let n = groups.len();
            jsshaker::object::finish_enumeration(groups, (0..n).map(|_| Vec::new()).collect(), &Dep::none())
        }
        jsshaker::object::EnumerateOutcome::Done(p) => p,
    };
    let mut dst = ObjectValue::new_in(7, 2, ObjectPrototype::ImplicitOrNull, None);
    dst.init_spread(&mut a, props);
    let p = read(&mut dst, &mut a, "p");
    assert!(has_string(&p, "v"));
}

#[test]
fn written_value_is_all_a_read_gives() {
    let mut a = analyzer();
    let mut o = ObjectValue::new_in(7, 1, ObjectPrototype::ImplicitOrNull, None);
    o.init_property(&mut a, PropertyKind::Init, &key("x"), key("old"), true);
    write(&mut o, &mut a, "x", key("new"));
    let x = read(&mut o, &mut a, "x");
    assert_eq!(x.values.len(), 1);
    assert!(has_string(&x, "new"));
    write(&mut o, &mut a, "w", key("fresh"));
    let w = read(&mut o, &mut a, "w");
    assert_eq!(w.values.len(), 1);
    assert!(has_string(&w, "fresh"));
}

fn accessor_shape(o: &ObjectValue) -> Vec<(bool, bool)> {
    assert_eq!(o.keyed.len(), 1);
    let p = &o.keyed[0].1;
    assert!(p.definite && p.enumerable);
    p.possible_values
        .iter()
        .map(|v| match v {
            ObjectPropertyValue::Property(g, s) => (g.is_some(), s.is_some()),
            _ => panic!("an accessor was expected"),
        })
        .collect()
}

#[test]
fn getter_then_setter_make_one_accessor() {
    let mut a = analyzer();
    let mut o = ObjectValue::new_in(7, 1, ObjectPrototype::ImplicitOrNull, None);
    o.init_property(&mut a, PropertyKind::Getter, &key("a"), Entity::from_value(Value::Function(3)), true);
    o.init_property(&mut a, PropertyKind::Setter, &key("a"), Entity::from_value(Value::Function(4)), true);
    assert_eq!(accessor_shape(&o), vec![(true, true)]);
}

#[test]
fn indefinite_setter_adds_an_accessor() {
    let mut a = analyzer();
    let mut o = ObjectValue::new_in(7, 1, ObjectPrototype::ImplicitOrNull, None);
    o.init_property(&mut a, PropertyKind::Getter, &key("a"), Entity::from_value(Value::Function(3)), true);
    o.init_property(&mut a, PropertyKind::Setter, &key("a"), Entity::from_value(Value::Function(4)), false);
    assert_eq!(accessor_shape(&o), vec![(true, false), (false, true)]);
}
