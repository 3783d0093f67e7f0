use jsshaker::analyzer::{Analyzer, CfScope, Effect, TreeShakeConfig, TreeShakeJsxPreset};
use jsshaker::array::ArrayValue;
use jsshaker::builtins::BuiltinPrototype;
use jsshaker::dep::{DepCollector, OnceDep};
use jsshaker::fn_cache::{cache_hit, FnCachedInput};
use jsshaker::entity::{Dep, DepPart, Entity, Value};
use jsshaker::function::{check_recursion, construct_result, Cacheable, FnObjects, FnObjectsState};
use jsshaker::literal::{JsNumber, LiteralValue};
use jsshaker::primitive::PrimitiveValue;
use jsshaker::react::{ReactMemos, UseMemoStep};
use jsshaker::stats::{FnCacheStats, FnStats, FnStatsData, MissReason, BUSY_CALLS};
use jsshaker::value::IteratedElements;

fn config() -> TreeShakeConfig {
    TreeShakeConfig {
        enabled: true,
        jsx: TreeShakeJsxPreset::Disabled,
        preserve_exceptions: false,
        unknown_property_read_side_effects: false,
        iterate_side_effects: false,
        max_simple_string_length: 12,
        min_simple_number_value: -999,
        max_simple_number_value: 999,
        max_recursion_depth: 2,
        remember_exhausted_variables: true,
        eager_exhaustive_callbacks: false,
        enable_fn_cache: false,
        enable_fn_stats: false,
        fn_cache_size_limit: 100,
    }
}

fn analyzer_in_scope() -> Analyzer {
    let mut a = Analyzer::new(config());
    a.cf_stack.push(CfScope { id: 7, exhaustive: false, indeterminate: false, deps: DepCollector::new(Vec::new()) });
    a
}

fn has_string(e: &Entity, s: &str) -> bool {
    e.values.iter().any(|v| matches!(v, Value::Literal(LiteralValue::String(t, _)) if t == s))
}

#[test]
fn stats_created_at_zero_and_updated() {
    let mut stats = FnStats::new();
    {
        let f = stats.get_or_create_fn_stats("f");
        assert_eq!(*f, FnStatsData::new());
        f.total_calls += 3;
    }
    stats.get_or_create_fn_stats("g").cache_hits = 1;
    let f = stats.get_or_create_fn_stats("f");
    assert_eq!(f.total_calls, 3);
    f.total_calls += 1;
    assert_eq!(stats.per_function.len(), 2);
    assert_eq!(stats.get_or_create_fn_stats("f").total_calls, 4);
    assert_eq!(stats.get_or_create_fn_stats("g").cache_hits, 1);
}

#[test]
fn stats_top_functions_sorted_and_filtered() {
    let mut stats = FnStats::new();
    for (name, calls) in [("a", 150usize), ("b", 5), ("c", 400), ("d", BUSY_CALLS), ("e", 101)] {
        stats.get_or_create_fn_stats(name).total_calls = calls;
    }
    let top = stats.top_functions();
    let names: Vec<&str> = top.iter().map(|(n, _)| n.as_str()).collect();
    assert_eq!(names, vec!["c", "a", "e"]);
}

#[test]
fn stats_truncate_name() {
    assert_eq!(FnStats::truncate_name("short", 10), "short");
    assert_eq!(FnStats::truncate_name("abcdefghij", 10), "abcdefghij");
    assert_eq!(FnStats::truncate_name("abcdefghijk", 10), "abcdefg...");
    assert_eq!(FnStats::truncate_name("abcd", 3), "...");
}

#[test]
fn dep_collector_collects_everything_once() {
    let mut c = DepCollector::new(vec![Dep::atom(1), Dep::atom(2)]);
    assert!(!c.is_empty());
    c.push(Dep::atom(3));
    let d = c.collect();
    assert!(matches!(d.parts[..], [DepPart::Atom(1), DepPart::Atom(2), DepPart::Atom(3)]));
    let mut empty = DepCollector::new(Vec::new());
    assert!(empty.is_empty());
    assert!(empty.try_collect().is_none());
}

#[test]
fn once_dep_consumed_once() {
    let mut a = Analyzer::new(config());
    let mut o = OnceDep::new(Dep::atom(9));
    o.consume(&mut a);
    o.consume(&mut a);
    assert_eq!(a.effects.len(), 1);
    assert!(matches!(&a.effects[0], Effect::Consume(d) if matches!(d.parts[..], [DepPart::Atom(9)])));
}

#[test]
fn analyzer_scope_lookup_and_atoms() {
    let mut a = analyzer_in_scope();
    a.cf_stack.push(CfScope { id: 8, exhaustive: false, indeterminate: false, deps: DepCollector::new(Vec::new()) });
    assert_eq!(a.find_first_different_cf_scope(7), 1);
    assert_eq!(a.find_first_different_cf_scope(8), 2);
    assert_eq!(a.find_first_different_cf_scope(99), 0);
    assert_eq!(a.fresh_atom(), 0);
    assert_eq!(a.fresh_atom(), 1);
}

#[test]
fn array_push_and_length() {
    let mut arr = ArrayValue::new_empty(7, 1);
    assert_eq!(arr.get_length(), Some(0));
    arr.push_element(Entity::string("a".to_string()));
    arr.push_element(Entity::string("b".to_string()));
    assert_eq!(arr.get_length(), Some(2));
    arr.init_rest(Entity::unknown());
    assert_eq!(arr.get_length(), None);
    arr.push_element(Entity::string("c".to_string()));
    assert_eq!(arr.elements.len(), 2);
    assert_eq!(arr.rest.len(), 2);
}

#[test]
fn array_reads_elements_and_length() {
    let mut a = analyzer_in_scope();
    let proto = BuiltinPrototype::new_in();
    let mut arr = ArrayValue::new_empty(7, 1);
    arr.push_element(Entity::string("a".to_string()));
    arr.push_element(Entity::string("b".to_string()));
    let v = arr.get_property(&mut a, &proto, &Dep::none(), &Entity::string("1".to_string()));
    assert!(has_string(&v, "b"));
    assert!(!has_string(&v, "a"));
    let len = arr.get_property(&mut a, &proto, &Dep::none(), &Entity::string("length".to_string()));
    assert!(len.values.iter().any(|v| matches!(v, Value::Literal(LiteralValue::Number(n, _)) if n.text == "2")));
    let missing = arr.get_property(&mut a, &proto, &Dep::none(), &Entity::string("5".to_string()));
    assert!(missing.values.iter().any(|v| matches!(v, Value::Literal(LiteralValue::Undefined))));
}

#[test]
fn recursion_limit() {
    let stack = vec![1u64, 2, 1, 3, 1];
    assert!(check_recursion(false, 1, &stack, 3));
    assert!(!check_recursion(false, 1, &stack, 4));
    assert!(!check_recursion(true, 1, &stack, 1));
    assert!(!check_recursion(false, 4, &stack, 1));
    assert!(check_recursion(false, 2, &stack, 1));
}

#[test]
fn construct_result_picks_object() {
    let this = Entity::from_value(Value::Object(5));
    let prim = construct_result(Entity::number(JsNumber::one()), this.clone());
    assert!(matches!(prim.values[..], [Value::Object(5)]));
    let obj = construct_result(Entity::from_value(Value::Object(6)), this.clone());
    assert!(matches!(obj.values[..], [Value::Object(6)]));
    let both = construct_result(Entity::unknown(), this);
    assert_eq!(both.values.len(), 2);
}

#[test]
fn cacheable_copyable() {
    assert!(Cacheable::Unknown.is_copyable());
    assert!(!Cacheable::Array(1).is_copyable());
    assert!(!Cacheable::Union(vec![Cacheable::Unknown, Cacheable::Object(2)]).is_copyable());
    assert!(Cacheable::Union(vec![Cacheable::Unknown, Cacheable::Primitive(PrimitiveValue::String)]).is_copyable());
}

#[test]
fn fn_objects_created_once_and_consumed() {
    let mut a = analyzer_in_scope();
    let mut f = FnObjects::new(&a, None);
    assert!(matches!(f.state, FnObjectsState::Uninit { cf_scope: 7, .. }));
    let (s1, p1) = f.get_objects(&mut a);
    let (s2, p2) = f.get_objects(&mut a);
    assert_eq!((s1, p1), (s2, p2));
    assert_ne!(s1, p1);
    assert!(!f.is_consumed());
    f.consume(&mut a);
    assert!(f.is_consumed());
    let n = a.effects.len();
    f.consume(&mut a);
    assert_eq!(a.effects.len(), n);
}

#[test]
fn cacheable_same_key() {
    let a = Cacheable::Union(vec![Cacheable::String("x".to_string()), Cacheable::Object(1)]);
    let b = Cacheable::Union(vec![Cacheable::String("x".to_string()), Cacheable::Object(1)]);
    let c = Cacheable::Union(vec![Cacheable::String("x".to_string()), Cacheable::Object(2)]);
    assert!(a.same_as(&b));
    assert!(!a.same_as(&c));
    assert!(!Cacheable::Unknown.same_as(&Cacheable::Never));
    assert!(Cacheable::BuiltinFn("f".to_string()).same_as(&Cacheable::BuiltinFn("f".to_string())));
}

#[test]
fn cacheable_compatibility() {
    let str_kind = Cacheable::Primitive(PrimitiveValue::String);
    let lit = LiteralValue::String("s".to_string(), Some(3)).as_cacheable();
    assert!(matches!(&lit, Cacheable::Literal(LiteralValue::String(s, None)) if s == "s"));
    assert!(str_kind.is_compatible(&lit));
    assert!(!Cacheable::Primitive(PrimitiveValue::Number).is_compatible(&lit));
    assert!(Cacheable::Primitive(PrimitiveValue::Mixed).is_compatible(&Cacheable::Primitive(PrimitiveValue::Symbol)));
    assert!(!str_kind.is_compatible(&Cacheable::Primitive(PrimitiveValue::Mixed)));
    assert!(Cacheable::Unknown.is_compatible(&Cacheable::Object(1)));
    assert!(Cacheable::Object(1).is_compatible(&Cacheable::Never));
    let u = Cacheable::Union(vec![Cacheable::Object(1), str_kind]);
    assert!(u.is_compatible(&Cacheable::Object(1)));
    assert!(u.is_compatible(&lit));
    assert!(!u.is_compatible(&Cacheable::Object(2)));
    let both = Cacheable::Union(vec![Cacheable::Object(1), lit]);
    assert!(u.is_compatible(&both));
    assert!(!Cacheable::Object(1).is_compatible(&both));
}

#[test]
fn cacheable_compatible_with_itself() {
    let keys = vec![
        Cacheable::Unknown,
        Cacheable::Never,
        Cacheable::Literal(LiteralValue::NaN),
        Cacheable::Primitive(PrimitiveValue::Number),
        Cacheable::Union(vec![]),
        Cacheable::Union(vec![Cacheable::Union(vec![Cacheable::Object(4)]), Cacheable::Function(2)]),
    ];
    for k in &keys {
        assert!(k.is_compatible(k));
        assert!(k.same_as(k));
    }
}

#[test]
fn iterated_union_and_destructuring() {
    let it = IteratedElements {
        elements: vec![Entity::string("a".to_string()), Entity::string("b".to_string()), Entity::string("c".to_string())],
        rest: None,
        dep: Dep::atom(5),
    };
    let u = it.result_union().unwrap();
    assert_eq!(u.values.len(), 3);
    assert!(matches!(u.dep.parts[..], [DepPart::Atom(5)]));
    let empty = IteratedElements { elements: vec![], rest: None, dep: Dep::none() };
    assert!(empty.result_union().is_none());

    let mut a = analyzer_in_scope();
    let (bindings, rest, dep) = it.destruct_as_array(&mut a, 2, true);
    assert_eq!(bindings.len(), 2);
    assert!(matches!(&bindings[1].values[..], [Value::Literal(LiteralValue::String(s, None))] if s == "b"));
    assert!(matches!(bindings[0].dep.parts[..], [DepPart::Atom(5)]));
    assert!(matches!(dep.parts[..], [DepPart::Atom(5)]));
    let (arr, arr_entity) = rest.unwrap();
    assert_eq!(arr.elements.len(), 1);
    assert!(arr.rest.is_empty());
    assert!(matches!(arr_entity.values[..], [Value::Array(id)] if id == arr.object_id));

    let short = IteratedElements { elements: vec![Entity::boolean(true)], rest: Some(Entity::unknown()), dep: Dep::none() };
    let (bindings, rest, _) = short.destruct_as_array(&mut a, 3, false);
    assert!(rest.is_none());
    assert!(matches!(bindings[2].values[..], [Value::Unknown]));
    let none = IteratedElements { elements: vec![], rest: None, dep: Dep::none() };
    let (bindings, _, _) = none.destruct_as_array(&mut a, 1, false);
    assert!(matches!(bindings[0].values[..], [Value::Literal(LiteralValue::Undefined)]));
}

#[test]
fn undefined_test() {
    assert_eq!(Entity::undefined().test_is_undefined(), Some(true));
    assert_eq!(Entity::unknown().test_is_undefined(), None);
    assert_eq!(Entity::boolean(true).test_is_undefined(), Some(false));
    assert_eq!(Entity::undefined().union(&Entity::boolean(true)).test_is_undefined(), None);
    assert_eq!(Entity::never().test_is_undefined(), Some(false));
}

#[test]
fn apply_arguments_preparation() {
    use_apply_case(vec![Entity::boolean(true)], |args| assert!(matches!(args.values[..], [Value::Array(0)])), true);
    use_apply_case(
        vec![Entity::boolean(true), Entity::from_value(Value::Array(4))],
        |args| assert!(matches!(args.values[..], [Value::Array(4)])),
        false,
    );
    use_apply_case(
        vec![Entity::boolean(true), Entity::unknown()],
        |args| assert!(matches!(args.values[..], [Value::Unknown, Value::Array(0)])),
        true,
    );
}

fn use_apply_case(elements: Vec<Entity>, check: impl Fn(&Entity), makes_array: bool) {
    let mut a = analyzer_in_scope();
    let it = IteratedElements { elements, rest: None, dep: Dep::none() };
    let (this_arg, args, array) = jsshaker::iterated::function_apply_arguments(&mut a, it);
    assert_eq!(this_arg.test_truthy(), Some(true));
    check(&args);
    assert_eq!(array.is_some(), makes_array);
    if let Some(arr) = array {
        assert_eq!(arr.object_id, 0);
        assert_eq!(arr.cf_scope, 7);
    }
}

#[test]
fn array_read_after_push_gives_pushed() {
    let mut a = analyzer_in_scope();
    let proto = BuiltinPrototype::new_in();
    let mut arr = ArrayValue::new_empty(7, 1);
    for (i, s) in ["x", "y", "z"].iter().enumerate() {
        arr.push_element(Entity::string(s.to_string()));
        let v = arr.get_property(&mut a, &proto, &Dep::none(), &Entity::string(i.to_string()));
        assert!(matches!(&v.values[..], [Value::Literal(LiteralValue::String(t, None))] if t == s));
    }
}

#[test]
fn consumed_object_takes_scope_deps() {
    let mut a = Analyzer::new(config());
    a.cf_stack.push(CfScope { id: 7, exhaustive: false, indeterminate: false, deps: DepCollector::new(vec![Dep::atom(1)]) });
    a.cf_stack.push(CfScope { id: 8, exhaustive: false, indeterminate: true, deps: DepCollector::new(vec![Dep::atom(2), Dep::atom(3)]) });
    a.mark_object_consumed(7, 5);
    assert!(!a.cf_stack[0].deps.is_empty());
    assert!(a.cf_stack[1].deps.is_empty());
    assert!(a.cf_stack[1].indeterminate);
    assert_eq!(a.effects.len(), 3);
    assert!(matches!(&a.effects[0], Effect::Consume(d) if matches!(d.parts[..], [DepPart::Atom(2)])));
    assert!(matches!(&a.effects[1], Effect::Consume(d) if matches!(d.parts[..], [DepPart::Atom(3)])));
    assert!(matches!(&a.effects[2], Effect::RequestExhaustiveCallbacks(jsshaker::value::ReadWriteTarget::ObjectAll(5))));
}

#[test]
fn miss_rows_only_when_there_were_misses() {
    let mut s = FnStats::new();
    assert!(s.summary_miss_rows().is_none());
    s.overall.cache_misses = 3;
    s.overall.miss_rest_params = 1;
    s.overall.miss_cache_empty = 2;
    assert_eq!(
        s.summary_miss_rows(),
        Some(vec![(MissReason::RestParams, 1), (MissReason::CacheEmpty, 2)])
    );
    let mut c = FnCacheStats::new();
    c.cache_misses = 1;
    assert_eq!(c.summary_miss_rows(), Some(vec![]));
    c.miss_config_disabled = 1;
    assert_eq!(c.summary_miss_rows(), Some(vec![(MissReason::ConfigDisabled, 1)]));
}

#[test]
fn top_functions_section_counts_the_rest() {
    let mut s = FnStats::new();
    assert!(s.summary_top_functions().is_none());
    s.get_or_create_fn_stats("busy").total_calls = 500;
    s.get_or_create_fn_stats("idle").total_calls = 3;
    s.get_or_create_fn_stats("busier").total_calls = 900;
    let (top, more) = s.summary_top_functions().unwrap();
    let names: Vec<&str> = top.iter().map(|(n, _)| n.as_str()).collect();
    assert_eq!(names, vec!["busier", "busy"]);
    assert_eq!(more, 1);
}

#[test]
fn cache_hit_needs_every_read_to_hold() {
    let last = vec![None, Some(Some(Cacheable::Object(1))), Some(None), Some(Some(Cacheable::Function(4)))];
    let now = vec![None, Some(Some(Cacheable::Object(1))), Some(None), Some(Some(Cacheable::Function(4)))];
    // The uncacheable value only holds where it is the very same value.
    assert_eq!(cache_hit(&last, &now, &vec![false, false, true, false]), Some(vec![1, 3]));
    assert_eq!(cache_hit(&last, &now, &vec![false, false, false, false]), None);
    let changed = vec![None, Some(Some(Cacheable::Object(2))), Some(None), Some(Some(Cacheable::Function(4)))];
    assert_eq!(cache_hit(&last, &changed, &vec![false, false, true, false]), None);
    let appeared = vec![Some(Some(Cacheable::Unknown)), Some(Some(Cacheable::Object(1))), Some(None), Some(Some(Cacheable::Function(4)))];
    assert_eq!(cache_hit(&last, &appeared, &vec![false, false, true, false]), None);
    assert_eq!(cache_hit(&vec![], &vec![], &vec![]), Some(vec![]));
}

#[test]
fn cached_inputs_compare_by_key() {
    let a = FnCachedInput { is_ctor: false, this: Cacheable::Unknown, args: vec![Cacheable::Object(1)] };
    let b = FnCachedInput { is_ctor: false, this: Cacheable::Unknown, args: vec![Cacheable::Object(1)] };
    let c = FnCachedInput { is_ctor: true, this: Cacheable::Unknown, args: vec![Cacheable::Object(1)] };
    let d = FnCachedInput { is_ctor: false, this: Cacheable::Unknown, args: vec![] };
    assert!(a.same_as(&b));
    assert!(!a.same_as(&c));
    assert!(!a.same_as(&d));
}

#[test]
fn use_memo_calculates_then_reuses() {
    let mut m = ReactMemos::new();
    match m.use_memo((0, 5, 9), true, Dep::atom(1)) {
        UseMemoStep::Calculate(d) => assert_eq!(d.parts.len(), 1),
        UseMemoStep::Reuse(_) => panic!("changed dependencies calculate"),
    }
    m.record((0, 5, 9), Entity::from_value(Value::Function(2)));
    match m.use_memo((0, 5, 9), false, Dep::atom(3)) {
        UseMemoStep::Reuse(e) => {
            assert!(matches!(e.values[..], [Value::Function(2)]));
            assert_eq!(e.dep.parts.len(), 1);
        }
        UseMemoStep::Calculate(_) => panic!("unchanged dependencies reuse"),
    }
    m.record((0, 5, 9), Entity::from_value(Value::Function(7)));
    match m.use_memo((0, 5, 9), false, Dep::none()) {
        UseMemoStep::Reuse(e) => assert!(matches!(e.values[..], [Value::Function(7)])),
        UseMemoStep::Calculate(_) => panic!("unchanged dependencies reuse"),
    }
}
