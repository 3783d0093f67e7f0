use jsshaker::entity::{Dep, DepPart, Entity, Value};
use jsshaker::literal::{JsNumber, LiteralValue, MangleConstraint, NEGATIVE_ZERO_BITS, ONE_BITS};
use jsshaker::number::{parse_usize, usize_to_decimal};
use jsshaker::primitive::PrimitiveValue;
use jsshaker::typeof_result::{
    TypeofResult, TYPEOF_BOOLEAN, TYPEOF_NUMBER, TYPEOF_OBJECT, TYPEOF_PRIMITIVE, TYPEOF_STRING,
    TYPEOF_UNDEFINED, TYPEOF_UNKNOWN,
};

fn str_lit(s: &str) -> LiteralValue {
    LiteralValue::String(s.to_string(), None)
}

#[test]
fn typeof_union_and_contains() {
    let s = TypeofResult::from_bits(TYPEOF_STRING);
    let n = TypeofResult::from_bits(TYPEOF_NUMBER);
    let u = s.union(n);
    assert_eq!(u.bits(), TYPEOF_STRING | TYPEOF_NUMBER);
    assert!(u.contains(s));
    assert!(!s.contains(u));
    assert!(u.intersects(n));
    assert!(!s.intersects(n));
    assert_eq!(u.count_ones(), 2);
    assert_eq!(TypeofResult::from_bits(TYPEOF_UNKNOWN).count_ones(), 8);
    assert_eq!(TypeofResult::from_bits(TYPEOF_PRIMITIVE).count_ones(), 6);
}

#[test]
fn typeof_must_equal_only_for_single_result() {
    let s = TypeofResult::from_bits(TYPEOF_STRING);
    assert!(s.must_equal(s));
    let u = s.union(TypeofResult::from_bits(TYPEOF_NUMBER));
    assert!(!u.must_equal(u));
    assert!(!s.must_equal(TypeofResult::from_bits(TYPEOF_NUMBER)));
}

#[test]
fn typeof_to_entity_names() {
    let e = TypeofResult::from_bits(TYPEOF_UNDEFINED).to_entity();
    assert_eq!(e.values.len(), 1);
    match &e.values[0] {
        Value::Literal(LiteralValue::String(s, None)) => assert_eq!(s, "undefined"),
        other => panic!("unexpected {:?}", other),
    }
    let none = TypeofResult::from_bits(0).to_entity();
    assert!(none.values.is_empty());
    let all = TypeofResult::from_bits(TYPEOF_UNKNOWN).to_entity();
    assert!(matches!(all.values[..], [Value::Primitive(PrimitiveValue::String)]));
}

#[test]
fn literal_typeof_and_truthiness() {
    assert_eq!(str_lit("").test_typeof().bits(), TYPEOF_STRING);
    assert_eq!(str_lit("").test_truthy(), Some(false));
    assert_eq!(str_lit("a").test_truthy(), Some(true));
    assert_eq!(LiteralValue::Boolean(true).test_typeof().bits(), TYPEOF_BOOLEAN);
    assert_eq!(LiteralValue::Null.test_typeof().bits(), TYPEOF_OBJECT);
    assert_eq!(LiteralValue::Null.test_nullish(), Some(true));
    assert_eq!(LiteralValue::Undefined.test_nullish(), Some(true));
    assert_eq!(LiteralValue::NaN.test_truthy(), Some(false));
    assert_eq!(LiteralValue::NaN.test_nullish(), Some(false));
    assert_eq!(LiteralValue::Number(JsNumber::zero(), None).test_truthy(), Some(false));
    assert_eq!(LiteralValue::Number(JsNumber::one(), None).test_truthy(), Some(true));
    assert_eq!(LiteralValue::BigInt("0".to_string()).test_truthy(), Some(false));
    assert_eq!(LiteralValue::BigInt("00".to_string()).test_truthy(), Some(false));
    assert_eq!(LiteralValue::BigInt("10".to_string()).test_truthy(), Some(true));
}

#[test]
fn literal_to_string_forms() {
    assert_eq!(LiteralValue::Boolean(false).to_string(), "false");
    assert_eq!(LiteralValue::Infinity(false).to_string(), "-Infinity");
    assert_eq!(LiteralValue::Infinity(true).to_string(), "Infinity");
    assert_eq!(LiteralValue::NaN.to_string(), "NaN");
    assert_eq!(LiteralValue::Null.to_string(), "null");
    assert_eq!(LiteralValue::Undefined.to_string(), "undefined");
    assert_eq!(LiteralValue::Number(JsNumber::one(), Some("1.0".to_string())).to_string(), "1.0");
    assert_eq!(LiteralValue::Number(JsNumber::one(), None).to_string(), "1");
}

#[test]
fn strict_eq_of_zeros_and_nan() {
    let pz = LiteralValue::Number(JsNumber::zero(), None);
    let nz = LiteralValue::Number(JsNumber { bits: NEGATIVE_ZERO_BITS, text: "0".to_string() }, None);
    assert_eq!(pz.strict_eq(&nz, false), (true, None));
    assert_eq!(pz.strict_eq(&nz, true), (false, None));
    assert_eq!(LiteralValue::NaN.strict_eq(&LiteralValue::NaN, false), (false, None));
    assert_eq!(LiteralValue::NaN.strict_eq(&LiteralValue::NaN, true), (true, None));
    assert_eq!(LiteralValue::Null.strict_eq(&LiteralValue::Undefined, false), (false, None));
}

#[test]
fn strict_eq_of_mangled_strings_gives_constraint() {
    let a = LiteralValue::String("x".to_string(), Some(1));
    let b = LiteralValue::String("x".to_string(), Some(2));
    let c = LiteralValue::String("y".to_string(), Some(3));
    assert_eq!(a.strict_eq(&b, false), (true, Some(MangleConstraint::Eq(1, 2))));
    assert_eq!(a.strict_eq(&c, false), (false, Some(MangleConstraint::Neq(1, 3))));
    assert_eq!(a.strict_eq(&str_lit("x"), false), (true, None));
    assert!(!a.consume_mangable());
    assert!(str_lit("x").consume_mangable());
}

#[test]
fn decimal_text_and_parse_round_trip() {
    assert_eq!(usize_to_decimal(0), "0");
    assert_eq!(usize_to_decimal(1234), "1234");
    for n in [0usize, 7, 10, 99, 100, 65535, 4_000_000_000] {
        assert_eq!(parse_usize(&usize_to_decimal(n)), Some(n));
    }
}

#[test]
fn parse_usize_cases() {
    assert_eq!(parse_usize("42"), Some(42));
    assert_eq!(parse_usize("+42"), Some(42));
    assert_eq!(parse_usize("007"), Some(7));
    assert_eq!(parse_usize(""), None);
    assert_eq!(parse_usize("+"), None);
    assert_eq!(parse_usize("-1"), None);
    assert_eq!(parse_usize("1a"), None);
    assert_eq!(parse_usize("99999999999999999999999"), None);
}

#[test]
fn number_from_index() {
    let n = JsNumber::from_index(1);
    assert_eq!(n.bits, ONE_BITS);
    assert_eq!(n.text, "1");
    let z = JsNumber::from_index(0);
    assert!(z.is_zero_exec());
    let t = JsNumber::from_index(10);
    assert_eq!(t.bits, 10f64.to_bits());
    assert_eq!(t.text, "10");
    let big = JsNumber::from_index(123_456_789);
    assert_eq!(big.bits, 123_456_789f64.to_bits());
}

#[test]
fn entity_union_and_truthiness() {
    let t = Entity::boolean(true);
    let f = Entity::boolean(false);
    assert_eq!(t.test_truthy(), Some(true));
    assert_eq!(f.test_truthy(), Some(false));
    let u = t.union(&f);
    assert_eq!(u.values.len(), 2);
    assert_eq!(u.test_truthy(), None);
    assert_eq!(Entity::undefined().test_nullish(), Some(true));
    assert_eq!(Entity::unknown().test_nullish(), None);
    assert_eq!(Entity::string("a".to_string()).test_nullish(), Some(false));
    let b = u.get_to_boolean();
    assert_eq!(b.test_truthy(), None);
    let bt = Entity::string("s".to_string()).get_to_boolean();
    assert_eq!(bt.test_truthy(), Some(true));
}

#[test]
fn entity_never_is_never() {
    let n = Entity::never();
    assert!(n.is_never());
    assert_eq!(n.test_typeof().bits(), 0);
    assert!(!Entity::unknown().is_never());
    assert_eq!(Entity::unknown().test_typeof().bits(), TYPEOF_UNKNOWN);
}

#[test]
fn entity_literals() {
    let e = Entity::string("a".to_string()).union(&Entity::boolean(true));
    let lits = e.get_to_literals().expect("all literals");
    assert_eq!(lits.len(), 2);
    assert!(e.get_literal().is_none());
    assert!(Entity::unknown().get_to_literals().is_none());
    let one = Entity::number(JsNumber::one());
    assert!(matches!(one.get_literal(), Some(LiteralValue::Number(n, None)) if n.bits == ONE_BITS));
}

#[test]
fn dep_join_keeps_order() {
    let a = Dep::atom(1);
    let b = Dep::atom(2);
    let j = a.join(&b);
    assert!(matches!(j.parts[..], [DepPart::Atom(1), DepPart::Atom(2)]));
    assert!(Dep::none().is_empty());
    let mut c = Dep::none();
    c.add(&a);
    assert!(!c.is_empty());
    let e = Entity::boolean(true).computed(&Dep::atom(5));
    assert!(matches!(e.dep.parts[..], [DepPart::Atom(5)]));
}

#[test]
fn strict_eq_is_symmetric_on_examples() {
    let lits = vec![
        LiteralValue::NaN,
        LiteralValue::Null,
        LiteralValue::Undefined,
        LiteralValue::Number(JsNumber::zero(), None),
        LiteralValue::Number(JsNumber { bits: NEGATIVE_ZERO_BITS, text: "0".to_string() }, None),
        LiteralValue::Number(JsNumber::one(), Some("1.0".to_string())),
        LiteralValue::Number(JsNumber::one(), None),
        LiteralValue::String("a".to_string(), None),
        LiteralValue::Boolean(true),
    ];
    for a in &lits {
        for b in &lits {
            for object_is in [false, true] {
                assert_eq!(a.strict_eq(b, object_is).0, b.strict_eq(a, object_is).0);
            }
        }
        assert_eq!(a.strict_eq(a, false).0, !matches!(a, LiteralValue::NaN));
        assert!(a.strict_eq(a, true).0);
    }
}

#[test]
fn typeof_union_covers_both() {
    for (x, y) in [(TYPEOF_STRING, TYPEOF_NUMBER), (TYPEOF_OBJECT, TYPEOF_UNDEFINED), (0, TYPEOF_BOOLEAN)] {
        let a = TypeofResult::from_bits(x);
        let b = TypeofResult::from_bits(y);
        assert!(a.union(b).contains(a));
        assert!(a.union(b).contains(b));
        assert!(TypeofResult::from_bits(TYPEOF_UNKNOWN).contains(a.union(b)));
    }
}
