use vstd::prelude::*;

use crate::literal::{literal_truthy, literal_typeof, JsNumber, LiteralValue, MangleConstraint};
use crate::primitive::{primitive_typeof, PrimitiveValue};
use crate::typeof_result::{TypeofResult, TYPEOF_FUNCTION, TYPEOF_OBJECT, TYPEOF_UNKNOWN};

verus! {

/// One abstract JavaScript value.
#[derive(Debug)]
pub enum Value {
    /// Any value at all.
    Unknown,
    Literal(LiteralValue),
    Primitive(PrimitiveValue),
    /// An object, by its id.
    Object(u64),
    /// An array, by its id.
    Array(u64),
    /// A user function, by its instance id.
    Function(u64),
    /// A builtin function, by its id.
    BuiltinFn(u64),
    /// A property looked up on a builtin prototype that has no such entry.
    UnmatchedPrototypeProperty,
}

/// One piece of a dependency: an atom (an AST node, a call, a variable) or
/// a value whose use must be recorded.
#[derive(Debug)]
pub enum DepPart {
    Atom(u64),
    Value(Value),
    /// A constraint between mangled names that holds once this is used.
    Constraint(MangleConstraint),
    /// A mangling atom that is used once this is used.
    MangleAtom(u32),
}

/// A dependency: everything that is referred to when it is consumed.
#[derive(Debug)]
pub struct Dep {
    pub parts: Vec<DepPart>,
}

/// An abstract value: the union of its possible values, together with the
/// dependency that must be consumed when the value is used.
#[derive(Debug)]
pub struct Entity {
    pub values: Vec<Value>,
    pub dep: Dep,
}

impl Clone for Value {
    fn clone(&self) -> (r: Value)
        ensures
            r == *self,
    {
        match self {
            Value::Unknown => Value::Unknown,
            Value::Literal(l) => Value::Literal(l.duplicate()),
            Value::Primitive(p) => Value::Primitive(*p),
            Value::Object(i) => Value::Object(*i),
            Value::Array(i) => Value::Array(*i),
            Value::Function(i) => Value::Function(*i),
            Value::BuiltinFn(i) => Value::BuiltinFn(*i),
            Value::UnmatchedPrototypeProperty => Value::UnmatchedPrototypeProperty,
        }
    }
}

impl Clone for DepPart {
    fn clone(&self) -> (r: DepPart)
        ensures
            r == *self,
    {
        match self {
            DepPart::Atom(a) => DepPart::Atom(*a),
            DepPart::Value(v) => DepPart::Value(v.clone()),
            DepPart::Constraint(c) => DepPart::Constraint(*c),
            DepPart::MangleAtom(a) => DepPart::MangleAtom(*a),
        }
    }
}

/// Copies a vector of values element by element.
pub fn clone_values(v: &Vec<Value>) -> (r: Vec<Value>)
    ensures
        r@ == v@,
{
    let mut r: Vec<Value> = Vec::new();
    let mut i: usize = 0;
    while i < v.len()
        invariant
            i <= v.len(),
            r@ == v@.subrange(0, i as int),
        decreases v.len() - i,
    {
        r.push(v[i].clone());
        i = i + 1;
    }
    r
}

/// Copies a vector of dependency parts element by element.
pub fn clone_parts(v: &Vec<DepPart>) -> (r: Vec<DepPart>)
    ensures
        r@ == v@,
{
    let mut r: Vec<DepPart> = Vec::new();
    let mut i: usize = 0;
    while i < v.len()
        invariant
            i <= v.len(),
            r@ == v@.subrange(0, i as int),
        decreases v.len() - i,
    {
        r.push(v[i].clone());
        i = i + 1;
    }
    r
}

/// Appends copies of `src`'s elements to `dst`.
pub fn append_values(dst: &mut Vec<Value>, src: &Vec<Value>)
    ensures
        final(dst)@ == old(dst)@ + src@,
{
    let mut i: usize = 0;
    while i < src.len()
        invariant
            i <= src.len(),
            dst@ == old(dst)@ + src@.subrange(0, i as int),
        decreases src.len() - i,
    {
        dst.push(src[i].clone());
        i = i + 1;
    }
}

/// Appends copies of `src`'s elements to `dst`.
pub fn append_parts(dst: &mut Vec<DepPart>, src: &Vec<DepPart>)
    ensures
        final(dst)@ == old(dst)@ + src@,
{
    let mut i: usize = 0;
    while i < src.len()
        invariant
            i <= src.len(),
            dst@ == old(dst)@ + src@.subrange(0, i as int),
        decreases src.len() - i,
    {
        dst.push(src[i].clone());
        i = i + 1;
    }
}

/// The mathematical content of an entity.
#[verifier::ext_equal]
pub struct EntityView {
    pub values: Seq<Value>,
    pub dep: Seq<DepPart>,
}

impl View for Dep {
    type V = Seq<DepPart>;

    open spec fn view(&self) -> Seq<DepPart> {
        self.parts@
    }
}

impl View for Entity {
    type V = EntityView;

    open spec fn view(&self) -> EntityView {
        EntityView { values: self.values@, dep: self.dep.parts@ }
    }
}

impl Clone for Dep {
    fn clone(&self) -> (r: Dep)
        ensures
            r@ == self@,
    {
        Dep { parts: clone_parts(&self.parts) }
    }
}

impl Clone for Entity {
    fn clone(&self) -> (r: Entity)
        ensures
            r@ == self@,
    {
        Entity { values: clone_values(&self.values), dep: self.dep.clone() }
    }
}

/// The typeof bits of one value.
pub open spec fn value_typeof(v: Value) -> u8 {
    match v {
        Value::Unknown => TYPEOF_UNKNOWN,
        Value::Literal(l) => literal_typeof(l),
        Value::Primitive(p) => primitive_typeof(p),
        Value::Object(_) => TYPEOF_OBJECT,
        Value::Array(_) => TYPEOF_OBJECT,
        Value::Function(_) => TYPEOF_FUNCTION,
        Value::BuiltinFn(_) => TYPEOF_FUNCTION,
        Value::UnmatchedPrototypeProperty => TYPEOF_UNKNOWN,
    }
}

/// The union of the typeof bits of a sequence of values.
pub open spec fn values_typeof(s: Seq<Value>) -> u8
    decreases s.len(),
{
    if s.len() == 0 {
        0
    } else {
        values_typeof(s.drop_last()) | value_typeof(s.last())
    }
}

/// The truthiness of one value, where known.
pub open spec fn value_truthy(v: Value) -> Option<bool> {
    match v {
        Value::Literal(l) => Some(literal_truthy(l)),
        Value::Primitive(p) => if p == PrimitiveValue::Symbol { Some(true) } else { None },
        Value::Object(_) => Some(true),
        Value::Array(_) => Some(true),
        Value::Function(_) => Some(true),
        Value::BuiltinFn(_) => Some(true),
        _ => None,
    }
}

/// The literals of a sequence of values, if all of them are literals.
pub open spec fn all_literals(s: Seq<Value>) -> bool {
    forall|i: int| 0 <= i < s.len() ==> s[i] is Literal
}

impl Dep {
    /// The empty dependency.
    pub fn none() -> (r: Dep)
        ensures
            r.parts@ == Seq::<DepPart>::empty(),
    {
        Dep { parts: Vec::new() }
    }

    /// A dependency on a single atom.
    pub fn atom(a: u64) -> (r: Dep)
        ensures
            r.parts@ == seq![DepPart::Atom(a)],
    {
        let mut parts = Vec::new();
        parts.push(DepPart::Atom(a));
        Dep { parts }
    }

    /// Whether consuming this dependency refers to nothing.
    pub fn is_empty(&self) -> (r: bool)
        ensures
            r == (self.parts@.len() == 0),
    {
        self.parts.len() == 0
    }

    /// The dependency on both `self` and `other`.
    pub fn join(&self, other: &Dep) -> (r: Dep)
        ensures
            r.parts@ == self.parts@ + other.parts@,
    {
        let mut parts = clone_parts(&self.parts);
        append_parts(&mut parts, &other.parts);
        Dep { parts }
    }

    /// Adds `other` to this dependency.
    pub fn add(&mut self, other: &Dep)
        ensures
            final(self).parts@ == old(self).parts@ + other.parts@,
    {
        append_parts(&mut self.parts, &other.parts);
    }
}

/// The dependency that using an entity stands for: its values and its own
/// dependency.
pub open spec fn entity_dep_parts(e: EntityView) -> Seq<DepPart> {
    e.values.map_values(|v: Value| DepPart::Value(v)) + e.dep
}

impl Entity {
    /// The value that no execution produces.
    pub fn never() -> (r: Entity)
        ensures
            r.values@ == Seq::<Value>::empty(),
            r.dep.parts@ == Seq::<DepPart>::empty(),
    {
        Entity { values: Vec::new(), dep: Dep::none() }
    }

    /// A single value with no dependency.
    pub fn from_value(v: Value) -> (r: Entity)
        ensures
            r.values@ == seq![v],
            r.dep.parts@ == Seq::<DepPart>::empty(),
    {
        let mut values = Vec::new();
        values.push(v);
        Entity { values, dep: Dep::none() }
    }

    /// Any value.
    pub fn unknown() -> (r: Entity)
        ensures
            r.values@ == seq![Value::Unknown],
            r.dep.parts@ == Seq::<DepPart>::empty(),
    {
        Entity::from_value(Value::Unknown)
    }

    /// `undefined`.
    pub fn undefined() -> (r: Entity)
        ensures
            r.values@ == seq![Value::Literal(LiteralValue::Undefined)],
            r.dep.parts@ == Seq::<DepPart>::empty(),
    {
        Entity::from_value(Value::Literal(LiteralValue::Undefined))
    }

    /// `NaN`.
    pub fn nan() -> (r: Entity)
        ensures
            r.values@ == seq![Value::Literal(LiteralValue::NaN)],
            r.dep.parts@ == Seq::<DepPart>::empty(),
    {
        Entity::from_value(Value::Literal(LiteralValue::NaN))
    }

    /// A known boolean.
    pub fn boolean(b: bool) -> (r: Entity)
        ensures
            r.values@ == seq![Value::Literal(LiteralValue::Boolean(b))],
            r.dep.parts@ == Seq::<DepPart>::empty(),
    {
        Entity::from_value(Value::Literal(LiteralValue::Boolean(b)))
    }

    /// A known string with no mangling atom.
    pub fn string(s: String) -> (r: Entity)
        ensures
            r.values@ == seq![Value::Literal(LiteralValue::String(s, None))],
            r.dep.parts@ == Seq::<DepPart>::empty(),
    {
        Entity::from_value(Value::Literal(LiteralValue::String(s, None)))
    }

    /// A known number with no raw text.
    pub fn number(n: JsNumber) -> (r: Entity)
        ensures
            r.values@ == seq![Value::Literal(LiteralValue::Number(n, None))],
            r.dep.parts@ == Seq::<DepPart>::empty(),
    {
        Entity::from_value(Value::Literal(LiteralValue::Number(n, None)))
    }

    /// A primitive of the given kind.
    pub fn primitive(p: PrimitiveValue) -> (r: Entity)
        ensures
            r.values@ == seq![Value::Primitive(p)],
            r.dep.parts@ == Seq::<DepPart>::empty(),
    {
        Entity::from_value(Value::Primitive(p))
    }

    /// Any value, depending on `dep`.
    pub fn computed_unknown(dep: Dep) -> (r: Entity)
        ensures
            r.values@ == seq![Value::Unknown],
            r.dep@ == dep@,
    {
        let mut values = Vec::new();
        values.push(Value::Unknown);
        Entity { values, dep }
    }

    /// This value, additionally depending on `dep`.
    pub fn computed(self, dep: &Dep) -> (r: Entity)
        ensures
            r.values@ == self.values@,
            r.dep.parts@ == self.dep.parts@ + dep.parts@,
    {
        let mut e = self;
        e.dep.add(dep);
        e
    }

    /// The union of two values.
    pub fn union(&self, other: &Entity) -> (r: Entity)
        ensures
            r.values@ == self.values@ + other.values@,
            r.dep.parts@ == self.dep.parts@ + other.dep.parts@,
    {
        let mut values = clone_values(&self.values);
        append_values(&mut values, &other.values);
        Entity { values, dep: self.dep.join(&other.dep) }
    }

    /// The dependency that using this value stands for.
    pub open spec fn as_dep_spec(&self) -> Seq<DepPart> {
        entity_dep_parts(self@)
    }

    /// The dependency that using this value stands for.
    pub fn as_dep(&self) -> (r: Dep)
        ensures
            r.parts@ == entity_dep_parts(self@),
    {
        let mut parts: Vec<DepPart> = Vec::new();
        let mut i: usize = 0;
        while i < self.values.len()
            invariant
                i <= self.values.len(),
                parts@ == self.values@.subrange(0, i as int).map_values(|v: Value| DepPart::Value(v)),
            decreases self.values.len() - i,
        {
            parts.push(DepPart::Value(self.values[i].clone()));
            i = i + 1;
            proof {
                assert(self.values@.subrange(0, i as int).drop_last() =~= self.values@.subrange(0, i - 1));
            }
        }
        proof {
            assert(self.values@.subrange(0, self.values@.len() as int) =~= self.values@);
        }
        append_parts(&mut parts, &self.dep.parts);
        Dep { parts }
    }

    /// Whether no execution produces this value.
    pub fn is_never(&self) -> (r: bool)
        ensures
            r == (self.values@.len() == 0),
    {
        self.values.len() == 0
    }

    /// The `typeof` results this value may have.
    pub fn test_typeof(&self) -> (r: TypeofResult)
        ensures
            r.bits == values_typeof(self.values@),
    {
        let mut bits: u8 = 0;
        let mut i: usize = 0;
        while i < self.values.len()
            invariant
                i <= self.values.len(),
                bits == values_typeof(self.values@.subrange(0, i as int)),
            decreases self.values.len() - i,
        {
            let t = value_typeof_exec(&self.values[i]);
            proof {
                let s = self.values@.subrange(0, i + 1);
                assert(s.drop_last() =~= self.values@.subrange(0, i as int));
                assert(s.last() == self.values@[i as int]);
            }
            bits = bits | t;
            i = i + 1;
        }
        proof {
            assert(self.values@.subrange(0, self.values@.len() as int) =~= self.values@);
        }
        TypeofResult::from_bits(bits)
    }

    /// Whether the value is `undefined`: yes when `undefined` is its only
    /// `typeof` result, no when it is not among them, unknown otherwise.
    pub fn test_is_undefined(&self) -> (r: Option<bool>)
        ensures
            values_typeof(self.values@) == crate::typeof_result::TYPEOF_UNDEFINED ==> r == Some(true),
            values_typeof(self.values@) != crate::typeof_result::TYPEOF_UNDEFINED && values_typeof(self.values@)
                & crate::typeof_result::TYPEOF_UNDEFINED != 0 ==> r is None,
            values_typeof(self.values@) & crate::typeof_result::TYPEOF_UNDEFINED == 0 ==> r == Some(false),
    {
        let t = self.test_typeof();
        let u = TypeofResult::from_bits(crate::typeof_result::TYPEOF_UNDEFINED);
        let b = t.bits;
        proof {
            assert((b & 32u8 == 32u8 <==> b & 32u8 != 0) && (b == 32u8 ==> b & 32u8 != 0)) by (bit_vector);
        }
        if t == u {
            Some(true)
        } else if t.contains(u) {
            None
        } else {
            Some(false)
        }
    }

    /// The literals this value may be, if it can only be literals.
    pub fn get_to_literals(&self) -> (r: Option<Vec<LiteralValue>>)
        ensures
            r is Some <==> all_literals(self.values@),
            r matches Some(ls) ==> ls@.len() == self.values@.len() && forall|i: int|
                0 <= i < ls@.len() ==> self.values@[i] == Value::Literal(ls@[i]),
    {
        let mut ls: Vec<LiteralValue> = Vec::new();
        let mut i: usize = 0;
        while i < self.values.len()
            invariant
                i <= self.values.len(),
                ls@.len() == i,
                forall|j: int| 0 <= j < i ==> self.values@[j] == Value::Literal(ls@[j]),
            decreases self.values.len() - i,
        {
            match &self.values[i] {
                Value::Literal(l) => ls.push(l.duplicate()),
                _ => return None,
            }
            i = i + 1;
        }
        Some(ls)
    }

    /// The literal this value is, if it is exactly one literal.
    pub fn get_literal(&self) -> (r: Option<LiteralValue>)
        ensures
            r is Some <==> (self.values@.len() == 1 && self.values@[0] is Literal),
            r matches Some(l) ==> self.values@[0] == Value::Literal(l),
    {
        if self.values.len() == 1 {
            match &self.values[0] {
                Value::Literal(l) => Some(l.duplicate()),
                _ => None,
            }
        } else {
            None
        }
    }
}

/// The typeof bits of one value.
pub fn value_typeof_exec(v: &Value) -> (r: u8)
    ensures
        r == value_typeof(*v),
{
    match v {
        Value::Unknown => TYPEOF_UNKNOWN,
        Value::Literal(l) => l.test_typeof().bits,
        Value::Primitive(p) => p.test_typeof().bits,
        Value::Object(_) => TYPEOF_OBJECT,
        Value::Array(_) => TYPEOF_OBJECT,
        Value::Function(_) => TYPEOF_FUNCTION,
        Value::BuiltinFn(_) => TYPEOF_FUNCTION,
        Value::UnmatchedPrototypeProperty => TYPEOF_UNKNOWN,
    }
}


/// Whether a value is `null` or `undefined`, where that is known.
pub open spec fn value_nullish(v: Value) -> Option<bool> {
    match v {
        Value::Literal(l) => Some(crate::literal::literal_nullish(l)),
        Value::Primitive(_) => Some(false),
        Value::Object(_) => Some(false),
        Value::Array(_) => Some(false),
        Value::Function(_) => Some(false),
        Value::BuiltinFn(_) => Some(false),
        _ => None,
    }
}

/// What two known-or-unknown answers give together: the answer where both
/// know the same one, unknown otherwise.
pub open spec fn join_known(a: Option<bool>, b: Option<bool>) -> Option<bool> {
    match (a, b) {
        (Some(x), Some(y)) => if x == y { Some(x) } else { None },
        _ => None,
    }
}

/// Truthiness of a union of values: known where every value agrees; a
/// value that never occurs is falsy.
pub open spec fn values_truthy(s: Seq<Value>) -> Option<bool>
    decreases s.len(),
{
    if s.len() == 0 {
        Some(false)
    } else if s.len() == 1 {
        value_truthy(s[0])
    } else {
        join_known(values_truthy(s.drop_last()), value_truthy(s.last()))
    }
}

/// Nullishness of a union of values: known where every value agrees; a
/// value that never occurs is not nullish.
pub open spec fn values_nullish(s: Seq<Value>) -> Option<bool>
    decreases s.len(),
{
    if s.len() == 0 {
        Some(false)
    } else if s.len() == 1 {
        value_nullish(s[0])
    } else {
        join_known(values_nullish(s.drop_last()), value_nullish(s.last()))
    }
}

fn join_known_exec(a: Option<bool>, b: Option<bool>) -> (r: Option<bool>)
    ensures
        r == join_known(a, b),
{
    match (a, b) {
        (Some(x), Some(y)) => if x == y { Some(x) } else { None },
        _ => None,
    }
}

/// Truthiness of one value, where known.
pub fn value_truthy_exec(v: &Value) -> (r: Option<bool>)
    ensures
        r == value_truthy(*v),
{
    match v {
        Value::Literal(l) => l.test_truthy(),
        Value::Primitive(p) => p.test_truthy(),
        Value::Object(_) | Value::Array(_) | Value::Function(_) | Value::BuiltinFn(_) => Some(true),
        _ => None,
    }
}

/// Nullishness of one value, where known.
pub fn value_nullish_exec(v: &Value) -> (r: Option<bool>)
    ensures
        r == value_nullish(*v),
{
    match v {
        Value::Literal(l) => l.test_nullish(),
        Value::Primitive(_) | Value::Object(_) | Value::Array(_) | Value::Function(_) | Value::BuiltinFn(_) => Some(false),
        _ => None,
    }
}

impl Entity {
    /// Whether this value is truthy, where that is known.
    pub fn test_truthy(&self) -> (r: Option<bool>)
        ensures
            r == values_truthy(self.values@),
    {
        let n = self.values.len();
        if n == 0 {
            return Some(false);
        }
        let mut acc = value_truthy_exec(&self.values[0]);
        let mut i: usize = 1;
        proof {
            assert(self.values@.subrange(0, 1) =~= seq![self.values@[0]]);
        }
        while i < n
            invariant
                1 <= i <= n,
                n == self.values@.len(),
                acc == values_truthy(self.values@.subrange(0, i as int)),
            decreases n - i,
        {
            let t = value_truthy_exec(&self.values[i]);
            acc = join_known_exec(acc, t);
            proof {
                let sub = self.values@.subrange(0, i + 1);
                assert(sub.drop_last() =~= self.values@.subrange(0, i as int));
            }
            i = i + 1;
        }
        proof {
            assert(self.values@.subrange(0, n as int) =~= self.values@);
        }
        acc
    }

    /// Whether this value is `null` or `undefined`, where that is known.
    pub fn test_nullish(&self) -> (r: Option<bool>)
        ensures
            r == values_nullish(self.values@),
    {
        let n = self.values.len();
        if n == 0 {
            return Some(false);
        }
        let mut acc = value_nullish_exec(&self.values[0]);
        let mut i: usize = 1;
        proof {
            assert(self.values@.subrange(0, 1) =~= seq![self.values@[0]]);
        }
        while i < n
            invariant
                1 <= i <= n,
                n == self.values@.len(),
                acc == values_nullish(self.values@.subrange(0, i as int)),
            decreases n - i,
        {
            let t = value_nullish_exec(&self.values[i]);
            acc = join_known_exec(acc, t);
            proof {
                let sub = self.values@.subrange(0, i + 1);
                assert(sub.drop_last() =~= self.values@.subrange(0, i as int));
            }
            i = i + 1;
        }
        proof {
            assert(self.values@.subrange(0, n as int) =~= self.values@);
        }
        acc
    }

    /// `ToBoolean` of this value: the known boolean, or any boolean,
    /// depending on this value.
    pub fn get_to_boolean(&self) -> (r: Entity)
        ensures
            r.values@ == match values_truthy(self.values@) {
                Some(b) => seq![Value::Literal(LiteralValue::Boolean(b))],
                None => seq![Value::Primitive(PrimitiveValue::Boolean)],
            },
            r.dep@ == entity_dep_parts(self@),
    {
        let base = match self.test_truthy() {
            Some(b) => Entity::boolean(b),
            None => Entity::primitive(PrimitiveValue::Boolean),
        };
        let r = base.computed(&self.as_dep());
        proof {
            assert(r.dep@ =~= entity_dep_parts(self@));
        }
        r
    }
}

} // verus!
