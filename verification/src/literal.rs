use vstd::prelude::*;
use vstd::string::*;

use crate::typeof_result::{
    TypeofResult, TYPEOF_BIGINT, TYPEOF_BOOLEAN, TYPEOF_NUMBER, TYPEOF_OBJECT, TYPEOF_STRING,
    TYPEOF_SYMBOL, TYPEOF_UNDEFINED,
};

verus! {

/// A JavaScript number as the library holds it: the bit pattern of the IEEE
/// double (which is how two numbers are told apart) and the text that
/// JavaScript's `Number.prototype.toString` gives for it.
#[derive(Debug)]
pub struct JsNumber {
    pub bits: u64,
    pub text: String,
}

/// Bit pattern of `+0.0`.
pub const POSITIVE_ZERO_BITS: u64 = 0u64;
/// Bit pattern of `-0.0`.
pub const NEGATIVE_ZERO_BITS: u64 = 0x8000_0000_0000_0000u64;
/// Bit pattern of `1.0`.
pub const ONE_BITS: u64 = 0x3FF0_0000_0000_0000u64;

/// A relation between two mangling atoms that a string comparison imposes.
#[derive(Debug, Clone, Copy, PartialEq, Eq, Structural)]
pub enum MangleConstraint {
    Eq(u32, u32),
    Neq(u32, u32),
}

/// A JavaScript literal value.
#[derive(Debug)]
pub enum LiteralValue {
    /// A string and the mangling atom it is tied to, if any.
    String(String, Option<u32>),
    /// A number and its raw source text, if any.
    Number(JsNumber, Option<String>),
    /// The decimal digits of a bigint.
    BigInt(String),
    Boolean(bool),
    /// A symbol and its description text.
    Symbol(u32, String),
    /// `Infinity` (`true`) or `-Infinity` (`false`).
    Infinity(bool),
    NaN,
    Null,
    Undefined,
}

impl JsNumber {
    pub fn duplicate(&self) -> (r: JsNumber)
        ensures
            r == *self,
    {
        JsNumber { bits: self.bits, text: self.text.clone() }
    }

    pub open spec fn is_zero(self) -> bool {
        self.bits == POSITIVE_ZERO_BITS || self.bits == NEGATIVE_ZERO_BITS
    }

    /// Whether this number is `+0` or `-0`.
    pub fn is_zero_exec(&self) -> (r: bool)
        ensures
            r == self.is_zero(),
    {
        self.bits == POSITIVE_ZERO_BITS || self.bits == NEGATIVE_ZERO_BITS
    }

    /// The number `0`.
    pub fn zero() -> (r: JsNumber)
        ensures
            r.bits == POSITIVE_ZERO_BITS,
            r.text@ == seq!['0'],
    {
        let r = JsNumber { bits: POSITIVE_ZERO_BITS, text: String::from_str("0") };
        proof {
            reveal_strlit("0");
        }
        r
    }

    /// The number `1`.
    pub fn one() -> (r: JsNumber)
        ensures
            r.bits == ONE_BITS,
            r.text@ == seq!['1'],
    {
        let r = JsNumber { bits: ONE_BITS, text: String::from_str("1") };
        proof {
            reveal_strlit("1");
        }
        r
    }
}

/// Whether two optional strings hold the same text.
pub open spec fn same_opt_text(a: Option<String>, b: Option<String>) -> bool {
    match (a, b) {
        (Some(x), Some(y)) => x@ == y@,
        (None, None) => true,
        _ => false,
    }
}

/// Whether every character of `s` is `'0'`.
pub open spec fn all_zero_digits(s: Seq<char>) -> bool {
    forall|i: int| 0 <= i < s.len() ==> s[i] == '0'
}

/// The typeof bits of a literal.
pub open spec fn literal_typeof(l: LiteralValue) -> u8 {
    match l {
        LiteralValue::String(_, _) => TYPEOF_STRING,
        LiteralValue::Number(_, _) => TYPEOF_NUMBER,
        LiteralValue::BigInt(_) => TYPEOF_BIGINT,
        LiteralValue::Boolean(_) => TYPEOF_BOOLEAN,
        LiteralValue::Symbol(_, _) => TYPEOF_SYMBOL,
        LiteralValue::Infinity(_) => TYPEOF_NUMBER,
        LiteralValue::NaN => TYPEOF_NUMBER,
        LiteralValue::Null => TYPEOF_OBJECT,
        LiteralValue::Undefined => TYPEOF_UNDEFINED,
    }
}

/// Whether a literal is truthy under JavaScript's `ToBoolean`.
pub open spec fn literal_truthy(l: LiteralValue) -> bool {
    match l {
        LiteralValue::String(s, _) => s@.len() > 0,
        LiteralValue::Number(n, _) => !n.is_zero(),
        LiteralValue::BigInt(s) => !all_zero_digits(s@),
        LiteralValue::Boolean(b) => b,
        LiteralValue::Symbol(_, _) => true,
        LiteralValue::Infinity(_) => true,
        LiteralValue::NaN => false,
        LiteralValue::Null => false,
        LiteralValue::Undefined => false,
    }
}

/// Whether a literal is `null` or `undefined`.
pub open spec fn literal_nullish(l: LiteralValue) -> bool {
    l is Null || l is Undefined
}

/// Structural equality of literals, comparing texts by content.
pub open spec fn literal_same(a: LiteralValue, b: LiteralValue) -> bool {
    match (a, b) {
        (LiteralValue::String(s1, m1), LiteralValue::String(s2, m2)) => s1@ == s2@ && m1 == m2,
        (LiteralValue::Number(n1, r1), LiteralValue::Number(n2, r2)) => n1.bits == n2.bits
            && n1.text@ == n2.text@ && same_opt_text(r1, r2),
        (LiteralValue::BigInt(s1), LiteralValue::BigInt(s2)) => s1@ == s2@,
        (LiteralValue::Boolean(b1), LiteralValue::Boolean(b2)) => b1 == b2,
        (LiteralValue::Symbol(i1, s1), LiteralValue::Symbol(i2, s2)) => i1 == i2 && s1@ == s2@,
        (LiteralValue::Infinity(p1), LiteralValue::Infinity(p2)) => p1 == p2,
        (LiteralValue::NaN, LiteralValue::NaN) => true,
        (LiteralValue::Null, LiteralValue::Null) => true,
        (LiteralValue::Undefined, LiteralValue::Undefined) => true,
        _ => false,
    }
}

/// The result of JavaScript's strict equality (`object_is == false`) or of
/// `Object.is` (`object_is == true`) on two literals.
pub open spec fn literal_strict_eq(a: LiteralValue, b: LiteralValue, object_is: bool) -> bool {
    if !object_is && a is Number && b is Number {
        let l = a->Number_0;
        let r = b->Number_0;
        if l.is_zero() {
            r.is_zero()
        } else {
            l.bits == r.bits
        }
    } else if a is String && b is String {
        a->String_0@ == b->String_0@
    } else if !literal_same(a, b) {
        false
    } else if !object_is && a is NaN {
        false
    } else {
        true
    }
}

/// Strict equality and `Object.is` are symmetric, and every literal equals
/// itself except `NaN` under strict equality.
pub proof fn law_strict_eq_symmetric_reflexive(a: LiteralValue, b: LiteralValue, object_is: bool)
    ensures
        literal_strict_eq(a, b, object_is) == literal_strict_eq(b, a, object_is),
        literal_strict_eq(a, a, object_is) == !(a is NaN && !object_is),
{
}

/// Two literals that are the same literal have the same type and convert
/// to the same string; strictly equal literals (or equal under `Object.is`)
/// have the same type, strings among them the same text and symbols the
/// same id; two booleans,
/// and two infinities, are equal exactly when they hold the same sign or
/// truth value.
pub proof fn law_same_literals_agree(a: LiteralValue, b: LiteralValue, x: bool, y: bool, object_is: bool)
    ensures
        literal_same(a, b) ==> literal_to_string(a) == literal_to_string(b),
        literal_same(a, b) ==> literal_typeof(a) == literal_typeof(b),
        literal_strict_eq(a, b, object_is) ==> literal_typeof(a) == literal_typeof(b),
        a is Symbol && b is Symbol && literal_strict_eq(a, b, object_is) ==> a->Symbol_0 == b->Symbol_0,
        literal_strict_eq(LiteralValue::Infinity(x), LiteralValue::Infinity(y), object_is) == (x == y),
        a is String && b is String ==> (literal_strict_eq(a, b, object_is) == (a->String_0@ == b->String_0@)),
        a is String && b is String && literal_same(a, b) ==> a->String_0@ == b->String_0@,
        literal_same(LiteralValue::Boolean(x), LiteralValue::Boolean(y)) == (x == y),
        literal_strict_eq(LiteralValue::Boolean(x), LiteralValue::Boolean(y), object_is) == (x == y),
{
    if !x {
        assert(literal_to_string(LiteralValue::Boolean(x)) != literal_to_string(LiteralValue::Boolean(true)));
    }
    if literal_same(a, b) {
        match (a, b) {
            (LiteralValue::Number(n1, r1), LiteralValue::Number(n2, r2)) => {
                assert(same_opt_text(r1, r2));
            },
            _ => {},
        }
    }
}

/// The mangling constraint that comparing two strings with these atoms
/// yields: only when both carry an atom.
pub open spec fn equality_constraint(eq: bool, a: Option<u32>, b: Option<u32>) -> Option<MangleConstraint> {
    match (a, b) {
        (Some(x), Some(y)) => Some(if eq { MangleConstraint::Eq(x, y) } else { MangleConstraint::Neq(x, y) }),
        _ => None,
    }
}

/// JavaScript's `ToString` of a literal.
pub open spec fn literal_to_string(l: LiteralValue) -> Seq<char> {
    match l {
        LiteralValue::String(s, _) => s@,
        LiteralValue::Number(n, raw) => match raw {
            Some(r) => r@,
            None => n.text@,
        },
        LiteralValue::BigInt(s) => s@,
        LiteralValue::Boolean(b) => if b { seq!['t', 'r', 'u', 'e'] } else { seq!['f', 'a', 'l', 's', 'e'] },
        LiteralValue::Symbol(_, s) => s@,
        LiteralValue::Infinity(p) => if p {
            seq!['I', 'n', 'f', 'i', 'n', 'i', 't', 'y']
        } else {
            seq!['-', 'I', 'n', 'f', 'i', 'n', 'i', 't', 'y']
        },
        LiteralValue::NaN => seq!['N', 'a', 'N'],
        LiteralValue::Null => seq!['n', 'u', 'l', 'l'],
        LiteralValue::Undefined => seq!['u', 'n', 'd', 'e', 'f', 'i', 'n', 'e', 'd'],
    }
}

/// Whether every character of `s` is `'0'`.
pub fn is_all_zero_digits(s: &str) -> (r: bool)
    ensures
        r == all_zero_digits(s@),
{
    let n = s.unicode_len();
    let mut i: usize = 0;
    while i < n
        invariant
            n == s@.len(),
            i <= n,
            forall|j: int| 0 <= j < i ==> s@[j] == '0',
        decreases n - i,
    {
        if s.get_char(i) != '0' {
            return false;
        }
        i = i + 1;
    }
    true
}

pub fn opt_string_duplicate(s: &Option<String>) -> (r: Option<String>)
    ensures
        r == *s,
{
    match s {
        Some(x) => Some(x.clone()),
        None => None,
    }
}

impl LiteralValue {
    pub fn duplicate(&self) -> (r: LiteralValue)
        ensures
            r == *self,
    {
        match self {
            LiteralValue::String(s, a) => LiteralValue::String(s.clone(), *a),
            LiteralValue::Number(n, raw) => LiteralValue::Number(n.duplicate(), opt_string_duplicate(raw)),
            LiteralValue::BigInt(s) => LiteralValue::BigInt(s.clone()),
            LiteralValue::Boolean(b) => LiteralValue::Boolean(*b),
            LiteralValue::Symbol(i, s) => LiteralValue::Symbol(*i, s.clone()),
            LiteralValue::Infinity(p) => LiteralValue::Infinity(*p),
            LiteralValue::NaN => LiteralValue::NaN,
            LiteralValue::Null => LiteralValue::Null,
            LiteralValue::Undefined => LiteralValue::Undefined,
        }
    }

    /// The `typeof` result of this literal.
    pub fn test_typeof(&self) -> (r: TypeofResult)
        ensures
            r.bits == literal_typeof(*self),
    {
        match self {
            LiteralValue::String(_, _) => TypeofResult::from_bits(TYPEOF_STRING),
            LiteralValue::Number(_, _) => TypeofResult::from_bits(TYPEOF_NUMBER),
            LiteralValue::BigInt(_) => TypeofResult::from_bits(TYPEOF_BIGINT),
            LiteralValue::Boolean(_) => TypeofResult::from_bits(TYPEOF_BOOLEAN),
            LiteralValue::Symbol(_, _) => TypeofResult::from_bits(TYPEOF_SYMBOL),
            LiteralValue::Infinity(_) => TypeofResult::from_bits(TYPEOF_NUMBER),
            LiteralValue::NaN => TypeofResult::from_bits(TYPEOF_NUMBER),
            LiteralValue::Null => TypeofResult::from_bits(TYPEOF_OBJECT),
            LiteralValue::Undefined => TypeofResult::from_bits(TYPEOF_UNDEFINED),
        }
    }

    /// Truthiness of this literal; always known.
    pub fn test_truthy(&self) -> (r: Option<bool>)
        ensures
            r == Some(literal_truthy(*self)),
    {
        Some(
            match self {
                LiteralValue::String(s, _) => s.as_str().unicode_len() != 0,
                LiteralValue::Number(n, _) => !n.is_zero_exec(),
                LiteralValue::BigInt(s) => !is_all_zero_digits(s.as_str()),
                LiteralValue::Boolean(b) => *b,
                LiteralValue::Symbol(_, _) => true,
                LiteralValue::Infinity(_) => true,
                LiteralValue::NaN => false,
                LiteralValue::Null => false,
                LiteralValue::Undefined => false,
            },
        )
    }

    /// Whether this literal is `null` or `undefined`; always known.
    pub fn test_nullish(&self) -> (r: Option<bool>)
        ensures
            r == Some(literal_nullish(*self)),
    {
        Some(
            match self {
                LiteralValue::Null => true,
                LiteralValue::Undefined => true,
                _ => false,
            },
        )
    }

    /// Whether consuming this literal for mangling consumes it completely:
    /// only a string tied to a mangling atom is not.
    pub fn consume_mangable(&self) -> (r: bool)
        ensures
            r == !(*self is String && self->String_1 is Some),
    {
        match self {
            LiteralValue::String(_, Some(_)) => false,
            _ => true,
        }
    }

    /// Structural equality of two literals.
    pub fn same_as(&self, other: &LiteralValue) -> (r: bool)
        ensures
            r == literal_same(*self, *other),
    {
        match (self, other) {
            (LiteralValue::String(s1, m1), LiteralValue::String(s2, m2)) => *s1 == *s2 && *m1 == *m2,
            (LiteralValue::Number(n1, r1), LiteralValue::Number(n2, r2)) => {
                n1.bits == n2.bits && n1.text == n2.text && match (r1, r2) {
                    (Some(x), Some(y)) => *x == *y,
                    (None, None) => true,
                    _ => false,
                }
            },
            (LiteralValue::BigInt(s1), LiteralValue::BigInt(s2)) => *s1 == *s2,
            (LiteralValue::Boolean(b1), LiteralValue::Boolean(b2)) => *b1 == *b2,
            (LiteralValue::Symbol(i1, s1), LiteralValue::Symbol(i2, s2)) => *i1 == *i2 && *s1 == *s2,
            (LiteralValue::Infinity(p1), LiteralValue::Infinity(p2)) => *p1 == *p2,
            (LiteralValue::NaN, LiteralValue::NaN) => true,
            (LiteralValue::Null, LiteralValue::Null) => true,
            (LiteralValue::Undefined, LiteralValue::Undefined) => true,
            _ => false,
        }
    }

    /// Strict equality (`object_is == false`) or `Object.is`
    /// (`object_is == true`) of two literals, with the mangling constraint
    /// that a comparison of two strings imposes on their atoms.
    pub fn strict_eq(&self, other: &LiteralValue, object_is: bool) -> (r: (bool, Option<MangleConstraint>))
        ensures
            r.0 == literal_strict_eq(*self, *other, object_is),
            r.1 == (if *self is String && *other is String {
                equality_constraint(r.0, self->String_1, other->String_1)
            } else {
                None
            }),
    {
        if !object_is {
            if let (LiteralValue::Number(l, _), LiteralValue::Number(r, _)) = (self, other) {
                let eq = if l.is_zero_exec() {
                    r.is_zero_exec()
                } else {
                    l.bits == r.bits
                };
                return (eq, None);
            }
        }
        if let (LiteralValue::String(l, atom_l), LiteralValue::String(r, atom_r)) = (self, other) {
            let eq = *l == *r;
            let c = match (atom_l, atom_r) {
                (Some(x), Some(y)) => Some(
                    if eq {
                        MangleConstraint::Eq(*x, *y)
                    } else {
                        MangleConstraint::Neq(*x, *y)
                    },
                ),
                _ => None,
            };
            return (eq, c);
        }
        if !self.same_as(other) {
            return (false, None);
        }
        if !object_is {
            if let LiteralValue::NaN = self {
                return (false, None);
            }
        }
        (true, None)
    }

    /// JavaScript's `ToString` of this literal.
    pub fn to_string(&self) -> (r: String)
        ensures
            r@ == literal_to_string(*self),
    {
        proof {
            reveal_strlit("true");
            reveal_strlit("false");
            reveal_strlit("Infinity");
            reveal_strlit("-Infinity");
            reveal_strlit("NaN");
            reveal_strlit("null");
            reveal_strlit("undefined");
        }
        match self {
            LiteralValue::String(s, _) => s.clone(),
            LiteralValue::Number(n, raw) => match raw {
                Some(r) => r.clone(),
                None => n.text.clone(),
            },
            LiteralValue::BigInt(s) => s.clone(),
            LiteralValue::Boolean(b) => if *b {
                String::from_str("true")
            } else {
                String::from_str("false")
            },
            LiteralValue::Symbol(_, s) => s.clone(),
            LiteralValue::Infinity(p) => if *p {
                String::from_str("Infinity")
            } else {
                String::from_str("-Infinity")
            },
            LiteralValue::NaN => String::from_str("NaN"),
            LiteralValue::Null => String::from_str("null"),
            LiteralValue::Undefined => String::from_str("undefined"),
        }
    }
}

} // verus!
