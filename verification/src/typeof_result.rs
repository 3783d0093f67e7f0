use vstd::prelude::*;
use vstd::string::*;

use crate::entity::{Entity, Value};
use crate::literal::LiteralValue;
use crate::primitive::PrimitiveValue;

verus! {

/// Bit of the `"string"` result.
pub const TYPEOF_STRING: u8 = 1u8;
/// Bit of the `"number"` result.
pub const TYPEOF_NUMBER: u8 = 2u8;
/// Bit of the `"bigint"` result.
pub const TYPEOF_BIGINT: u8 = 4u8;
/// Bit of the `"boolean"` result.
pub const TYPEOF_BOOLEAN: u8 = 8u8;
/// Bit of the `"symbol"` result.
pub const TYPEOF_SYMBOL: u8 = 16u8;
/// Bit of the `"undefined"` result.
pub const TYPEOF_UNDEFINED: u8 = 32u8;
/// Bit of the `"object"` result.
pub const TYPEOF_OBJECT: u8 = 64u8;
/// Bit of the `"function"` result.
pub const TYPEOF_FUNCTION: u8 = 128u8;
/// All primitive results.
pub const TYPEOF_PRIMITIVE: u8 = 63u8;
/// Every result.
pub const TYPEOF_UNKNOWN: u8 = 255u8;

/// The set of results that `typeof` may give for a value, one bit per result.
#[derive(Debug, Clone, Copy, PartialEq, Eq, Structural)]
pub struct TypeofResult {
    pub bits: u8,
}

/// Number of set bits of a byte.
pub open spec fn popcount(b: u8) -> nat
    decreases b,
{
    if b == 0 {
        0
    } else {
        (b % 2) as nat + popcount(b / 2)
    }
}

impl TypeofResult {
    pub open spec fn has(self, bit: u8) -> bool {
        self.bits & bit != 0
    }

    pub fn from_bits(bits: u8) -> (r: TypeofResult)
        ensures
            r.bits == bits,
    {
        TypeofResult { bits }
    }

    pub fn bits(self) -> (r: u8)
        ensures
            r == self.bits,
    {
        self.bits
    }

    /// Whether every result of `other` is a result of `self`.
    pub fn contains(self, other: TypeofResult) -> (r: bool)
        ensures
            r == (self.bits & other.bits == other.bits),
    {
        self.bits & other.bits == other.bits
    }

    /// Whether `self` and `other` share a result.
    pub fn intersects(self, other: TypeofResult) -> (r: bool)
        ensures
            r == (self.bits & other.bits != 0),
    {
        self.bits & other.bits != 0
    }

    /// The results of either set.
    pub fn union(self, other: TypeofResult) -> (r: TypeofResult)
        ensures
            r.bits == self.bits | other.bits,
    {
        TypeofResult { bits: self.bits | other.bits }
    }

    /// Number of results in the set.
    pub fn count_ones(self) -> (r: u32)
        ensures
            r == popcount(self.bits),
            r <= 8,
    {
        let mut b: u8 = self.bits;
        let mut n: u32 = 0;
        while b != 0
            invariant
                n + popcount(b) == popcount(self.bits),
                n <= 8 - popcount_bound(b),
            decreases b,
        {
            proof {
                lemma_popcount_step(b);
            }
            n = n + (b % 2) as u32;
            b = b / 2;
        }
        n
    }

    /// Whether two values with these typeof sets are known to have the same
    /// `typeof` result: the sets are equal and hold exactly one result.
    pub fn must_equal(self, other: TypeofResult) -> (r: bool)
        ensures
            r == (self == other && popcount(self.bits) == 1),
    {
        self == other && self.count_ones() == 1
    }
}

/// The result names of `bits` that are selected by `bit`, as a list of zero
/// or one names.
pub open spec fn name_if(bits: u8, bit: u8, name: Seq<char>) -> Seq<Seq<char>> {
    if bits & bit != 0 { seq![name] } else { Seq::empty() }
}

/// The `typeof` result names in `bits`, in the order string, number,
/// bigint, boolean, symbol, undefined, object, function.
pub open spec fn typeof_names(bits: u8) -> Seq<Seq<char>> {
    name_if(bits, TYPEOF_STRING, "string"@)
        + name_if(bits, TYPEOF_NUMBER, "number"@)
        + name_if(bits, TYPEOF_BIGINT, "bigint"@)
        + name_if(bits, TYPEOF_BOOLEAN, "boolean"@)
        + name_if(bits, TYPEOF_SYMBOL, "symbol"@)
        + name_if(bits, TYPEOF_UNDEFINED, "undefined"@)
        + name_if(bits, TYPEOF_OBJECT, "object"@)
        + name_if(bits, TYPEOF_FUNCTION, "function"@)
}

/// Whether `values` are exactly the string literals (without mangling atom)
/// with the given texts, in order.
pub open spec fn are_plain_strings(values: Seq<Value>, texts: Seq<Seq<char>>) -> bool {
    &&& values.len() == texts.len()
    &&& forall|i: int|
        0 <= i < values.len() ==> (#[trigger] values[i] matches Value::Literal(LiteralValue::String(s, None))
            && s@ == texts[i])
}

proof fn lemma_plain_strings_append(v1: Seq<Value>, t1: Seq<Seq<char>>, v2: Seq<Value>, t2: Seq<Seq<char>>)
    requires
        are_plain_strings(v1, t1),
        are_plain_strings(v2, t2),
    ensures
        are_plain_strings(v1 + v2, t1 + t2),
{
    assert forall|i: int| 0 <= i < (v1 + v2).len() implies (#[trigger] (v1 + v2)[i] matches Value::Literal(
        LiteralValue::String(s, None),
    ) && s@ == (t1 + t2)[i]) by {
        if i < v1.len() {
        } else {
            assert((v1 + v2)[i] == v2[i - v1.len()]);
        }
    }
}

/// Appends the string `name` to `values` when `bits` has `bit`.
fn push_name_if(values: &mut Vec<Value>, bits: u8, bit: u8, name: &str, Ghost(t): Ghost<Seq<Seq<char>>>)
    requires
        are_plain_strings(old(values)@, t),
    ensures
        are_plain_strings(final(values)@, t + name_if(bits, bit, name@)),
{
    let ghost before = values@;
    if bits & bit != 0 {
        values.push(Value::Literal(LiteralValue::String(String::from_str(name), None)));
        proof {
            assert(values@ == before + seq![values@.last()]);
            lemma_plain_strings_append(before, t, seq![values@.last()], seq![name@]);
        }
    } else {
        proof {
            assert(t + name_if(bits, bit, name@) =~= t);
        }
    }
}

/// The union of two sets of `typeof` results contains both, and a set that
/// contains both contains their union.
pub proof fn law_typeof_union(a: u8, b: u8, c: u8)
    ensures
        (a | b) & a == a,
        (a | b) & b == b,
        (c & a == a && c & b == b) ==> c & (a | b) == (a | b),
{
    assert((a | b) & a == a && (a | b) & b == b && ((c & a == a && c & b == b) ==> c & (a | b) == (a | b))) by (bit_vector);
}

impl TypeofResult {
    /// The value that `typeof` gives for a value with these results: no
    /// value when the set is empty, any string when it holds every result,
    /// and otherwise the union of the result names.
    pub fn to_entity(self) -> (r: Entity)
        ensures
            r.dep@ == Seq::<crate::entity::DepPart>::empty(),
            popcount(self.bits) == 0 ==> r.values@ == Seq::<Value>::empty(),
            popcount(self.bits) >= 8 ==> r.values@ == seq![Value::Primitive(PrimitiveValue::String)],
            0 < popcount(self.bits) < 8 ==> are_plain_strings(r.values@, typeof_names(self.bits)),
    {
        let n = self.count_ones();
        if n == 0 {
            Entity::never()
        } else if n >= 8 {
            Entity::primitive(PrimitiveValue::String)
        } else {
            proof {
                reveal_strlit("string");
                reveal_strlit("number");
                reveal_strlit("bigint");
                reveal_strlit("boolean");
                reveal_strlit("symbol");
                reveal_strlit("undefined");
                reveal_strlit("object");
                reveal_strlit("function");
            }
            let b = self.bits;
            let mut values: Vec<Value> = Vec::new();
            let ghost t0: Seq<Seq<char>> = Seq::empty();
            proof {
                assert(are_plain_strings(values@, t0));
            }
            push_name_if(&mut values, b, TYPEOF_STRING, "string", Ghost(t0));
            let ghost t1 = t0 + name_if(b, TYPEOF_STRING, "string"@);
            push_name_if(&mut values, b, TYPEOF_NUMBER, "number", Ghost(t1));
            let ghost t2 = t1 + name_if(b, TYPEOF_NUMBER, "number"@);
            push_name_if(&mut values, b, TYPEOF_BIGINT, "bigint", Ghost(t2));
            let ghost t3 = t2 + name_if(b, TYPEOF_BIGINT, "bigint"@);
            push_name_if(&mut values, b, TYPEOF_BOOLEAN, "boolean", Ghost(t3));
            let ghost t4 = t3 + name_if(b, TYPEOF_BOOLEAN, "boolean"@);
            push_name_if(&mut values, b, TYPEOF_SYMBOL, "symbol", Ghost(t4));
            let ghost t5 = t4 + name_if(b, TYPEOF_SYMBOL, "symbol"@);
            push_name_if(&mut values, b, TYPEOF_UNDEFINED, "undefined", Ghost(t5));
            let ghost t6 = t5 + name_if(b, TYPEOF_UNDEFINED, "undefined"@);
            push_name_if(&mut values, b, TYPEOF_OBJECT, "object", Ghost(t6));
            let ghost t7 = t6 + name_if(b, TYPEOF_OBJECT, "object"@);
            push_name_if(&mut values, b, TYPEOF_FUNCTION, "function", Ghost(t7));
            let ghost t8 = t7 + name_if(b, TYPEOF_FUNCTION, "function"@);
            let e = Entity { values, dep: crate::entity::Dep::none() };
            proof {
                assert(t1 =~= name_if(b, TYPEOF_STRING, "string"@));
                assert(t8 =~= typeof_names(b));
            }
            e
        }
    }
}

/// Upper bound helper: number of bits still to be counted is at most the
/// bit length of `b`.
pub open spec fn popcount_bound(b: u8) -> nat {
    if b == 0 { 0 } else if b < 2 { 1 } else if b < 4 { 2 } else if b < 8 { 3 } else if b < 16 { 4 }
    else if b < 32 { 5 } else if b < 64 { 6 } else if b < 128 { 7 } else { 8 }
}

proof fn lemma_popcount_step(b: u8)
    requires
        b != 0,
    ensures
        popcount(b) == (b % 2) as nat + popcount(b / 2),
        popcount_bound(b / 2) + 1 == popcount_bound(b),
{
}

} // verus!
