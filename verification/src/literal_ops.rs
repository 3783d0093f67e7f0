use vstd::prelude::*;
use vstd::string::*;
use vstd::utf8::{encode_scalar, encode_utf8};

use crate::analyzer::{Analyzer, AnalyzerView, EffectView};
use crate::builtins::{is_key_literal, literal_keys_are_keys, BuiltinPrototype};
use crate::entity::{all_literals, entity_dep_parts, Dep, DepPart, Entity, EntityView, Value};
use crate::literal::{literal_to_string, JsNumber, LiteralValue};
use crate::number::{decimal_text, index_bits, parse_usize, parse_usize_spec, EXACT_INTEGER_LIMIT};
use crate::object::{builtin_entry, literal_key};
use crate::primitive::{error_then, BuiltinPrototypeKind, PrimitiveValue};
use crate::value::{union_deps, union_values, EnumeratedProperties, EnumeratedProperty, IteratedElements, PropertyKeyValue};

verus! {

// How a literal behaves when the analyzed program uses it: its own
// properties (the characters and length of a string), its prototype, its
// conversions, and the errors that using `null` or `undefined` throws.

/// The number of bytes the first `k` characters of `s` take in UTF-8.
pub open spec fn byte_offset(s: Seq<char>, k: int) -> nat {
    encode_utf8(s.take(k)).len()
}

/// The number of bytes a character takes in UTF-8.
pub open spec fn char_width(c: char) -> nat {
    encode_scalar(c as u32).len()
}

/// The length of `s` in UTF-8 bytes, which is what a string's `length`
/// gives here.
pub open spec fn utf8_len(s: Seq<char>) -> nat {
    encode_utf8(s).len()
}

proof fn lemma_encode_concat(a: Seq<char>, b: Seq<char>)
    ensures
        encode_utf8(a + b) == encode_utf8(a) + encode_utf8(b),
    decreases a.len(),
{
    if a.len() == 0 {
        assert(a + b =~= b);
        assert(encode_utf8(a) =~= Seq::<u8>::empty());
        assert(encode_utf8(a) + encode_utf8(b) =~= encode_utf8(b));
    } else {
        assert((a + b).drop_first() =~= a.drop_first() + b);
        assert((a + b)[0] == a[0]);
        lemma_encode_concat(a.drop_first(), b);
        assert(encode_utf8(a + b) =~= encode_utf8(a) + encode_utf8(b));
    }
}

proof fn lemma_offset_step(s: Seq<char>, k: int)
    requires
        0 <= k < s.len(),
    ensures
        byte_offset(s, k + 1) == byte_offset(s, k) + char_width(s[k]),
{
    assert(s.take(k + 1) =~= s.take(k) + seq![s[k]]);
    lemma_encode_concat(s.take(k), seq![s[k]]);
    assert(seq![s[k]].drop_first() =~= Seq::<char>::empty());
    assert(encode_utf8(seq![s[k]]) =~= encode_scalar(s[k] as u32) + encode_utf8(Seq::<char>::empty()));
}

proof fn lemma_offset_bounded(s: Seq<char>, k: int)
    requires
        0 <= k <= s.len(),
    ensures
        byte_offset(s, k) <= utf8_len(s),
{
    assert(s =~= s.take(k) + s.skip(k));
    lemma_encode_concat(s.take(k), s.skip(k));
}

proof fn lemma_width_positive(c: char)
    ensures
        1 <= char_width(c) <= 4,
        char_width(c) == 1 <==> (c as u32) < 0x80,
{
    broadcast use vstd::utf8::char_is_scalar;
}

proof fn lemma_offsets_increase(s: Seq<char>, j: int, k: int)
    requires
        0 <= j < k <= s.len(),
    ensures
        byte_offset(s, j) < byte_offset(s, k),
    decreases k - j,
{
    lemma_offset_step(s, k - 1);
    lemma_width_positive(s[k - 1]);
    if j < k - 1 {
        lemma_offsets_increase(s, j, k - 1);
    }
}

/// The number of bytes a character takes in UTF-8.
fn char_width_exec(c: char) -> (w: usize)
    ensures
        w == char_width(c),
{
    proof {
        broadcast use vstd::utf8::char_is_scalar;
    }
    let u = c as u32;
    if u < 0x80 {
        1
    } else if u < 0x800 {
        2
    } else if u < 0x10000 {
        3
    } else {
        4
    }
}

/// The character that a single byte at byte index `i` of `s` encodes:
/// some character starts at `i` and takes one byte (it is ASCII).
pub open spec fn char_at_byte(s: Seq<char>, i: nat) -> Option<char> {
    if exists|k: int| 0 <= k < s.len() && byte_offset(s, k) == i && (s[k] as u32) < 0x80 {
        let k = choose|k: int| 0 <= k < s.len() && byte_offset(s, k) == i && (s[k] as u32) < 0x80;
        Some(s[k])
    } else {
        None
    }
}

/// The index of the character of `s` that starts at byte `i` and is ASCII,
/// if there is one.
fn find_ascii_at_byte(s: &str, i: usize) -> (r: Option<usize>)
    ensures
        s@.len() <= usize::MAX,
        r is None ==> char_at_byte(s@, i as nat) is None,
        r matches Some(k) ==> k < s@.len() && char_at_byte(s@, i as nat) == Some(s@[k as int]),
{
    let n = s.unicode_len();
    let total = s.as_bytes().len();
    let mut k: usize = 0;
    let mut off: usize = 0;
    proof {
        assert(s@.take(0) =~= Seq::<char>::empty());
    }
    while k < n
        invariant
            n == s@.len(),
            total == utf8_len(s@),
            k <= n,
            off == byte_offset(s@, k as int),
            off <= i,
            forall|j: int| 0 <= j < k ==> byte_offset(s@, j) < i,
        decreases n - k,
    {
        let c = s.get_char(k);
        if off == i {
            proof {
                assert forall|j: int| 0 <= j < s@.len() && byte_offset(s@, j) == i implies j == k by {
                    if j < k {
                    } else if j > k {
                        lemma_offsets_increase(s@, k as int, j);
                    }
                }
            }
            if (c as u32) < 0x80 {
                proof {
                    let kk = choose|kk: int| 0 <= kk < s@.len() && byte_offset(s@, kk) == i && (s@[kk] as u32) < 0x80;
                    assert(kk == k);
                }
                return Some(k);
            } else {
                return None;
            }
        }
        proof {
            lemma_offset_step(s@, k as int);
            lemma_offset_bounded(s@, k + 1);
        }
        off = off + char_width_exec(c);
        k = k + 1;
        if off > i {
            proof {
                assert forall|j: int| 0 <= j < s@.len() implies byte_offset(s@, j) != i by {
                    if j >= k {
                        if j > k {
                            lemma_offsets_increase(s@, k as int, j);
                        }
                    }
                }
            }
            return None;
        }
    }
    None
}

/// The dependency on the mangling atom, if any.
pub open spec fn atom_parts(a: Option<u32>) -> Seq<DepPart> {
    match a {
        Some(x) => seq![DepPart::MangleAtom(x)],
        None => Seq::empty(),
    }
}

fn atom_dep(a: Option<u32>) -> (r: Dep)
    ensures
        r@ == atom_parts(a),
{
    match a {
        Some(x) => {
            let mut parts = Vec::new();
            parts.push(DepPart::MangleAtom(x));
            proof {
                assert(parts@ =~= seq![DepPart::MangleAtom(x)]);
            }
            Dep { parts }
        },
        None => Dep::none(),
    }
}

/// Whether `e` is the number `n` with no raw text, depending on `dep`.
pub open spec fn is_number_view(e: EntityView, n: nat, dep: Seq<DepPart>) -> bool {
    &&& e.dep == dep
    &&& e.values.len() == 1
    &&& e.values[0] matches Value::Literal(LiteralValue::Number(j, None))
    &&& j.bits == index_bits(n)
    &&& j.text@ == decimal_text(n)
}

/// Whether `e` is the string `text` with no mangling atom, depending on
/// `dep`.
pub open spec fn is_string_view(e: EntityView, text: Seq<char>, dep: Seq<DepPart>) -> bool {
    &&& e.dep == dep
    &&& e.values.len() == 1
    &&& e.values[0] matches Value::Literal(LiteralValue::String(s, None))
    &&& s@ == text
}

/// Whether a literal has a property of its own for a key: a string has
/// `length` and its indices.
pub open spec fn has_own_property(l: LiteralValue, key: LiteralValue) -> bool {
    &&& l is String
    &&& key is String
    &&& (key->String_0@ == "length"@ || parse_usize_spec(key->String_0@) is Some)
}

/// What a string's own property gives, depending on both mangling atoms:
/// `length` its length in bytes, an index the one-byte character there,
/// or `undefined` where no such character is.
pub open spec fn own_property_is(l: LiteralValue, key: LiteralValue, e: EntityView) -> bool {
    let v = l->String_0@;
    let k = key->String_0@;
    let d = atom_parts(l->String_1) + atom_parts(key->String_1);
    if k == "length"@ {
        is_number_view(e, utf8_len(v), d)
    } else {
        match char_at_byte(v, parse_usize_spec(k)->0 as nat) {
            Some(c) => is_string_view(e, seq![c], d),
            None => e == EntityView { values: seq![Value::Literal(LiteralValue::Undefined)], dep: d },
        }
    }
}

/// Whether a literal's strings are short enough for their length to be an
/// exact number (no string in memory comes near).
pub open spec fn length_is_exact(l: LiteralValue) -> bool {
    l is String ==> utf8_len(l->String_0@) < EXACT_INTEGER_LIMIT
}

impl LiteralValue {
    /// The property of the literal itself for `key`, if it has one (see
    /// `own_property_is`).
    pub fn get_known_instance_property(&self, key: &LiteralValue) -> (r: Option<Entity>)
        requires
            length_is_exact(*self),
        ensures
            has_own_property(*self, *key) ==> (r matches Some(e) && own_property_is(*self, *key, e@)),
            !has_own_property(*self, *key) ==> r is None,
    {
        proof {
            reveal_strlit("length");
        }
        match (self, key) {
            (LiteralValue::String(value, atom_self), LiteralValue::String(k, atom_key)) => {
                let d = atom_dep(*atom_self).join(&atom_dep(*atom_key));
                if crate::value::str_eq(k.as_str(), "length") {
                    let n = value.as_str().as_bytes().len();
                    let e = Entity::number(JsNumber::from_index(n as u64));
                    let r = e.computed(&d);
                    proof {
                        assert(r.dep@ =~= d@);
                    }
                    Some(r)
                } else {
                    match parse_usize(k.as_str()) {
                        Some(index) => {
                            let e = match find_ascii_at_byte(value.as_str(), index) {
                                Some(ci) => {
                                    let c = value.as_str().substring_char(ci, ci + 1);
                                    proof {
                                        assert(c@ =~= seq![value@[ci as int]]);
                                    }
                                    Entity::string(String::from_str(c))
                                },
                                None => Entity::undefined(),
                            };
                            let r = e.computed(&d);
                            proof {
                                assert(r.dep@ =~= d@);
                            }
                            Some(r)
                        },
                        None => None,
                    }
                }
            },
            _ => None,
        }
    }
}

/// The entity holding just this literal.
pub open spec fn literal_view(l: LiteralValue) -> EntityView {
    EntityView { values: seq![Value::Literal(l)], dep: Seq::empty() }
}

/// Whether a literal is `null` or `undefined`, which have no properties.
pub open spec fn is_nullish(l: LiteralValue) -> bool {
    l is Null || l is Undefined
}

/// The prototype a literal that is not `null` or `undefined` reads its
/// properties from.
pub open spec fn literal_prototype(l: LiteralValue) -> BuiltinPrototypeKind {
    match l {
        LiteralValue::String(_, _) => BuiltinPrototypeKind::String,
        LiteralValue::BigInt(_) => BuiltinPrototypeKind::BigInt,
        LiteralValue::Boolean(_) => BuiltinPrototypeKind::Boolean,
        LiteralValue::Symbol(_, _) => BuiltinPrototypeKind::Symbol,
        _ => BuiltinPrototypeKind::Number,
    }
}

/// Whether `e` is what reading the literal key `k` of `l` gives: the
/// literal's own property where it has one, otherwise the prototype's
/// entry, or the unmatched marker.
pub open spec fn key_result_is(l: LiteralValue, proto: BuiltinPrototype, k: LiteralValue, e: EntityView) -> bool {
    if has_own_property(l, k) {
        own_property_is(l, k, e)
    } else {
        e == match builtin_entry(proto, literal_key(k).0) {
            Some(x) => x,
            None => crate::builtins::unmatched_view(),
        }
    }
}

/// Whether `res` holds, key by key, what reading `keys` of `l` gives.
pub open spec fn key_results_are(
    l: LiteralValue,
    proto: BuiltinPrototype,
    keys: Seq<LiteralValue>,
    res: Seq<EntityView>,
) -> bool {
    &&& res.len() == keys.len()
    &&& forall|i: int| 0 <= i < keys.len() ==> key_result_is(l, proto, keys[i], #[trigger] res[i])
}

/// The literals of a key that can only be literals.
pub open spec fn key_literals_of(key: EntityView) -> Seq<LiteralValue> {
    key.values.map_values(|v: Value| v->Literal_0)
}

/// Whether the properties enumerated from a string are its characters: for
/// each character, in order, a definite property keyed by the decimal text
/// of its byte offset whose value is that character.
pub open spec fn char_entries_are(s: Seq<char>, known: Seq<(PropertyKeyValue, EnumeratedProperty)>) -> bool {
    &&& known.len() == s.len()
    &&& forall|k: int|
        0 <= k < s.len() ==> {
            let entry = #[trigger] known[k];
            &&& entry.0@ == crate::value::PropertyKeyView::String(decimal_text(byte_offset(s, k)))
            &&& entry.1.definite
            &&& is_string_view(entry.1.key@, decimal_text(byte_offset(s, k)), Seq::empty())
            &&& is_string_view(entry.1.value@, seq![s[k]], Seq::empty())
        }
}

/// The number `n` (0 or 1) with its raw text.
pub open spec fn is_small_number(e: EntityView, bits: u64, text: Seq<char>) -> bool {
    &&& e.dep.len() == 0
    &&& e.values.len() == 1
    &&& e.values[0] matches Value::Literal(LiteralValue::Number(j, Some(raw)))
    &&& j.bits == bits
    &&& j.text@ == text
    &&& raw@ == text
}

impl LiteralValue {
    /// The entity holding just this literal.
    pub fn self_entity(&self) -> (r: Entity)
        ensures
            r@ == literal_view(*self),
    {
        Entity::from_value(Value::Literal(self.duplicate()))
    }

    /// The prototype this literal reads its properties from.
    pub fn get_prototype(&self) -> (r: BuiltinPrototypeKind)
        requires
            !is_nullish(*self),
        ensures
            r == literal_prototype(*self),
    {
        match self {
            LiteralValue::String(_, _) => BuiltinPrototypeKind::String,
            LiteralValue::BigInt(_) => BuiltinPrototypeKind::BigInt,
            LiteralValue::Boolean(_) => BuiltinPrototypeKind::Boolean,
            LiteralValue::Symbol(_, _) => BuiltinPrototypeKind::Symbol,
            _ => BuiltinPrototypeKind::Number,
        }
    }

    /// Using the literal: a string tied to a mangling atom uses the atom.
    pub fn consume(&self, analyzer: &mut Analyzer)
        ensures
            (*self is String && self->String_1 is Some) ==> final(analyzer)@ == old(analyzer)@.log(
                EffectView::ConsumeMangleAtom(self->String_1->0),
            ),
            !(*self is String && self->String_1 is Some) ==> final(analyzer)@ == old(analyzer)@,
    {
        if let LiteralValue::String(_, Some(a)) = self {
            analyzer.record(crate::analyzer::Effect::ConsumeMangleAtom(*a));
        }
    }

    /// Reads `key`. Reading a property of `null` or `undefined` throws and
    /// then goes on as on a value whose contents are unknown when
    /// exceptions are preserved, or never completes. Otherwise each literal
    /// key reads as `key_result_is` says (`proto` being the literal's
    /// prototype), and the union depends on the literal, the read and the
    /// key; any other key reads as any value.
    pub fn get_property(&self, analyzer: &mut Analyzer, proto: &BuiltinPrototype, dep: &Dep, key: &Entity) -> (r: Entity)
        requires
            literal_keys_are_keys(key@),
            length_is_exact(*self),
        ensures
            is_nullish(*self) ==> ({
                let a1 = error_then(old(analyzer)@, "Cannot get property of null or undefined"@);
                if old(analyzer)@.config.preserve_exceptions {
                    crate::consumed_object::get_property_post(a1, final(analyzer)@, literal_view(*self), dep@, key@, r@)
                } else {
                    final(analyzer)@ == a1 && r.values@.len() == 0 && r.dep@.len() == 0
                }
            }),
            !is_nullish(*self) ==> final(analyzer)@ == old(analyzer)@ && ({
                let d = entity_dep_parts(literal_view(*self)) + dep@ + entity_dep_parts(key@);
                if all_literals(key@.values) {
                    exists|res: Seq<EntityView>|
                        #[trigger] key_results_are(*self, *proto, key_literals_of(key@), res) && r@ == (EntityView {
                            values: union_values(res),
                            dep: union_deps(res) + d,
                        })
                } else {
                    r@ == (EntityView { values: seq![Value::Unknown], dep: d })
                }
            }),
    {
        if let LiteralValue::Null | LiteralValue::Undefined = self {
            proof {
                reveal_strlit("Cannot get property of null or undefined");
            }
            analyzer.throw_builtin_error(String::from_str("Cannot get property of null or undefined"));
            if analyzer.config.preserve_exceptions {
                return crate::consumed_object::get_property(&self.self_entity(), analyzer, dep, key);
            } else {
                return Entity::never();
            }
        }
        let d = crate::value::dep3(&self.self_entity().as_dep(), dep, &key.as_dep());
        match key.get_to_literals() {
            Some(lits) => {
                proof {
                    assert(lits@ =~= key_literals_of(key@));
                    assert forall|i: int| 0 <= i < lits@.len() implies is_key_literal(#[trigger] lits@[i]) by {
                        assert(key@.values[i] == Value::Literal(lits@[i]));
                    }
                }
                let values = self.read_keys(proto, &lits);
                let u = crate::value::union_all(&values);
                let r = u.computed(&d);
                proof {
                    let res = crate::value::entity_views(values@);
                    assert(key_results_are(*self, *proto, key_literals_of(key@), res));
                    assert(r@ =~= (EntityView { values: union_values(res), dep: union_deps(res) + d@ }));
                }
                r
            },
            None => Entity::computed_unknown(d),
        }
    }

    /// What reading each of the literal keys gives.
    fn read_keys(&self, proto: &BuiltinPrototype, lits: &Vec<LiteralValue>) -> (r: Vec<Entity>)
        requires
            length_is_exact(*self),
            forall|i: int| 0 <= i < lits@.len() ==> is_key_literal(#[trigger] lits@[i]),
        ensures
            key_results_are(*self, *proto, lits@, crate::value::entity_views(r@)),
    {
        let mut r: Vec<Entity> = Vec::new();
        let mut i: usize = 0;
        while i < lits.len()
            invariant
                i <= lits@.len(),
                length_is_exact(*self),
                forall|j: int| 0 <= j < lits@.len() ==> is_key_literal(#[trigger] lits@[j]),
                r@.len() == i,
                forall|j: int| 0 <= j < i ==> key_result_is(*self, *proto, lits@[j], #[trigger] r@[j]@),
            decreases lits@.len() - i,
        {
            let e = match self.get_known_instance_property(&lits[i]) {
                Some(p) => p,
                None => match proto.get_literal_keyed(&lits[i]) {
                    Some(p) => p,
                    None => Entity::from_value(Value::UnmatchedPrototypeProperty),
                },
            };
            r.push(e);
            i = i + 1;
        }
        proof {
            let rv = crate::value::entity_views(r@);
            assert forall|j: int| 0 <= j < lits@.len() implies key_result_is(*self, *proto, lits@[j], #[trigger] rv[j]) by {
                assert(rv[j] == r@[j]@);
            }
        }
        r
    }

    /// Writing a property of `null` or `undefined` throws and, when
    /// exceptions are preserved, goes on as on a value whose contents are
    /// unknown; writing a property of another literal has no effect.
    pub fn set_property(&self, analyzer: &mut Analyzer, dep: &Dep, key: &Entity, value: &Entity)
        ensures
            is_nullish(*self) ==> ({
                let a1 = error_then(old(analyzer)@, "Cannot set property of null or undefined"@);
                if old(analyzer)@.config.preserve_exceptions {
                    final(analyzer)@ == a1.log(EffectView::ReferGlobal).log(
                        EffectView::Consume(dep@ + key.as_dep_spec() + value.as_dep_spec()),
                    )
                } else {
                    final(analyzer)@ == a1
                }
            }),
            !is_nullish(*self) ==> final(analyzer)@ == old(analyzer)@,
    {
        if let LiteralValue::Null | LiteralValue::Undefined = self {
            proof {
                reveal_strlit("Cannot set property of null or undefined");
            }
            analyzer.throw_builtin_error(String::from_str("Cannot set property of null or undefined"));
            if analyzer.config.preserve_exceptions {
                crate::consumed_object::set_property(analyzer, dep, key, value);
            }
        }
    }

    /// Deleting a property of `null` or `undefined` throws and, when
    /// exceptions are preserved, uses the deletion; deleting a property of
    /// another literal has no effect.
    pub fn delete_property(&self, analyzer: &mut Analyzer, dep: &Dep)
        ensures
            is_nullish(*self) ==> ({
                let a1 = error_then(old(analyzer)@, "Cannot delete property of null or undefined"@);
                if old(analyzer)@.config.preserve_exceptions {
                    final(analyzer)@ == a1.log(EffectView::Consume(dep@))
                } else {
                    final(analyzer)@ == a1
                }
            }),
            !is_nullish(*self) ==> final(analyzer)@ == old(analyzer)@,
    {
        if let LiteralValue::Null | LiteralValue::Undefined = self {
            proof {
                reveal_strlit("Cannot delete property of null or undefined");
            }
            analyzer.throw_builtin_error(String::from_str("Cannot delete property of null or undefined"));
            if analyzer.config.preserve_exceptions {
                analyzer.consume(dep.clone());
            }
        }
    }
}

/// What converting a string literal to a number gives, as computed from
/// its double value: a number, `NaN` or an infinity.
pub open spec fn is_numeric_literal(l: LiteralValue) -> bool {
    l is Number || l is NaN || l is Infinity
}

impl LiteralValue {
    /// The properties a `for...in` or a spread enumerates: for a string no
    /// longer than the simple-string limit, its characters (see
    /// `char_entries_are`); for a longer string, what any string enumerates
    /// (a value for unknown keys); for other literals nothing. The
    /// dependency is the enumeration's with the string's mangling atom, and
    /// for a long string the string itself first.
    pub fn enumerate_properties(&self, analyzer: &Analyzer, dep: &Dep) -> (r: EnumeratedProperties)
        ensures
            *self is String ==> ({
                let v = self->String_0;
                let d = dep@ + atom_parts(self->String_1);
                if utf8_len(v@) <= analyzer@.config.max_simple_string_length {
                    &&& char_entries_are(v@, r.known@)
                    &&& r.unknown is None
                    &&& r.dep@ == d
                } else {
                    &&& r.known@.len() == 0
                    &&& r.unknown matches Some(u) && u@ == crate::primitive::primitive_view(PrimitiveValue::String)
                    &&& r.dep@ == entity_dep_parts(crate::primitive::primitive_view(PrimitiveValue::String))
                        + entity_dep_parts(literal_view(*self)) + d
                }
            }),
            !(*self is String) ==> r.known@.len() == 0 && r.unknown is None && r.dep@ == dep@,
    {
        match self {
            LiteralValue::String(value, atom) => {
                let d = dep.join(&atom_dep(*atom));
                let n = value.as_str().as_bytes().len();
                if n <= analyzer.config.max_simple_string_length {
                    let known = char_entries(value.as_str());
                    EnumeratedProperties { known, unknown: None, dep: d }
                } else {
                    let d2 = self.self_entity().as_dep().join(&d);
                    PrimitiveValue::String.enumerate_properties(&d2)
                }
            },
            _ => EnumeratedProperties { known: Vec::new(), unknown: None, dep: dep.clone() },
        }
    }
}

/// The characters of `s` as enumerated properties, keyed by their byte
/// offsets.
fn char_entries(s: &str) -> (r: Vec<(PropertyKeyValue, EnumeratedProperty)>)
    ensures
        char_entries_are(s@, r@),
{
    let n = s.unicode_len();
    let total = s.as_bytes().len();
    let mut r: Vec<(PropertyKeyValue, EnumeratedProperty)> = Vec::new();
    let mut k: usize = 0;
    let mut off: usize = 0;
    proof {
        assert(s@.take(0) =~= Seq::<char>::empty());
    }
    while k < n
        invariant
            n == s@.len(),
            total == utf8_len(s@),
            k <= n,
            off == byte_offset(s@, k as int),
            r@.len() == k,
            forall|j: int|
                0 <= j < k ==> {
                    let entry = #[trigger] r@[j];
                    &&& entry.0@ == crate::value::PropertyKeyView::String(decimal_text(byte_offset(s@, j)))
                    &&& entry.1.definite
                    &&& is_string_view(entry.1.key@, decimal_text(byte_offset(s@, j)), Seq::empty())
                    &&& is_string_view(entry.1.value@, seq![s@[j]], Seq::empty())
                },
        decreases n - k,
    {
        let c = s.get_char(k);
        let text = crate::number::usize_to_decimal(off);
        let ch = s.substring_char(k, k + 1);
        proof {
            assert(ch@ =~= seq![s@[k as int]]);
        }
        let entry = (
            PropertyKeyValue::String(text.clone()),
            EnumeratedProperty { definite: true, key: Entity::string(text), value: Entity::string(String::from_str(ch)) },
        );
        r.push(entry);
        proof {
            lemma_offset_step(s@, k as int);
            lemma_offset_bounded(s@, k + 1);
        }
        off = off + char_width_exec(c);
        k = k + 1;
    }
    r
}

/// The text of an error about using a value that cannot be used that way:
/// the message, then the value's JavaScript text.
pub open spec fn misuse_message(prefix: Seq<char>, l: LiteralValue) -> Seq<char> {
    prefix + seq![' '] + literal_to_string(l)
}

impl LiteralValue {
    fn misuse_text(&self, prefix: &str) -> (r: String)
        ensures
            r@ == misuse_message(prefix@, *self),
    {
        let mut m = String::from_str(prefix);
        proof {
            reveal_strlit(" ");
        }
        m.append(" ");
        m.append(self.to_string().as_str());
        m
    }

    /// Calling a literal throws; with exceptions preserved the call goes on
    /// as on a value whose contents are unknown, otherwise it never
    /// completes.
    pub fn call(&self, analyzer: &mut Analyzer, dep: &Dep, this: &Entity, args: &Entity) -> (r: Entity)
        ensures
            ({
                let a1 = error_then(old(analyzer)@, misuse_message("Cannot call a non-function object"@, *self));
                if old(analyzer)@.config.preserve_exceptions {
                    let d = entity_dep_parts(literal_view(*self)) + dep@ + this.as_dep_spec() + args.as_dep_spec();
                    if a1.inside_pure {
                        &&& final(analyzer)@ == a1.log(EffectView::UnknownMutate(this@, d)).log(
                            EffectView::UnknownMutate(args@, d),
                        )
                        &&& r@ == EntityView { values: seq![Value::Unknown], dep: d }
                    } else {
                        &&& final(analyzer)@ == a1.log(EffectView::Consume(d)).log(EffectView::ReferGlobal)
                        &&& r@ == EntityView { values: seq![Value::Unknown], dep: Seq::empty() }
                    }
                } else {
                    final(analyzer)@ == a1 && r.values@.len() == 0 && r.dep@.len() == 0
                }
            }),
    {
        proof {
            reveal_strlit("Cannot call a non-function object");
        }
        let m = self.misuse_text("Cannot call a non-function object");
        analyzer.throw_builtin_error(m);
        if analyzer.config.preserve_exceptions {
            crate::consumed_object::call(&self.self_entity(), analyzer, dep, this, args)
        } else {
            Entity::never()
        }
    }

    /// Constructing with a literal throws; with exceptions preserved it goes
    /// on as on a value whose contents are unknown, otherwise it never
    /// completes.
    pub fn construct(&self, analyzer: &mut Analyzer, dep: &Dep, args: &Entity) -> (r: Entity)
        ensures
            ({
                let a1 = error_then(old(analyzer)@, misuse_message("Cannot construct a non-constructor object"@, *self));
                if old(analyzer)@.config.preserve_exceptions {
                    let d = entity_dep_parts(literal_view(*self)) + dep@ + args.as_dep_spec();
                    if a1.inside_pure {
                        &&& final(analyzer)@ == a1.log(EffectView::UnknownMutate(args@, d))
                        &&& r@ == EntityView { values: seq![Value::Unknown], dep: dep@ }
                    } else {
                        &&& final(analyzer)@ == a1.log(EffectView::Consume(d)).log(EffectView::ReferGlobal)
                        &&& r@ == EntityView { values: seq![Value::Unknown], dep: Seq::empty() }
                    }
                } else {
                    final(analyzer)@ == a1 && r.values@.len() == 0 && r.dep@.len() == 0
                }
            }),
    {
        proof {
            reveal_strlit("Cannot construct a non-constructor object");
        }
        let m = self.misuse_text("Cannot construct a non-constructor object");
        analyzer.throw_builtin_error(m);
        if analyzer.config.preserve_exceptions {
            crate::consumed_object::construct(&self.self_entity(), analyzer, dep, args)
        } else {
            Entity::never()
        }
    }

    /// Rendering a literal as a JSX element gives any value, depending on
    /// the literal and the props.
    pub fn jsx(&self, props: &Entity) -> (r: Entity)
        ensures
            r@ == (EntityView {
                values: seq![Value::Unknown],
                dep: entity_dep_parts(literal_view(*self)) + props.as_dep_spec(),
            }),
    {
        crate::consumed_object::jsx(&self.self_entity(), props)
    }

    /// Awaiting a literal gives the literal, depending on the await.
    pub fn await_value(&self, dep: &Dep) -> (r: Entity)
        ensures
            r@ == (EntityView { values: seq![Value::Literal(*self)], dep: dep@ }),
    {
        self.self_entity().computed(dep)
    }

    /// Iterates: a string gives any number of unknown strings (none when it
    /// is empty), depending on the string, the iteration and its mangling
    /// atom; iterating another literal throws, and then uses the literal and
    /// goes on as on a value whose contents are unknown when exceptions are
    /// preserved, or gives nothing.
    pub fn iterate(&self, analyzer: &mut Analyzer, dep: Dep) -> (r: IteratedElements)
        ensures
            r.elements@.len() == 0,
            *self is String ==> ({
                let v = self->String_0;
                let a = self->String_1;
                &&& final(analyzer)@ == old(analyzer)@
                &&& v@.len() == 0 ==> r.rest is None
                &&& v@.len() != 0 ==> (r.rest matches Some(u) && u@ == crate::primitive::primitive_view(
                    PrimitiveValue::String,
                ))
                &&& r.dep@ == entity_dep_parts(literal_view(*self)) + dep@ + atom_parts(a)
            }),
            !(*self is String) ==> ({
                let a1 = error_then(old(analyzer)@, "Cannot iterate over a non-iterable object"@);
                if old(analyzer)@.config.preserve_exceptions {
                    &&& r.rest matches Some(u) && u@ == (EntityView { values: seq![Value::Unknown], dep: Seq::empty() })
                    &&& a1.config.iterate_side_effects ==> final(analyzer)@ == a1.log(EffectView::Consume(dep@)).log(
                        EffectView::ReferGlobal,
                    ) && r.dep@.len() == 0
                    &&& !a1.config.iterate_side_effects ==> final(analyzer)@ == a1 && r.dep@ == dep@
                } else {
                    final(analyzer)@ == a1 && r.rest is None && r.dep@.len() == 0
                }
            }),
    {
        if let LiteralValue::String(value, atom) = self {
            let rest = if value.as_str().unicode_len() == 0 {
                None
            } else {
                Some(Entity::primitive(PrimitiveValue::String))
            };
            let d = crate::value::dep3(&self.self_entity().as_dep(), &dep, &atom_dep(*atom));
            return IteratedElements { elements: Vec::new(), rest, dep: d };
        }
        proof {
            reveal_strlit("Cannot iterate over a non-iterable object");
        }
        analyzer.throw_builtin_error(String::from_str("Cannot iterate over a non-iterable object"));
        if analyzer.config.preserve_exceptions {
            self.consume(analyzer);
            crate::consumed_object::iterate(analyzer, dep)
        } else {
            crate::never::NeverEntity.iterate()
        }
    }

    /// Conversion to a string: the literal's JavaScript text, keeping a
    /// string's mangling atom.
    pub fn get_to_string(&self) -> (r: Entity)
        ensures
            r.dep@.len() == 0,
            r.values@.len() == 1,
            r.values@[0] matches Value::Literal(LiteralValue::String(s, a)) && s@ == literal_to_string(*self) && a == (
                if *self is String { self->String_1 } else { None }),
    {
        let atom = match self {
            LiteralValue::String(_, a) => *a,
            _ => None,
        };
        Entity::from_value(Value::Literal(LiteralValue::String(self.to_string(), atom)))
    }

    /// Conversion to a boolean: the literal's truthiness.
    pub fn get_to_boolean(&self) -> (r: Entity)
        ensures
            r@ == (EntityView {
                values: seq![Value::Literal(LiteralValue::Boolean(crate::literal::literal_truthy(*self)))],
                dep: Seq::empty(),
            }),
    {
        match self.test_truthy() {
            Some(b) => Entity::boolean(b),
            None => Entity::boolean(false),
        }
    }

    /// Conversion to a property key: a symbol is its own key, anything else
    /// converts to a string.
    pub fn get_to_property_key(&self) -> (r: Entity)
        ensures
            *self is Symbol ==> r@ == literal_view(*self),
            !(*self is Symbol) ==> r.dep@.len() == 0 && r.values@.len() == 1 && (r.values@[0] matches Value::Literal(
                LiteralValue::String(s, a),
            ) && s@ == literal_to_string(*self) && a == (if *self is String { self->String_1 } else { None })),
    {
        match self {
            LiteralValue::Symbol(_, _) => self.self_entity(),
            _ => self.get_to_string(),
        }
    }

    /// Conversion to a JSX child: strings and numbers render as their text,
    /// everything else as the empty string.
    pub fn get_to_jsx_child(&self) -> (r: Entity)
        ensures
            r.dep@.len() == 0,
            r.values@.len() == 1,
            (crate::typeof_result::TYPEOF_STRING | crate::typeof_result::TYPEOF_NUMBER) & crate::literal::literal_typeof(
                *self,
            ) == crate::literal::literal_typeof(*self) ==> (r.values@[0] matches Value::Literal(
                LiteralValue::String(s, _),
            ) && s@ == literal_to_string(*self)),
            !((crate::typeof_result::TYPEOF_STRING | crate::typeof_result::TYPEOF_NUMBER) & crate::literal::literal_typeof(
                *self,
            ) == crate::literal::literal_typeof(*self)) ==> (r.values@[0] matches Value::Literal(
                LiteralValue::String(s, None),
            ) && s@.len() == 0),
    {
        let text = crate::typeof_result::TypeofResult::from_bits(
            crate::typeof_result::TYPEOF_STRING | crate::typeof_result::TYPEOF_NUMBER,
        );
        if text.contains(self.test_typeof()) {
            self.get_to_string()
        } else {
            Entity::string(String::new())
        }
    }

    /// The own keys: unknown for a string, none for any other literal.
    pub fn get_own_keys(&self) -> (r: Option<Vec<(bool, Entity)>>)
        ensures
            *self is String ==> r is None,
            !(*self is String) ==> (r matches Some(v) && v@.len() == 0),
    {
        match self {
            LiteralValue::String(_, _) => None,
            _ => Some(Vec::new()),
        }
    }

    /// Conversion to a number or bigint. Numbers, bigints, `NaN` and the
    /// infinities stay as they are; `true` is `1` and `false` and `null`
    /// are `0` (with their raw text); `undefined` is `NaN`; a symbol gives
    /// any value; a string gives `from_string`, the number its double value
    /// converts to (computed outside, where doubles are held), depending on
    /// its mangling atom.
    pub fn get_to_numeric(&self, from_string: &Option<LiteralValue>) -> (r: Entity)
        requires
            *self is String ==> (*from_string matches Some(n) && is_numeric_literal(n)),
        ensures
            is_numeric_literal(*self) || *self is BigInt ==> r@ == literal_view(*self),
            *self == LiteralValue::Boolean(true) ==> is_small_number(r@, crate::literal::ONE_BITS, seq!['1']),
            *self == LiteralValue::Boolean(false) || *self is Null ==> is_small_number(
                r@,
                crate::literal::POSITIVE_ZERO_BITS,
                seq!['0'],
            ),
            *self is Undefined ==> r@ == literal_view(LiteralValue::NaN),
            *self is Symbol ==> r@ == (EntityView { values: seq![Value::Unknown], dep: Seq::empty() }),
            *self is String ==> r@ == (EntityView {
                values: seq![Value::Literal(from_string->0)],
                dep: atom_parts(self->String_1),
            }),
    {
        proof {
            reveal_strlit("0");
            reveal_strlit("1");
        }
        match self {
            LiteralValue::Number(_, _) | LiteralValue::BigInt(_) | LiteralValue::NaN | LiteralValue::Infinity(_) => {
                self.self_entity()
            },
            LiteralValue::Boolean(true) => {
                let raw = String::from_str("1");
                assert(raw@ =~= seq!['1']);
                Entity::from_value(Value::Literal(LiteralValue::Number(JsNumber::one(), Some(raw))))
            },
            LiteralValue::Boolean(false) | LiteralValue::Null => {
                let raw = String::from_str("0");
                assert(raw@ =~= seq!['0']);
                Entity::from_value(Value::Literal(LiteralValue::Number(JsNumber::zero(), Some(raw))))
            },
            LiteralValue::Undefined => Entity::nan(),
            LiteralValue::Symbol(_, _) => Entity::unknown(),
            LiteralValue::String(_, atom) => {
                let n = match from_string {
                    Some(n) => n.duplicate(),
                    None => LiteralValue::NaN,
                };
                let r = Entity::from_value(Value::Literal(n)).computed(&atom_dep(*atom));
                proof {
                    assert(r.dep@ =~= atom_parts(self->String_1));
                }
                r
            },
        }
    }
}

} // verus!
