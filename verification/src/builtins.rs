use vstd::prelude::*;

use crate::entity::{Dep, DepPart, Entity, EntityView, Value};
use crate::literal::LiteralValue;
use crate::value::str_eq;

verus! {

/// The properties of a builtin prototype (`Array.prototype`,
/// `String.prototype`, ...): its name and its string- and symbol-keyed
/// entries. Later entries for a key override earlier ones.
pub struct BuiltinPrototype {
    pub name: String,
    pub string_keyed: Vec<(String, Entity)>,
    pub symbol_keyed: Vec<(u32, Entity)>,
}

/// The map that a list of string-keyed entries stands for.
pub open spec fn string_entries_map(s: Seq<(String, Entity)>) -> Map<Seq<char>, EntityView>
    decreases s.len(),
{
    if s.len() == 0 {
        Map::empty()
    } else {
        string_entries_map(s.drop_last()).insert(s.last().0@, s.last().1@)
    }
}

/// The map that a list of symbol-keyed entries stands for.
pub open spec fn symbol_entries_map(s: Seq<(u32, Entity)>) -> Map<u32, EntityView>
    decreases s.len(),
{
    if s.len() == 0 {
        Map::empty()
    } else {
        symbol_entries_map(s.drop_last()).insert(s.last().0, s.last().1@)
    }
}

/// The entity a lookup on a builtin prototype gives for a key it lacks.
pub open spec fn unmatched_view() -> EntityView {
    EntityView { values: seq![Value::UnmatchedPrototypeProperty], dep: Seq::empty() }
}

impl BuiltinPrototype {
    /// The string-keyed entries as a map.
    pub open spec fn strings(&self) -> Map<Seq<char>, EntityView> {
        string_entries_map(self.string_keyed@)
    }

    /// The symbol-keyed entries as a map.
    pub open spec fn symbols(&self) -> Map<u32, EntityView> {
        symbol_entries_map(self.symbol_keyed@)
    }

    /// An unnamed prototype with no entries.
    pub fn new_in() -> (r: BuiltinPrototype)
        ensures
            r.name@ == Seq::<char>::empty(),
            r.strings() == Map::<Seq<char>, EntityView>::empty(),
            r.symbols() == Map::<u32, EntityView>::empty(),
    {
        BuiltinPrototype { name: String::new(), string_keyed: Vec::new(), symbol_keyed: Vec::new() }
    }

    /// This prototype under the given name.
    pub fn with_name(self, name: String) -> (r: BuiltinPrototype)
        ensures
            r.name@ == name@,
            r.strings() == self.strings(),
            r.symbols() == self.symbols(),
    {
        let mut s = self;
        s.name = name;
        s
    }

    /// Sets the entry for a string key.
    pub fn insert_string_keyed(&mut self, key: String, value: Entity)
        ensures
            final(self).strings() == old(self).strings().insert(key@, value@),
            final(self).symbols() == old(self).symbols(),
            final(self).name == old(self).name,
    {
        self.string_keyed.push((key, value));
        proof {
            assert(self.string_keyed@.drop_last() =~= old(self).string_keyed@);
        }
    }

    /// Sets the entry for a symbol key.
    pub fn insert_symbol_keyed(&mut self, key: u32, value: Entity)
        ensures
            final(self).symbols() == old(self).symbols().insert(key, value@),
            final(self).strings() == old(self).strings(),
            final(self).name == old(self).name,
    {
        self.symbol_keyed.push((key, value));
        proof {
            assert(self.symbol_keyed@.drop_last() =~= old(self).symbol_keyed@);
        }
    }

    /// The entry for a string key, if any.
    pub fn get_string_keyed(&self, key: &str) -> (r: Option<Entity>)
        ensures
            r is Some <==> self.strings().contains_key(key@),
            r matches Some(e) ==> self.strings().contains_key(key@) && e@ == self.strings()[key@],
    {
        let mut i: usize = self.string_keyed.len();
        while i > 0
            invariant
                i <= self.string_keyed@.len(),
                forall|j: int| i <= j < self.string_keyed@.len() ==> #[trigger] self.string_keyed@[j].0@ != key@,
            decreases i,
        {
            if str_eq(self.string_keyed[i - 1].0.as_str(), key) {
                proof {
                    let s = self.string_keyed@;
                    lemma_string_suffix_free(s, i as int, key@);
                    assert(s.subrange(0, i as int).drop_last() =~= s.subrange(0, i - 1));
                }
                return Some(self.string_keyed[i - 1].1.clone());
            }
            i = i - 1;
        }
        proof {
            lemma_string_suffix_free(self.string_keyed@, 0, key@);
            assert(self.string_keyed@.subrange(0, 0) =~= Seq::<(String, Entity)>::empty());
        }
        None
    }

    /// The entry for a symbol key, if any.
    pub fn get_symbol_keyed(&self, key: u32) -> (r: Option<Entity>)
        ensures
            r is Some <==> self.symbols().contains_key(key),
            r matches Some(e) ==> self.symbols().contains_key(key) && e@ == self.symbols()[key],
    {
        let mut i: usize = self.symbol_keyed.len();
        while i > 0
            invariant
                i <= self.symbol_keyed@.len(),
                forall|j: int| i <= j < self.symbol_keyed@.len() ==> #[trigger] self.symbol_keyed@[j].0 != key,
            decreases i,
        {
            if self.symbol_keyed[i - 1].0 == key {
                proof {
                    let s = self.symbol_keyed@;
                    lemma_symbol_suffix_free(s, i as int, key);
                    assert(s.subrange(0, i as int).drop_last() =~= s.subrange(0, i - 1));
                }
                return Some(self.symbol_keyed[i - 1].1.clone());
            }
            i = i - 1;
        }
        proof {
            lemma_symbol_suffix_free(self.symbol_keyed@, 0, key);
            assert(self.symbol_keyed@.subrange(0, 0) =~= Seq::<(u32, Entity)>::empty());
        }
        None
    }
}

/// The prototype's entries for each of a sequence of literal keys: the
/// entry where it has one, the unmatched marker otherwise.
pub open spec fn proto_results(b: BuiltinPrototype, keys: Seq<LiteralValue>) -> Seq<EntityView>
    decreases keys.len(),
{
    if keys.len() == 0 {
        Seq::empty()
    } else {
        proto_results(b, keys.drop_last()).push(
            match crate::object::builtin_entry(b, crate::object::literal_key(keys.last()).0) {
                Some(e) => e,
                None => unmatched_view(),
            },
        )
    }
}

/// Whether a literal can serve as a property key: a string or a symbol.
pub open spec fn is_key_literal(l: LiteralValue) -> bool {
    l is String || l is Symbol
}

/// Whether every literal a key may be is a string or a symbol.
pub open spec fn literal_keys_are_keys(key: EntityView) -> bool {
    forall|i: int| 0 <= i < key.values.len() && (#[trigger] key.values[i]) is Literal ==> is_key_literal(
        key.values[i]->Literal_0,
    )
}

impl BuiltinPrototype {
    /// The entry for a property key, if any.
    pub fn get_keyed(&self, key: &crate::value::PropertyKeyValue) -> (r: Option<Entity>)
        ensures
            crate::value::opt_entity_view(r) == crate::object::builtin_entry(*self, key@),
    {
        match key {
            crate::value::PropertyKeyValue::String(s) => self.get_string_keyed(s.as_str()),
            crate::value::PropertyKeyValue::Symbol(id) => self.get_symbol_keyed(*id),
        }
    }

    /// The entry for a key given as a string or symbol literal, if any.
    pub fn get_literal_keyed(&self, key: &LiteralValue) -> (r: Option<Entity>)
        requires
            is_key_literal(*key),
        ensures
            crate::value::opt_entity_view(r) == crate::object::builtin_entry(*self, crate::object::literal_key(*key).0),
    {
        let (k, _) = crate::object::literal_to_key(key);
        self.get_keyed(&k)
    }

    /// Reads `key` of a value `target` that looks its properties up on this
    /// prototype: for literal keys the union of the entries (or the
    /// unmatched marker), otherwise any value; either way depending on the
    /// read, the target and the key.
    pub fn get_property(&self, target: &Entity, key: &Entity, dep: &Dep) -> (r: Entity)
        requires
            literal_keys_are_keys(key@),
        ensures
            ({
                let d = dep@ + crate::entity::entity_dep_parts(target@) + crate::entity::entity_dep_parts(key@);
                if crate::entity::all_literals(key@.values) {
                    let res = proto_results(*self, key@.values.map_values(|v: Value| v->Literal_0));
                    r@ == EntityView { values: crate::value::union_values(res), dep: crate::value::union_deps(res) + d }
                } else {
                    r@ == EntityView { values: seq![Value::Unknown], dep: d }
                }
            }),
    {
        let d = crate::value::dep3(dep, &target.as_dep(), &key.as_dep());
        match key.get_to_literals() {
            Some(lits) => {
                proof {
                    assert forall|i: int| 0 <= i < lits@.len() implies is_key_literal(#[trigger] lits@[i]) by {
                        assert(key@.values[i] == Value::Literal(lits@[i]));
                    }
                }
                let values = self.lookup_all(&lits);
                proof {
                    assert(lits@ =~= key@.values.map_values(|v: Value| v->Literal_0));
                }
                let u = crate::value::union_all(&values);
                u.computed(&d)
            },
            None => Entity::computed_unknown(d),
        }
    }

    /// The entries for each of the literal keys, or the unmatched marker.
    fn lookup_all(&self, lits: &Vec<LiteralValue>) -> (r: Vec<Entity>)
        requires
            forall|i: int| 0 <= i < lits@.len() ==> is_key_literal(#[trigger] lits@[i]),
        ensures
            crate::value::entity_views(r@) == proto_results(*self, lits@),
    {
        let mut r: Vec<Entity> = Vec::new();
        let mut i: usize = 0;
        while i < lits.len()
            invariant
                i <= lits@.len(),
                forall|j: int| 0 <= j < lits@.len() ==> is_key_literal(#[trigger] lits@[j]),
                crate::value::entity_views(r@) == proto_results(*self, lits@.subrange(0, i as int)),
            decreases lits@.len() - i,
        {
            let e = match self.get_literal_keyed(&lits[i]) {
                Some(e) => e,
                None => Entity::from_value(Value::UnmatchedPrototypeProperty),
            };
            proof {
                let sub = lits@.subrange(0, i + 1);
                assert(sub.drop_last() =~= lits@.subrange(0, i as int));
                assert(sub.last() == lits@[i as int]);
                crate::value::lemma_views_push(r@, e);
            }
            r.push(e);
            i = i + 1;
        }
        proof {
            assert(lits@.subrange(0, lits@.len() as int) =~= lits@);
        }
        r
    }
}

proof fn lemma_string_suffix_free(s: Seq<(String, Entity)>, i: int, k: Seq<char>)
    requires
        0 <= i <= s.len(),
        forall|j: int| i <= j < s.len() ==> #[trigger] s[j].0@ != k,
    ensures
        string_entries_map(s).contains_key(k) == string_entries_map(s.subrange(0, i)).contains_key(k),
        string_entries_map(s).contains_key(k) ==> string_entries_map(s)[k] == string_entries_map(
            s.subrange(0, i),
        )[k],
    decreases s.len(),
{
    if s.len() == i {
        assert(s.subrange(0, i) =~= s);
    } else {
        let t = s.drop_last();
        assert(s.last().0@ != k);
        assert forall|j: int| i <= j < t.len() implies #[trigger] t[j].0@ != k by {
            assert(t[j] == s[j]);
        }
        lemma_string_suffix_free(t, i, k);
        assert(t.subrange(0, i) =~= s.subrange(0, i));
    }
}

proof fn lemma_symbol_suffix_free(s: Seq<(u32, Entity)>, i: int, k: u32)
    requires
        0 <= i <= s.len(),
        forall|j: int| i <= j < s.len() ==> #[trigger] s[j].0 != k,
    ensures
        symbol_entries_map(s).contains_key(k) == symbol_entries_map(s.subrange(0, i)).contains_key(k),
        symbol_entries_map(s).contains_key(k) ==> symbol_entries_map(s)[k] == symbol_entries_map(
            s.subrange(0, i),
        )[k],
    decreases s.len(),
{
    if s.len() == i {
        assert(s.subrange(0, i) =~= s);
    } else {
        let t = s.drop_last();
        assert(s.last().0 != k);
        assert forall|j: int| i <= j < t.len() implies #[trigger] t[j].0 != k by {
            assert(t[j] == s[j]);
        }
        lemma_symbol_suffix_free(t, i, k);
        assert(t.subrange(0, i) =~= s.subrange(0, i));
    }
}


/// The global bindings the analysis knows, by name; a later entry for a
/// name overrides an earlier one.
pub struct Builtins {
    pub globals: Vec<(String, Entity)>,
}

/// The global constants: `undefined`, `Infinity`, `NaN`, and, as any
/// value, `eval`, `RegExp` and `Array`; `$$DEBUG$$` is the debugging
/// builtin with id `debug_id`.
pub open spec fn global_constants(debug_id: u64) -> Map<Seq<char>, EntityView> {
    let lit = |l: LiteralValue| EntityView { values: seq![Value::Literal(l)], dep: Seq::empty() };
    let unknown = EntityView { values: seq![Value::Unknown], dep: Seq::empty() };
    Map::empty().insert("undefined"@, lit(LiteralValue::Undefined)).insert("Infinity"@, lit(LiteralValue::Infinity(true))).insert(
        "NaN"@,
        lit(LiteralValue::NaN),
    ).insert("eval"@, unknown).insert("RegExp"@, unknown).insert("Array"@, unknown).insert(
        "$$DEBUG$$"@,
        EntityView { values: seq![Value::BuiltinFn(debug_id)], dep: Seq::empty() },
    )
}

impl Builtins {
    /// The globals as a map.
    pub open spec fn globals_map(&self) -> Map<Seq<char>, EntityView> {
        string_entries_map(self.globals@)
    }

    /// No globals yet.
    pub fn new() -> (r: Builtins)
        ensures
            r.globals_map() == Map::<Seq<char>, EntityView>::empty(),
    {
        Builtins { globals: Vec::new() }
    }

    /// Adds a global binding.
    fn insert_global(&mut self, name: &str, value: Entity)
        ensures
            final(self).globals_map() == old(self).globals_map().insert(name@, value@),
    {
        let ghost e = value@;
        self.globals.push((name.to_owned(), value));
        proof {
            assert(self.globals@.drop_last() =~= old(self).globals@);
        }
    }

    /// Defines the global constants (see `global_constants`), the
    /// debugging builtin getting the id `debug_id`.
    pub fn init_global_constants(&mut self, debug_id: u64)
        ensures
            final(self).globals_map() == old(self).globals_map().union_prefer_right(global_constants(debug_id)),
    {
        proof {
            reveal_strlit("undefined");
            reveal_strlit("Infinity");
            reveal_strlit("NaN");
            reveal_strlit("eval");
            reveal_strlit("RegExp");
            reveal_strlit("Array");
            reveal_strlit("$$DEBUG$$");
        }
        self.insert_global("undefined", Entity::undefined());
        self.insert_global("Infinity", Entity::from_value(Value::Literal(LiteralValue::Infinity(true))));
        self.insert_global("NaN", Entity::nan());
        self.insert_global("eval", Entity::unknown());
        self.insert_global("RegExp", Entity::unknown());
        self.insert_global("Array", Entity::unknown());
        self.insert_global("$$DEBUG$$", Entity::from_value(Value::BuiltinFn(debug_id)));
        proof {
            assert(self.globals_map() =~= old(self).globals_map().union_prefer_right(global_constants(debug_id)));
        }
    }

    /// Defines the globals the analysis starts with: the global constants
    /// (see `global_constants`), each replacing an earlier global of its
    /// name; every other global stays as it was. The globals of the `Object`
    /// constructor are not among them: this library does not define them.
    pub fn init_globals(&mut self, debug_id: u64)
        ensures
            final(self).globals_map() == old(self).globals_map().union_prefer_right(global_constants(debug_id)),
    {
        self.init_global_constants(debug_id);
    }
}

} // verus!
