use vstd::prelude::*;

use crate::analyzer::{Analyzer, AnalyzerView, EffectView};
use crate::entity::{entity_dep_parts, values_typeof, Dep, DepPart, Entity, EntityView, Value};
use crate::literal::LiteralValue;
use crate::primitive::PrimitiveValue;
use crate::typeof_result::{TYPEOF_OBJECT, TYPEOF_PRIMITIVE};
use crate::value::entity_views;

verus! {

/// The arguments of a call: the known leading ones and, after them, a
/// value standing for any further ones.
#[derive(Debug)]
pub struct ArgumentsValue {
    pub elements: Vec<Entity>,
    pub rest: Option<Entity>,
}

/// Fresh dependency atoms tied to a cached call: the call itself, `this`,
/// each argument, and the further arguments.
#[derive(Debug)]
pub struct FnCacheTrackDeps {
    pub call_id: u64,
    pub this: u64,
    pub args: Vec<u64>,
    pub rest: Option<u64>,
}

/// `e`, additionally depending on the atom `a`.
pub open spec fn with_atom(e: EntityView, a: u64) -> EntityView {
    EntityView { values: e.values, dep: e.dep + seq![DepPart::Atom(a)] }
}

impl FnCacheTrackDeps {
    /// Makes `this` and every argument depend on a fresh atom of its own,
    /// handed out in order (`this`, the arguments, the further arguments),
    /// and returns the atoms.
    pub fn wrap(analyzer: &mut Analyzer, call_id: u64, this: &mut Entity, args: &mut ArgumentsValue) -> (r: FnCacheTrackDeps)
        requires
            old(analyzer)@.next_atom + old(args).elements@.len() + 2 <= u64::MAX,
        ensures
            ({
                let n = old(analyzer)@.next_atom;
                let len = old(args).elements@.len();
                &&& r.call_id == call_id
                &&& r.this == n
                &&& final(this)@ == with_atom(old(this)@, n)
                &&& r.args@.len() == len
                &&& final(args).elements@.len() == len
                &&& forall|i: int| 0 <= i < len ==> r.args@[i] == n + 1 + i
                &&& forall|i: int|
                    0 <= i < len ==> #[trigger] final(args).elements@[i]@ == with_atom(old(args).elements@[i]@, (n + 1 + i) as u64)
                &&& old(args).rest is None ==> r.rest is None && final(args).rest is None
                    && final(analyzer)@ == (AnalyzerView { next_atom: (n + 1 + len) as u64, ..old(analyzer)@ })
                &&& old(args).rest is Some ==> r.rest == Some((n + 1 + len) as u64) && (final(args).rest matches Some(x)
                    && x@ == with_atom(old(args).rest->0@, (n + 1 + len) as u64))
                    && final(analyzer)@ == (AnalyzerView { next_atom: (n + 2 + len) as u64, ..old(analyzer)@ })
            }),
    {
        let ghost n = analyzer@.next_atom;
        let ghost olds = args.elements@;
        let this_dep = analyzer.fresh_atom();
        let t = this.clone().computed(&Dep::atom(this_dep));
        *this = t;
        let mut arg_deps: Vec<u64> = Vec::new();
        let mut new_args: Vec<Entity> = Vec::new();
        let len = args.elements.len();
        let mut i: usize = 0;
        while i < len
            invariant
                i <= len,
                len == args.elements@.len(),
                args.elements@ == olds,
                analyzer@ == (AnalyzerView { next_atom: (n + 1 + i) as u64, ..old(analyzer)@ }),
                n == old(analyzer)@.next_atom,
                n + len + 2 <= u64::MAX,
                arg_deps@.len() == i,
                new_args@.len() == i,
                forall|j: int| 0 <= j < i ==> arg_deps@[j] == n + 1 + j,
                forall|j: int| 0 <= j < i ==> #[trigger] new_args@[j]@ == with_atom(olds[j]@, (n + 1 + j) as u64),
            decreases len - i,
        {
            let a = analyzer.fresh_atom();
            arg_deps.push(a);
            let e = args.elements[i].clone().computed(&Dep::atom(a));
            new_args.push(e);
            i = i + 1;
        }
        args.elements = new_args;
        let rest = match &args.rest {
            Some(x) => {
                let a = analyzer.fresh_atom();
                let e = x.clone().computed(&Dep::atom(a));
                args.rest = Some(e);
                Some(a)
            },
            None => None,
        };
        FnCacheTrackDeps { call_id, this: this_dep, args: arg_deps, rest }
    }
}

/// How often `id` occurs among the last `k` entries of `s`.
pub open spec fn occurrences_from_top(s: Seq<u64>, id: u64, k: int) -> int
    decreases k,
{
    if k <= 0 || k > s.len() {
        0
    } else {
        occurrences_from_top(s, id, k - 1) + if s[s.len() - k] == id { 1int } else { 0int }
    }
}

/// Whether this function instance recurses too deeply: scanning the calls
/// in progress from the innermost, it stops as soon as the instance has
/// been seen `max_depth` times.
#[verifier::loop_isolation(false)]
pub fn check_recursion(finite_recursion: bool, instance_id: u64, call_stack: &Vec<u64>, max_depth: usize) -> (r: bool)
    ensures
        r == (!finite_recursion && exists|k: int|
            1 <= k <= call_stack@.len() && call_stack@[call_stack@.len() - k] == instance_id
                && #[trigger] occurrences_from_top(call_stack@, instance_id, k) >= max_depth),
{
    if finite_recursion {
        return false;
    }
    let n = call_stack.len();
    let mut depth: usize = 0;
    let mut k: usize = 0;
    while k < n
        invariant
            k <= n,
            n == call_stack@.len(),
            depth == occurrences_from_top(call_stack@, instance_id, k as int),
            depth <= k,
            forall|j: int|
                1 <= j <= k && call_stack@[call_stack@.len() - j] == instance_id ==> #[trigger] occurrences_from_top(
                    call_stack@,
                    instance_id,
                    j,
                ) < max_depth,
        decreases n - k,
    {
        k = k + 1;
        proof {
            assert(occurrences_from_top(call_stack@, instance_id, k as int) == occurrences_from_top(
                call_stack@, instance_id, k - 1) + if call_stack@[n - k] == instance_id { 1int } else { 0int });
        }
        if call_stack[n - k] == instance_id {
            depth = depth + 1;
            if depth >= max_depth {
                proof {
                    assert(1 <= k <= call_stack@.len() && call_stack@[call_stack@.len() - k] == instance_id
                        && occurrences_from_top(call_stack@, instance_id, k as int) >= max_depth);
                    assert(exists|k2: int|
                        1 <= k2 <= call_stack@.len() && call_stack@[call_stack@.len() - k2] == instance_id
                            && #[trigger] occurrences_from_top(call_stack@, instance_id, k2) >= max_depth);
                }
                return true;
            }
        }
    }
    false
}

/// What a constructor call gives, from what the constructor returned and
/// the new object: the returned value where it is an object, the new
/// object where it is a primitive, both where it may be either.
pub open spec fn construct_result_spec(ret: EntityView, this: EntityView) -> Option<EntityView> {
    let bits = values_typeof(ret.values);
    let is_object = bits & TYPEOF_OBJECT != 0;
    let is_primitive = bits & TYPEOF_PRIMITIVE != 0;
    if is_object && is_primitive {
        Some(EntityView { values: ret.values + this.values, dep: ret.dep + this.dep })
    } else if is_object {
        Some(ret)
    } else if is_primitive {
        Some(this)
    } else {
        None
    }
}

/// What a constructor call gives (see `construct_result_spec`; `None`
/// stands for a value that never occurs).
pub fn construct_result(ret: Entity, this: Entity) -> (r: Entity)
    ensures
        construct_result_spec(ret@, this@) matches Some(v) ==> r@ == v,
        construct_result_spec(ret@, this@) is None ==> r.values@.len() == 0 && r.dep@.len() == 0,
{
    let t = ret.test_typeof();
    let is_object = t.intersects(crate::typeof_result::TypeofResult::from_bits(TYPEOF_OBJECT));
    let is_primitive = t.intersects(crate::typeof_result::TypeofResult::from_bits(TYPEOF_PRIMITIVE));
    if is_object && is_primitive {
        ret.union(&this)
    } else if is_object {
        ret
    } else if is_primitive {
        this
    } else {
        Entity::never()
    }
}

/// A value as a cache key.
#[derive(Debug)]
pub enum Cacheable {
    Unknown,
    Never,
    String(String),
    Literal(LiteralValue),
    Primitive(PrimitiveValue),
    Object(u64),
    Array(u64),
    ModuleObject(u32),
    Function(u64),
    BuiltinFn(String),
    Union(Vec<Cacheable>),
}

/// Whether a key stands for a value that can be copied into a cached
/// result: anything but objects and arrays, and unions of such.
pub open spec fn copyable(c: Cacheable) -> bool
    decreases c,
{
    match c {
        Cacheable::Array(_) => false,
        Cacheable::Object(_) => false,
        Cacheable::Union(u) => forall|i: int| 0 <= i < u@.len() ==> copyable(#[trigger] u@[i]),
        _ => true,
    }
}

impl Cacheable {
    /// Whether the value can be copied into a cached result.
    #[verifier::loop_isolation(false)]
    pub fn is_copyable(&self) -> (r: bool)
        ensures
            r == copyable(*self),
        decreases self,
    {
        match self {
            Cacheable::Array(_) | Cacheable::Object(_) => false,
            Cacheable::Union(u) => {
                let mut i: usize = 0;
                while i < u.len()
                    invariant
                        i <= u@.len(),
                        forall|j: int| 0 <= j < i ==> copyable(#[trigger] u@[j]),
                    decreases u@.len() - i,
                {
                    proof {
                        let uv = self->Union_0;
                        assert(decreases_to!(*self => uv));
                        assert(decreases_to!(uv => uv@));
                        assert(decreases_to!(uv@ => uv@[i as int]));
                    }
                    if !u[i].is_copyable() {
                        return false;
                    }
                    i = i + 1;
                }
                true
            },
            _ => true,
        }
    }
}

/// Whether two cache keys are the same key.
pub open spec fn cacheable_same(a: Cacheable, b: Cacheable) -> bool
    decreases a,
{
    match (a, b) {
        (Cacheable::Unknown, Cacheable::Unknown) => true,
        (Cacheable::Never, Cacheable::Never) => true,
        (Cacheable::String(s1), Cacheable::String(s2)) => s1@ == s2@,
        (Cacheable::Literal(l1), Cacheable::Literal(l2)) => crate::literal::literal_same(l1, l2),
        (Cacheable::Primitive(p1), Cacheable::Primitive(p2)) => p1 == p2,
        (Cacheable::Object(x), Cacheable::Object(y)) => x == y,
        (Cacheable::Array(x), Cacheable::Array(y)) => x == y,
        (Cacheable::ModuleObject(x), Cacheable::ModuleObject(y)) => x == y,
        (Cacheable::Function(x), Cacheable::Function(y)) => x == y,
        (Cacheable::BuiltinFn(s1), Cacheable::BuiltinFn(s2)) => s1@ == s2@,
        (Cacheable::Union(u1), Cacheable::Union(u2)) => u1@.len() == u2@.len() && forall|i: int|
            0 <= i < u1@.len() ==> cacheable_same(#[trigger] u1@[i], u2@[i]),
        _ => false,
    }
}

/// Whether a literal is among the values of a primitive kind: its `typeof`
/// result is that of the kind (any literal for the mixed kind).
pub open spec fn primitive_admits(p: PrimitiveValue, l: LiteralValue) -> bool {
    crate::primitive::primitive_typeof(p) & crate::literal::literal_typeof(l) == crate::literal::literal_typeof(l)
}

/// Whether a result cached for inputs described by `a` may be reused for
/// inputs described by `b`: `a` unknown or `b` never; a mixed primitive for
/// any primitive; a primitive kind for a literal of it; for a union `b`,
/// every member; for a union `a`, some member; otherwise the same key.
pub open spec fn compatible(a: Cacheable, b: Cacheable) -> bool
    decreases a, b,
{
    if a is Unknown || b is Never {
        true
    } else if a == Cacheable::Primitive(PrimitiveValue::Mixed) && b is Primitive {
        true
    } else if a is Primitive && b is Literal {
        primitive_admits(a->Primitive_0, b->Literal_0)
    } else if b is Union {
        forall|i: int| 0 <= i < b->Union_0@.len() ==> compatible(a, #[trigger] b->Union_0@[i])
    } else if a is Union {
        exists|i: int| 0 <= i < a->Union_0@.len() && compatible(#[trigger] a->Union_0@[i], b)
    } else {
        cacheable_same(a, b)
    }
}

/// Every key is the same as itself.
pub proof fn lemma_same_reflexive(c: Cacheable)
    ensures
        cacheable_same(c, c),
    decreases c,
{
    if let Cacheable::Union(u) = c {
        assert forall|i: int| 0 <= i < u@.len() implies cacheable_same(#[trigger] u@[i], u@[i]) by {
            assert(decreases_to!(c => u));
            assert(decreases_to!(u => u@));
            assert(decreases_to!(u@ => u@[i]));
            lemma_same_reflexive(u@[i]);
        }
    }
}

/// A union covers every value that one of its members covers.
proof fn lemma_union_covers(u: Vec<Cacheable>, x: Cacheable, j: int)
    requires
        0 <= j < u@.len(),
        compatible(u@[j], x),
    ensures
        compatible(Cacheable::Union(u), x),
    decreases x,
{
    let a = Cacheable::Union(u);
    if let Cacheable::Union(v) = x {
        assert forall|k: int| 0 <= k < v@.len() implies compatible(a, #[trigger] v@[k]) by {
            assert(compatible(u@[j], v@[k]));
            assert(decreases_to!(x => v));
            assert(decreases_to!(v => v@));
            assert(decreases_to!(v@ => v@[k]));
            lemma_union_covers(u, v@[k], j);
        }
        assert(compatible(a, x));
    } else if !(x is Never) {
        assert(a->Union_0 == u);
        assert(compatible(a->Union_0@[j], x));
        assert(compatible(a, x));
    } else {
        assert(compatible(a, x));
    }
}

/// A result cached for some inputs may be reused for the same inputs.
pub proof fn law_compatible_reflexive(c: Cacheable)
    ensures
        compatible(c, c),
    decreases c,
{
    match c {
        Cacheable::Union(u) => {
            assert forall|i: int| 0 <= i < u@.len() implies compatible(c, #[trigger] u@[i]) by {
                assert(decreases_to!(c => u));
                assert(decreases_to!(u => u@));
                assert(decreases_to!(u@ => u@[i]));
                law_compatible_reflexive(u@[i]);
                lemma_union_covers(u, u@[i], i);
            }
        },
        Cacheable::Literal(l) => {
            lemma_same_reflexive(c);
            assert(crate::primitive::primitive_typeof(PrimitiveValue::Mixed) == 255u8);
        },
        _ => {
            lemma_same_reflexive(c);
        },
    }
}

impl Cacheable {
    /// Whether two cache keys are the same key.
    pub fn same_as(&self, other: &Cacheable) -> (r: bool)
        ensures
            r == cacheable_same(*self, *other),
        decreases self,
    {
        match (self, other) {
            (Cacheable::Unknown, Cacheable::Unknown) => true,
            (Cacheable::Never, Cacheable::Never) => true,
            (Cacheable::String(s1), Cacheable::String(s2)) => crate::value::str_eq(s1.as_str(), s2.as_str()),
            (Cacheable::Literal(l1), Cacheable::Literal(l2)) => l1.same_as(l2),
            (Cacheable::Primitive(p1), Cacheable::Primitive(p2)) => *p1 == *p2,
            (Cacheable::Object(x), Cacheable::Object(y)) => *x == *y,
            (Cacheable::Array(x), Cacheable::Array(y)) => *x == *y,
            (Cacheable::ModuleObject(x), Cacheable::ModuleObject(y)) => *x == *y,
            (Cacheable::Function(x), Cacheable::Function(y)) => *x == *y,
            (Cacheable::BuiltinFn(s1), Cacheable::BuiltinFn(s2)) => crate::value::str_eq(s1.as_str(), s2.as_str()),
            (Cacheable::Union(u1), Cacheable::Union(u2)) => {
                if u1.len() != u2.len() {
                    return false;
                }
                let mut i: usize = 0;
                while i < u1.len()
                    invariant
                        i <= u1@.len(),
                        u1@.len() == u2@.len(),
                        *self == Cacheable::Union(*u1),
                        *other == Cacheable::Union(*u2),
                        forall|j: int| 0 <= j < i ==> cacheable_same(#[trigger] u1@[j], u2@[j]),
                    decreases u1@.len() - i,
                {
                    proof {
                        let uv = self->Union_0;
                        assert(decreases_to!(*self => uv));
                        assert(decreases_to!(uv => uv@));
                        assert(decreases_to!(uv@ => uv@[i as int]));
                    }
                    if !u1[i].same_as(&u2[i]) {
                        return false;
                    }
                    i = i + 1;
                }
                true
            },
            _ => false,
        }
    }

    /// Whether a result cached for inputs described by `self` may be reused
    /// for inputs described by `other` (see `compatible`).
    pub fn is_compatible(&self, other: &Cacheable) -> (r: bool)
        ensures
            r == compatible(*self, *other),
        decreases self, other,
    {
        match (self, other) {
            (Cacheable::Unknown, _) => true,
            (_, Cacheable::Never) => true,
            (Cacheable::Primitive(PrimitiveValue::Mixed), Cacheable::Primitive(_)) => true,
            (Cacheable::Primitive(p), Cacheable::Literal(l)) => {
                let kind = p.test_typeof();
                kind.contains(l.test_typeof())
            },
            (_, Cacheable::Union(u2)) => {
                let mut i: usize = 0;
                while i < u2.len()
                    invariant
                        i <= u2@.len(),
                        *other == Cacheable::Union(*u2),
                        !(*self is Unknown),
                        forall|j: int| 0 <= j < i ==> compatible(*self, #[trigger] u2@[j]),
                    decreases u2@.len() - i,
                {
                    proof {
                        let uv = other->Union_0;
                        assert(decreases_to!(*other => uv));
                        assert(decreases_to!(uv => uv@));
                        assert(decreases_to!(u2@ => u2@[i as int]));
                    }
                    if !self.is_compatible(&u2[i]) {
                        return false;
                    }
                    i = i + 1;
                }
                true
            },
            (Cacheable::Union(u1), _) => {
                let mut i: usize = 0;
                while i < u1.len()
                    invariant
                        i <= u1@.len(),
                        *self == Cacheable::Union(*u1),
                        !(*other is Union),
                        !(*other is Never),
                        forall|j: int| 0 <= j < i ==> !compatible(#[trigger] u1@[j], *other),
                    decreases u1@.len() - i,
                {
                    proof {
                        let uv = self->Union_0;
                        assert(decreases_to!(*self => uv));
                        assert(decreases_to!(uv => uv@));
                        assert(decreases_to!(uv@ => uv@[i as int]));
                    }
                    if u1[i].is_compatible(other) {
                        return true;
                    }
                    i = i + 1;
                }
                false
            },
            _ => self.same_as(other),
        }
    }
}

impl LiteralValue {
    /// This literal as a cache key: a string without its mangling atom,
    /// any other literal as it is.
    pub fn as_cacheable(&self) -> (r: Cacheable)
        ensures
            r == (match *self {
                LiteralValue::String(s, _) => Cacheable::Literal(LiteralValue::String(s, None)),
                l => Cacheable::Literal(l),
            }),
    {
        match self {
            LiteralValue::String(s, _) => Cacheable::Literal(LiteralValue::String(s.clone(), None)),
            l => Cacheable::Literal(l.duplicate()),
        }
    }
}

/// A reference to a prototype: an object by its id, or unknown, with the
/// dependency that stands for it.
#[derive(Debug)]
pub enum PrototypeRef {
    Custom(u64),
    Unknown(Dep),
}

/// The state of a function's own objects (its static properties and its
/// `prototype`): not created yet, created, or consumed.
#[derive(Debug, Clone, Copy)]
pub enum FnObjectsState {
    Uninit { cf_scope: u64, mangling_group: (Option<u64>, Option<u64>) },
    Init { statics: u64, prototype: u64 },
    Consumed,
}

/// A function's own objects, created on first use.
#[derive(Debug)]
pub struct FnObjects {
    pub state: FnObjectsState,
}

/// The dependency that consuming an object by its id makes.
pub open spec fn object_dep(id: u64) -> Seq<DepPart> {
    seq![DepPart::Value(Value::Object(id))]
}

impl FnObjects {
    /// Not yet created objects for a function defined in the current scope,
    /// with the mangling groups given for its node, if any.
    pub fn new(analyzer: &Analyzer, mangling_groups: Option<(u64, u64)>) -> (r: FnObjects)
        requires
            analyzer@.cf_stack.len() > 0,
        ensures
            r.state == (FnObjectsState::Uninit {
                cf_scope: analyzer@.cf_stack.last().id,
                mangling_group: match mangling_groups {
                    Some((m1, m2)) => (Some(m1), Some(m2)),
                    None => (None, None),
                },
            }),
    {
        let cf_scope = analyzer.cf_stack[analyzer.cf_stack.len() - 1].id;
        let mangling_group = match mangling_groups {
            Some((m1, m2)) => (Some(m1), Some(m2)),
            None => (None, None),
        };
        FnObjects { state: FnObjectsState::Uninit { cf_scope, mangling_group } }
    }

    /// Whether the objects have been consumed.
    pub fn is_consumed(&self) -> (r: bool)
        ensures
            r == (self.state is Consumed),
    {
        matches!(self.state, FnObjectsState::Consumed)
    }

    /// Creates the objects: the prototype first, then the statics, with
    /// fresh ids.
    fn force_init(analyzer: &mut Analyzer) -> (r: (u64, u64))
        requires
            old(analyzer)@.next_atom + 2 <= u64::MAX,
        ensures
            r.1 == old(analyzer)@.next_atom,
            r.0 == old(analyzer)@.next_atom + 1,
            final(analyzer)@ == (AnalyzerView { next_atom: (old(analyzer)@.next_atom + 2) as u64, ..old(analyzer)@ }),
    {
        let prototype = analyzer.fresh_atom();
        let statics = analyzer.fresh_atom();
        (statics, prototype)
    }

    /// The objects (statics, prototype), created on first use; the same
    /// ones every later time.
    pub fn get_objects(&mut self, analyzer: &mut Analyzer) -> (r: (u64, u64))
        requires
            !(old(self).state is Consumed),
            old(analyzer)@.next_atom + 2 <= u64::MAX,
        ensures
            old(self).state matches FnObjectsState::Init { statics, prototype } ==> r == (statics, prototype)
                && final(self).state == old(self).state && final(analyzer)@ == old(analyzer)@,
            old(self).state is Uninit ==> r == ((old(analyzer)@.next_atom + 1) as u64, old(analyzer)@.next_atom)
                && final(self).state == (FnObjectsState::Init { statics: r.0, prototype: r.1 })
                && final(analyzer)@ == (AnalyzerView {
                    next_atom: (old(analyzer)@.next_atom + 2) as u64,
                    ..old(analyzer)@
                }),
    {
        match self.state {
            FnObjectsState::Uninit { .. } => {
                let (statics, prototype) = Self::force_init(analyzer);
                self.state = FnObjectsState::Init { statics, prototype };
                (statics, prototype)
            },
            FnObjectsState::Init { statics, prototype } => (statics, prototype),
            FnObjectsState::Consumed => {
                proof {
                    assert(false);
                }
                (0, 0)
            },
        }
    }

    /// The objects as values: unknown once consumed.
    pub fn get(&mut self, analyzer: &mut Analyzer) -> (r: (Value, Value))
        requires
            old(analyzer)@.next_atom + 2 <= u64::MAX,
        ensures
            old(self).state is Consumed ==> r == (Value::Unknown, Value::Unknown) && final(self).state
                == old(self).state && final(analyzer)@ == old(analyzer)@,
            !(old(self).state is Consumed) ==> (final(self).state matches FnObjectsState::Init { statics, prototype }
                && r == (Value::Object(statics), Value::Object(prototype))),
            old(self).state is Init ==> final(self).state == old(self).state && final(analyzer)@ == old(analyzer)@,
    {
        if self.is_consumed() {
            (Value::Unknown, Value::Unknown)
        } else {
            let (statics, prototype) = self.get_objects(analyzer);
            (Value::Object(statics), Value::Object(prototype))
        }
    }

    /// The statics object as a value.
    pub fn statics(&mut self, analyzer: &mut Analyzer) -> (r: Value)
        requires
            old(analyzer)@.next_atom + 2 <= u64::MAX,
        ensures
            old(self).state is Consumed ==> r == Value::Unknown,
            !(old(self).state is Consumed) ==> (final(self).state matches FnObjectsState::Init { statics, prototype }
                && r == Value::Object(statics)),
    {
        self.get(analyzer).0
    }

    /// The prototype object as a value.
    pub fn prototype(&mut self, analyzer: &mut Analyzer) -> (r: Value)
        requires
            old(analyzer)@.next_atom + 2 <= u64::MAX,
        ensures
            old(self).state is Consumed ==> r == Value::Unknown,
            !(old(self).state is Consumed) ==> (final(self).state matches FnObjectsState::Init { statics, prototype }
                && r == Value::Object(prototype)),
    {
        self.get(analyzer).1
    }

    /// Consumes the objects: created objects are consumed, statics first;
    /// from then on they count as unknown.
    pub fn consume(&mut self, analyzer: &mut Analyzer)
        ensures
            final(self).state is Consumed,
            old(self).state matches FnObjectsState::Init { statics, prototype } ==> final(analyzer)@ == old(
                analyzer,
            )@.log(EffectView::Consume(object_dep(statics))).log(EffectView::Consume(object_dep(prototype))),
            !(old(self).state is Init) ==> final(analyzer)@ == old(analyzer)@,
    {
        let prev = self.state;
        self.state = FnObjectsState::Consumed;
        if let FnObjectsState::Init { statics, prototype } = prev {
            let d1 = Entity::from_value(Value::Object(statics)).as_dep();
            analyzer.consume(d1);
            let d2 = Entity::from_value(Value::Object(prototype)).as_dep();
            analyzer.consume(d2);
            proof {
                assert(d1@ =~= object_dep(statics));
                assert(d2@ =~= object_dep(prototype));
            }
        }
    }

    /// The prototype object, unless consumed.
    pub fn prototype_object(&mut self, analyzer: &mut Analyzer) -> (r: Option<u64>)
        requires
            old(analyzer)@.next_atom + 2 <= u64::MAX,
        ensures
            old(self).state is Consumed ==> r is None,
            !(old(self).state is Consumed) ==> (final(self).state matches FnObjectsState::Init { statics, prototype }
                && r == Some(prototype)),
    {
        if self.is_consumed() {
            None
        } else {
            let (_, prototype) = self.get_objects(analyzer);
            Some(prototype)
        }
    }

    /// What `new` on the function uses: the dependency, and the prototypes
    /// of the statics and of new instances; unknown (standing for `dep`)
    /// once consumed.
    pub fn get_constructor_prototype(&mut self, analyzer: &mut Analyzer, dep: Dep) -> (r: (Dep, PrototypeRef, PrototypeRef))
        requires
            old(analyzer)@.next_atom + 2 <= u64::MAX,
        ensures
            r.0@ == dep@,
            old(self).state is Consumed ==> (r.1 matches PrototypeRef::Unknown(d1) && d1@ == dep@) && (r.2 matches PrototypeRef::Unknown(
                d2,
            ) && d2@ == dep@),
            !(old(self).state is Consumed) ==> (final(self).state matches FnObjectsState::Init { statics, prototype }
                && r.1 == PrototypeRef::Custom(statics) && r.2 == PrototypeRef::Custom(prototype)),
    {
        if self.is_consumed() {
            (dep.clone(), PrototypeRef::Unknown(dep.clone()), PrototypeRef::Unknown(dep))
        } else {
            let (statics, prototype) = self.get_objects(analyzer);
            (dep, PrototypeRef::Custom(statics), PrototypeRef::Custom(prototype))
        }
    }
}

} // verus!
