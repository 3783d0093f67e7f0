use vstd::prelude::*;

use crate::analyzer::{Analyzer, AnalyzerView};
use crate::array::{undefined_view, ArrayValue};
use crate::entity::{Dep, DepPart, Entity, EntityView, Value};
use crate::value::{entity_views, union_deps, union_values, IteratedElements};

verus! {

// What is made of the elements a value iterates: their union, and their
// destructuring into a fixed number of bindings and a rest array.

/// `e` additionally depending on `d`.
pub open spec fn with_dep(e: EntityView, d: Seq<DepPart>) -> EntityView {
    EntityView { values: e.values, dep: e.dep + d }
}

/// The first `length` of `es`, filled up with `fill` where `es` is shorter.
pub open spec fn padded(es: Seq<EntityView>, fill: EntityView, length: nat) -> Seq<EntityView> {
    if es.len() >= length {
        es.take(length as int)
    } else {
        es + Seq::new((length - es.len()) as nat, |i: int| fill)
    }
}

/// What a binding past the known elements gets: the further elements, or
/// `undefined` where there are none.
pub open spec fn fill_of(rest: Option<Entity>) -> EntityView {
    match rest {
        Some(x) => x@,
        None => undefined_view(),
    }
}

/// The view of an optional further-elements value.
pub open spec fn rest_view(rest: Option<Entity>) -> Seq<EntityView> {
    match rest {
        Some(r) => seq![r@],
        None => Seq::empty(),
    }
}

impl IteratedElements {
    /// The leading elements as entity views.
    pub open spec fn elems(&self) -> Seq<EntityView> {
        entity_views(self.elements@)
    }

    /// Every value an element may be: the union of the leading elements and
    /// the further elements, depending on the iteration; nothing when there
    /// are no elements at all.
    pub fn result_union(&self) -> (r: Option<Entity>)
        ensures
            ({
                let all = self.elems() + rest_view(self.rest);
                &&& all.len() == 0 ==> r is None
                &&& all.len() != 0 ==> (r matches Some(u) && u@ == (EntityView {
                    values: union_values(all),
                    dep: union_deps(all) + self.dep@,
                }))
            }),
    {
        let mut all = crate::value::clone_entities(&self.elements);
        match &self.rest {
            Some(r) => {
                proof {
                    crate::value::lemma_views_push(all@, *r);
                }
                all.push(r.clone());
            },
            None => {},
        }
        proof {
            assert(entity_views(all@) =~= self.elems() + rest_view(self.rest));
        }
        if all.len() == 0 {
            None
        } else {
            Some(crate::value::union_all(&all).computed(&self.dep))
        }
    }

    /// Destructures the elements into `length` bindings and, where asked
    /// for, a rest array: each binding is the element at its place, or the
    /// further elements (`undefined` where there are none) past the known
    /// ones; the rest array, a new array in the current scope, holds the
    /// known elements past the bindings and then the further elements.
    /// Every binding and the rest array depend on the iteration.
    pub fn destruct_as_array(self, analyzer: &mut Analyzer, length: usize, need_rest: bool) -> (r: (
        Vec<Entity>,
        Option<(ArrayValue, Entity)>,
        Dep,
    ))
        requires
            need_rest ==> old(analyzer)@.cf_stack.len() > 0 && old(analyzer)@.next_atom < u64::MAX,
        ensures
            entity_views(r.0@) == padded(self.elems(), fill_of(self.rest), length as nat).map_values(
                |e: EntityView| with_dep(e, self.dep@),
            ),
            r.2@ == self.dep@,
            !need_rest ==> r.1 is None && final(analyzer)@ == old(analyzer)@,
            need_rest ==> (r.1 matches Some((arr, e)) && {
                &&& !arr.consumed && arr.deps.is_empty_spec()
                &&& arr.cf_scope == old(analyzer)@.cf_stack.last().id
                &&& arr.object_id == old(analyzer)@.next_atom
                &&& arr.elems() == (if self.elems().len() > length { self.elems().skip(length as int) } else { Seq::empty() })
                &&& arr.rests() == rest_view(self.rest)
                &&& e@ == (EntityView { values: seq![Value::Array(arr.object_id)], dep: self.dep@ })
                &&& final(analyzer)@ == (AnalyzerView { next_atom: (old(analyzer)@.next_atom + 1) as u64, ..old(analyzer)@ })
            }),
    {
        let ghost es = self.elems();
        let ghost fill = fill_of(self.rest);
        let n = self.elements.len();
        let mut bindings: Vec<Entity> = Vec::new();
        let mut i: usize = 0;
        while i < length
            invariant
                n == self.elements@.len(),
                es == self.elems(),
                fill == fill_of(self.rest),
                i <= length,
                bindings@.len() == i,
                forall|j: int| 0 <= j < i ==> (#[trigger] bindings@[j])@ == with_dep(
                    padded(es, fill, length as nat)[j],
                    self.dep@,
                ),
            decreases length - i,
        {
            let e = if i < n {
                self.elements[i].clone()
            } else {
                match &self.rest {
                    Some(x) => x.clone(),
                    None => Entity::undefined(),
                }
            };
            proof {
                if es.len() >= length {
                    assert(padded(es, fill, length as nat)[i as int] == es[i as int]);
                } else if i < n {
                    assert(padded(es, fill, length as nat)[i as int] == es[i as int]);
                } else {
                    assert(padded(es, fill, length as nat)[i as int] == fill);
                }
            }
            bindings.push(e.computed(&self.dep));
            i = i + 1;
        }
        proof {
            assert(entity_views(bindings@) =~= padded(es, fill, length as nat).map_values(
                |e: EntityView| with_dep(e, self.dep@),
            ));
        }
        if !need_rest {
            return (bindings, None, self.dep);
        }
        let mut arr = analyzer.new_empty_array();
        let ghost arr0 = arr;
        proof {
            assert(arr.elems() =~= Seq::<EntityView>::empty());
            assert(arr.rests() =~= Seq::<EntityView>::empty());
        }
        if length < n {
            let mut k: usize = length;
            proof {
                assert(es.subrange(length as int, length as int) =~= Seq::<EntityView>::empty());
            }
            while k < n
                invariant
                    n == self.elements@.len(),
                    es == self.elems(),
                    length <= k <= n,
                    !arr.consumed && arr.deps == arr0.deps && arr.cf_scope == arr0.cf_scope && arr.object_id
                        == arr0.object_id,
                    arr.rests() == Seq::<EntityView>::empty(),
                    arr.elems() == es.subrange(length as int, k as int),
                decreases n - k,
            {
                arr.push_element(self.elements[k].clone());
                proof {
                    assert(es.subrange(length as int, k + 1) =~= es.subrange(length as int, k as int).push(
                        es[k as int],
                    ));
                }
                k = k + 1;
            }
            proof {
                assert(es.subrange(length as int, n as int) =~= es.skip(length as int));
            }
        }
        match &self.rest {
            Some(x) => arr.init_rest(x.clone()),
            None => {},
        }
        proof {
            assert(arr.rests() =~= rest_view(self.rest));
        }
        let e = arr.self_entity().computed(&self.dep);
        proof {
            assert(e@ =~= (EntityView { values: seq![Value::Array(arr.object_id)], dep: self.dep@ }));
        }
        (bindings, Some((arr, e)), self.dep)
    }
}

/// The `arguments` array `Function.prototype.apply` passes on when its
/// second argument may be missing: an empty array in the current scope,
/// under the placeholder id 0.
pub open spec fn apply_array_view() -> EntityView {
    EntityView { values: seq![Value::Array(0)], dep: Seq::empty() }
}

/// Prepares a call through `Function.prototype.apply` from the elements its
/// arguments iterate: the first is `this`; the second is the arguments
/// array, replaced by an empty array where it is surely `undefined` and
/// joined with one where it may be. Returns `this`, the arguments, and the
/// empty array where one is used.
pub fn function_apply_arguments(analyzer: &mut Analyzer, it: IteratedElements) -> (r: (Entity, Entity, Option<ArrayValue>))
    requires
        old(analyzer)@.cf_stack.len() > 0,
    ensures
        final(analyzer)@ == old(analyzer)@,
        ({
            let b = padded(it.elems(), fill_of(it.rest), 2).map_values(|e: EntityView| with_dep(e, it.dep@));
            let arg = b[1];
            let t = crate::entity::values_typeof(arg.values);
            &&& r.0@ == b[0]
            &&& t == crate::typeof_result::TYPEOF_UNDEFINED ==> r.1@ == apply_array_view()
            &&& t & crate::typeof_result::TYPEOF_UNDEFINED == 0 ==> r.1@ == arg && r.2 is None
            &&& t != crate::typeof_result::TYPEOF_UNDEFINED && t & crate::typeof_result::TYPEOF_UNDEFINED != 0 ==> r.1@
                == (EntityView { values: arg.values + seq![Value::Array(0)], dep: arg.dep })
            &&& r.2 is Some ==> (r.2 matches Some(a) && !a.consumed && a.object_id == 0 && a.cf_scope
                == old(analyzer)@.cf_stack.last().id && a.elems().len() == 0 && a.rests().len() == 0)
            &&& (t & crate::typeof_result::TYPEOF_UNDEFINED != 0) ==> r.2 is Some
        }),
{
    let ghost b = padded(it.elems(), fill_of(it.rest), 2).map_values(|e: EntityView| with_dep(e, it.dep@));
    let (bindings, _, _) = it.destruct_as_array(analyzer, 2, false);
    proof {
        assert(entity_views(bindings@) == b);
        assert(b.len() == 2);
        assert(entity_views(bindings@).len() == bindings@.len());
        assert(entity_views(bindings@)[0] == bindings@[0]@);
        assert(entity_views(bindings@)[1] == bindings@[1]@);
        assert(bindings@[0]@ == b[0]);
        assert(bindings@[1]@ == b[1]);
    }
    let cf_scope = analyzer.cf_stack[analyzer.cf_stack.len() - 1].id;
    let arg = &bindings[1];
    let this_arg = bindings[0].clone();
    match arg.test_is_undefined() {
        Some(true) => {
            let a = ArrayValue::new_empty(cf_scope, 0);
            proof {
                assert(a.elems() =~= Seq::<EntityView>::empty());
                assert(a.rests() =~= Seq::<EntityView>::empty());
            }
            (this_arg, a.self_entity(), Some(a))
        },
        Some(false) => (this_arg, arg.clone(), None),
        None => {
            let a = ArrayValue::new_empty(cf_scope, 0);
            proof {
                assert(a.elems() =~= Seq::<EntityView>::empty());
                assert(a.rests() =~= Seq::<EntityView>::empty());
            }
            let u = arg.union(&a.self_entity());
            proof {
                assert(u.dep@ =~= arg@.dep);
            }
            (this_arg, u, Some(a))
        },
    }
}

} // verus!
