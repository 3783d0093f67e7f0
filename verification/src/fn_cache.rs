//! The decisions of the function cache: when two calls have the same key,
//! and when a cached result may be reused.

use vstd::prelude::*;
use crate::function::{cacheable_same, Cacheable};

verus! {

/// The inputs of a call as a cache key.
#[derive(Debug)]
pub struct FnCachedInput {
    pub is_ctor: bool,
    pub this: Cacheable,
    pub args: Vec<Cacheable>,
}

/// Whether two call inputs are the same key.
pub open spec fn input_same(a: FnCachedInput, b: FnCachedInput) -> bool {
    &&& a.is_ctor == b.is_ctor
    &&& cacheable_same(a.this, b.this)
    &&& a.args@.len() == b.args@.len()
    &&& forall|i: int| 0 <= i < a.args@.len() ==> cacheable_same(#[trigger] a.args@[i], b.args@[i])
}

impl FnCachedInput {
    /// Whether two call inputs are the same key.
    pub fn same_as(&self, other: &FnCachedInput) -> (r: bool)
        ensures
            r == input_same(*self, *other),
    {
        if self.is_ctor != other.is_ctor || !self.this.same_as(&other.this) || self.args.len() != other.args.len() {
            return false;
        }
        let mut i: usize = 0;
        while i < self.args.len()
            invariant
                i <= self.args@.len(),
                self.args@.len() == other.args@.len(),
                forall|j: int| 0 <= j < i ==> cacheable_same(#[trigger] self.args@[j], other.args@[j]),
            decreases self.args@.len() - i,
        {
            if !self.args[i].same_as(&other.args[i]) {
                return false;
            }
            i = i + 1;
        }
        true
    }
}

/// What a cached call read from one place, or what is there now: nothing
/// (`None`), or a value with its cache key where it has one.
pub type ReadValue = Option<Option<Cacheable>>;

/// Whether a read of the cached call still holds: nothing was there and
/// nothing is; or values are there both times, and they are the very same
/// value (`identical`) or have the same cache key.
pub open spec fn read_holds(last: ReadValue, current: ReadValue, identical: bool) -> bool {
    match (last, current) {
        (None, None) => true,
        (Some(a), Some(b)) => identical || (a is Some && b is Some && cacheable_same(a->0, b->0)),
        _ => false,
    }
}

/// Whether the reused result depends on the value now at a read's place:
/// values are there both times and they are not the very same value.
pub open spec fn read_adds_dep(last: ReadValue, current: ReadValue, identical: bool) -> bool {
    last is Some && current is Some && !identical
}

/// The indices below `n` of the reads whose current values the reused
/// result depends on, in order.
pub open spec fn dep_reads(last: Seq<ReadValue>, current: Seq<ReadValue>, identical: Seq<bool>, n: int) -> Seq<usize>
    decreases n,
{
    if n <= 0 {
        Seq::empty()
    } else if read_adds_dep(last[n - 1], current[n - 1], identical[n - 1]) {
        dep_reads(last, current, identical, n - 1).push((n - 1) as usize)
    } else {
        dep_reads(last, current, identical, n - 1)
    }
}

/// Whether a cached result may be reused, given what the cached call read
/// (`last`), what is at those places now (`current`) and which of those
/// are the very same values (`identical`): `None` where a read no longer
/// holds, otherwise the indices of the reads whose current values the
/// reused result depends on.
pub fn cache_hit(last: &Vec<ReadValue>, current: &Vec<ReadValue>, identical: &Vec<bool>) -> (r: Option<Vec<usize>>)
    requires
        last@.len() == current@.len(),
        last@.len() == identical@.len(),
    ensures
        r is Some <==> forall|i: int| 0 <= i < last@.len() ==> read_holds(#[trigger] last@[i], current@[i], identical@[i]),
        r matches Some(v) ==> v@ == dep_reads(last@, current@, identical@, last@.len() as int),
{
    let mut deps: Vec<usize> = Vec::new();
    let mut i: usize = 0;
    while i < last.len()
        invariant
            last@.len() == current@.len(),
            last@.len() == identical@.len(),
            i <= last@.len(),
            forall|j: int| 0 <= j < i ==> read_holds(#[trigger] last@[j], current@[j], identical@[j]),
            deps@ == dep_reads(last@, current@, identical@, i as int),
        decreases last@.len() - i,
    {
        let same = identical[i];
        let holds = match (&last[i], &current[i]) {
            (None, None) => true,
            (Some(a), Some(b)) => same || match (a, b) {
                (Some(x), Some(y)) => x.same_as(y),
                _ => false,
            },
            _ => false,
        };
        if !holds {
            return None;
        }
        if last[i].is_some() && current[i].is_some() && !same {
            deps.push(i);
        }
        i = i + 1;
    }
    Some(deps)
}

} // verus!
