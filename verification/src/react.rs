//! The memo table of `React.useMemo`: a result is computed where the
//! dependencies changed, and reused otherwise.

use vstd::prelude::*;
use crate::entity::{Dep, Entity, EntityView};

verus! {

/// Where a `useMemo` call stands: the module's id and the call's source
/// span (start and end).
pub type MemoSpan = (u32, u32, u32);

/// The memo map of a list of entries, a later entry for a span replacing
/// an earlier one.
pub open spec fn memo_map(s: Seq<(MemoSpan, Entity)>) -> Map<MemoSpan, EntityView>
    decreases s.len(),
{
    if s.len() == 0 {
        Map::empty()
    } else {
        memo_map(s.drop_last()).insert(s.last().0, s.last().1@)
    }
}

/// The results remembered per `useMemo` call.
pub struct ReactMemos {
    entries: Vec<(MemoSpan, Entity)>,
}

impl View for ReactMemos {
    type V = Map<MemoSpan, EntityView>;

    closed spec fn view(&self) -> Map<MemoSpan, EntityView> {
        memo_map(self.entries@)
    }
}

/// What a `useMemo` call does next: call the calculation (its dependency
/// given) and remember its result, or give the remembered result.
pub enum UseMemoStep {
    Calculate(Dep),
    Reuse(Entity),
}

impl ReactMemos {
    /// No result remembered.
    pub fn new() -> (r: ReactMemos)
        ensures
            r@ == Map::<MemoSpan, EntityView>::empty(),
    {
        ReactMemos { entries: Vec::new() }
    }

    /// The index of the last entry for `span`, if any.
    fn find(&self, span: MemoSpan) -> (r: Option<usize>)
        ensures
            r is None <==> !self@.contains_key(span),
            r matches Some(i) ==> i < self.entries@.len() && self@[span] == self.entries@[i as int].1@,
    {
        let ghost es = self.entries@;
        let mut i: usize = self.entries.len();
        proof {
            assert(es.subrange(0, i as int) =~= es);
        }
        while i > 0
            invariant
                i <= es.len(),
                es == self.entries@,
                memo_map(es).contains_key(span) == memo_map(es.subrange(0, i as int)).contains_key(span),
                memo_map(es).contains_key(span) ==> memo_map(es)[span] == memo_map(es.subrange(0, i as int))[span],
            decreases i,
        {
            proof {
                let sub = es.subrange(0, i as int);
                assert(sub.drop_last() =~= es.subrange(0, i - 1));
                assert(sub.last() == es[i - 1]);
            }
            let at = self.entries[i - 1].0;
            if at.0 == span.0 && at.1 == span.1 && at.2 == span.2 {
                return Some(i - 1);
            }
            i = i - 1;
        }
        proof {
            assert(es.subrange(0, 0) =~= Seq::<(MemoSpan, Entity)>::empty());
        }
        None
    }

    /// Remembers `result` for the call at `span`, in place of an earlier one.
    pub fn record(&mut self, span: MemoSpan, result: Entity)
        ensures
            final(self)@ == old(self)@.insert(span, result@),
    {
        self.entries.push((span, result));
        proof {
            assert(self.entries@.drop_last() =~= old(self).entries@);
        }
    }

    /// The next step of a `useMemo` call at `span` (see `UseMemoStep`):
    /// where the dependencies changed, calculate with `dep`; otherwise the
    /// remembered result, depending on `dep` too. A call whose dependencies
    /// did not change has a remembered result.
    pub fn use_memo(&self, span: MemoSpan, changed: bool, dep: Dep) -> (r: UseMemoStep)
        requires
            !changed ==> self@.contains_key(span),
        ensures
            changed ==> (r matches UseMemoStep::Calculate(d) && d@ == dep@),
            !changed ==> (r matches UseMemoStep::Reuse(e) && e@ == (EntityView {
                values: self@[span].values,
                dep: self@[span].dep + dep@,
            })),
    {
        if changed {
            return UseMemoStep::Calculate(dep);
        }
        match self.find(span) {
            Some(i) => {
                let e = self.entries[i].1.clone().computed(&dep);
                UseMemoStep::Reuse(e)
            },
            None => UseMemoStep::Calculate(dep),
        }
    }
}

} // verus!
