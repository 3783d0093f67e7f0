use vstd::prelude::*;
use vstd::string::*;
use vstd::utf8::{encode_utf8, is_char_boundary};

verus! {

/// Counters of function calls and of the function cache.
#[derive(Debug, Clone, Copy, PartialEq, Eq, Structural)]
pub struct FnStatsData {
    pub total_calls: usize,
    pub cache_attempts: usize,
    pub cache_hits: usize,
    pub cache_misses: usize,
    pub cache_updates: usize,
    pub miss_config_disabled: usize,
    pub miss_non_copyable_this: usize,
    pub miss_non_copyable_args: usize,
    pub miss_rest_params: usize,
    pub miss_non_copyable_return: usize,
    pub miss_state_untrackable: usize,
    pub miss_read_dep_incompatible: usize,
    pub miss_cache_empty: usize,
}

/// All counters at zero.
pub open spec fn zero_stats() -> FnStatsData {
    FnStatsData {
        total_calls: 0,
        cache_attempts: 0,
        cache_hits: 0,
        cache_misses: 0,
        cache_updates: 0,
        miss_config_disabled: 0,
        miss_non_copyable_this: 0,
        miss_non_copyable_args: 0,
        miss_rest_params: 0,
        miss_non_copyable_return: 0,
        miss_state_untrackable: 0,
        miss_read_dep_incompatible: 0,
        miss_cache_empty: 0,
    }
}

impl FnStatsData {
    /// All counters at zero.
    pub fn new() -> (r: FnStatsData)
        ensures
            r == zero_stats(),
    {
        FnStatsData {
            total_calls: 0,
            cache_attempts: 0,
            cache_hits: 0,
            cache_misses: 0,
            cache_updates: 0,
            miss_config_disabled: 0,
            miss_non_copyable_this: 0,
            miss_non_copyable_args: 0,
            miss_rest_params: 0,
            miss_non_copyable_return: 0,
            miss_state_untrackable: 0,
            miss_read_dep_incompatible: 0,
            miss_cache_empty: 0,
        }
    }
}

/// The counters of the cache as a whole.
#[derive(Debug, Clone, Copy, PartialEq, Eq, Structural)]
pub struct FnCacheStats {
    pub total_calls: usize,
    pub cache_attempts: usize,
    pub cache_hits: usize,
    pub cache_misses: usize,
    pub cache_updates: usize,
    pub miss_config_disabled: usize,
    pub miss_non_copyable_this: usize,
    pub miss_non_copyable_args: usize,
    pub miss_rest_params: usize,
    pub miss_non_copyable_return: usize,
    pub miss_state_untrackable: usize,
    pub miss_read_dep_incompatible: usize,
    pub miss_cache_empty: usize,
    pub cache_table_size: usize,
}

impl FnCacheStats {
    /// All counters at zero.
    pub fn new() -> (r: FnCacheStats)
        ensures
            r == (FnCacheStats {
                total_calls: 0,
                cache_attempts: 0,
                cache_hits: 0,
                cache_misses: 0,
                cache_updates: 0,
                miss_config_disabled: 0,
                miss_non_copyable_this: 0,
                miss_non_copyable_args: 0,
                miss_rest_params: 0,
                miss_non_copyable_return: 0,
                miss_state_untrackable: 0,
                miss_read_dep_incompatible: 0,
                miss_cache_empty: 0,
                cache_table_size: 0,
            }),
    {
        FnCacheStats {
            total_calls: 0,
            cache_attempts: 0,
            cache_hits: 0,
            cache_misses: 0,
            cache_updates: 0,
            miss_config_disabled: 0,
            miss_non_copyable_this: 0,
            miss_non_copyable_args: 0,
            miss_rest_params: 0,
            miss_non_copyable_return: 0,
            miss_state_untrackable: 0,
            miss_read_dep_incompatible: 0,
            miss_cache_empty: 0,
            cache_table_size: 0,
        }
    }
}

/// Call and cache statistics, overall and per function name.
#[derive(Debug)]
pub struct FnStats {
    pub overall: FnStatsData,
    pub per_function: Vec<(String, FnStatsData)>,
    pub cache_table_size: usize,
}

/// The statistics by name of a list of entries; a later entry for a name
/// replaces an earlier one.
pub open spec fn stats_map(entries: Seq<(String, FnStatsData)>) -> Map<Seq<char>, FnStatsData>
    decreases entries.len(),
{
    if entries.len() == 0 {
        Map::empty()
    } else {
        stats_map(entries.drop_last()).insert(entries.last().0@, entries.last().1)
    }
}

/// Whether no name occurs twice.
pub open spec fn distinct_names(entries: Seq<(String, FnStatsData)>) -> bool {
    forall|i: int, j: int| 0 <= i < j < entries.len() ==> (#[trigger] entries[i]).0@ != (#[trigger] entries[j]).0@
}

proof fn lemma_stats_map_update(entries: Seq<(String, FnStatsData)>, i: int, v: FnStatsData)
    requires
        distinct_names(entries),
        0 <= i < entries.len(),
    ensures
        stats_map(entries.update(i, (entries[i].0, v))) == stats_map(entries).insert(entries[i].0@, v),
    decreases entries.len(),
{
    let k = entries[i].0@;
    let e2 = entries.update(i, (entries[i].0, v));
    if i == entries.len() - 1 {
        assert(e2.drop_last() =~= entries.drop_last());
        assert(stats_map(e2) =~= stats_map(entries).insert(k, v));
    } else {
        let init = entries.drop_last();
        assert(distinct_names(init)) by {
            assert forall|a: int, b: int| 0 <= a < b < init.len() implies (#[trigger] init[a]).0@ != (#[trigger] init[b]).0@ by {
                assert(init[a] == entries[a] && init[b] == entries[b]);
            }
        }
        lemma_stats_map_update(init, i, v);
        assert(e2.drop_last() =~= init.update(i, (entries[i].0, v)));
        assert(entries.last().0@ != k) by {
            assert(entries[i] == entries[i]);
            assert(entries[entries.len() - 1] == entries.last());
        }
        assert(stats_map(e2) =~= stats_map(entries).insert(k, v));
    }
}

proof fn lemma_stats_map_missing(entries: Seq<(String, FnStatsData)>, k: Seq<char>)
    requires
        forall|i: int| 0 <= i < entries.len() ==> (#[trigger] entries[i]).0@ != k,
    ensures
        !stats_map(entries).contains_key(k),
    decreases entries.len(),
{
    if entries.len() > 0 {
        let init = entries.drop_last();
        assert forall|i: int| 0 <= i < init.len() implies (#[trigger] init[i]).0@ != k by {
            assert(init[i] == entries[i]);
        }
        lemma_stats_map_missing(init, k);
        assert(entries[entries.len() - 1] == entries.last());
    }
}

proof fn lemma_stats_map_at(entries: Seq<(String, FnStatsData)>, i: int)
    requires
        distinct_names(entries),
        0 <= i < entries.len(),
    ensures
        stats_map(entries).contains_key(entries[i].0@),
        stats_map(entries)[entries[i].0@] == entries[i].1,
    decreases entries.len(),
{
    if i < entries.len() - 1 {
        let init = entries.drop_last();
        assert(distinct_names(init)) by {
            assert forall|a: int, b: int| 0 <= a < b < init.len() implies (#[trigger] init[a]).0@ != (#[trigger] init[b]).0@ by {
                assert(init[a] == entries[a] && init[b] == entries[b]);
            }
        }
        lemma_stats_map_at(init, i);
        assert(init[i] == entries[i]);
        assert(entries[entries.len() - 1] == entries.last());
    }
}

impl FnStats {
    /// No statistics yet.
    pub fn new() -> (r: FnStats)
        ensures
            r.overall == zero_stats(),
            r.per_function@.len() == 0,
            r.cache_table_size == 0,
    {
        FnStats { overall: FnStatsData::new(), per_function: Vec::new(), cache_table_size: 0 }
    }

    /// Whether no function name has two entries.
    pub open spec fn wf(&self) -> bool {
        distinct_names(self.per_function@)
    }

    /// The statistics by function name.
    pub open spec fn by_name(&self) -> Map<Seq<char>, FnStatsData> {
        stats_map(self.per_function@)
    }

    /// The counters of the function `fn_name`, created at zero on first
    /// use; what is written through the result becomes its counters.
    pub fn get_or_create_fn_stats(&mut self, fn_name: &str) -> (r: &mut FnStatsData)
        requires
            old(self).wf(),
        ensures
            final(self).wf(),
            *r == (if old(self).by_name().contains_key(fn_name@) { old(self).by_name()[fn_name@] } else { zero_stats() }),
            final(self).by_name() == old(self).by_name().insert(fn_name@, *final(r)),
            final(self).overall == old(self).overall,
            final(self).cache_table_size == old(self).cache_table_size,
    {
        let ghost es = self.per_function@;
        let found = self.find_name(fn_name);
        let i: usize = match found {
            Some(j) => j,
            None => self.per_function.len(),
        };
        if found.is_none() {
            proof {
                lemma_stats_map_missing(es, fn_name@);
            }
            self.per_function.push((fn_name.to_owned(), FnStatsData::new()));
            proof {
                let es2 = self.per_function@;
                assert(es2.drop_last() =~= es);
                assert(distinct_names(es2)) by {
                    assert forall|a: int, b: int| 0 <= a < b < es2.len() implies (#[trigger] es2[a]).0@ != (#[trigger] es2[b]).0@ by {
                        if b < es.len() {
                            assert(es2[a] == es[a] && es2[b] == es[b]);
                        } else {
                            assert(es2[a] == es[a]);
                        }
                    }
                }
                lemma_stats_map_at(es2, es.len() as int);
            }
        } else {
            proof {
                lemma_stats_map_at(es, i as int);
            }
        }
        let ghost es1 = self.per_function@;
        let ghost idx = i as int;
        proof {
            assert(es1[idx].0@ == fn_name@);
            lemma_stats_map_update(es1, idx, es1[idx].1);
            assert(es1.update(idx, (es1[idx].0, es1[idx].1)) =~= es1);
        }
        let entry = &mut self.per_function[i];
        let r = &mut entry.1;
        proof {
            assert(distinct_names(es1.update(idx, (es1[idx].0, *final(r))))) by {
                let e2 = es1.update(idx, (es1[idx].0, *final(r)));
                assert forall|a: int, b: int| 0 <= a < b < e2.len() implies (#[trigger] e2[a]).0@ != (#[trigger] e2[b]).0@ by {
                    assert(e2[a].0 == es1[a].0 && e2[b].0 == es1[b].0);
                }
            }
            lemma_stats_map_update(es1, idx, *final(r));
        }
        r
    }

    /// The index of the entry for `fn_name`, if any.
    fn find_name(&self, fn_name: &str) -> (r: Option<usize>)
        ensures
            r matches Some(i) ==> i < self.per_function@.len() && self.per_function@[i as int].0@ == fn_name@,
            r is None ==> forall|j: int| 0 <= j < self.per_function@.len() ==> (#[trigger] self.per_function@[j]).0@ != fn_name@,
    {
        let mut i: usize = 0;
        while i < self.per_function.len()
            invariant
                i <= self.per_function@.len(),
                forall|j: int| 0 <= j < i ==> (#[trigger] self.per_function@[j]).0@ != fn_name@,
            decreases self.per_function@.len() - i,
        {
            if crate::value::str_eq(self.per_function[i].0.as_str(), fn_name) {
                return Some(i);
            }
            i = i + 1;
        }
        None
    }

    /// `name` cut to at most `max_len` bytes: as it is when short enough,
    /// otherwise its first `max_len - 3` bytes followed by `...`.
    pub fn truncate_name(name: &str, max_len: usize) -> (r: String)
        requires
            name.spec_bytes().len() > max_len ==> max_len >= 3 && is_char_boundary(
                name.spec_bytes(),
                max_len - 3,
            ),
        ensures
            name.spec_bytes().len() <= max_len ==> r@ == name@,
            name.spec_bytes().len() > max_len ==> r@.len() >= 3 && r@.skip(r@.len() - 3) == "..."@
                && encode_utf8(r@.take(r@.len() - 3)) == name.spec_bytes().take(
                max_len - 3,
            ),
    {
        let n = name.as_bytes().len();
        if n <= max_len {
            name.to_owned()
        } else {
            let (head, _) = name.split_at(max_len - 3);
            proof {
                reveal_strlit("...");
            }
            let h = head.to_owned();
            let r = h.concat("...");
            proof {
                assert("..."@.len() == 3);
                assert(r@ == head@ + "..."@);
                assert(r@.take(r@.len() - 3) =~= head@);
                assert(r@.skip(r@.len() - 3) =~= "..."@);
                assert(head.spec_bytes() =~= name.spec_bytes().take(max_len - 3));
            }
            r
        }
    }
}


/// The number of calls above which a function is listed in a summary.
pub const BUSY_CALLS: usize = 100;

/// The views of stats entries.
pub open spec fn entry_views(s: Seq<(String, FnStatsData)>) -> Seq<(Seq<char>, FnStatsData)> {
    s.map_values(|e: (String, FnStatsData)| (e.0@, e.1))
}

/// The entries of functions called more than `BUSY_CALLS` times, in order.
pub open spec fn busy_entries(s: Seq<(Seq<char>, FnStatsData)>) -> Seq<(Seq<char>, FnStatsData)>
    decreases s.len(),
{
    if s.len() == 0 {
        s
    } else if s.last().1.total_calls > BUSY_CALLS {
        busy_entries(s.drop_last()).push(s.last())
    } else {
        busy_entries(s.drop_last())
    }
}

/// Whether entries come by call count, most called first.
pub open spec fn sorted_by_calls(s: Seq<(Seq<char>, FnStatsData)>) -> bool {
    forall|i: int, j: int| 0 <= i < j < s.len() ==> (#[trigger] s[i]).1.total_calls >= (#[trigger] s[j]).1.total_calls
}

impl FnStats {
    /// The functions called more than `BUSY_CALLS` times, most called
    /// first.
    pub fn top_functions(&self) -> (r: Vec<(String, FnStatsData)>)
        ensures
            sorted_by_calls(entry_views(r@)),
            entry_views(r@).to_multiset() == busy_entries(entry_views(self.per_function@)).to_multiset(),
    {
        let ghost es = entry_views(self.per_function@);
        let mut r: Vec<(String, FnStatsData)> = Vec::new();
        let mut i: usize = 0;
        proof {
            assert(es.subrange(0, 0) =~= Seq::<(Seq<char>, FnStatsData)>::empty());
            assert(entry_views(r@) =~= Seq::<(Seq<char>, FnStatsData)>::empty());
        }
        while i < self.per_function.len()
            invariant
                i <= self.per_function@.len(),
                es == entry_views(self.per_function@),
                sorted_by_calls(entry_views(r@)),
                entry_views(r@).to_multiset() == busy_entries(es.subrange(0, i as int)).to_multiset(),
            decreases self.per_function@.len() - i,
        {
            let ghost sub = es.subrange(0, i + 1);
            proof {
                assert(sub.drop_last() =~= es.subrange(0, i as int));
                assert(sub.last() == es[i as int]);
            }
            let calls = self.per_function[i].1.total_calls;
            if calls > BUSY_CALLS {
                let ghost rv = entry_views(r@);
                let mut p: usize = 0;
                while p < r.len() && r[p].1.total_calls >= calls
                    invariant
                        p <= r@.len(),
                        rv == entry_views(r@),
                        forall|j: int| 0 <= j < p ==> (#[trigger] rv[j]).1.total_calls >= calls,
                    decreases r@.len() - p,
                {
                    p = p + 1;
                }
                let x = (self.per_function[i].0.clone(), self.per_function[i].1);
                r.insert(p, x);
                proof {
                    let nv = entry_views(r@);
                    assert(nv =~= rv.insert(p as int, (x.0@, x.1)));
                    assert(p < rv.len() ==> rv[p as int].1.total_calls < calls);
                    assert forall|a: int, b: int| 0 <= a < b < nv.len() implies (#[trigger] nv[a]).1.total_calls >= (#[trigger] nv[b]).1.total_calls by {
                        if b < p {
                        } else if b == p {
                            assert(nv[a] == rv[a]);
                        } else if a < p {
                            assert(nv[b] == rv[b - 1]);
                            assert(nv[a] == rv[a]);
                        } else if a == p {
                            assert(nv[b] == rv[b - 1]);
                            assert(rv[p as int].1.total_calls < calls);
                            if b - 1 > p {
                                assert(rv[p as int].1.total_calls >= rv[b - 1].1.total_calls);
                            }
                        } else {
                            assert(nv[a] == rv[a - 1]);
                            assert(nv[b] == rv[b - 1]);
                        }
                    }
                    vstd::seq_lib::to_multiset_insert(rv, p as int, (x.0@, x.1));
                    vstd::seq_lib::to_multiset_build(busy_entries(es.subrange(0, i as int)), es[i as int]);
                }
            }
            i = i + 1;
        }
        proof {
            assert(es.subrange(0, self.per_function@.len() as int) =~= es);
        }
        r
    }
}


/// Why a function call found no cached result.
#[derive(Debug, Clone, Copy, PartialEq, Eq, Structural)]
pub enum MissReason {
    ConfigDisabled,
    NonCopyableThis,
    NonCopyableArgs,
    RestParams,
    NonCopyableReturn,
    StateUntrackable,
    ReadDepIncompatible,
    CacheEmpty,
}

/// The miss counters of `d`, each with its reason, in the order a summary
/// lists them.
pub open spec fn miss_counts_of(d: FnStatsData) -> Seq<(MissReason, usize)> {
    seq![
        (MissReason::ConfigDisabled, d.miss_config_disabled),
        (MissReason::NonCopyableThis, d.miss_non_copyable_this),
        (MissReason::NonCopyableArgs, d.miss_non_copyable_args),
        (MissReason::RestParams, d.miss_rest_params),
        (MissReason::NonCopyableReturn, d.miss_non_copyable_return),
        (MissReason::StateUntrackable, d.miss_state_untrackable),
        (MissReason::ReadDepIncompatible, d.miss_read_dep_incompatible),
        (MissReason::CacheEmpty, d.miss_cache_empty),
    ]
}

/// The miss counters of the cache as a whole, as `miss_counts_of` lists
/// them.
pub open spec fn cache_miss_counts_of(d: FnCacheStats) -> Seq<(MissReason, usize)> {
    seq![
        (MissReason::ConfigDisabled, d.miss_config_disabled),
        (MissReason::NonCopyableThis, d.miss_non_copyable_this),
        (MissReason::NonCopyableArgs, d.miss_non_copyable_args),
        (MissReason::RestParams, d.miss_rest_params),
        (MissReason::NonCopyableReturn, d.miss_non_copyable_return),
        (MissReason::StateUntrackable, d.miss_state_untrackable),
        (MissReason::ReadDepIncompatible, d.miss_read_dep_incompatible),
        (MissReason::CacheEmpty, d.miss_cache_empty),
    ]
}

/// The rows of `s` with a count above zero, in order.
pub open spec fn nonzero_rows(s: Seq<(MissReason, usize)>) -> Seq<(MissReason, usize)>
    decreases s.len(),
{
    if s.len() == 0 {
        s
    } else if s.last().1 > 0 {
        nonzero_rows(s.drop_last()).push(s.last())
    } else {
        nonzero_rows(s.drop_last())
    }
}

/// The miss-reason section of a summary: absent when there was no miss,
/// otherwise a row for each reason counted at least once, in order.
pub fn miss_breakdown(cache_misses: usize, counts: &Vec<(MissReason, usize)>) -> (r: Option<Vec<(MissReason, usize)>>)
    ensures
        r is None <==> cache_misses == 0,
        r matches Some(v) ==> v@ == nonzero_rows(counts@),
{
    if cache_misses == 0 {
        return None;
    }
    let mut v: Vec<(MissReason, usize)> = Vec::new();
    let mut i: usize = 0;
    proof {
        assert(counts@.subrange(0, 0) =~= Seq::<(MissReason, usize)>::empty());
    }
    while i < counts.len()
        invariant
            i <= counts@.len(),
            v@ == nonzero_rows(counts@.subrange(0, i as int)),
        decreases counts@.len() - i,
    {
        let row = counts[i];
        proof {
            let sub = counts@.subrange(0, i + 1);
            assert(sub.drop_last() =~= counts@.subrange(0, i as int));
            assert(sub.last() == row);
        }
        if row.1 > 0 {
            v.push(row);
        }
        i = i + 1;
    }
    proof {
        assert(counts@.subrange(0, counts@.len() as int) =~= counts@);
    }
    Some(v)
}

impl FnStatsData {
    /// The miss counters with their reasons (see `miss_counts_of`).
    pub fn miss_counts(&self) -> (r: Vec<(MissReason, usize)>)
        ensures
            r@ == miss_counts_of(*self),
    {
        let r = vec![
            (MissReason::ConfigDisabled, self.miss_config_disabled),
            (MissReason::NonCopyableThis, self.miss_non_copyable_this),
            (MissReason::NonCopyableArgs, self.miss_non_copyable_args),
            (MissReason::RestParams, self.miss_rest_params),
            (MissReason::NonCopyableReturn, self.miss_non_copyable_return),
            (MissReason::StateUntrackable, self.miss_state_untrackable),
            (MissReason::ReadDepIncompatible, self.miss_read_dep_incompatible),
            (MissReason::CacheEmpty, self.miss_cache_empty),
        ];
        proof {
            assert(r@ =~= miss_counts_of(*self));
        }
        r
    }
}

impl FnCacheStats {
    /// The miss counters with their reasons (see `cache_miss_counts_of`).
    pub fn miss_counts(&self) -> (r: Vec<(MissReason, usize)>)
        ensures
            r@ == cache_miss_counts_of(*self),
    {
        let r = vec![
            (MissReason::ConfigDisabled, self.miss_config_disabled),
            (MissReason::NonCopyableThis, self.miss_non_copyable_this),
            (MissReason::NonCopyableArgs, self.miss_non_copyable_args),
            (MissReason::RestParams, self.miss_rest_params),
            (MissReason::NonCopyableReturn, self.miss_non_copyable_return),
            (MissReason::StateUntrackable, self.miss_state_untrackable),
            (MissReason::ReadDepIncompatible, self.miss_read_dep_incompatible),
            (MissReason::CacheEmpty, self.miss_cache_empty),
        ];
        proof {
            assert(r@ =~= cache_miss_counts_of(*self));
        }
        r
    }

    /// The miss-reason section of the cache summary (see `miss_breakdown`).
    pub fn summary_miss_rows(&self) -> (r: Option<Vec<(MissReason, usize)>>)
        ensures
            r is None <==> self.cache_misses == 0,
            r matches Some(v) ==> v@ == nonzero_rows(cache_miss_counts_of(*self)),
    {
        miss_breakdown(self.cache_misses, &self.miss_counts())
    }
}

/// Dropping entries never makes more of them.
proof fn lemma_busy_entries_len(s: Seq<(Seq<char>, FnStatsData)>)
    ensures
        busy_entries(s).len() <= s.len(),
    decreases s.len(),
{
    if s.len() > 0 {
        lemma_busy_entries_len(s.drop_last());
    }
}

impl FnStats {
    /// The miss-reason section of the summary (see `miss_breakdown`).
    pub fn summary_miss_rows(&self) -> (r: Option<Vec<(MissReason, usize)>>)
        ensures
            r is None <==> self.overall.cache_misses == 0,
            r matches Some(v) ==> v@ == nonzero_rows(miss_counts_of(self.overall)),
    {
        miss_breakdown(self.overall.cache_misses, &self.overall.miss_counts())
    }

    /// The top-functions section of the summary: absent when no function
    /// was recorded; otherwise the functions called more than `BUSY_CALLS`
    /// times, most called first (see `top_functions`), and how many others
    /// there are.
    pub fn summary_top_functions(&self) -> (r: Option<(Vec<(String, FnStatsData)>, usize)>)
        ensures
            r is None <==> self.per_function@.len() == 0,
            r matches Some(t) ==> {
                &&& sorted_by_calls(entry_views(t.0@))
                &&& entry_views(t.0@).to_multiset() == busy_entries(entry_views(self.per_function@)).to_multiset()
                &&& t.0@.len() + t.1 == self.per_function@.len()
            },
    {
        if self.per_function.len() == 0 {
            return None;
        }
        let top = self.top_functions();
        proof {
            let es = entry_views(self.per_function@);
            lemma_busy_entries_len(es);
            vstd::seq_lib::to_multiset_len(entry_views(top@));
            vstd::seq_lib::to_multiset_len(busy_entries(es));
            assert(entry_views(top@).len() == top@.len());
            assert(es.len() == self.per_function@.len());
        }
        let rest = self.per_function.len() - top.len();
        Some((top, rest))
    }
}

} // verus!
