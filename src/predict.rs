//! The PELT search: the partition table, selection of the best extension, and pruning.
use ahash::AHashMap;
use vstd::prelude::*;

use crate::candidates::{
    admission_point, candidates, first_candidate, grid_from, lemma_candidates_shape,
};
use crate::containers::{partition_table, table_get, table_insert, table_new, table_remove, MAX_ENDS};
use crate::cost::threading_threshold;
use crate::partition::{
    order_key, total_order_key, zero_sum, Candidate, Partition, PartitionView, RunningSum,
};
use crate::{Error, Pelt};

verus! {

/// Relies on `branches::unlikely`: it hands back the condition it is given.
pub assume_specification[ branches::unlikely ](b: bool) -> (r: bool)
    ensures
        r == b,
;

/// State of the search between breakpoints: the best partition ending at each processed
/// breakpoint, and the starts that are still admissible.
pub struct SearchState {
    /// Best partition ending at each processed breakpoint.
    pub table: Map<usize, PartitionView>,
    /// Starts still eligible for the segment that ends at the next breakpoint.
    pub admissible: Seq<usize>,
}

/// The state before the first breakpoint: the empty partition of the empty prefix, and no
/// admissible start yet.
pub open spec fn initial_state() -> SearchState {
    SearchState {
        table: Map::<usize, PartitionView>::empty().insert(
            0,
            PartitionView { ends: seq![], sum: zero_sum() },
        ),
        admissible: seq![],
    }
}

/// Every admissible start has a best partition, and leaves a segment of at least
/// `min_len` rows before `t`.
pub open spec fn starts_valid(
    table: Map<usize, PartitionView>,
    admissible: Seq<usize>,
    t: usize,
    min_len: usize,
) -> bool {
    forall|i: int|
        0 <= i < admissible.len() ==> table.contains_key(#[trigger] admissible[i])
            && admissible[i] + min_len <= t
}

/// The admissible starts with the running sums of their best partitions.
pub open spec fn requests(table: Map<usize, PartitionView>, admissible: Seq<usize>) -> Seq<
    Candidate,
> {
    Seq::new(
        admissible.len(),
        |i: int| Candidate { start: admissible[i], sum: table[admissible[i]].sum },
    )
}

/// The partitions that extend the best partition of each admissible start to `t`.
pub open spec fn extensions(
    table: Map<usize, PartitionView>,
    admissible: Seq<usize>,
    t: usize,
    sums: Seq<RunningSum>,
) -> Seq<PartitionView> {
    Seq::new(
        admissible.len(),
        |i: int| PartitionView { ends: table[admissible[i]].ends.push(t), sum: sums[i] },
    )
}

/// Index of the first running sum whose total is least in the total order.
pub open spec fn first_min(sums: Seq<RunningSum>) -> int
    decreases sums.len(),
{
    if sums.len() <= 1 {
        0
    } else {
        let best = first_min(sums.drop_last());
        if order_key(sums.last().total) < order_key(sums[best].total) {
            sums.len() - 1
        } else {
            best
        }
    }
}

/// The admissible starts whose extended total lies strictly below `threshold`, in order.
pub open spec fn retained(admissible: Seq<usize>, sums: Seq<RunningSum>, threshold: u64) -> Seq<
    usize,
>
    decreases admissible.len(),
{
    if admissible.len() == 0 {
        seq![]
    } else {
        let kept = retained(admissible.drop_last(), sums, threshold);
        if order_key(sums[admissible.len() - 1].total) < order_key(threshold) {
            kept.push(admissible.last())
        } else {
            kept
        }
    }
}

/// The running sums of some partitions.
pub open spec fn sums_of(parts: Seq<PartitionView>) -> Seq<RunningSum> {
    Seq::new(parts.len(), |i: int| parts[i].sum)
}

proof fn lemma_first_min(sums: Seq<RunningSum>)
    requires
        sums.len() >= 1,
    ensures
        0 <= first_min(sums) < sums.len(),
        forall|i: int|
            0 <= i < sums.len() ==> order_key(sums[first_min(sums)].total) <= order_key(
                #[trigger] sums[i].total,
            ),
        forall|i: int|
            0 <= i < first_min(sums) ==> order_key(sums[first_min(sums)].total) < order_key(
                #[trigger] sums[i].total,
            ),
    decreases sums.len(),
{
    if sums.len() > 1 {
        let init = sums.drop_last();
        lemma_first_min(init);
        let b = first_min(init);
        let last = sums.len() - 1;
        assert(init[b] == sums[b]);
        assert forall|i: int| 0 <= i < sums.len() implies order_key(
            sums[first_min(sums)].total,
        ) <= order_key(#[trigger] sums[i].total) by {
            if i < last {
                assert(init[i] == sums[i]);
                assert(order_key(init[b].total) <= order_key(init[i].total));
            }
        }
        assert forall|i: int| 0 <= i < first_min(sums) implies order_key(
            sums[first_min(sums)].total,
        ) < order_key(#[trigger] sums[i].total) by {
            if i < last {
                assert(init[i] == sums[i]);
            }
            if first_min(sums) == b {
                assert(order_key(init[b].total) < order_key(init[i].total));
            } else {
                assert(order_key(init[b].total) <= order_key(init[i].total));
            }
        }
    }
}

/// Pruning keeps exactly the admissible starts whose extended total lies strictly below the
/// threshold, in their order.
pub proof fn lemma_retained(admissible: Seq<usize>, sums: Seq<RunningSum>, threshold: u64)
    requires
        sums.len() == admissible.len(),
    ensures
        forall|x: usize|
            retained(admissible, sums, threshold).contains(x) <==> exists|i: int|
                0 <= i < admissible.len() && admissible[i] == x && order_key(
                    #[trigger] sums[i].total,
                ) < order_key(threshold),
        retained(admissible, sums, threshold).len() <= admissible.len(),
{
    lemma_retained_prefix(admissible, sums, threshold);
}

/// [`lemma_retained`] on a prefix of the admissible starts, whose sums run on.
proof fn lemma_retained_prefix(admissible: Seq<usize>, sums: Seq<RunningSum>, threshold: u64)
    requires
        sums.len() >= admissible.len(),
    ensures
        forall|x: usize|
            retained(admissible, sums, threshold).contains(x) <==> exists|i: int|
                0 <= i < admissible.len() && admissible[i] == x && order_key(
                    #[trigger] sums[i].total,
                ) < order_key(threshold),
        retained(admissible, sums, threshold).len() <= admissible.len(),
    decreases admissible.len(),
{
    if admissible.len() > 0 {
        let init = admissible.drop_last();
        let last = admissible.len() - 1;
        lemma_retained_prefix(init, sums, threshold);
        let kept = retained(init, sums, threshold);
        let all = retained(admissible, sums, threshold);
        let below = order_key(sums[last].total) < order_key(threshold);
        assert(all == if below { kept.push(admissible[last]) } else { kept });
        assert forall|x: usize|
            all.contains(x) <==> exists|i: int|
                0 <= i < admissible.len() && admissible[i] == x && order_key(
                    #[trigger] sums[i].total,
                ) < order_key(threshold) by {
            if all.contains(x) {
                let w = choose|w: int| 0 <= w < all.len() && all[w] == x;
                if w < kept.len() {
                    assert(kept[w] == x);
                    assert(kept.contains(x));
                    let i = choose|i: int|
                        0 <= i < init.len() && init[i] == x && order_key(
                            #[trigger] sums[i].total,
                        ) < order_key(threshold);
                    assert(admissible[i] == x);
                } else {
                    assert(below);
                    assert(admissible[last] == x);
                }
            }
            if exists|i: int|
                0 <= i < admissible.len() && admissible[i] == x && order_key(
                    #[trigger] sums[i].total,
                ) < order_key(threshold) {
                let i = choose|i: int|
                    0 <= i < admissible.len() && admissible[i] == x && order_key(
                        #[trigger] sums[i].total,
                    ) < order_key(threshold);
                if i < last {
                    assert(init[i] == x);
                    assert(kept.contains(x));
                    let w = choose|w: int| 0 <= w < kept.len() && kept[w] == x;
                    assert(all[w] == x);
                } else {
                    assert(all[all.len() - 1] == x);
                }
            }
        }
    }
}

/// Processing breakpoint `t`: admit a start, check every admissible start, extend their best
/// partitions to `t` with the running sums that `extend` computes, store the extension with the
/// least total, and keep the starts whose extension lies below that total plus the penalty
/// (as `add_penalty` computes it).
pub open spec fn search_step(
    s: SearchState,
    t: usize,
    pelt: Pelt,
    extend: spec_fn(usize, Seq<Candidate>, bool) -> Seq<RunningSum>,
    add_penalty: spec_fn(u64) -> u64,
) -> Result<SearchState, Error> {
    let admissible = s.admissible.push(admission_point(t, pelt.step(), pelt.min_len()));
    if !starts_valid(s.table, admissible, t, pelt.min_len()) {
        Err(Error::NotEnoughPoints)
    } else {
        let parallel = admissible.len() >= threading_threshold(pelt.model());
        let sums = extend(t, requests(s.table, admissible), parallel);
        if sums.len() != admissible.len() {
            Err(Error::NotEnoughPoints)
        } else {
            let best = first_min(sums);
            let chosen = PartitionView {
                ends: s.table[admissible[best]].ends.push(t),
                sum: sums[best],
            };
            Ok(
                SearchState {
                    table: s.table.insert(t, chosen),
                    admissible: retained(admissible, sums, add_penalty(sums[best].total)),
                },
            )
        }
    }
}

/// Processing the breakpoints `ts` in order, from state `s`; the first error ends the run.
pub open spec fn run_from(
    s: SearchState,
    ts: Seq<usize>,
    pelt: Pelt,
    extend: spec_fn(usize, Seq<Candidate>, bool) -> Seq<RunningSum>,
    add_penalty: spec_fn(u64) -> u64,
) -> Result<SearchState, Error>
    decreases ts.len(),
{
    if ts.len() == 0 {
        Ok(s)
    } else {
        match search_step(s, ts[0], pelt, extend, add_penalty) {
            Ok(next) => run_from(next, ts.drop_first(), pelt, extend, add_penalty),
            Err(e) => Err(e),
        }
    }
}

/// Change points that PELT finds in a signal of `n` rows: the segment ends of the best
/// partition of the whole signal, after every candidate breakpoint has been processed, led by
/// zero when the settings keep it.
pub open spec fn pelt_result(
    n: usize,
    pelt: Pelt,
    extend: spec_fn(usize, Seq<Candidate>, bool) -> Seq<RunningSum>,
    add_penalty: spec_fn(u64) -> u64,
) -> Result<Seq<usize>, Error> {
    match run_from(
        initial_state(),
        candidates(n, pelt.step(), pelt.min_len()),
        pelt,
        extend,
        add_penalty,
    ) {
        Ok(s) => if s.table.contains_key(n) {
            Ok(
                if pelt.keeps_zero() {
                    seq![0usize] + s.table[n].ends
                } else {
                    s.table[n].ends
                },
            )
        } else {
            Err(Error::NoSegmentsFound)
        },
        Err(e) => Err(e),
    }
}

/// `extend` returns only what `f` gives for its arguments.
pub open spec fn extends_by<E: Fn(usize, &Vec<Candidate>, bool) -> Vec<RunningSum>>(
    extend: E,
    f: spec_fn(usize, Seq<Candidate>, bool) -> Seq<RunningSum>,
) -> bool {
    forall|t: usize, c: &Vec<Candidate>, parallel: bool, out: Vec<RunningSum>|
        #[trigger] extend.ensures((t, c, parallel), out) ==> out@ == f(t, c@, parallel)
}

/// `add_penalty` returns only what `f` gives for its argument.
pub open spec fn adds_by<P: Fn(u64) -> u64>(add_penalty: P, f: spec_fn(u64) -> u64) -> bool {
    forall|b: u64, out: u64| #[trigger] add_penalty.ensures((b,), out) ==> out == f(b)
}

/// A result with its list of change points seen as a sequence.
pub open spec fn result_view(r: Result<Vec<usize>, Error>) -> Result<Seq<usize>, Error> {
    match r {
        Ok(v) => Ok(v@),
        Err(e) => Err(e),
    }
}

/// `v` lists change points of a signal of `n` rows: ascending segment ends, each segment at
/// least `min_len` rows long, the last one `n`, led by zero when `keep_zero` holds.
pub open spec fn breakpoints_ok(v: Seq<usize>, n: usize, min_len: usize, keep_zero: bool) -> bool {
    if keep_zero {
        v.len() >= 2 && v[0] == 0 && segments_ok(v.drop_first(), n, min_len)
    } else {
        v.len() >= 1 && segments_ok(v, n, min_len)
    }
}

/// Extending a best partition of an admissible start to `t` keeps the table well formed.
proof fn lemma_extension_ok(
    table: Map<usize, PartitionView>,
    admissible: Seq<usize>,
    t: usize,
    n: usize,
    min_len: usize,
    sums: Seq<RunningSum>,
    i: int,
)
    requires
        table_ok(table, n, min_len),
        starts_valid(table, admissible, t, min_len),
        min_len >= 1,
        t <= n,
        0 <= i < admissible.len(),
        sums.len() == admissible.len(),
    ensures
        table_ok(table.insert(t, extensions(table, admissible, t, sums)[i]), n, min_len),
{
    let a = admissible[i];
    assert(table.contains_key(a));
    let before = table[a].ends;
    let ends = before.push(t);
    assert(extensions(table, admissible, t, sums)[i].ends == ends);
    assert(segments_ok(ends, t, min_len)) by {
        if before.len() > 0 {
            assert(before.last() == a);
            assert forall|k: int| 1 <= k < ends.len() implies ends[k - 1] + min_len
                <= #[trigger] ends[k] by {
                if k < before.len() {
                    assert(ends[k - 1] == before[k - 1]);
                    assert(ends[k] == before[k]);
                }
            }
        } else {
            assert(a == 0);
        }
    }
    let next = table.insert(t, extensions(table, admissible, t, sums)[i]);
    assert forall|k: usize| #[trigger] next.contains_key(k) implies k <= n && next[k].ends.len()
        <= k && segments_ok(next[k].ends, k, min_len) by {
        if k != t {
            assert(table.contains_key(k));
        }
    }
}

/// Processing breakpoint `ts[k]` finds its admissible starts valid, whatever the costs: the
/// start it admits leaves a segment of at least `min_len` rows, and is zero or an earlier
/// breakpoint, whose best partition is known.
pub open spec fn admission_ok(ts: Seq<usize>, k: int, jump: usize, min_len: usize) -> bool {
    let t = ts[k];
    let a = admission_point(t, jump, min_len);
    &&& a + min_len <= t
    &&& (a == 0 || exists|l: int| 0 <= l < k && ts[l] == a)
}

/// Every candidate breakpoint of a signal of `n` rows finds its admissible starts valid.
pub open spec fn breakpoints_admissible(n: usize, jump: usize, min_len: usize) -> bool {
    forall|k: int|
        0 <= k < candidates(n, jump, min_len).len() ==> #[trigger] admission_ok(
            candidates(n, jump, min_len),
            k,
            jump,
            min_len,
        )
}

/// `extend` gives one running sum per start it is offered.
pub open spec fn one_sum_per_start(
    extend: spec_fn(usize, Seq<Candidate>, bool) -> Seq<RunningSum>,
) -> bool {
    forall|t: usize, c: Seq<Candidate>, parallel: bool| #[trigger] extend(t, c, parallel).len() == c.len()
}

/// What holds of the state before breakpoint `ts[k]`: the table holds zero and the earlier
/// breakpoints, and every admissible start is in it and at least `min_len` rows before the
/// previous breakpoint.
pub open spec fn run_invariant(s: SearchState, ts: Seq<usize>, k: int, min_len: usize) -> bool {
    &&& forall|x: usize|
        #[trigger] s.table.contains_key(x) <==> (x == 0 || exists|l: int|
            0 <= l < k && ts[l] == x)
    &&& forall|i: int|
        0 <= i < s.admissible.len() ==> s.table.contains_key(#[trigger] s.admissible[i]) && k
            > 0 && s.admissible[i] + min_len <= ts[k - 1]
}

proof fn lemma_run_outcome(
    s: SearchState,
    ts: Seq<usize>,
    k: int,
    pelt: Pelt,
    extend: spec_fn(usize, Seq<Candidate>, bool) -> Seq<RunningSum>,
    add_penalty: spec_fn(u64) -> u64,
)
    requires
        0 <= k <= ts.len(),
        forall|i: int, j: int| 0 <= i < j < ts.len() ==> #[trigger] ts[i] < #[trigger] ts[j],
        run_invariant(s, ts, k, pelt.min_len()),
        one_sum_per_start(extend),
    ensures
        run_from(s, ts.skip(k), pelt, extend, add_penalty) is Ok <==> forall|l: int|
            k <= l < ts.len() ==> #[trigger] admission_ok(ts, l, pelt.step(), pelt.min_len()),
        run_from(s, ts.skip(k), pelt, extend, add_penalty) matches Ok(last) ==> run_invariant(
            last,
            ts,
            ts.len() as int,
            pelt.min_len(),
        ),
        run_from(s, ts.skip(k), pelt, extend, add_penalty) matches Err(e) ==> e
            == Error::NotEnoughPoints,
    decreases ts.len() - k,
{
    let m = pelt.min_len();
    if k == ts.len() {
        assert(ts.skip(k).len() == 0);
    } else {
        let t = ts[k];
        let a = admission_point(t, pelt.step(), m);
        let admissible = s.admissible.push(a);
        assert(ts.skip(k)[0] == t);
        assert(ts.skip(k).drop_first() =~= ts.skip(k + 1));
        let valid = starts_valid(s.table, admissible, t, m);
        assert(valid <==> admission_ok(ts, k, pelt.step(), m)) by {
            assert forall|i: int| 0 <= i < s.admissible.len() implies s.table.contains_key(
                #[trigger] admissible[i],
            ) && admissible[i] + m <= t by {
                assert(admissible[i] == s.admissible[i]);
                assert(ts[k - 1] < ts[k]);
            }
            assert(admissible[s.admissible.len() as int] == a);
            if admission_ok(ts, k, pelt.step(), m) {
                assert(s.table.contains_key(a));
            }
            if valid {
                assert(s.table.contains_key(a));
            }
        }
        if !valid {
            assert(!admission_ok(ts, k, pelt.step(), m));
        } else {
            let parallel = admissible.len() >= threading_threshold(pelt.model());
            let sums = extend(t, requests(s.table, admissible), parallel);
            assert(sums.len() == admissible.len());
            let best = first_min(sums);
            lemma_first_min(sums);
            let chosen = PartitionView { ends: s.table[admissible[best]].ends.push(t), sum: sums[best] };
            let threshold = add_penalty(sums[best].total);
            let next = SearchState {
                table: s.table.insert(t, chosen),
                admissible: retained(admissible, sums, threshold),
            };
            assert(search_step(s, t, pelt, extend, add_penalty) == Ok::<SearchState, Error>(next));
            lemma_retained(admissible, sums, threshold);
            assert(run_invariant(next, ts, k + 1, m)) by {
                assert forall|x: usize| #[trigger] next.table.contains_key(x) <==> (x == 0
                    || exists|l: int| 0 <= l < k + 1 && ts[l] == x) by {
                    if x != t && (exists|l: int| 0 <= l < k + 1 && ts[l] == x) {
                        let l = choose|l: int| 0 <= l < k + 1 && ts[l] == x;
                        assert(l < k);
                    }
                }
                assert forall|i: int| 0 <= i < next.admissible.len() implies next.table.contains_key(
                    #[trigger] next.admissible[i],
                ) && k + 1 > 0 && next.admissible[i] + m <= ts[k] by {
                    let x = next.admissible[i];
                    assert(next.admissible.contains(x));
                    let w = choose|w: int|
                        0 <= w < admissible.len() && admissible[w] == x && order_key(
                            #[trigger] sums[w].total,
                        ) < order_key(threshold);
                    assert(s.table.contains_key(admissible[w]));
                }
            }
            lemma_run_outcome(next, ts, k + 1, pelt, extend, add_penalty);
        }
    }
}

/// Given one running sum per start, a run succeeds exactly when every candidate breakpoint
/// finds its admissible starts valid, which depends on the signal length and the settings
/// alone; a run that fails reports [`Error::NotEnoughPoints`].
pub proof fn lemma_success_condition(
    n: usize,
    pelt: Pelt,
    extend: spec_fn(usize, Seq<Candidate>, bool) -> Seq<RunningSum>,
    add_penalty: spec_fn(u64) -> u64,
)
    requires
        pelt.step() >= 1,
        one_sum_per_start(extend),
    ensures
        pelt_result(n, pelt, extend, add_penalty) is Ok <==> breakpoints_admissible(
            n,
            pelt.step(),
            pelt.min_len(),
        ),
        pelt_result(n, pelt, extend, add_penalty) matches Err(e) ==> e == Error::NotEnoughPoints,
{
    let ts = candidates(n, pelt.step(), pelt.min_len());
    lemma_candidates_shape(n, pelt.step(), pelt.min_len());
    let s = initial_state();
    assert(run_invariant(s, ts, 0, pelt.min_len()));
    assert(ts.skip(0) =~= ts);
    lemma_run_outcome(s, ts, 0, pelt, extend, add_penalty);
    if run_from(s, ts, pelt, extend, add_penalty) is Ok {
        let last = run_from(s, ts, pelt, extend, add_penalty)->Ok_0;
        assert(ts[ts.len() - 1] == n);
        assert(last.table.contains_key(n));
    }
    assert(breakpoints_admissible(n, pelt.step(), pelt.min_len()) <==> forall|l: int|
        0 <= l < ts.len() ==> #[trigger] admission_ok(ts, l, pelt.step(), pelt.min_len()));
}

/// Table of best partitions as their views.
pub open spec fn table_view(m: Map<usize, Partition>) -> Map<usize, PartitionView> {
    m.map_values(|p: Partition| p@)
}

/// Every best partition in the table ends at its breakpoint, no later than `n`, in segments
/// of at least `min_len` rows each.
pub open spec fn table_ok(table: Map<usize, PartitionView>, n: usize, min_len: usize) -> bool {
    forall|k: usize|
        #[trigger] table.contains_key(k) ==> k <= n && table[k].ends.len() <= k && segments_ok(
            table[k].ends,
            k,
            min_len,
        )
}

/// `ends` are the ends of consecutive segments that cover the rows before `t`, each at least
/// `min_len` rows long.
pub open spec fn segments_ok(ends: Seq<usize>, t: usize, min_len: usize) -> bool {
    &&& ends.len() == 0 ==> t == 0
    &&& ends.len() > 0 ==> {
        &&& ends.last() == t
        &&& ends[0] >= min_len
        &&& forall|i: int| 1 <= i < ends.len() ==> ends[i - 1] + min_len <= #[trigger] ends[i]
    }
}

/// Implementation of predict with state.
pub struct PredictImpl {
    /// Pelt data.
    pelt: Pelt,
    /// `partitions[t]` stores the optimal partition of `signal[0..t]`.
    partitions: AHashMap<usize, Partition>,
    /// List of indices we can accept.
    admissible: Vec<usize>,
    /// Extensions of the admissible starts' partitions to the current breakpoint.
    subproblems: Vec<Partition>,
}

impl PredictImpl {
    /// Settings the search runs with.
    pub closed spec fn settings(&self) -> Pelt {
        self.pelt
    }

    /// Partition table and admissible starts.
    pub closed spec fn state(&self) -> SearchState {
        SearchState {
            table: table_view(partition_table(self.partitions)),
            admissible: self.admissible@,
        }
    }

    /// Extensions computed for the current breakpoint.
    pub closed spec fn subproblems(&self) -> Seq<PartitionView> {
        Seq::new(self.subproblems@.len(), |i: int| self.subproblems@[i]@)
    }

    /// Setup the structures.
    pub fn new(pelt: Pelt) -> (r: Self)
        ensures
            r.settings() == pelt,
            r.state() == initial_state(),
            r.subproblems().len() == 0,
    {
        let mut partitions = table_new();
        let empty = Partition::default();
        assert(empty@.ends =~= Seq::<usize>::empty());
        table_insert(&mut partitions, 0, empty);
        let r = Self { pelt, partitions, admissible: Vec::new(), subproblems: Vec::new() };
        assert(partition_table(r.partitions).dom() =~= set![0usize]);
        assert(r.state().table =~= initial_state().table);
        assert(r.state().admissible =~= initial_state().admissible);
        r
    }

    /// Calculate the proposed changepoint indices.
    pub fn proposed_indices(&self, signal_len: usize) -> (r: Vec<usize>)
        ensures
            r@ == candidates(signal_len, self.settings().step(), self.settings().min_len()),
    {
        let jump = self.pelt.jump();
        let floor = self.pelt.minimum_segment_length() - 1;
        let rem = floor % jump;
        assert(rem <= floor) by (nonlinear_arith)
            requires
                rem == floor % jump,
                jump >= 1,
        ;
        let ghost first = first_candidate(jump, self.pelt.min_len());
        let ghost n = signal_len as int;
        let mut indices: Vec<usize> = Vec::new();
        if rem == 0 || floor - rem <= usize::MAX - jump {
            // Skip the minimum length to the next jump
            let mut t: usize = if rem == 0 {
                floor
            } else {
                floor - rem + jump
            };
            while t < signal_len
                invariant
                    indices@ + grid_from(t as int, n, jump as int) == grid_from(
                        first,
                        n,
                        jump as int,
                    ),
                    jump >= 1,
                    n == signal_len as int,
                decreases signal_len - t,
            {
                let ghost before = t as int;
                indices.push(t);
                assert(0 <= before < n && jump as int > 0);
                assert(grid_from(before, n, jump as int) == seq![before as usize] + grid_from(
                    before + jump,
                    n,
                    jump as int,
                ));
                if jump >= signal_len - t {
                    t = signal_len;
                } else {
                    t = t + jump;
                }
                assert(grid_from(before + jump, n, jump as int) == grid_from(
                    t as int,
                    n,
                    jump as int,
                ));
                assert(indices@ + grid_from(t as int, n, jump as int) =~= grid_from(
                    first,
                    n,
                    jump as int,
                ));
            }
            assert(indices@ =~= indices@ + grid_from(t as int, n, jump as int));
        } else {
            assert(grid_from(first, n, jump as int) =~= seq![]);
        }
        // Add the last item
        indices.push(signal_len);
        indices
    }

    /// Admit the start that breakpoint `breakpoint` makes eligible.
    fn add_admission_point(&mut self, breakpoint: usize)
        ensures
            final(self).settings() == old(self).settings(),
            final(self).state().table == old(self).state().table,
            final(self).state().admissible == old(self).state().admissible.push(
                admission_point(breakpoint, final(self).settings().step(), final(self).settings().min_len()),
            ),
    {
        let jump = self.pelt.jump();
        let minimum_segment_length = self.pelt.minimum_segment_length();
        let point = if breakpoint >= minimum_segment_length {
            let below = breakpoint - minimum_segment_length;
            assert(below % jump <= below) by (nonlinear_arith)
                requires
                    jump >= 1,
            ;
            below - below % jump
        } else {
            0
        };
        self.admissible.push(point);
    }

    /// The admissible starts with their best partitions' running sums, after checking that
    /// each has a best partition and leaves a long enough segment before `breakpoint`.
    fn subproblem_requests(&self, breakpoint: usize) -> (r: Result<Vec<Candidate>, Error>)
        ensures
            r is Ok <==> starts_valid(
                self.state().table,
                self.state().admissible,
                breakpoint,
                self.settings().min_len(),
            ),
            r matches Ok(v) ==> v@ == requests(self.state().table, self.state().admissible),
            r matches Err(e) ==> e == Error::NotEnoughPoints,
    {
        let minimum_segment_length = self.pelt.minimum_segment_length();
        let ghost table = self.state().table;
        let ghost admissible = self.state().admissible;
        let mut found: Vec<Candidate> = Vec::new();
        let mut i: usize = 0;
        while i < self.admissible.len()
            invariant
                i <= admissible.len(),
                admissible == self.admissible@,
                table == self.state().table,
                minimum_segment_length == self.settings().min_len(),
                starts_valid(table, admissible.take(i as int), breakpoint, minimum_segment_length),
                found@ == requests(table, admissible.take(i as int)),
            decreases admissible.len() - i,
        {
            let start = self.admissible[i];
            // Handle case where there's no partitions yet, shouldn't happen
            let partition = match table_get(&self.partitions, start) {
                Some(partition) => partition,
                None => {
                    assert(!table.contains_key(admissible[i as int]));
                    return Err(Error::NotEnoughPoints);
                },
            };
            // Handle invalid case for too short segments
            if branches::unlikely(
                breakpoint < start || breakpoint - start < minimum_segment_length,
            ) {
                return Err(Error::NotEnoughPoints);
            }
            found.push(Candidate { start, sum: partition.running_sum() });
            i = i + 1;
            assert(admissible.take(i as int).drop_last() =~= admissible.take(i - 1));
            assert(found@ =~= requests(table, admissible.take(i as int)));
            assert forall|k: int| 0 <= k < i implies table.contains_key(
                #[trigger] admissible.take(i as int)[k],
            ) && admissible.take(i as int)[k] + minimum_segment_length <= breakpoint by {
                if k < i - 1 {
                    assert(admissible.take(i as int)[k] == admissible.take(i - 1)[k]);
                }
            }
        }
        assert(admissible.take(i as int) =~= admissible);
        Ok(found)
    }

    /// Extend the best partition of each admissible start to `breakpoint`, with the running
    /// sums computed for them.
    fn split_into_subproblems(&mut self, breakpoint: usize, sums: &Vec<RunningSum>)
        requires
            starts_valid(
                old(self).state().table,
                old(self).state().admissible,
                breakpoint,
                old(self).settings().min_len(),
            ),
            forall|k: usize|
                #[trigger] old(self).state().table.contains_key(k) ==> old(
                    self,
                ).state().table[k].ends.len() <= k,
            breakpoint < MAX_ENDS,
            sums.len() == old(self).state().admissible.len(),
        ensures
            final(self).settings() == old(self).settings(),
            final(self).state() == old(self).state(),
            final(self).subproblems() == extensions(
                final(self).state().table,
                final(self).state().admissible,
                breakpoint,
                sums@,
            ),
    {
        let ghost table = self.state().table;
        let ghost admissible = self.state().admissible;
        let ghost m = self.settings().min_len();
        // Reset subproblems
        self.subproblems = Vec::new();
        let mut i: usize = 0;
        while i < self.admissible.len()
            invariant
                i <= admissible.len(),
                admissible == self.admissible@,
                table == self.state().table,
                starts_valid(table, admissible, breakpoint, m),
                forall|k: usize| #[trigger] table.contains_key(k) ==> table[k].ends.len() <= k,
                breakpoint < MAX_ENDS,
                sums.len() == admissible.len(),
                self.pelt == old(self).pelt,
                self.subproblems() == extensions(
                    table,
                    admissible.take(i as int),
                    breakpoint,
                    sums@,
                ),
            decreases admissible.len() - i,
        {
            let start = self.admissible[i];
            assert(table.contains_key(admissible[i as int]));
            let partition = match table_get(&self.partitions, start) {
                Some(partition) => partition,
                None => {
                    proof {
                        assert(false);
                    }
                    return ;
                },
            };
            assert(partition@ == table[start]);
            let extended = partition.extended(breakpoint, sums[i]);
            let ghost before = self.subproblems();
            self.subproblems.push(extended);
            i = i + 1;
            assert(self.subproblems() =~= before.push(extended@));
            assert(self.subproblems() =~= extensions(
                table,
                admissible.take(i as int),
                breakpoint,
                sums@,
            ));
        }
        assert(admissible.take(i as int) =~= admissible);
    }

    /// Store the extension with the least total (the first of equal ones) as the best
    /// partition ending at `breakpoint`, and hand back its total.
    fn select_best(&mut self, breakpoint: usize) -> (r: Result<u64, Error>)
        ensures
            final(self).settings() == old(self).settings(),
            final(self).subproblems() == old(self).subproblems(),
            final(self).state().admissible == old(self).state().admissible,
            r is Err <==> old(self).subproblems().len() == 0,
            r matches Err(e) ==> e == Error::NotEnoughPoints && final(self).state() == old(
                self,
            ).state(),
            r matches Ok(total) ==> {
                let best = old(self).subproblems()[first_min(sums_of(old(self).subproblems()))];
                &&& final(self).state().table == old(self).state().table.insert(breakpoint, best)
                &&& total == best.sum.total
            },
    {
        let ghost sums = sums_of(self.subproblems());
        let len = self.subproblems.len();
        if len == 0 {
            return Err(Error::NotEnoughPoints);
        }
        // Find the optimal partition with the lowest loss
        let mut best: usize = 0;
        let mut best_key = total_order_key(self.subproblems[0].loss_and_penalty_sum());
        let mut i: usize = 1;
        assert(sums.take(1).len() == 1);
        while i < len
            invariant
                1 <= i <= len,
                len == sums.len(),
                sums == sums_of(self.subproblems()),
                best == first_min(sums.take(i as int)),
                0 <= best < i,
                best_key == order_key(sums[best as int].total),
            decreases len - i,
        {
            let key = total_order_key(self.subproblems[i].loss_and_penalty_sum());
            assert(key == order_key(sums[i as int].total));
            let ghost prefix = sums.take(i + 1);
            assert(prefix.drop_last() =~= sums.take(i as int));
            assert(prefix.last() == sums[i as int]);
            assert(prefix[best as int] == sums[best as int]);
            if key < best_key {
                best = i;
                best_key = key;
            }
            i = i + 1;
        }
        assert(sums.take(len as int) =~= sums);
        let chosen = self.subproblems[best].duplicate();
        let total = chosen.loss_and_penalty_sum();
        let ghost old_table = partition_table(self.partitions);
        // Assign optimal partition to the map
        table_insert(&mut self.partitions, breakpoint, chosen);
        assert(table_view(partition_table(self.partitions)) =~= table_view(old_table).insert(
            breakpoint,
            chosen@,
        ));
        Ok(total)
    }

    /// Keep the admissible starts whose extension's total lies strictly below `threshold`.
    fn prune(&mut self, threshold: u64)
        requires
            old(self).state().admissible.len() == old(self).subproblems().len(),
        ensures
            final(self).settings() == old(self).settings(),
            final(self).subproblems() == old(self).subproblems(),
            final(self).state().table == old(self).state().table,
            final(self).state().admissible == retained(
                old(self).state().admissible,
                sums_of(old(self).subproblems()),
                threshold,
            ),
            forall|x: usize|
                final(self).state().admissible.contains(x) <==> exists|i: int|
                    0 <= i < old(self).state().admissible.len() && old(self).state().admissible[i]
                        == x && order_key(#[trigger] sums_of(old(self).subproblems())[i].total)
                        < order_key(threshold),
    {
        let ghost admissible = self.state().admissible;
        let ghost sums = sums_of(self.subproblems());
        let threshold_key = total_order_key(threshold);
        let mut kept: Vec<usize> = Vec::new();
        let mut i: usize = 0;
        while i < self.admissible.len()
            invariant
                i <= admissible.len(),
                admissible == self.admissible@,
                sums == sums_of(self.subproblems()),
                sums.len() == admissible.len(),
                threshold_key == order_key(threshold),
                kept@ == retained(admissible.take(i as int), sums, threshold),
            decreases admissible.len() - i,
        {
            let ghost prefix = admissible.take(i + 1);
            assert(prefix.drop_last() =~= admissible.take(i as int));
            assert(prefix.last() == admissible[i as int]);
            let key = total_order_key(self.subproblems[i].loss_and_penalty_sum());
            if key < threshold_key {
                kept.push(self.admissible[i]);
            }
            i = i + 1;
        }
        assert(admissible.take(i as int) =~= admissible);
        self.admissible = kept;
        proof {
            lemma_retained(admissible, sums, threshold);
        }
    }

    /// Run the search over a signal of `signal_len` rows.
    ///
    /// For each breakpoint, `extend` receives the admissible starts with the running sums of
    /// their best partitions, and whether the work is worth spreading over threads; it returns,
    /// for each start in order, the running sum after adding the loss of the segment from the
    /// start to the breakpoint and the penalty. `add_penalty` adds the penalty to a total.
    pub fn predict<E, P>(&mut self, signal_len: usize, extend: E, add_penalty: P) -> (r: Result<
        Vec<usize>,
        Error,
    >) where E: Fn(usize, &Vec<Candidate>, bool) -> Vec<RunningSum>, P: Fn(u64) -> u64
        requires
            signal_len < MAX_ENDS,
            forall|t: usize, c: &Vec<Candidate>, parallel: bool|
                extend.requires((t, c, parallel)),
            forall|b: u64| add_penalty.requires((b,)),
        ensures
            final(self).settings() == old(self).settings(),
            forall|
                f: spec_fn(usize, Seq<Candidate>, bool) -> Seq<RunningSum>,
                g: spec_fn(u64) -> u64,
            |
                #![trigger extends_by(extend, f), adds_by(add_penalty, g)]
                extends_by(extend, f) && adds_by(add_penalty, g) ==> result_view(r)
                    == pelt_result(signal_len, old(self).settings(), f, g),
            r matches Ok(v) ==> breakpoints_ok(
                v@,
                signal_len,
                old(self).settings().min_len(),
                old(self).settings().keeps_zero(),
            ),
            r matches Err(e) ==> e == Error::NotEnoughPoints,
            old(self).settings().min_len() > signal_len ==> r == Err::<Vec<usize>, Error>(
                Error::NotEnoughPoints,
            ),
            forall|
                f: spec_fn(usize, Seq<Candidate>, bool) -> Seq<RunningSum>,
                g: spec_fn(u64) -> u64,
            |
                #![trigger extends_by(extend, f), adds_by(add_penalty, g)]
                extends_by(extend, f) && adds_by(add_penalty, g) && one_sum_per_start(f) ==> (r is Ok
                    <==> breakpoints_admissible(
                    signal_len,
                    old(self).settings().step(),
                    old(self).settings().min_len(),
                )),
    {
        let r = self.search(signal_len, extend, add_penalty);
        proof {
            assert forall|
                f: spec_fn(usize, Seq<Candidate>, bool) -> Seq<RunningSum>,
                g: spec_fn(u64) -> u64,
            |
                #![trigger extends_by(extend, f), adds_by(add_penalty, g)]
                extends_by(extend, f) && adds_by(add_penalty, g) && one_sum_per_start(f) implies (r is Ok
                    <==> breakpoints_admissible(
                    signal_len,
                    old(self).settings().step(),
                    old(self).settings().min_len(),
                )) by {
                lemma_success_condition(signal_len, old(self).settings(), f, g);
            }
        }
        r
    }

    /// The search loop of [`PredictImpl::predict`].
    fn search<E, P>(&mut self, signal_len: usize, extend: E, add_penalty: P) -> (r: Result<
        Vec<usize>,
        Error,
    >) where E: Fn(usize, &Vec<Candidate>, bool) -> Vec<RunningSum>, P: Fn(u64) -> u64
        requires
            signal_len < MAX_ENDS,
            forall|t: usize, c: &Vec<Candidate>, parallel: bool|
                extend.requires((t, c, parallel)),
            forall|b: u64| add_penalty.requires((b,)),
        ensures
            old(self).settings().step() >= 1,
            final(self).settings() == old(self).settings(),
            forall|
                f: spec_fn(usize, Seq<Candidate>, bool) -> Seq<RunningSum>,
                g: spec_fn(u64) -> u64,
            |
                #![trigger extends_by(extend, f), adds_by(add_penalty, g)]
                extends_by(extend, f) && adds_by(add_penalty, g) ==> result_view(r)
                    == pelt_result(signal_len, old(self).settings(), f, g),
            r matches Ok(v) ==> breakpoints_ok(
                v@,
                signal_len,
                old(self).settings().min_len(),
                old(self).settings().keeps_zero(),
            ),
            r matches Err(e) ==> e == Error::NotEnoughPoints,
            old(self).settings().min_len() > signal_len ==> r == Err::<Vec<usize>, Error>(
                Error::NotEnoughPoints,
            ),
    {
        let ghost pelt = self.pelt;
        let ghost n = signal_len;
        let minimum_segment_length = self.pelt.minimum_segment_length();
        let jump = self.pelt.jump();
        // Start from the empty partition of the empty prefix
        self.partitions = table_new();
        let empty = Partition::default();
        assert(empty@.ends =~= Seq::<usize>::empty());
        table_insert(&mut self.partitions, 0, empty);
        self.admissible = Vec::new();
        self.subproblems = Vec::new();
        assert(partition_table(self.partitions).dom() =~= set![0usize]);
        assert(self.state().table =~= initial_state().table);
        assert(self.state().admissible =~= initial_state().admissible);
        // Find the initial changepoint indices
        let breakpoints = self.proposed_indices(signal_len);
        let ghost ts = breakpoints@;
        proof {
            lemma_candidates_shape(signal_len, pelt.step(), pelt.min_len());
            assert(ts.skip(0) =~= ts);
        }
        let mut k: usize = 0;
        while k < breakpoints.len()
            invariant
                k <= ts.len(),
                ts == breakpoints@,
                ts == candidates(n, pelt.step(), pelt.min_len()),
                ts.len() >= 1,
                ts.last() == n,
                forall|i: int, j: int| 0 <= i < j < ts.len() ==> #[trigger] ts[i] < #[trigger] ts[j],
                n == signal_len,
                n < MAX_ENDS,
                self.pelt == pelt,
                old(self).pelt == pelt,
                pelt.step() >= 1,
                minimum_segment_length == pelt.min_len(),
                pelt.min_len() >= 1,
                table_ok(self.state().table, n, pelt.min_len()),
                k == 0 ==> self.state() == initial_state(),
                k > 0 ==> self.state().table.contains_key(ts[k - 1]),
                pelt.min_len() > n ==> k == 0,
                forall|i: int| 0 <= i < ts.len() ==> #[trigger] ts[i] <= n,
                forall|
                    f: spec_fn(usize, Seq<Candidate>, bool) -> Seq<RunningSum>,
                    g: spec_fn(u64) -> u64,
                |
                    #![trigger extends_by(extend, f), adds_by(add_penalty, g)]
                    extends_by(extend, f) && adds_by(add_penalty, g) ==> run_from(
                        initial_state(),
                        ts,
                        pelt,
                        f,
                        g,
                    ) == run_from(self.state(), ts.skip(k as int), pelt, f, g),
                forall|t: usize, c: &Vec<Candidate>, parallel: bool|
                    extend.requires((t, c, parallel)),
                forall|b: u64| add_penalty.requires((b,)),
            decreases ts.len() - k,
        {
            let breakpoint = breakpoints[k];
            let ghost current = self.state();
            assert(ts.skip(k as int)[0] == breakpoint);
            assert(ts.skip(k as int).drop_first() =~= ts.skip(k + 1));
            // Add points from 0 to the current breakpoint as admissible
            self.add_admission_point(breakpoint);
            let ghost admissible = self.state().admissible;
            let attempt = self.subproblem_requests(breakpoint);
            let requested = match attempt {
                Ok(requested) => requested,
                Err(e) => {
                    proof {
                        if pelt.min_len() > n {
                            assert(admissible[0] == 0);
                        }
                        assert forall|
                            f: spec_fn(usize, Seq<Candidate>, bool) -> Seq<RunningSum>,
                            g: spec_fn(u64) -> u64,
                        |
                            #![trigger extends_by(extend, f), adds_by(add_penalty, g)]
                            extends_by(extend, f) && adds_by(add_penalty, g) implies result_view(
                                Err(e),
                            ) == pelt_result(signal_len, pelt, f, g) by {
                            assert(search_step(current, breakpoint, pelt, f, g) == Err::<
                                SearchState,
                                Error,
                            >(Error::NotEnoughPoints));
                        }
                    }
                    return Err(e);
                },
            };
            // Split admissible into sub problems based on a heuristic
            // The heuristic determines whether the overhead of starting the threads is worth it
            let parallel = self.pelt.segment_cost_function().should_use_threading(
                self.admissible.len(),
            );
            let sums = extend(breakpoint, &requested, parallel);
            if sums.len() != self.admissible.len() {
                proof {
                    assert forall|
                        f: spec_fn(usize, Seq<Candidate>, bool) -> Seq<RunningSum>,
                        g: spec_fn(u64) -> u64,
                    |
                        #![trigger extends_by(extend, f), adds_by(add_penalty, g)]
                        extends_by(extend, f) && adds_by(add_penalty, g) implies result_view(
                            Err(Error::NotEnoughPoints),
                        ) == pelt_result(signal_len, pelt, f, g) by {
                        assert(sums@ == f(breakpoint, requested@, parallel));
                        assert(search_step(current, breakpoint, pelt, f, g) == Err::<
                            SearchState,
                            Error,
                        >(Error::NotEnoughPoints));
                    }
                }
                return Err(Error::NotEnoughPoints);
            }
            proof {
                if pelt.min_len() > n {
                    assert(admissible[0] == 0);
                    assert(admissible[0] + pelt.min_len() <= breakpoint);
                }
            }
            self.split_into_subproblems(breakpoint, &sums);
            let ghost extended = self.subproblems();
            assert(sums_of(extended) =~= sums@);
            let best_total = match self.select_best(breakpoint) {
                Ok(total) => total,
                Err(e) => {
                    proof {
                        assert(false);
                    }
                    return Err(e);
                },
            };
            proof {
                lemma_first_min(sums@);
                lemma_extension_ok(
                    current.table,
                    admissible,
                    breakpoint,
                    n,
                    pelt.min_len(),
                    sums@,
                    first_min(sums@),
                );
            }
            // Threshold loss to filter each partition
            let threshold = add_penalty(best_total);
            // Filter the admissible array
            self.prune(threshold);
            k = k + 1;
            proof {
                assert forall|
                    f: spec_fn(usize, Seq<Candidate>, bool) -> Seq<RunningSum>,
                    g: spec_fn(u64) -> u64,
                |
                    #![trigger extends_by(extend, f), adds_by(add_penalty, g)]
                    extends_by(extend, f) && adds_by(add_penalty, g) implies run_from(
                        initial_state(),
                        ts,
                        pelt,
                        f,
                        g,
                    ) == run_from(self.state(), ts.skip(k as int), pelt, f, g) by {
                    assert(sums@ == f(breakpoint, requested@, parallel));
                    assert(threshold == g(best_total));
                    assert(search_step(current, breakpoint, pelt, f, g) == Ok::<
                        SearchState,
                        Error,
                    >(self.state()));
                }
            }
        }
        assert(ts.skip(k as int) =~= Seq::<usize>::empty());
        // Get the best partition
        assert(self.state().table.contains_key(n));
        let ghost last = self.state().table[n];
        let best_part = match table_remove(&mut self.partitions, signal_len) {
            Some(best_part) => best_part,
            None => {
                proof {
                    assert(false);
                }
                return Err(Error::NoSegmentsFound);
            },
        };
        assert(best_part@ == last);
        assert(last.ends.len() >= 1);
        // Extract the indices
        let ends = best_part.into_ends();
        let mut indices: Vec<usize> = Vec::new();
        if self.pelt.keep_initial_zero() {
            indices.push(0);
        }
        let ghost lead = indices@;
        let mut i: usize = 0;
        while i < ends.len()
            invariant
                i <= ends.len(),
                indices@ == lead + ends@.take(i as int),
            decreases ends.len() - i,
        {
            indices.push(ends[i]);
            i = i + 1;
            assert(indices@ =~= lead + ends@.take(i as int));
        }
        assert(ends@.take(i as int) =~= ends@);
        assert(indices@.drop_first() =~= ends@ || !pelt.keeps_zero());
        Ok(indices)
    }
}

} // verus!
