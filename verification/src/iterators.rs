//! Walking the bins of a histogram: every bin, every bin with a count, linear value steps, or
//! the steps a `PickyIterator` picks, each step reporting a value, the bin's count, the count
//! since the previous step and the running total; and ranks and counts at or below a value.
use vstd::prelude::*;
use crate::counter::Counter;
use crate::histogram::{Histogram, cap_u64, seq_sum, lemma_seq_sum_prefix_le};
use crate::math::two_pow_64;

verus! {

/// One step of an iteration over a histogram.
#[derive(Debug, PartialEq, Eq, Clone, Copy)]
pub struct IterationValue<T: Counter> {
    value: u64,
    count_at_value: T,
    count_since_last_iteration: u64,
    total_count_to_index: u64,
}

impl<T: Counter> IterationValue<T> {
    /// Create a step with the given value, count at the value, count since the previous
    /// step and running total of counts.
    pub fn new(value: u64, count_at_value: T, count_since_last_iteration: u64, total_count_to_index: u64) -> (r: IterationValue<T>)
        ensures
            r.spec_value() == value,
            r.spec_count_at_value() == count_at_value,
            r.spec_count_since_last() == count_since_last_iteration,
            r.spec_total_to_index() == total_count_to_index,
    {
        IterationValue { value, count_at_value, count_since_last_iteration, total_count_to_index }
    }

    pub closed spec fn spec_value(&self) -> u64 {
        self.value
    }

    pub closed spec fn spec_count_at_value(&self) -> T {
        self.count_at_value
    }

    pub closed spec fn spec_count_since_last(&self) -> u64 {
        self.count_since_last_iteration
    }

    pub closed spec fn spec_total_to_index(&self) -> u64 {
        self.total_count_to_index
    }

    /// The value iterated to: the highest value equivalent to the step's bin, or the step's
    /// level for linear iteration.
    pub fn value(&self) -> (r: u64)
        ensures
            r == self.spec_value(),
    {
        self.value
    }

    /// The count of the bin at this step.
    pub fn count_at_value(&self) -> (r: T)
        ensures
            r == self.spec_count_at_value(),
    {
        self.count_at_value
    }

    /// The count accumulated since the previous step (capped at `u64::MAX`).
    pub fn count_since_last_iteration(&self) -> (r: u64)
        ensures
            r == self.spec_count_since_last(),
    {
        self.count_since_last_iteration
    }

    /// The count of all bins up to and including this step's bin (capped at `u64::MAX`);
    /// divided by the histogram's total count it is the step's quantile.
    pub fn total_count_to_index(&self) -> (r: u64)
        ensures
            r == self.spec_total_to_index(),
    {
        self.total_count_to_index
    }
}

/// The bins among the first `n` of `c` that have a count, in order.
pub open spec fn nonzero_bins(c: Seq<nat>, n: nat) -> Seq<nat>
    decreases n,
{
    if n == 0 {
        Seq::empty()
    } else if c[n - 1] != 0 {
        nonzero_bins(c, (n - 1) as nat).push((n - 1) as nat)
    } else {
        nonzero_bins(c, (n - 1) as nat)
    }
}

/// The running total of the first `n` bins of `c`, capped at `u64::MAX`.
pub open spec fn running_total(c: Seq<nat>, n: nat) -> nat {
    cap_u64(seq_sum(c.subrange(0, n as int)))
}

/// `step` reports bin `i` of `h` with everything counted: the bin's value and count, the
/// count as the count since the previous step, and the running total through the bin.
pub open spec fn reports_bin<T: Counter>(h: &Histogram<T>, step: IterationValue<T>, i: nat) -> bool {
    &&& step.spec_value() == h.recorded_value(i)
    &&& step.spec_count_at_value().val() == h.counts_view()[i as int]
    &&& step.spec_count_since_last() == h.counts_view()[i as int]
    &&& step.spec_total_to_index() == running_total(h.counts_view(), i + 1)
}

/// The bin of a histogram's maximum; the iterations add up counts only to there.
pub open spec fn max_index<T: Counter>(h: &Histogram<T>) -> nat {
    h.index_spec(h.max_spec())
}

proof fn lemma_running_total_step(c: Seq<nat>, n: nat)
    requires
        n < c.len(),
    ensures
        running_total(c, n + 1) == if running_total(c, n) + c[n as int] > u64::MAX {
            u64::MAX as nat
        } else {
            running_total(c, n) + c[n as int]
        },
{
    assert(c.subrange(0, n + 1int).drop_last() =~= c.subrange(0, n as int));
}

/// The value, count and total of bin `i`: the highest value equivalent to the bin's
/// smallest value, and the bin's count.
fn bin_value<T: Counter>(h: &Histogram<T>, i: usize) -> (r: (u64, T))
    requires
        h.wf(),
        i < h.bins(),
    ensures
        r.0 == h.recorded_value(i as nat),
        r.1.val() == h.counts_view()[i as int],
{
    proof {
        h.lemma_value_in_range(i as nat);
        vstd::arithmetic::div_mod::lemma_small_mod(h.value_spec(i as nat), two_pow_64());
    }
    let v = h.highest_equivalent(h.value_for(i));
    let c = match h.count_at_index(i) {
        Some(c) => c,
        None => {
            proof {
                assert(false);
            }
            T::zero()
        },
    };
    (v, c)
}

impl<T: Counter> Histogram<T> {
    /// Iterate through all recorded values, in order: one step for each bin with a count,
    /// reporting the highest value equivalent to the bin, its count (also the count since
    /// the previous step) and the running total. Nothing is reported when the total count is
    /// zero.
    pub fn iter_recorded(&self) -> (r: Vec<IterationValue<T>>)
        requires
            self.wf(),
        ensures
            self.spec_total() == 0 ==> r@.len() == 0,
            self.spec_total() != 0 ==> {
                let idx = nonzero_bins(self.counts_view(), self.bins());
                &&& r@.len() == idx.len()
                &&& forall|k: int| 0 <= k < idx.len() ==> reports_bin(self, #[trigger] r@[k], idx[k])
            },
    {
        let mut out: Vec<IterationValue<T>> = Vec::new();
        if self.count() == 0 {
            return out;
        }
        let ghost c = self.counts_view();
        let n = self.len();
        let mut total: u64 = 0;
        let mut i: usize = 0;
        proof {
            assert(c.subrange(0, 0) =~= Seq::<nat>::empty());
        }
        while i < n
            invariant
                self.wf(),
                c == self.counts_view(),
                n == self.bins(),
                i <= n,
                total == running_total(c, i as nat),
                out@.len() == nonzero_bins(c, i as nat).len(),
                forall|k: int|
                    0 <= k < out@.len() ==> reports_bin(
                        self,
                        #[trigger] out@[k],
                        nonzero_bins(c, i as nat)[k],
                    ),
            decreases n - i,
        {
            let (v, cnt) = bin_value(self, i);
            proof {
                lemma_running_total_step(c, i as nat);
                T::lemma_range(cnt);
            }
            total = total.saturating_add(cnt.to_u64());
            let ghost before = out@;
            let ghost prev = nonzero_bins(c, i as nat);
            let ghost ni: nat = (i + 1) as nat;
            if !cnt.is_zero() {
                out.push(IterationValue::new(v, cnt, cnt.to_u64(), total));
            }
            proof {
                if cnt.val() != 0 {
                    assert(nonzero_bins(c, ni) == prev.push(i as nat));
                } else {
                    assert(nonzero_bins(c, ni) == prev);
                }
                assert forall|k: int| 0 <= k < out@.len() implies reports_bin(
                    self,
                    #[trigger] out@[k],
                    nonzero_bins(c, ni)[k],
                ) by {
                    if k < before.len() {
                        assert(out@[k] == before[k]);
                        assert(reports_bin(self, before[k], prev[k]));
                        assert(nonzero_bins(c, ni)[k] == prev[k]);
                    }
                }
            }
            i = i + 1;
        }
        out
    }

    /// Iterate through all bins, in order: one step for each bin, reporting the highest
    /// value equivalent to the bin and its count. Counts are added up only through the bin
    /// of the maximum, and not at all when the total count is zero: later steps report no
    /// count since the previous step and an unchanged running total.
    pub fn iter_all(&self) -> (r: Vec<IterationValue<T>>)
        requires
            self.wf(),
        ensures
            r@.len() == self.bins(),
            forall|i: int|
                0 <= i < self.bins() ==> {
                    let step = #[trigger] r@[i];
                    let counted = self.spec_total() != 0 && i <= max_index(self);
                    &&& step.spec_value() == self.recorded_value(i as nat)
                    &&& step.spec_count_at_value().val() == self.counts_view()[i]
                    &&& step.spec_count_since_last() == if counted {
                        self.counts_view()[i]
                    } else {
                        0
                    }
                    &&& step.spec_total_to_index() == if self.spec_total() == 0 {
                        0
                    } else if counted {
                        running_total(self.counts_view(), (i + 1) as nat)
                    } else {
                        running_total(self.counts_view(), max_index(self) + 1)
                    }
                },
    {
        let mut out: Vec<IterationValue<T>> = Vec::new();
        let limit = self.index_for(self.max());
        let nonempty = self.count() != 0;
        let ghost c = self.counts_view();
        let n = self.len();
        let mut total: u64 = 0;
        let mut i: usize = 0;
        proof {
            assert(c.subrange(0, 0) =~= Seq::<nat>::empty());
            self.lemma_max_bin();
        }
        while i < n
            invariant
                self.wf(),
                c == self.counts_view(),
                n == self.bins(),
                limit == max_index(self),
                limit < n,
                nonempty == (self.spec_total() != 0),
                i <= n,
                out@.len() == i,
                total == if !nonempty {
                    0
                } else if i <= limit {
                    running_total(c, i as nat)
                } else {
                    running_total(c, (limit + 1) as nat)
                },
                forall|j: int|
                    0 <= j < i ==> {
                        let step = #[trigger] out@[j];
                        let counted = nonempty && j <= limit;
                        &&& step.spec_value() == self.recorded_value(j as nat)
                        &&& step.spec_count_at_value().val() == c[j]
                        &&& step.spec_count_since_last() == if counted {
                            c[j]
                        } else {
                            0
                        }
                        &&& step.spec_total_to_index() == if !nonempty {
                            0
                        } else if counted {
                            running_total(c, (j + 1) as nat)
                        } else {
                            running_total(c, (limit + 1) as nat)
                        }
                    },
            decreases n - i,
        {
            let (v, cnt) = bin_value(self, i);
            proof {
                lemma_running_total_step(c, i as nat);
                T::lemma_range(cnt);
            }
            let mut since: u64 = 0;
            if nonempty && i <= limit {
                since = cnt.to_u64();
                total = total.saturating_add(since);
            }
            out.push(IterationValue::new(v, cnt, since, total));
            i = i + 1;
        }
        out
    }
}

/// The rank a scan looks for: at least 1.
pub open spec fn rank_target(rank: u64) -> nat {
    if rank == 0 {
        1
    } else {
        rank as nat
    }
}

/// The first bin from `i` on at which the running total of `c` reaches `rank`.
pub open spec fn first_reaching(c: Seq<nat>, rank: nat, i: nat) -> Option<nat>
    decreases c.len() - i,
{
    if i >= c.len() {
        None
    } else if running_total(c, i + 1) >= rank {
        Some(i)
    } else {
        first_reaching(c, rank, i + 1)
    }
}

/// `first_reaching` from `i` is the first bin from `i` on where the running total reaches
/// `rank`, or `None` when it reaches it nowhere from `i` on.
proof fn lemma_first_reaching(c: Seq<nat>, rank: nat, i: nat)
    requires
        i <= c.len(),
    ensures
        match first_reaching(c, rank, i) {
            Some(k) => {
                &&& i <= k < c.len()
                &&& running_total(c, k + 1) >= rank
                &&& forall|j: nat| i <= j < k ==> #[trigger] running_total(c, j + 1) < rank
            },
            None => forall|j: nat| i <= j < c.len() ==> #[trigger] running_total(c, j + 1) < rank,
        },
    decreases c.len() - i,
{
    if i < c.len() && running_total(c, i + 1) < rank {
        lemma_first_reaching(c, rank, i + 1);
        assert forall|j: nat| i <= j < i + 1 implies #[trigger] running_total(c, j + 1) < rank by {
            assert(j == i);
        }
    }
}

impl<T: Counter> Histogram<T> {
    /// The value at which the running total of counts first reaches `rank` (at least 1): the
    /// highest value equivalent to that bin, or the lowest when `lowest` holds; 0 when the
    /// total never reaches it. This is the value at a quantile, for the rank that the quantile
    /// gives.
    pub fn value_at_rank(&self, rank: u64, lowest: bool) -> (r: u64)
        requires
            self.wf(),
        ensures
            r == match first_reaching(self.counts_view(), rank_target(rank), 0) {
                Some(i) => if lowest {
                    self.lowest_spec(self.value_spec(i)) as u64
                } else {
                    self.recorded_value(i)
                },
                None => 0,
            },
    {
        let target = if rank == 0 {
            1
        } else {
            rank
        };
        let ghost c = self.counts_view();
        let n = self.len();
        let mut total: u64 = 0;
        let mut i: usize = 0;
        proof {
            assert(c.subrange(0, 0) =~= Seq::<nat>::empty());
        }
        while i < n
            invariant
                self.wf(),
                c == self.counts_view(),
                n == self.bins(),
                i <= n,
                total == running_total(c, i as nat),
                target as nat == rank_target(rank),
                first_reaching(c, target as nat, 0) == first_reaching(c, target as nat, i as nat),
            decreases n - i,
        {
            let (v, cnt) = bin_value(self, i);
            proof {
                lemma_running_total_step(c, i as nat);
                T::lemma_range(cnt);
            }
            total = total.saturating_add(cnt.to_u64());
            if total >= target {
                proof {
                    assert(first_reaching(c, target as nat, i as nat) == Some(i as nat));
                }
                if lowest {
                    proof {
                        self.lemma_value_in_range(i as nat);
                        vstd::arithmetic::div_mod::lemma_small_mod(self.value_spec(i as nat), two_pow_64());
                    }
                    return self.lowest_equivalent(self.value_for(i));
                }
                return v;
            }
            proof {
                assert(first_reaching(c, target as nat, i as nat) == first_reaching(c, target as nat, (i + 1) as nat));
            }
            i = i + 1;
        }
        proof {
            assert(first_reaching(c, target as nat, i as nat) == None::<nat>);
        }
        0
    }

    /// The count of all values at or below `value` (to within the histogram's resolution),
    /// capped at `u64::MAX`: the running total through the bin of `value`, or through the
    /// last bin for larger values. Divided by the total count it is the share of samples at
    /// or below `value`.
    pub fn count_at_or_below(&self, value: u64) -> (r: u64)
        requires
            self.wf(),
        ensures
            r == running_total(self.counts_view(), self.clamped_index(value as nat) + 1),
    {
        let target = self.index_for(value);
        let last = self.last();
        let stop = if target < last {
            target
        } else {
            last
        };
        let ghost c = self.counts_view();
        let mut total: u64 = 0;
        let mut i: usize = 0;
        proof {
            assert(c.subrange(0, 0) =~= Seq::<nat>::empty());
            self.lemma_bins_bounds();
        }
        while i <= stop
            invariant
                self.wf(),
                c == self.counts_view(),
                stop < self.bins(),
                self.bins() <= 66 * 0x20000,
                stop == self.clamped_index(value as nat),
                i <= stop + 1,
                total == running_total(c, i as nat),
            decreases stop + 1 - i,
        {
            let (_, cnt) = bin_value(self, i);
            proof {
                lemma_running_total_step(c, i as nat);
                T::lemma_range(cnt);
            }
            total = total.saturating_add(cnt.to_u64());
            i = i + 1;
        }
        total
    }
}

/// The capped sum of the counts of bins `from` up to (not including) `to`.
pub open spec fn range_total(c: Seq<nat>, from: nat, to: nat) -> nat {
    cap_u64(seq_sum(c.subrange(from as int, to as int)))
}

proof fn lemma_range_total_step(c: Seq<nat>, from: nat, n: nat)
    requires
        from <= n < c.len(),
    ensures
        range_total(c, from, n + 1) == if range_total(c, from, n) + c[n as int] > u64::MAX {
            u64::MAX as nat
        } else {
            range_total(c, from, n) + c[n as int]
        },
{
    assert(c.subrange(from as int, n + 1int).drop_last() =~= c.subrange(from as int, n as int));
}

/// Chooses the steps of an iteration over the bins of a histogram, for iterations of other
/// shapes than the library's own. The iteration adds up the counts of the bins through the
/// bin of the maximum; `pick` is asked at each bin whether to report a step there, and is
/// asked again at the same bin after a step. Once a step has been reported at or past the
/// bin of the maximum (or from the start, when the total count is zero), `more` is asked at
/// each further bin whether the iteration goes on, and counts are no longer added.
pub trait PickyIterator<T: Counter> {
    /// Should a step be reported at bin `index`, whose running total is
    /// `total_count_to_index`?
    fn pick(&mut self, index: usize, total_count_to_index: u64) -> bool;

    /// Should the iteration go on at bin `index`, past the bins with counts?
    fn more(&mut self, index: usize) -> bool;
}

/// A call an iteration made to its picker: `pick` at a bin with a running total, or `more` at
/// a bin, each with the picker's answer.
pub enum PickerCall {
    /// `pick(index, total_count_to_index)` and its answer.
    Pick(usize, u64, bool),
    /// `more(index)` and its answer.
    More(usize, bool),
}

/// A call was made with what an iteration over `h` owes its picker: `pick` at a bin of `h`
/// with the running total through that bin, or, once counting is done (`done`), the running
/// total of the `counted` leading bins; `more` at a bin of `h`, only once counting is done.
pub open spec fn call_well_made<T: Counter>(h: Histogram<T>, call: PickerCall, counted: nat, done: bool) -> bool {
    match call {
        PickerCall::Pick(i, t, _) => i < h.bins() && (t == running_total(h.counts_view(), (i + 1) as nat) || (
        done && t == running_total(h.counts_view(), counted))),
        PickerCall::More(i, _) => i < h.bins() && done,
    }
}

/// The picker answered yes to `pick`.
pub open spec fn picked_yes(call: PickerCall) -> bool {
    match call {
        PickerCall::Pick(_, _, a) => a,
        PickerCall::More(_, _) => false,
    }
}

/// A picker together with the record of the calls made to it.
struct Recorder<P> {
    inner: P,
    calls: Ghost<Seq<PickerCall>>,
}

impl<P> Recorder<P> {
    /// Ask the picker `pick(index, total_count_to_index)`, passing both unchanged, and record
    /// the call with the answer.
    fn ask_pick<T: Counter>(&mut self, index: usize, total_count_to_index: u64) -> (r: bool)
        where P: PickyIterator<T>
        ensures
            final(self).calls@ == old(self).calls@.push(PickerCall::Pick(index, total_count_to_index, r)),
    {
        let r = self.inner.pick(index, total_count_to_index);
        proof {
            self.calls = Ghost(self.calls@.push(PickerCall::Pick(index, total_count_to_index, r)));
        }
        r
    }

    /// Ask the picker `more(index)`, passing it unchanged, and record the call with the
    /// answer.
    fn ask_more<T: Counter>(&mut self, index: usize) -> (r: bool)
        where P: PickyIterator<T>
        ensures
            final(self).calls@ == old(self).calls@.push(PickerCall::More(index, r)),
    {
        let r = self.inner.more(index);
        proof {
            self.calls = Ghost(self.calls@.push(PickerCall::More(index, r)));
        }
        r
    }
}

/// An iteration over the bins of a histogram whose steps a `PickyIterator` chooses.
pub struct HistogramIterator<'a, T: Counter, P: PickyIterator<T>> {
    hist: &'a Histogram<T>,
    max_value_index: usize,
    total_count_to_index: u64,
    count_since_last_iteration: u64,
    last_picked_index: usize,
    picked: bool,
    current_index: usize,
    fresh: bool,
    ended: bool,
    picker: Recorder<P>,
    counted: Ghost<nat>,
    since_from: Ghost<nat>,
}

impl<'a, T: Counter, P: PickyIterator<T>> HistogramIterator<'a, T, P> {
    /// The histogram iterated over.
    pub closed spec fn hist(&self) -> Histogram<T> {
        *self.hist
    }

    /// The bin the iteration is at.
    pub closed spec fn index(&self) -> nat {
        self.current_index as nat
    }

    /// The number of leading bins whose counts have been added up.
    pub closed spec fn counted(&self) -> nat {
        self.counted@
    }

    /// The first bin whose count goes into the next step's count since the previous step.
    pub closed spec fn since_from(&self) -> nat {
        self.since_from@
    }

    /// The iteration is over.
    pub closed spec fn spec_ended(&self) -> bool {
        self.ended
    }

    /// The picker.
    pub closed spec fn spec_picker(&self) -> P {
        self.picker.inner
    }

    /// The calls the iteration has made to its picker, in order, with the answers.
    pub closed spec fn calls(&self) -> Seq<PickerCall> {
        self.picker.calls@
    }

    /// Counts are no longer added: the total count is zero, or a step has been reported at
    /// or past the bin of the maximum.
    pub closed spec fn counting_done(&self) -> bool {
        self.hist.spec_total() == 0 || (self.picked && self.last_picked_index >= self.max_value_index)
    }

    /// The state is consistent: the running total and the count since the previous step are
    /// those of the counted bins, and the bins are counted in order from the first until
    /// counting is done.
    pub closed spec fn wf(&self) -> bool {
        let c = self.hist.counts_view();
        let through = if self.fresh {
            self.current_index as nat
        } else {
            (self.current_index + 1) as nat
        };
        &&& self.hist.wf()
        &&& self.max_value_index == max_index(self.hist)
        &&& self.current_index <= self.hist.bins()
        &&& !self.fresh ==> self.current_index < self.hist.bins()
        &&& self.last_picked_index <= self.current_index
        &&& self.counted@ <= through
        &&& !self.counting_done() ==> self.counted@ == through
        &&& self.since_from@ <= self.counted@
        &&& self.total_count_to_index == running_total(c, self.counted@)
        &&& self.count_since_last_iteration == range_total(c, self.since_from@, self.counted@)
        &&& forall|k: int|
            0 <= k < self.picker.calls@.len() ==> call_well_made(
                *self.hist,
                #[trigger] self.picker.calls@[k],
                self.counted@,
                self.counting_done(),
            )
    }

    /// Start an iteration over `hist` whose steps `picker` chooses.
    pub fn new(hist: &'a Histogram<T>, picker: P) -> (r: Self)
        requires
            hist.wf(),
        ensures
            r.wf(),
            r.hist() == *hist,
            r.index() == 0,
            r.counted() == 0,
            r.since_from() == 0,
            !r.spec_ended(),
            r.spec_picker() == picker,
            r.calls() == Seq::<PickerCall>::empty(),
    {
        proof {
            hist.lemma_max_bin();
            assert(hist.counts_view().subrange(0, 0) =~= Seq::<nat>::empty());
        }
        let max_value_index = hist.index_for(hist.max());
        HistogramIterator {
            hist,
            max_value_index,
            total_count_to_index: 0,
            count_since_last_iteration: 0,
            last_picked_index: 0,
            picked: false,
            current_index: 0,
            fresh: true,
            ended: false,
            picker: Recorder { inner: picker, calls: Ghost(Seq::empty()) },
            counted: Ghost(0),
            since_from: Ghost(0),
        }
    }

    /// The picker, as the iteration has left it.
    pub fn picker(&self) -> (r: &P)
        ensures
            *r == self.spec_picker(),
    {
        &self.picker.inner
    }

    /// The running total of the counted bins.
    pub closed spec fn total(&self) -> u64 {
        self.total_count_to_index
    }

    /// The count added since the previous step.
    pub closed spec fn since(&self) -> u64 {
        self.count_since_last_iteration
    }

    /// The current bin's count is still to be added.
    pub closed spec fn is_fresh(&self) -> bool {
        self.fresh
    }

    /// A step has been reported.
    pub closed spec fn has_picked(&self) -> bool {
        self.picked
    }

    /// The bin of the last step reported (0 before any).
    pub closed spec fn last_picked(&self) -> nat {
        self.last_picked_index as nat
    }

    /// Add the current bin's count, if it has not been added yet; counting is not done and
    /// the bins are not exhausted.
    pub fn count_bin(&mut self)
        requires
            old(self).wf(),
            !old(self).spec_ended(),
            old(self).index() < old(self).hist().bins(),
            !old(self).counting_done(),
        ensures
            final(self).wf(),
            final(self).hist() == old(self).hist(),
            final(self).spec_picker() == old(self).spec_picker(),
            final(self).calls() == old(self).calls(),
            !final(self).spec_ended(),
            final(self).index() == old(self).index(),
            !final(self).is_fresh(),
            final(self).counted() == old(self).index() + 1,
            final(self).since_from() == old(self).since_from(),
            final(self).has_picked() == old(self).has_picked(),
            final(self).last_picked() == old(self).last_picked(),
            final(self).counting_done() == old(self).counting_done(),
    {
        let ghost c = self.hist.counts_view();
        if self.fresh {
            let (_, cnt) = bin_value(self.hist, self.current_index);
            proof {
                T::lemma_range(cnt);
                lemma_running_total_step(c, self.counted@);
                lemma_range_total_step(c, self.since_from@, self.counted@);
            }
            self.total_count_to_index = self.total_count_to_index.saturating_add(cnt.to_u64());
            self.count_since_last_iteration = self.count_since_last_iteration.saturating_add(cnt.to_u64());
            self.fresh = false;
            proof {
                self.counted = Ghost(self.counted@ + 1);
            }
        }
    }

    /// Take the picker's answer on whether the iteration goes on past the bins with counts:
    /// it ends when the answer is no, and nothing else changes.
    pub fn answer_more(&mut self, more: bool)
        requires
            old(self).wf(),
            !old(self).spec_ended(),
            old(self).index() < old(self).hist().bins(),
            old(self).counting_done(),
        ensures
            final(self).wf(),
            final(self).hist() == old(self).hist(),
            final(self).spec_picker() == old(self).spec_picker(),
            final(self).calls() == old(self).calls(),
            final(self).spec_ended() == !more,
            final(self).index() == old(self).index(),
            final(self).is_fresh() == old(self).is_fresh(),
            final(self).counted() == old(self).counted(),
            final(self).since_from() == old(self).since_from(),
            final(self).has_picked() == old(self).has_picked(),
            final(self).last_picked() == old(self).last_picked(),
            final(self).counting_done(),
    {
        if !more {
            self.ended = true;
        }
    }

    /// Take the picker's answer on whether to report a step at the current bin, whose count
    /// has been added unless counting is done: report the bin's highest equivalent value and
    /// count, the running total of the counted bins and the count since the previous step,
    /// staying at the bin; or else move to the next bin.
    pub fn answer_pick(&mut self, pick: bool) -> (r: Option<IterationValue<T>>)
        requires
            old(self).wf(),
            !old(self).spec_ended(),
            old(self).index() < old(self).hist().bins(),
            !old(self).counting_done() ==> !old(self).is_fresh(),
        ensures
            final(self).wf(),
            final(self).hist() == old(self).hist(),
            final(self).spec_picker() == old(self).spec_picker(),
            final(self).calls() == old(self).calls(),
            !final(self).spec_ended(),
            final(self).counted() == old(self).counted(),
            pick ==> {
                let h = old(self).hist();
                let c = h.counts_view();
                &&& r matches Some(v)
                &&& r->0.spec_value() == h.recorded_value(old(self).index())
                &&& r->0.spec_count_at_value().val() == c[old(self).index() as int]
                &&& r->0.spec_total_to_index() == running_total(c, old(self).counted())
                &&& r->0.spec_count_since_last() == range_total(c, old(self).since_from(), old(self).counted())
                &&& final(self).index() == old(self).index()
                &&& final(self).is_fresh() == old(self).is_fresh()
                &&& final(self).since_from() == old(self).counted()
                &&& final(self).has_picked()
                &&& final(self).last_picked() == old(self).index()
            },
            !pick ==> {
                &&& r is None
                &&& final(self).index() == old(self).index() + 1
                &&& final(self).is_fresh()
                &&& final(self).since_from() == old(self).since_from()
                &&& final(self).has_picked() == old(self).has_picked()
                &&& final(self).last_picked() == old(self).last_picked()
            },
    {
        let ghost c = self.hist.counts_view();
        if pick {
            let (v, cnt) = bin_value(self.hist, self.current_index);
            let step = IterationValue::new(v, cnt, self.count_since_last_iteration, self.total_count_to_index);
            self.last_picked_index = self.current_index;
            self.picked = true;
            self.count_since_last_iteration = 0;
            proof {
                self.since_from = Ghost(self.counted@);
                assert(c.subrange(self.counted@ as int, self.counted@ as int) =~= Seq::<nat>::empty());
            }
            Some(step)
        } else {
            proof {
                self.hist.lemma_bins_bounds();
            }
            self.current_index = self.current_index + 1;
            self.fresh = true;
            None
        }
    }

    /// The next step: from the current bin on, add up the bin's count (once, until counting
    /// is done; after that, ask the picker `more(index)` whether to go on) and ask the picker
    /// `pick(index, running total)` whether to report a step; report it when the picker says
    /// yes, or else move to the next bin. A step reports its bin's highest equivalent value
    /// and count, the running total through the counted bins and the count since the
    /// previous step. `None` once the bins are exhausted or, after counting is done, the
    /// picker declines to go on; the iteration stays ended. Every call made to the picker is
    /// recorded in `calls()`.
    pub fn next(&mut self) -> (r: Option<IterationValue<T>>)
        requires
            old(self).wf(),
        ensures
            final(self).wf(),
            final(self).hist() == old(self).hist(),
            old(self).spec_ended() ==> r is None && *final(self) == *old(self),
            !old(self).spec_ended() && old(self).index() == old(self).hist().bins() ==> r is None,
            r is None ==> final(self).spec_ended(),
            r is None && !old(self).spec_ended() ==> final(self).index() == final(self).hist().bins()
                || final(self).counting_done(),
            final(self).index() >= old(self).index(),
            final(self).counted() >= old(self).counted(),
            final(self).calls().len() >= old(self).calls().len(),
            final(self).calls().subrange(0, old(self).calls().len() as int) == old(self).calls(),
            forall|k: int|
                0 <= k < final(self).calls().len() ==> call_well_made(
                    final(self).hist(),
                    #[trigger] final(self).calls()[k],
                    final(self).counted(),
                    final(self).counting_done(),
                ),
            forall|k: int|
                old(self).calls().len() <= k < final(self).calls().len() - 1 ==> !picked_yes(
                    #[trigger] final(self).calls()[k],
                ),
            r is None && !old(self).spec_ended() ==> {
                &&& final(self).calls().len() > old(self).calls().len() ==> !picked_yes(
                    final(self).calls().last(),
                )
                &&& final(self).index() == final(self).hist().bins() || (final(self).calls().len()
                    > old(self).calls().len() && final(self).calls().last() == PickerCall::More(
                    final(self).index() as usize,
                    false,
                ))
            },
            r matches Some(v) ==> {
                let h = final(self).hist();
                let c = h.counts_view();
                &&& final(self).index() < h.bins()
                &&& final(self).calls().len() > old(self).calls().len()
                &&& final(self).calls().last() == PickerCall::Pick(
                    final(self).index() as usize,
                    running_total(c, final(self).counted()) as u64,
                    true,
                )
                &&& v.spec_value() == h.recorded_value(final(self).index())
                &&& v.spec_count_at_value().val() == c[final(self).index() as int]
                &&& v.spec_total_to_index() == running_total(c, final(self).counted())
                &&& v.spec_count_since_last() == range_total(c, old(self).since_from(), final(self).counted())
                &&& final(self).since_from() == final(self).counted()
                &&& !final(self).spec_ended()
            },
    {
        let len = self.hist.len();
        let ghost n0 = self.picker.calls@.len();
        let ghost old_calls = self.picker.calls@;
        while !self.ended
            invariant_except_break
                self.wf(),
                self.hist() == old(self).hist(),
                len == self.hist.bins(),
                self.current_index >= old(self).current_index,
                self.counted@ >= old(self).counted@,
                self.since_from@ == old(self).since_from@,
                old(self).ended ==> *self == *old(self),
                !old(self).ended ==> !self.ended,
                n0 == old(self).picker.calls@.len(),
                old_calls == old(self).picker.calls@,
                self.picker.calls@.len() >= n0,
                self.picker.calls@.subrange(0, n0 as int) == old_calls,
                forall|k: int| n0 <= k < self.picker.calls@.len() ==> !picked_yes(#[trigger] self.picker.calls@[k]),
            ensures
                self.wf(),
                self.hist() == old(self).hist(),
                self.ended,
                old(self).ended ==> *self == *old(self),
                self.current_index >= old(self).current_index,
                self.counted@ >= old(self).counted@,
                !old(self).ended ==> self.current_index == len || self.counting_done(),
                self.picker.calls@.len() >= n0,
                self.picker.calls@.subrange(0, n0 as int) == old_calls,
                forall|k: int| n0 <= k < self.picker.calls@.len() ==> !picked_yes(#[trigger] self.picker.calls@[k]),
                !old(self).ended ==> self.current_index == len || (self.picker.calls@.len() > n0
                    && self.picker.calls@.last() == PickerCall::More(self.current_index, false)),
            decreases len - self.current_index,
        {
            if self.current_index == len {
                self.ended = true;
                return None;
            }
            if self.hist.count() == 0 || (self.picked && self.last_picked_index >= self.max_value_index) {
                let at = self.current_index;
                let ghost before = self.picker.calls@;
                let more = self.picker.ask_more(at);
                proof {
                    assert(self.picker.calls@.subrange(0, n0 as int) =~= before.subrange(0, n0 as int));
                    assert forall|k: int| 0 <= k < self.picker.calls@.len() implies call_well_made(
                        *self.hist,
                        #[trigger] self.picker.calls@[k],
                        self.counted@,
                        self.counting_done(),
                    ) by {
                        if k < before.len() {
                            assert(self.picker.calls@[k] == before[k]);
                        }
                    }
                }
                self.answer_more(more);
                if self.ended {
                    return None;
                }
            } else {
                self.count_bin();
            }
            let at = self.current_index;
            let total = self.total_count_to_index;
            let ghost before = self.picker.calls@;
            let pick = self.picker.ask_pick(at, total);
            proof {
                assert(self.picker.calls@.subrange(0, n0 as int) =~= before.subrange(0, n0 as int));
                assert forall|k: int| 0 <= k < self.picker.calls@.len() implies call_well_made(
                    *self.hist,
                    #[trigger] self.picker.calls@[k],
                    self.counted@,
                    self.counting_done(),
                ) by {
                    if k < before.len() {
                        assert(self.picker.calls@[k] == before[k]);
                    }
                }
            }
            match self.answer_pick(pick) {
                Some(step) => {
                    return Some(step);
                },
                None => {},
            }
        }
        None
    }
}

/// The state of a linear iteration between two of its steps.
pub struct LinearState {
    /// The bin being looked at.
    pub index: nat,
    /// The bin's count is still to be added.
    pub fresh: bool,
    /// The running total of counts added (capped).
    pub total: nat,
    /// The counts added since the last report (capped).
    pub since: nat,
    /// The bin of the last report.
    pub last_picked: nat,
    /// A report has been made.
    pub picked: bool,
    /// The highest value of the current step.
    pub highest: u64,
    /// The lowest value equivalent to `highest`.
    pub lowest: nat,
    /// The iteration is over.
    pub ended: bool,
}

/// A report of a linear iteration: the step's level, the bin's count, the count since the
/// previous report and the running total.
pub type LinearReport = (u64, nat, nat, nat);

/// Capped addition in `u64`.
pub open spec fn sat_add(a: nat, b: nat) -> nat {
    if a + b > u64::MAX {
        u64::MAX as nat
    } else {
        a + b
    }
}

/// Counting is done in a linear iteration: the total count is zero, or a report has been made
/// at or past the bin of the maximum.
pub open spec fn linear_done<T: Counter>(h: &Histogram<T>, st: LinearState) -> bool {
    h.spec_total() == 0 || (st.picked && st.last_picked >= max_index(h))
}

/// One turn of a linear iteration in steps of `step` over `h`: once counting is done, go on
/// only while the step's level is below the start of the next bin; before that, add the
/// bin's count when it is first looked at. Then report the step if the bin reaches the step's
/// lowest equivalent value (or is the last bin) and move to the next step, or else move to
/// the next bin.
pub open spec fn linear_turn<T: Counter>(h: &Histogram<T>, step: u64, st: LinearState) -> (LinearState, Option<LinearReport>) {
    let len = h.bins();
    let c = h.counts_view();
    if st.ended {
        (st, None)
    } else if st.index >= len {
        (LinearState { ended: true, ..st }, None)
    } else if linear_done(h, st) && !(st.highest < h.next_bin_start_spec(st.index)) {
        (LinearState { ended: true, ..st }, None)
    } else {
        let added = if !linear_done(h, st) && st.fresh {
            LinearState {
                total: sat_add(st.total, c[st.index as int]),
                since: sat_add(st.since, c[st.index as int]),
                fresh: false,
                ..st
            }
        } else {
            st
        };
        if h.value_spec(added.index) >= added.lowest || added.index == len - 1 {
            let report = (added.highest, c[added.index as int], added.since, added.total);
            if added.highest + step > u64::MAX {
                (
                    LinearState { ended: true, since: 0, last_picked: added.index, picked: true, ..added },
                    Some(report),
                )
            } else {
                let next = (added.highest + step) as u64;
                (
                    LinearState {
                        highest: next,
                        lowest: h.lowest_spec(next as nat),
                        since: 0,
                        last_picked: added.index,
                        picked: true,
                        ..added
                    },
                    Some(report),
                )
            }
        } else {
            (LinearState { index: added.index + 1, fresh: true, ..added }, None)
        }
    }
}

/// The reports and the state after `n` turns of a linear iteration from `st`.
pub open spec fn linear_run<T: Counter>(h: &Histogram<T>, step: u64, st: LinearState, n: nat) -> (Seq<LinearReport>, LinearState)
    decreases n,
{
    if n == 0 {
        (Seq::empty(), st)
    } else {
        let (reports, s) = linear_run(h, step, st, (n - 1) as nat);
        let (s2, r) = linear_turn(h, step, s);
        match r {
            Some(x) => (reports.push(x), s2),
            None => (reports, s2),
        }
    }
}

/// The state a linear iteration in steps of `step` starts from.
pub open spec fn linear_start<T: Counter>(h: &Histogram<T>, step: u64) -> LinearState {
    LinearState {
        index: 0,
        fresh: true,
        total: 0,
        since: 0,
        last_picked: 0,
        picked: false,
        highest: (step - 1) as u64,
        lowest: h.lowest_spec((step - 1) as nat),
        ended: false,
    }
}

/// What a step of an iteration reports, as a tuple.
pub open spec fn report_of<T: Counter>(v: IterationValue<T>) -> LinearReport {
    (v.spec_value(), v.spec_count_at_value().val(), v.spec_count_since_last() as nat, v.spec_total_to_index() as nat)
}

/// What a sequence of steps reports.
pub open spec fn reports_of<T: Counter>(vs: Seq<IterationValue<T>>) -> Seq<LinearReport> {
    vs.map_values(|v: IterationValue<T>| report_of(v))
}

impl<T: Counter> Histogram<T> {
    /// Iterate through the histogram in linear value steps of size `step`: each report gives
    /// the highest value of a step (`step - 1`, `2 * step - 1`, ...) and the count of the
    /// values in that step, reported at the bin that reaches the step. The iteration goes on
    /// until the steps pass the bin of the maximum, and stops early if a step's level would
    /// pass `u64::MAX`.
    pub fn iter_linear(&self, step: u64) -> (r: Vec<IterationValue<T>>)
        requires
            self.wf(),
            step > 0,
        ensures
            exists|n: nat|
                #![trigger linear_run(self, step, linear_start(self, step), n)]
                linear_run(self, step, linear_start(self, step), n).1.ended
                    && linear_run(self, step, linear_start(self, step), n).0 == reports_of(r@),
            forall|k: int| 0 <= k < r@.len() ==> #[trigger] r@[k].spec_value() == (k + 1) * step - 1,
    {
                let ghost mut turns: nat = 0;
        let len = self.len();
        let max_value_index = self.index_for(self.max());
        let mut out: Vec<IterationValue<T>> = Vec::new();
        let mut index: usize = 0;
        let mut fresh = true;
        let mut total: u64 = 0;
        let mut since: u64 = 0;
        let mut last_picked: usize = 0;
        let mut picked = false;
        let nonempty = self.count() != 0;
        let mut highest: u64 = step - 1;
        let mut lowest: u64 = self.lowest_equivalent(step - 1);
        proof {
            self.lemma_bins_bounds();
            self.lemma_max_bin();
            assert(reports_of(out@) =~= Seq::<LinearReport>::empty());
            assert((0 + 1) * (step as int) - 1 == step - 1) by (nonlinear_arith);
        }
        loop
            invariant
                self.wf(),
                len == self.bins(),
                len <= 66 * 0x20000,
                max_value_index == max_index(self),
                nonempty == (self.spec_total() != 0),
                step > 0,
                ({
                    let (reports, st) = linear_run(self, step, linear_start(self, step), turns);
                    &&& !st.ended
                    &&& st.index == index
                    &&& st.fresh == fresh
                    &&& st.total == total
                    &&& st.since == since
                    &&& st.last_picked == last_picked
                    &&& st.picked == picked
                    &&& st.highest == highest
                    &&& st.lowest == lowest
                    &&& reports == reports_of(out@)
                }),
                index <= len,
                last_picked <= index,
                highest == (out@.len() + 1) * step - 1,
                forall|k: int| 0 <= k < out@.len() ==> #[trigger] out@[k].spec_value() == (k + 1) * step - 1,
            decreases len - index, u64::MAX - highest,
        {
            let ghost before = linear_run(self, step, linear_start(self, step), turns);
            proof {
                turns = turns + 1;
            }
            if index >= len {
                proof {
                    assert(linear_run(self, step, linear_start(self, step), turns).1.ended);
                    assert(linear_run(self, step, linear_start(self, step), turns).0 == before.0);
                }
                return out;
            }
            if !nonempty || (picked && last_picked >= max_value_index) {
                let next_start = self.next_bin_start(index);
                if !(highest < next_start) {
                    proof {
                        assert(linear_run(self, step, linear_start(self, step), turns).1.ended);
                        assert(linear_run(self, step, linear_start(self, step), turns).0 == before.0);
                    }
                    return out;
                }
            } else if fresh {
                let (_, cnt) = bin_value(self, index);
                proof {
                    T::lemma_range(cnt);
                }
                total = total.saturating_add(cnt.to_u64());
                since = since.saturating_add(cnt.to_u64());
                fresh = false;
            }
            let (v, cnt) = bin_value(self, index);
            proof {
                self.lemma_value_in_range(index as nat);
                vstd::arithmetic::div_mod::lemma_small_mod(self.value_spec(index as nat), two_pow_64());
            }
            let val = self.value_for(index);
            if val >= lowest || index == len - 1 {
                out.push(IterationValue::new(highest, cnt, since, total));
                proof {
                    assert(reports_of(out@) =~= before.0.push(
                        (highest, cnt.val(), since as nat, total as nat),
                    ));
                }
                since = 0;
                last_picked = index;
                picked = true;
                if highest > u64::MAX - step {
                    proof {
                        assert(linear_run(self, step, linear_start(self, step), turns).1.ended);
                    }
                    return out;
                }
                proof {
                    let n = out@.len() - 1;
                    assert((n + 1) * step - 1 + step == (n + 1 + 1) * step - 1) by (nonlinear_arith);
                }
                highest = highest + step;
                lowest = self.lowest_equivalent(highest);
            } else {
                index = index + 1;
                fresh = true;
            }
        }
    }
}


impl<T: Counter> Histogram<T> {
    /// Ranks and counts at or below: when the running total of counts reaches `rank` (read as
    /// at least 1), it does so first at a bin whose count at or below is at least the rank
    /// while the count below that bin is less, and both values `value_at_rank` may give for it
    /// are counted in that bin; when the running total never reaches the rank, the total of
    /// all bins is below it.
    pub proof fn lemma_rank(&self, rank: u64)
        requires
            self.wf(),
        ensures
            match first_reaching(self.counts_view(), rank_target(rank), 0) {
                Some(i) => {
                    &&& i < self.bins()
                    &&& running_total(self.counts_view(), i + 1) >= rank_target(rank)
                    &&& running_total(self.counts_view(), i) < rank_target(rank)
                    &&& self.clamped_index(self.recorded_value(i) as nat) == i
                    &&& self.clamped_index(self.lowest_spec(self.value_spec(i))) == i
                },
                None => running_total(self.counts_view(), self.bins()) < rank_target(rank),
            },
    {
        let c = self.counts_view();
        let target = rank_target(rank);
        lemma_first_reaching(c, target, 0);
        self.lemma_bins_bounds();
        assert(c.subrange(0, 0) =~= Seq::<nat>::empty());
        match first_reaching(c, target, 0) {
            Some(i) => {
                if i > 0 {
                    assert(running_total(c, ((i - 1) as nat) + 1) < target);
                }
                self.lemma_value_in_range(i);
                let v = self.value_spec(i);
                self.lemma_highest(v);
                self.lemma_equivalence(v as u64, self.recorded_value(i));
                self.lemma_equivalence(v as u64, self.lowest_spec(v) as u64);
            },
            None => {
                if self.bins() > 0 {
                    assert(running_total(c, ((self.bins() - 1) as nat) + 1) < target);
                }
            },
        }
    }
}

/// The level of step `k` of a linear iteration in steps of `step`: `(k + 1) * step - 1`.
pub open spec fn linear_level(step: u64, k: nat) -> nat {
    ((k + 1) * step - 1) as nat
}

/// Levels of a linear iteration: one below a multiple of the step, `step` apart, increasing.
proof fn lemma_level(step: u64, k: nat, j: nat)
    requires
        step > 0,
    ensures
        linear_level(step, k) + 1 == (k + 1) * step,
        linear_level(step, k + 1) == linear_level(step, k) + step,
        k <= j ==> linear_level(step, k) <= linear_level(step, j),
        linear_level(step, 0) == step - 1,
{
    assert((k + 1) * step >= 1) by (nonlinear_arith)
        requires
            step > 0,
    ;
    assert((k + 2) * step == (k + 1) * step + step) by (nonlinear_arith);
    assert((0 + 1) * step == step) by (nonlinear_arith);
    assert(k <= j ==> (k + 1) * step <= (j + 1) * step) by (nonlinear_arith)
        requires
            step > 0,
    ;
}

/// The number of leading bins whose counts a linear iteration has added up when it reports
/// the step of level `level`: through the bin of the level (or the last bin), but not past
/// the bin of the maximum.
pub open spec fn linear_counted<T: Counter>(h: &Histogram<T>, level: nat) -> nat {
    if h.clamped_index(level) < max_index(h) {
        h.clamped_index(level) + 1
    } else {
        max_index(h) + 1
    }
}

/// Counts that are zero from `q` to `a` add nothing to a sum from `p` that reaches `q`.
proof fn lemma_sum_zero_ext(c: Seq<nat>, p: nat, q: nat, a: nat)
    requires
        p <= q <= a <= c.len(),
        forall|j: int| q <= j < a ==> c[j] == 0,
    ensures
        seq_sum(c.subrange(p as int, a as int)) == seq_sum(c.subrange(p as int, q as int)),
    decreases a,
{
    if a > q {
        lemma_sum_zero_ext(c, p, q, (a - 1) as nat);
        assert(c.subrange(p as int, a as int).drop_last() =~= c.subrange(p as int, a - 1));
    }
}

/// A linear iteration goes on after step `k`: the next level fits in `u64` and, once step
/// `k` has been reported at or past the bin of the maximum (or nothing is counted), the next
/// level lies below the start of the bin after step `k`'s bin.
pub open spec fn linear_continues<T: Counter>(h: &Histogram<T>, step: u64, k: nat) -> bool {
    let level = linear_level(step, k);
    &&& level + step <= u64::MAX
    &&& (h.spec_total() == 0 || h.clamped_index(level) >= max_index(h)) ==> linear_level(step, k + 1)
        < h.next_bin_start_spec(h.clamped_index(level))
}

/// How many leading bins a linear iteration in state `st` has added up.
spec fn linear_count_of<T: Counter>(h: &Histogram<T>, st: LinearState) -> nat {
    if linear_done(h, st) {
        max_index(h) + 1
    } else if st.fresh {
        st.index
    } else {
        st.index + 1
    }
}

/// The first bin whose count goes into the count since the previous step, after `k` steps.
spec fn linear_since_from<T: Counter>(h: &Histogram<T>, step: u64, k: nat) -> nat {
    if k == 0 {
        0
    } else {
        linear_counted(h, linear_level(step, (k - 1) as nat))
    }
}

/// Report `k` of a linear iteration over `h` in steps of `step` is what the law says: the
/// step's level, the count of its bin, and the counts through its counted bins.
spec fn linear_report_ok<T: Counter>(h: &Histogram<T>, step: u64, k: nat, rep: LinearReport) -> bool {
    let c = h.counts_view();
    let level = linear_level(step, k);
    let ne = h.spec_total() != 0;
    &&& rep.0 == level
    &&& rep.1 == c[h.clamped_index(level) as int]
    &&& rep.2 == if ne {
        range_total(c, linear_since_from(h, step, k), linear_counted(h, level))
    } else {
        0
    }
    &&& rep.3 == if ne {
        running_total(c, linear_counted(h, level))
    } else {
        0
    }
}

/// What holds of the reports and the state of a linear iteration between its turns.
spec fn linear_inv<T: Counter>(h: &Histogram<T>, step: u64, reports: Seq<LinearReport>, st: LinearState) -> bool {
    let c = h.counts_view();
    let k = reports.len();
    let ne = h.spec_total() != 0;
    &&& forall|j: int| 0 <= j < k ==> linear_report_ok(h, step, j as nat, #[trigger] reports[j])
    &&& forall|j: int| 0 <= j < k - 1 ==> #[trigger] linear_continues(h, step, j as nat)
    &&& st.ended ==> {
        ||| k == 0 && !ne && linear_level(step, 0) >= h.next_bin_start_spec(0)
        ||| k > 0 && !linear_continues(h, step, (k - 1) as nat)
    }
    &&& !st.ended ==> {
        &&& linear_done(h, st) ==> st.index == if k > 0 {
            st.last_picked
        } else {
            0
        }
        &&& st.highest == linear_level(step, k)
        &&& st.lowest == h.lowest_spec(st.highest as nat)
        &&& st.index <= h.clamped_index(st.highest as nat)
        &&& st.picked == (k > 0)
        &&& k > 0 ==> st.last_picked == h.clamped_index(linear_level(step, (k - 1) as nat))
        &&& linear_since_from(h, step, k) <= linear_count_of(h, st) <= h.bins()
        &&& ne ==> st.total == running_total(c, linear_count_of(h, st))
        &&& ne ==> st.since == range_total(c, linear_since_from(h, step, k), linear_count_of(h, st))
        &&& !ne ==> st.total == 0 && st.since == 0
    }
}

impl<T: Counter> Histogram<T> {
    /// The counted bins through a later level are not fewer, and past the bin of the maximum
    /// the running totals and the counts from a bin stay as they are.
    proof fn lemma_linear_counted(&self, l1: nat, l2: nat, a: nat)
        requires
            self.wf(),
            l1 <= l2,
            max_index(self) + 1 <= a <= self.bins(),
        ensures
            linear_counted(self, l1) <= linear_counted(self, l2) <= max_index(self) + 1,
            self.clamped_index(l1) + 1 >= linear_counted(self, l1),
            running_total(self.counts_view(), a) == running_total(self.counts_view(), max_index(self) + 1),
            forall|p: nat|
                p <= max_index(self) + 1 ==> range_total(self.counts_view(), p, a) == range_total(
                    self.counts_view(),
                    p,
                    max_index(self) + 1,
                ),
    {
        self.lemma_clamped_mono(l1, l2);
        self.lemma_max_bin();
        let c = self.counts_view();
        let q = max_index(self) + 1;
        lemma_sum_zero_ext(c, 0, q, a);
        assert forall|p: nat| p <= q implies range_total(c, p, a) == range_total(c, p, q) by {
            lemma_sum_zero_ext(c, p, q, a);
        }
    }

    /// One turn of a linear iteration keeps its invariant.
    proof fn lemma_linear_turn_inv(&self, step: u64, reports: Seq<LinearReport>, st: LinearState)
        requires
            self.wf(),
            step > 0,
            linear_inv(self, step, reports, st),
        ensures
            ({
                let (s2, r) = linear_turn(self, step, st);
                let reports2 = match r {
                    Some(x) => reports.push(x),
                    None => reports,
                };
                linear_inv(self, step, reports2, s2)
            }),
    {
        let c = self.counts_view();
        let len = self.bins();
        let k = reports.len();
        let mi = max_index(self);
        let ne = self.spec_total() != 0;
        self.lemma_max_bin();
        self.lemma_bins_bounds();
        let (s2, r) = linear_turn(self, step, st);
        if st.ended || st.index >= len || (linear_done(self, st) && !(st.highest < self.next_bin_start_spec(
            st.index,
        ))) {
            assert(r is None);
            return;
        }
        let level = st.highest as nat;
        assert(level == linear_level(step, k));
        self.lemma_clamped_mono(level, level);
        let ci = self.clamped_index(level);
        let done = linear_done(self, st);
        let added = if !done && st.fresh {
            LinearState {
                total: sat_add(st.total, c[st.index as int]),
                since: sat_add(st.since, c[st.index as int]),
                fresh: false,
                ..st
            }
        } else {
            st
        };
        assert(linear_done(self, added) == done);
        if !done && st.fresh {
            if ne {
                lemma_running_total_step(c, st.index);
                lemma_range_total_step(c, linear_since_from(self, step, k), st.index);
            }
        }
        assert(linear_count_of(self, added) == if done {
            mi + 1
        } else {
            st.index + 1
        });
        assert(ne ==> added.total == running_total(c, linear_count_of(self, added)));
        assert(ne ==> added.since == range_total(
            c,
            linear_since_from(self, step, k),
            linear_count_of(self, added),
        ));
        assert(!ne ==> added.total == 0 && added.since == 0);
        self.lemma_bin_order(added.index, level);
        if self.value_spec(added.index) >= added.lowest || added.index == len - 1 {
            // the report is at the bin of the step's level
            assert(added.index == ci);
            let rep = (added.highest, c[added.index as int], added.since, added.total);
            assert(r == Some(rep));
            if k > 0 {
                lemma_level(step, (k - 1) as nat, k);
                self.lemma_clamped_mono(linear_level(step, (k - 1) as nat), level);
            }
            self.lemma_linear_counted(level, level, mi + 1);
            if linear_count_of(self, added) >= mi + 1 {
                self.lemma_linear_counted(level, level, linear_count_of(self, added));
            }
            if done && ne {
                assert(ci >= mi);
            }
            if !done && ci >= mi {
                assert(linear_count_of(self, added) == ci + 1);
            }
            assert(linear_report_ok(self, step, k, rep));
            let reports2 = reports.push(rep);
            lemma_level(step, k, k + 1);
            if k > 0 {
                lemma_level(step, (k - 1) as nat, k);
                assert(linear_continues(self, step, (k - 1) as nat));
            }
            assert forall|j: int| 0 <= j < reports2.len() - 1 implies #[trigger] linear_continues(
                self,
                step,
                j as nat,
            ) by {
                if j < k - 1 {
                    assert(linear_continues(self, step, j as nat));
                }
            }
            assert forall|j: int| 0 <= j < reports2.len() implies linear_report_ok(
                self,
                step,
                j as nat,
                #[trigger] reports2[j],
            ) by {
                if j < k {
                    assert(reports2[j] == reports[j]);
                }
            }
            if !s2.ended {
                let level2 = linear_level(step, k + 1);
                lemma_level(step, k, k + 1);
                assert(s2.highest == level2);
                self.lemma_clamped_mono(level, level2);
                self.lemma_linear_counted(level, level2, mi + 1);
                assert(linear_since_from(self, step, k + 1) == linear_counted(self, level));
                assert(s2.index == ci);
                assert(s2.last_picked == ci);
                if ci >= mi || !ne {
                    assert(linear_count_of(self, s2) == mi + 1);
                    assert(self.counts_view().subrange((mi + 1) as int, (mi + 1) as int) =~= Seq::<nat>::empty());
                } else {
                    assert(!done);
                    assert(linear_count_of(self, s2) == ci + 1);
                    assert(self.counts_view().subrange((ci + 1) as int, (ci + 1) as int) =~= Seq::<nat>::empty());
                }
                assert(linear_inv(self, step, reports2, s2));
            }
        } else {
            if done {
                self.lemma_next_bin_start(added.index, level);
            }
            assert(!done);
            assert(added.index + 1 <= ci);
            assert(s2.index == added.index + 1);
            assert(linear_count_of(self, s2) == linear_count_of(self, added));
        }
    }

    /// The invariant holds after every number of turns of a linear iteration.
    proof fn lemma_linear_run_inv(&self, step: u64, n: nat)
        requires
            self.wf(),
            step > 0,
        ensures
            linear_inv(
                self,
                step,
                linear_run(self, step, linear_start(self, step), n).0,
                linear_run(self, step, linear_start(self, step), n).1,
            ),
        decreases n,
    {
        if n == 0 {
            let st = linear_start(self, step);
            self.lemma_clamped_mono((step - 1) as nat, (step - 1) as nat);
            assert(self.counts_view().subrange(0, 0) =~= Seq::<nat>::empty());
            lemma_level(step, 0, 0);
            assert(linear_count_of(self, st) == 0 || linear_done(self, st));
            self.lemma_max_bin();
        } else {
            self.lemma_linear_run_inv(step, (n - 1) as nat);
            let (reports, st) = linear_run(self, step, linear_start(self, step), (n - 1) as nat);
            self.lemma_linear_turn_inv(step, reports, st);
        }
    }

    /// The steps of a linear iteration: the steps `r` that `iter_linear(step)` returns report,
    /// at step `k`, the level `(k + 1) * step - 1`, the count of the bin of that level (or of
    /// the last bin), and, when anything is counted, as the running total the capped sum of
    /// the counts of all bins from bin 0 through that bin (not past the bin of the maximum),
    /// and as the count since the previous step the capped sum of the bins counted since that
    /// step; so the running totals never decrease from one step to the next. The iteration
    /// goes on after every step but the last (`linear_continues`) and stops after the last;
    /// it has no step only when nothing is counted and the first level lies past the first bin.
    pub proof fn lemma_linear_steps(&self, step: u64, r: Seq<IterationValue<T>>)
        requires
            self.wf(),
            step > 0,
            exists|n: nat|
                #![trigger linear_run(self, step, linear_start(self, step), n)]
                linear_run(self, step, linear_start(self, step), n).1.ended
                    && linear_run(self, step, linear_start(self, step), n).0 == reports_of(r),
        ensures
            forall|k: int|
                0 <= k < r.len() ==> {
                    let level = linear_level(step, k as nat);
                    let c = self.counts_view();
                    &&& (#[trigger] r[k]).spec_value() == level
                    &&& r[k].spec_count_at_value().val() == c[self.clamped_index(level) as int]
                    &&& r[k].spec_total_to_index() == if self.spec_total() != 0 {
                        running_total(c, linear_counted(self, level))
                    } else {
                        0
                    }
                    &&& r[k].spec_count_since_last() == if self.spec_total() == 0 {
                        0
                    } else if k == 0 {
                        range_total(c, 0, linear_counted(self, level))
                    } else {
                        range_total(
                            c,
                            linear_counted(self, linear_level(step, (k - 1) as nat)),
                            linear_counted(self, level),
                        )
                    }
                },
            forall|k: int, j: int|
                0 <= k <= j < r.len() ==> (#[trigger] r[k]).spec_total_to_index() <= (#[trigger] r[j]).spec_total_to_index(),
            r.len() == 0 ==> self.spec_total() == 0 && linear_level(step, 0) >= self.next_bin_start_spec(0),
            forall|k: int| 0 <= k < r.len() - 1 ==> #[trigger] linear_continues(self, step, k as nat),
            r.len() > 0 ==> !linear_continues(self, step, (r.len() - 1) as nat),
    {
        let n = choose|n: nat|
            #![trigger linear_run(self, step, linear_start(self, step), n)]
            linear_run(self, step, linear_start(self, step), n).1.ended
                && linear_run(self, step, linear_start(self, step), n).0 == reports_of(r);
        self.lemma_linear_run_inv(step, n);
        let reports = reports_of(r);
        assert(reports.len() == r.len());
        assert forall|k: int| 0 <= k < r.len() implies linear_report_ok(self, step, k as nat, report_of(#[trigger] r[k])) by {
            assert(reports[k] == report_of(r[k]));
        }
        assert forall|k: int, j: int|
            0 <= k <= j < r.len() implies (#[trigger] r[k]).spec_total_to_index() <= (#[trigger] r[j]).spec_total_to_index() by {
            assert(reports[k] == report_of(r[k]));
            assert(reports[j] == report_of(r[j]));
            assert(linear_report_ok(self, step, k as nat, reports[k]));
            assert(linear_report_ok(self, step, j as nat, reports[j]));
            let lk = linear_level(step, k as nat);
            let lj = linear_level(step, j as nat);
            lemma_level(step, k as nat, j as nat);
            self.lemma_max_bin();
            self.lemma_linear_counted(lk, lj, max_index(self) + 1);
            let c = self.counts_view();
            let b = linear_counted(self, lj);
            lemma_seq_sum_prefix_le(c.subrange(0, b as int), linear_counted(self, lk));
            assert(c.subrange(0, b as int).subrange(0, linear_counted(self, lk) as int) =~= c.subrange(
                0,
                linear_counted(self, lk) as int,
            ));
        }
    }
}

} // verus!
