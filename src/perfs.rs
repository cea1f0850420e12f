//! Rolling frame-time statistics: the last `sample_size` durations of the
//! generation step and of rendering, their mean and 95th percentile, and a
//! check that lets a report out at most once per interval.
//!
//! Durations and instants are plain nanosecond counts; instants are measured
//! from an origin the host chooses (its start, say).
use vstd::prelude::*;

verus! {

/// The last `n` elements of `s` (all of them when there are fewer).
pub open spec fn keep_last(s: Seq<u64>, n: nat) -> Seq<u64> {
    if s.len() > n {
        s.subrange(s.len() - n, s.len() as int)
    } else {
        s
    }
}

/// The window after recording each of `ds` in turn, starting from `s`.
pub open spec fn record_all(s: Seq<u64>, ds: Seq<u64>, n: nat) -> Seq<u64>
    decreases ds.len(),
{
    if ds.len() == 0 {
        s
    } else {
        keep_last(record_all(s, ds.drop_last(), n).push(ds.last()), n)
    }
}

pub open spec fn seq_sum(s: Seq<u64>) -> nat
    decreases s.len(),
{
    if s.len() == 0 {
        0
    } else {
        seq_sum(s.drop_last()) + s.last() as nat
    }
}

/// Arithmetic mean, rounded down; `None` for no samples.
pub open spec fn mean(s: Seq<u64>) -> Option<u64> {
    if s.len() == 0 {
        None
    } else {
        Some((seq_sum(s) / s.len()) as u64)
    }
}

/// `s` (sorted) with `v` inserted after every element not greater than it.
pub open spec fn insert_sorted(s: Seq<u64>, v: u64) -> Seq<u64>
    decreases s.len(),
{
    if s.len() == 0 {
        seq![v]
    } else if s.last() <= v {
        s.push(v)
    } else {
        insert_sorted(s.drop_last(), v).push(s.last())
    }
}

/// A sorted copy of `s`.
pub open spec fn sorted_copy(s: Seq<u64>) -> Seq<u64>
    decreases s.len(),
{
    if s.len() == 0 {
        s
    } else {
        insert_sorted(sorted_copy(s.drop_last()), s.last())
    }
}

pub open spec fn is_sorted(s: Seq<u64>) -> bool {
    forall|i: int, j: int| 0 <= i <= j < s.len() ==> s[i] <= s[j]
}

/// Index of the 95th percentile in `len` sorted samples: `floor(0.95 * len)`.
pub open spec fn p95_index(len: nat) -> int {
    (len * 95 / 100) as int
}

/// 95th percentile: the sorted samples at `floor(0.95 * len)`; `None` for
/// no samples.
pub open spec fn percentile_95(s: Seq<u64>) -> Option<u64> {
    if s.len() == 0 {
        None
    } else {
        Some(sorted_copy(s)[p95_index(s.len())])
    }
}

pub proof fn lemma_insert_sorted_len(s: Seq<u64>, v: u64)
    ensures
        insert_sorted(s, v).len() == s.len() + 1,
    decreases s.len(),
{
    if s.len() > 0 && s.last() > v {
        lemma_insert_sorted_len(s.drop_last(), v);
    }
}

pub proof fn lemma_sorted_copy_len(s: Seq<u64>)
    ensures
        sorted_copy(s).len() == s.len(),
    decreases s.len(),
{
    if s.len() > 0 {
        lemma_sorted_copy_len(s.drop_last());
        lemma_insert_sorted_len(sorted_copy(s.drop_last()), s.last());
    }
}

/// Inserting into a sorted sequence keeps it sorted, and every element of the
/// result is `v` or an element of `s`.
pub proof fn lemma_insert_sorted_sorted(s: Seq<u64>, v: u64)
    requires
        is_sorted(s),
    ensures
        is_sorted(insert_sorted(s, v)),
        forall|k: int|
            0 <= k < insert_sorted(s, v).len() ==> #[trigger] insert_sorted(s, v)[k] == v || s.contains(
                insert_sorted(s, v)[k],
            ),
    decreases s.len(),
{
    lemma_insert_sorted_len(s, v);
    if s.len() > 0 && s.last() > v {
        let t = s.drop_last();
        assert(is_sorted(t));
        lemma_insert_sorted_sorted(t, v);
        lemma_insert_sorted_len(t, v);
        let r = insert_sorted(t, v);
        assert forall|k: int| 0 <= k < r.len() implies r[k] <= s.last() by {
            if r[k] != v {
                let j = choose|j: int| 0 <= j < t.len() && t[j] == r[k];
                assert(s[j] == t[j]);
            }
        }
        assert forall|k: int| 0 <= k < r.len() implies #[trigger] r[k] == v || s.contains(r[k]) by {
            if r[k] != v {
                let j = choose|j: int| 0 <= j < t.len() && t[j] == r[k];
                assert(s[j] == t[j]);
            }
        }
        assert(s.contains(s.last())) by {
            assert(s[s.len() - 1] == s.last());
        }
    }
}

/// The sorted copy is sorted.
pub proof fn lemma_sorted_copy_sorted(s: Seq<u64>)
    ensures
        is_sorted(sorted_copy(s)),
    decreases s.len(),
{
    if s.len() > 0 {
        lemma_sorted_copy_sorted(s.drop_last());
        lemma_insert_sorted_sorted(sorted_copy(s.drop_last()), s.last());
    }
}

proof fn lemma_keep_last_push(s: Seq<u64>, d: u64, n: nat)
    ensures
        keep_last(keep_last(s, n).push(d), n) == keep_last(s.push(d), n),
{
    if s.len() > n {
        assert(keep_last(keep_last(s, n).push(d), n) =~= keep_last(s.push(d), n));
    }
}

/// A window of capacity `n` fed the durations `ds` one by one from empty
/// holds exactly the `n` most recent of them (all of them while fewer).
pub proof fn lemma_window_keeps_most_recent(ds: Seq<u64>, n: nat)
    ensures
        record_all(Seq::empty(), ds, n) == keep_last(ds, n),
    decreases ds.len(),
{
    if ds.len() > 0 {
        lemma_window_keeps_most_recent(ds.drop_last(), n);
        lemma_keep_last_push(ds.drop_last(), ds.last(), n);
        assert(ds.drop_last().push(ds.last()) =~= ds);
    }
}

/// Sorting a sequence that is already in order gives it back unchanged.
pub proof fn lemma_sorted_copy_of_sorted(s: Seq<u64>)
    requires
        is_sorted(s),
    ensures
        sorted_copy(s) == s,
    decreases s.len(),
{
    if s.len() > 0 {
        let t = s.drop_last();
        assert(is_sorted(t));
        lemma_sorted_copy_of_sorted(t);
        if t.len() > 0 {
            assert(t.last() == s[s.len() - 2]);
        }
        assert(t.push(s.last()) =~= s);
    }
}

/// For samples already in increasing order, the 95th percentile is the
/// sample at `floor(0.95 * len)`.
pub proof fn lemma_percentile_of_increasing(s: Seq<u64>)
    requires
        s.len() > 0,
        is_sorted(s),
    ensures
        percentile_95(s) == Some(s[p95_index(s.len())]),
{
    lemma_sorted_copy_of_sorted(s);
}

/// For `N` samples in increasing order with `N - 1` a multiple of 20, the 95th
/// percentile is the sample at `floor(0.95 * (N - 1))`. (For other `N`, such
/// as 20, `floor(0.95 * N)` is one more than that index.)
pub proof fn lemma_percentile_index_of_last_gap(s: Seq<u64>)
    requires
        s.len() > 0,
        is_sorted(s),
        (s.len() - 1) % 20 == 0,
    ensures
        percentile_95(s) == Some(s[((s.len() - 1) * 95 / 100) as int]),
{
    lemma_sorted_copy_of_sorted(s);
    let n = s.len() as int;
    let m = (n - 1) / 20;
    assert(n - 1 == 20 * m);
    assert(n * 95 / 100 == (n - 1) * 95 / 100) by (nonlinear_arith)
        requires
            n - 1 == 20 * m,
            m >= 0,
    ;
}

/// Frame-time statistics for the session.
pub struct PerformanceMetrics {
    step_times: Vec<u64>,
    render_times: Vec<u64>,
    last_log: u64,
    sample_size: usize,
}

impl PerformanceMetrics {
    /// The retained step durations, oldest first.
    pub closed spec fn steps(&self) -> Seq<u64> {
        self.step_times@
    }

    /// The retained render durations, oldest first.
    pub closed spec fn renders(&self) -> Seq<u64> {
        self.render_times@
    }

    pub closed spec fn capacity(&self) -> nat {
        self.sample_size as nat
    }

    /// When a report was last let through.
    pub closed spec fn last_log(&self) -> u64 {
        self.last_log
    }

    /// Neither window holds more than `capacity` durations.
    pub open spec fn wf(&self) -> bool {
        self.steps().len() <= self.capacity() && self.renders().len() <= self.capacity()
    }

    /// Empty windows of `sample_size` durations each; the first report is
    /// due one interval after the origin.
    pub fn new(sample_size: usize) -> (r: Self)
        ensures
            r.wf(),
            r.steps() == Seq::<u64>::empty(),
            r.renders() == Seq::<u64>::empty(),
            r.capacity() == sample_size,
            r.last_log() == 0,
    {
        PerformanceMetrics {
            step_times: Vec::new(),
            render_times: Vec::new(),
            last_log: 0,
            sample_size,
        }
    }

    /// Appends `duration` to `window`, evicting the oldest when full.
    fn push_bounded(window: &mut Vec<u64>, duration: u64, cap: usize)
        requires
            old(window)@.len() <= cap,
        ensures
            final(window)@ == keep_last(old(window)@.push(duration), cap as nat),
            final(window)@.len() <= cap,
    {
        if cap == 0 {
            assert(window@ =~= keep_last(window@.push(duration), 0));
            return;
        }
        let ghost before = window@;
        if window.len() >= cap {
            window.remove(0);
        }
        window.push(duration);
        assert(window@ =~= keep_last(before.push(duration), cap as nat));
    }

    /// Records one generation-step duration (nanoseconds).
    pub fn record_step(&mut self, duration: u64)
        requires
            old(self).wf(),
        ensures
            final(self).wf(),
            final(self).steps() == keep_last(old(self).steps().push(duration), old(self).capacity()),
            final(self).renders() == old(self).renders(),
            final(self).capacity() == old(self).capacity(),
            final(self).last_log() == old(self).last_log(),
    {
        Self::push_bounded(&mut self.step_times, duration, self.sample_size);
    }

    /// Records one render duration (nanoseconds).
    pub fn record_render(&mut self, duration: u64)
        requires
            old(self).wf(),
        ensures
            final(self).wf(),
            final(self).renders() == keep_last(old(self).renders().push(duration), old(self).capacity()),
            final(self).steps() == old(self).steps(),
            final(self).capacity() == old(self).capacity(),
            final(self).last_log() == old(self).last_log(),
    {
        Self::push_bounded(&mut self.render_times, duration, self.sample_size);
    }

    fn average(window: &Vec<u64>) -> (r: Option<u64>)
        ensures
            r == mean(window@),
    {
        let len = window.len();
        if len == 0 {
            return None;
        }
        let mut sum: u128 = 0;
        let mut k: usize = 0;
        while k < len
            invariant
                len == window@.len(),
                k <= len,
                sum == seq_sum(window@.subrange(0, k as int)),
                sum <= k * 0xffff_ffff_ffff_ffffu128,
            decreases len - k,
        {
            assert(window@.subrange(0, k + 1).drop_last() =~= window@.subrange(0, k as int));
            sum = sum + window[k] as u128;
            k = k + 1;
        }
        assert(window@.subrange(0, len as int) =~= window@);
        let avg = sum / (len as u128);
        assert(avg <= 0xffff_ffff_ffff_ffffu128) by (nonlinear_arith)
            requires
                avg == sum / (len as u128),
                sum <= len * 0xffff_ffff_ffff_ffffu128,
                len > 0,
        ;
        Some(avg as u64)
    }

    /// Mean step duration, rounded down; `None` before any sample.
    pub fn avg_step_time(&self) -> (r: Option<u64>)
        ensures
            r == mean(self.steps()),
    {
        Self::average(&self.step_times)
    }

    /// Mean render duration, rounded down; `None` before any sample.
    pub fn avg_render_time(&self) -> (r: Option<u64>)
        ensures
            r == mean(self.renders()),
    {
        Self::average(&self.render_times)
    }

    /// True when at least `interval` has elapsed between the last report and
    /// `now`, which then becomes the last report; false otherwise. A `now`
    /// before the last report counts as no time elapsed.
    pub fn should_log(&mut self, now: u64, interval: u64) -> (r: bool)
        ensures
            r == (now >= old(self).last_log() && now - old(self).last_log() >= interval),
            final(self).last_log() == if r {
                now
            } else {
                old(self).last_log()
            },
            final(self).steps() == old(self).steps(),
            final(self).renders() == old(self).renders(),
            final(self).capacity() == old(self).capacity(),
    {
        if now.saturating_sub(self.last_log) >= interval && now >= self.last_log {
            self.last_log = now;
            true
        } else {
            false
        }
    }

    /// 95th percentile of the step durations; `None` before any sample.
    pub fn percentile_95_step(&self) -> (r: Option<u64>)
        ensures
            r == percentile_95(self.steps()),
    {
        let len = self.step_times.len();
        if len == 0 {
            return None;
        }
        let sorted = sort_copy(&self.step_times);
        proof {
            lemma_sorted_copy_len(self.steps());
        }
        let idx = ((len as u128) * 95 / 100) as usize;
        assert(idx < len) by (nonlinear_arith)
            requires
                idx == (len * 95) / 100,
                len > 0,
        ;
        Some(sorted[idx])
    }
}

/// An insertion-sorted copy of `v`.
fn sort_copy(v: &Vec<u64>) -> (r: Vec<u64>)
    ensures
        r@ == sorted_copy(v@),
{
    let mut sorted: Vec<u64> = Vec::new();
    let mut k: usize = 0;
    assert(v@.subrange(0, 0) =~= Seq::<u64>::empty());
    while k < v.len()
        invariant
            k <= v@.len(),
            sorted@ == sorted_copy(v@.subrange(0, k as int)),
        decreases v@.len() - k,
    {
        let x = v[k];
        let ghost t = sorted@;
        proof {
            lemma_sorted_copy_len(v@.subrange(0, k as int));
        }
        let mut i = sorted.len();
        assert(t.subrange(0, i as int) =~= t);
        assert(t.subrange(i as int, t.len() as int) =~= Seq::<u64>::empty());
        while i > 0 && sorted[i - 1] > x
            invariant
                sorted@ == t,
                i <= t.len(),
                insert_sorted(t, x) == insert_sorted(t.subrange(0, i as int), x) + t.subrange(
                    i as int,
                    t.len() as int,
                ),
            decreases i,
        {
            let ghost u = t.subrange(0, i as int);
            assert(u.drop_last() =~= t.subrange(0, i - 1));
            assert(t.subrange(i - 1, t.len() as int) =~= seq![t[i - 1]] + t.subrange(
                i as int,
                t.len() as int,
            ));
            assert(insert_sorted(u, x) == insert_sorted(t.subrange(0, i - 1), x).push(t[i - 1]));
            assert(insert_sorted(t.subrange(0, i - 1), x).push(t[i - 1]) + t.subrange(
                i as int,
                t.len() as int,
            ) =~= insert_sorted(t.subrange(0, i - 1), x) + t.subrange(i - 1, t.len() as int));
            i = i - 1;
        }
        proof {
            let u = t.subrange(0, i as int);
            if i > 0 {
                assert(u.last() == t[i - 1]);
            }
            assert(insert_sorted(u, x) =~= u.push(x));
            assert(t.insert(i as int, x) =~= u.push(x) + t.subrange(i as int, t.len() as int));
            assert(v@.subrange(0, k + 1).drop_last() =~= v@.subrange(0, k as int));
        }
        sorted.insert(i, x);
        k = k + 1;
    }
    assert(v@.subrange(0, v@.len() as int) =~= v@);
    sorted
}

} // verus!
