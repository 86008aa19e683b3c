//! Minimum viable signal backend, all in-memory, all pre-computed.
use vstd::prelude::*;
use std::collections::BTreeMap;
use crate::types::{
    AbsDiffTime, Block, EmptyContinuousSignalBlock, ResamplePeriod, Samples, Time,
    period_power_for_diff, abs_diff_spec, max_period_power, floor_log2, lemma_floor_log2_bounds,
    lemma_period_rounds_down,
};

verus! {

use vstd::arithmetic::power2::{pow2, lemma_pow2_strictly_increases, lemma_pow2_unfold};

/// How many new samples that could really use a smaller resampling period it takes before the
/// minimum resampling period is reduced. Must be at least 2 since we need 2 samples to select an
/// initial period for resampling.
pub const NUM_SAMPLES_TO_REDUCE_PERIOD_FOR: u8 = 100;

/// How many powers of two the period rounded down from the time between two samples must be
/// below the minimum resampling period for the later sample to count as one that could really
/// use a smaller period.
pub const COULD_REALLY_USE_SMALLER_PERIOD_POWER_OF_2: u8 = 8;

/// A packed block of resampled samples.
pub struct ResampleBlock<S>(pub Vec<S>);

/// The exponent of the period that rounds the time between two samples down to a power of two.
pub open spec fn gap_power(a: int, b: int) -> nat {
    period_power_for_diff(abs_diff_spec(a, b))
}

/// `min(p, 126)`.
pub open spec fn capped_power(p: nat) -> nat {
    if p <= max_period_power() {
        p
    } else {
        max_period_power()
    }
}

/// The greatest [`gap_power`] between two consecutive times of `times`; 0 when there are fewer
/// than two.
#[verifier::opaque]
pub open spec fn max_gap_power(times: Seq<int>) -> nat
    decreases times.len(),
{
    if times.len() < 2 {
        0
    } else {
        let rest = max_gap_power(times.drop_last());
        let last = gap_power(times[times.len() - 2], times[times.len() - 1]);
        if rest >= last {
            rest
        } else {
            last
        }
    }
}

/// Whether the times are in non-decreasing order.
#[verifier::opaque]
pub open spec fn nondecreasing(times: Seq<int>) -> bool {
    forall|i: int, j: int| 0 <= i <= j < times.len() ==> times[i] <= times[j]
}

/// The least element of a set of exponents.
pub open spec fn least(s: Set<u8>) -> u8 {
    choose|k: u8| s.contains(k) && forall|j: u8| s.contains(j) ==> k <= j
}

/// An element no greater than any other is the least one.
proof fn lemma_least_is(s: Set<u8>, k: u8)
    requires
        s.contains(k),
        forall|j: u8| s.contains(j) ==> k <= j,
    ensures
        least(s) == k,
{
    let c = least(s);
    assert(s.contains(c) && forall|j: u8| s.contains(j) ==> c <= j);
}

/// A finite non-empty set of exponents has a least element.
proof fn lemma_least_exists(s: Set<u8>)
    requires
        s.finite(),
        s.len() > 0,
    ensures
        s.contains(least(s)),
        forall|j: u8| s.contains(j) ==> least(s) <= j,
    decreases s.len(),
{
    let x = s.choose();
    assert(s.contains(x)) by {
        if !s.contains(x) {
            vstd::set_lib::lemma_set_empty_equivalency_len(s);
        }
    }
    let t = s.remove(x);
    if t.len() == 0 {
        assert forall|j: u8| s.contains(j) implies x <= j by {
            if j != x {
                assert(t.contains(j));
                vstd::set_lib::lemma_set_empty_equivalency_len(t);
            }
        }
        lemma_least_is(s, x);
    } else {
        lemma_least_exists(t);
        let y = least(t);
        if x <= y {
            lemma_least_is(s, x);
        } else {
            lemma_least_is(s, y);
        }
    }
}

/// `BTreeMap::first_key_value`: the entry with the least key, `None` for an empty map.
#[verifier::external_body]
fn btree_first_key_value<V>(m: &BTreeMap<u8, V>) -> (r: Option<(&u8, &V)>)
    ensures
        r is None <==> m@.dom().len() == 0,
        r matches Some((k, v)) ==> {
            &&& m@.contains_key(*k)
            &&& m@[*k] == *v
            &&& forall|j: u8| m@.contains_key(j) ==> *k <= j
        },
{
    m.first_key_value()
}

/// Inserts an entry into a map keyed by period exponents.
fn insert_period<V>(m: &mut BTreeMap<u8, V>, k: u8, v: V)
    ensures
        final(m)@ == old(m)@.insert(k, v),
        final(m)@.dom().finite(),
{
    broadcast use {vstd::laws_cmp::group_laws_cmp, vstd::std_specs::btree::group_btree_axioms};
    m.insert(k, v);
}

/// Raw samples of a signal and its resamplings at periods of the form 2^n ns.
pub struct Resample<S> {
    samples: Vec<(Time, S)>,
    resamples: BTreeMap<u8, Samples<ResampleBlock<S>, EmptyContinuousSignalBlock<S>>>,
    num_new_samples_that_could_really_use_smaller_period: u8,
}

impl<S> Resample<S> {
    /// The raw samples, in the order they were ingested.
    pub closed spec fn samples(self) -> Seq<(Time, S)> {
        self.samples@
    }

    /// The times of the raw samples, in nanoseconds.
    pub open spec fn sample_times(self) -> Seq<int> {
        self.samples().map_values(|s: (Time, S)| s.0.nanoseconds as int)
    }

    /// The exponents `n` of the periods 2^n ns that samples are resampled at.
    pub closed spec fn period_powers(self) -> Set<u8> {
        self.resamples@.dom()
    }

    /// The exponent of the shortest resampling period, if there is any.
    pub open spec fn min_period_power(self) -> Option<nat> {
        if self.period_powers().len() == 0 {
            None
        } else {
            Some(least(self.period_powers()) as nat)
        }
    }

    /// The blocks of samples resampled at the period 2^`power` ns.
    pub closed spec fn resampled_blocks(self, power: u8) -> Map<
        i128,
        Block<ResampleBlock<S>, EmptyContinuousSignalBlock<S>>,
    > {
        self.resamples@[power]@
    }

    /// How many new samples since the minimum resampling period last changed could really use a
    /// smaller one.
    pub closed spec fn num_could_use_smaller_period(self) -> nat {
        self.num_new_samples_that_could_really_use_smaller_period as nat
    }

    /// Samples are in time order; the count stays below its threshold; until there is a
    /// resampling period every sample is counted, and a resampling period exists only once at
    /// least two samples have been pushed; periods are at most 2^126 ns.
    pub closed spec fn wf(self) -> bool {
        &&& nondecreasing(self.sample_times())
        &&& self.num_new_samples_that_could_really_use_smaller_period < NUM_SAMPLES_TO_REDUCE_PERIOD_FOR
        &&& self.resamples@.dom().len() == 0 ==> self.num_new_samples_that_could_really_use_smaller_period == self.samples@.len()
        &&& self.resamples@.dom().len() > 0 ==> self.samples@.len() >= 2
        &&& forall|k: u8| self.resamples@.contains_key(k) ==> k <= max_period_power()
        &&& self.resamples@.dom().finite()
    }

    /// Whether a new sample at `time` counts as one that could really use a smaller resampling
    /// period: always before there is any period, otherwise when the time since the previous
    /// sample, rounded down to a power of two and raised by
    /// [`COULD_REALLY_USE_SMALLER_PERIOD_POWER_OF_2`] powers, is still below the minimum period.
    pub open spec fn counts_toward_smaller_period(self, time: int) -> bool {
        match self.min_period_power() {
            None => true,
            Some(m) => capped_power(
                gap_power(self.sample_times().last(), time) + COULD_REALLY_USE_SMALLER_PERIOD_POWER_OF_2 as nat,
            ) < m,
        }
    }

    /// The count of samples that could use a smaller period, after a sample at `time`.
    pub open spec fn count_after(self, time: int) -> nat {
        self.num_could_use_smaller_period() + if self.counts_toward_smaller_period(time) {
            1nat
        } else {
            0nat
        }
    }

    /// The new minimum resampling period that a sample at `time` makes necessary, if any: one
    /// power of two below the current minimum, or, for the first one, the greatest gap between
    /// consecutive sample times rounded down to a power of two.
    pub open spec fn new_period_power(self, time: int) -> Option<nat> {
        if self.count_after(time) < NUM_SAMPLES_TO_REDUCE_PERIOD_FOR {
            None
        } else {
            match self.min_period_power() {
                Some(m) => Some((m - 1) as nat),
                None => Some(max_gap_power(self.sample_times().push(time))),
            }
        }
    }

    /// No samples, no resampling periods.
    pub fn new() -> (r: Self)
        ensures
            r.wf(),
            r.samples() == Seq::<(Time, S)>::empty(),
            r.period_powers() == Set::<u8>::empty(),
            r.num_could_use_smaller_period() == 0,
    {
        let r = Resample {
            samples: Vec::new(),
            resamples: BTreeMap::new(),
            num_new_samples_that_could_really_use_smaller_period: 0,
        };
        proof {
            reveal(nondecreasing);
            assert(r.sample_times() =~= Seq::<int>::empty());
        }
        r
    }

    /// The shortest resampling period, if there is any.
    fn min_period(&self) -> (r: Option<ResamplePeriod>)
        requires
            self.wf(),
        ensures
            r is None <==> self.min_period_power() is None,
            r matches Some(p) ==> self.min_period_power() == Some(p.power()),
            r matches Some(p) ==> forall|j: u8| self.period_powers().contains(j) ==> p.power() <= j,
    {
        match btree_first_key_value(&self.resamples) {
            Some((k, _)) => {
                proof {
                    lemma_least_is(self.period_powers(), *k);
                }
                Some(ResamplePeriod::from_power_of_two(*k).unwrap())
            },
            None => None,
        }
    }

    /// The greatest gap between consecutive sample times, with a new sample at `sample_time`
    /// after the stored ones, rounded down to a power of two.
    fn initial_period(&self, sample_time: Time) -> (r: ResamplePeriod)
        requires
            self.samples().len() > 0,
        ensures
            r.power() == max_gap_power(self.sample_times().push(sample_time.nanoseconds as int)),
    {
        let n = self.samples.len();
        let ghost all = self.sample_times().push(sample_time.nanoseconds as int);
        let mut best = ResamplePeriod::min_value();
        let mut i: usize = 0;
        proof {
            assert(all.take(1).len() == 1);
            reveal(max_gap_power);
        }
        while i < n
            invariant
                n == self.samples@.len(),
                i <= n,
                all == self.sample_times().push(sample_time.nanoseconds as int),
                best.power() == max_gap_power(all.take(i as int + 1)),
            decreases n - i,
        {
            let t1 = self.samples[i].0;
            let t2 = if i + 1 < n {
                self.samples[i + 1].0
            } else {
                sample_time
            };
            let p = ResamplePeriod::from_diff_rounding_down(t1.abs_diff(t2));
            proof {
                reveal(max_gap_power);
                let prefix = all.take(i as int + 2);
                assert(prefix.drop_last() =~= all.take(i as int + 1));
                assert(prefix[i as int] == t1.nanoseconds);
                assert(prefix[i as int + 1] == t2.nanoseconds);
            }
            if p.power_of_two() > best.power_of_two() {
                best = p;
            }
            i = i + 1;
        }
        proof {
            assert(all.take(n as int + 1) =~= all);
        }
        best
    }

    /// Whether a new sample at `sample_time` could really use a smaller period than
    /// `min_sampling_period`, the current minimum.
    fn could_use_smaller_period(&self, sample_time: Time, min_sampling_period: Option<ResamplePeriod>) -> (b: bool)
        requires
            min_sampling_period is Some ==> self.samples().len() > 0,
            min_sampling_period is None <==> self.min_period_power() is None,
            min_sampling_period matches Some(p) ==> self.min_period_power() == Some(p.power()),
        ensures
            b == self.counts_toward_smaller_period(sample_time.nanoseconds as int),
    {
        match min_sampling_period {
            None => true,
            Some(min) => {
                let n = self.samples.len();
                let prev = self.samples[n - 1].0;
                assert(self.sample_times().last() == prev.nanoseconds);
                ResamplePeriod::from_diff_rounding_down(sample_time.abs_diff(prev)).n_powers_of_2_larger_or_max(
                    COULD_REALLY_USE_SMALLER_PERIOD_POWER_OF_2,
                ).power_of_two() < min.power_of_two()
            },
        }
    }

    /// Starts resampling at period `p`, shorter than every current one, with no resampled block
    /// available yet; the count of samples that could use a smaller period starts over.
    fn register_period(&mut self, p: ResamplePeriod)
        requires
            forall|j: u8| old(self).period_powers().contains(j) ==> p.power() < j,
            old(self).samples().len() >= 2,
            nondecreasing(old(self).sample_times()),
            old(self).resamples@.dom().finite(),
            forall|k: u8| old(self).resamples@.contains_key(k) ==> k <= max_period_power(),
        ensures
            final(self).wf(),
            final(self).samples() == old(self).samples(),
            final(self).period_powers() == old(self).period_powers().insert(p.power() as u8),
            final(self).min_period_power() == Some(p.power()),
            final(self).num_could_use_smaller_period() == 0,
            final(self).resampled_blocks(p.power() as u8) == map![i128::MIN => Block::<ResampleBlock<S>, EmptyContinuousSignalBlock<S>>::Unavailable],
            forall|k: u8| old(self).period_powers().contains(k) ==> final(self).resampled_blocks(k) == old(self).resampled_blocks(k),
    {
        let power = p.power_of_two();
        insert_period(&mut self.resamples, power, Samples::new());
        self.num_new_samples_that_could_really_use_smaller_period = 0;
        proof {
            assert(self.period_powers() =~= old(self).period_powers().insert(power));
            lemma_least_is(self.period_powers(), power);
        }
    }

    /// Appends a raw sample.
    fn push_sample(&mut self, sample_time: Time, sample: S)
        requires
            nondecreasing(old(self).sample_times()),
            old(self).samples().len() > 0 ==> old(self).sample_times().last() <= sample_time.nanoseconds,
            old(self).num_new_samples_that_could_really_use_smaller_period < NUM_SAMPLES_TO_REDUCE_PERIOD_FOR,
            old(self).resamples@.dom().len() == 0 ==> old(self).num_new_samples_that_could_really_use_smaller_period == old(self).samples@.len() + 1,
            forall|k: u8| old(self).resamples@.contains_key(k) ==> k <= max_period_power(),
            old(self).resamples@.dom().finite(),
            old(self).resamples@.dom().len() > 0 ==> old(self).samples@.len() >= 1,
        ensures
            final(self).wf(),
            final(self).samples() == old(self).samples().push((sample_time, sample)),
            final(self).sample_times() == old(self).sample_times().push(sample_time.nanoseconds as int),
            final(self).resamples == old(self).resamples,
            final(self).num_new_samples_that_could_really_use_smaller_period
                == old(self).num_new_samples_that_could_really_use_smaller_period,
    {
        self.samples.push((sample_time, sample));
        proof {
            reveal(nondecreasing);
            assert(self.sample_times() =~= old(self).sample_times().push(sample_time.nanoseconds as int));
            let times = self.sample_times();
            assert forall|i: int, j: int| 0 <= i <= j < times.len() implies times[i] <= times[j] by {
                if j == times.len() - 1 && i < j {
                    assert(old(self).sample_times()[i] <= old(self).sample_times().last());
                }
            }
        }
    }

    /// Ingests the next raw sample. Time of the samples must be monotonically increasing.
    ///
    /// Counts the sample if it could really use a smaller resampling period (see
    /// [`Resample::counts_toward_smaller_period`]). Once [`NUM_SAMPLES_TO_REDUCE_PERIOD_FOR`] have
    /// been counted, a new minimum resampling period is picked (see
    /// [`Resample::new_period_power`]), registered with no resampled block available yet, and
    /// returned; the count starts over.
    pub fn ingest_next_sample(&mut self, sample: (Time, S)) -> (r: Option<ResamplePeriod>)
        requires
            old(self).wf(),
            old(self).samples().len() > 0 ==> old(self).sample_times().last() <= sample.0.nanoseconds,
        ensures
            final(self).wf(),
            final(self).samples() == old(self).samples().push(sample),
            r is None <==> old(self).new_period_power(sample.0.nanoseconds as int) is None,
            r matches Some(p) ==> old(self).new_period_power(sample.0.nanoseconds as int) == Some(
                p.power(),
            ),
            r is None ==> final(self).period_powers() == old(self).period_powers(),
            r is None ==> final(self).num_could_use_smaller_period() == old(self).count_after(
                sample.0.nanoseconds as int,
            ),
            r matches Some(p) ==> final(self).period_powers() == old(self).period_powers().insert(
                p.power() as u8,
            ),
            r matches Some(p) ==> final(self).min_period_power() == Some(p.power()),
            r is Some ==> final(self).num_could_use_smaller_period() == 0,
            r matches Some(p) ==> final(self).resampled_blocks(p.power() as u8) == map![i128::MIN => Block::<ResampleBlock<S>, EmptyContinuousSignalBlock<S>>::Unavailable],
            forall|k: u8| old(self).period_powers().contains(k) ==> final(self).resampled_blocks(k) == old(self).resampled_blocks(k),
            // With a minimum period 2^m, the sample counts exactly when its gap to the previous
            // one is below 2^(m - 8); counts are kept until a new period is picked.
            ({
                let t = sample.0.nanoseconds as int;
                let counted = match old(self).min_period_power() {
                    None => true,
                    Some(m) => m > COULD_REALLY_USE_SMALLER_PERIOD_POWER_OF_2 && t - old(
                        self,
                    ).sample_times().last() < pow2((m - COULD_REALLY_USE_SMALLER_PERIOD_POWER_OF_2) as nat),
                };
                let n = old(self).num_could_use_smaller_period() + if counted {
                    1nat
                } else {
                    0nat
                };
                &&& (r is Some <==> n >= NUM_SAMPLES_TO_REDUCE_PERIOD_FOR)
                &&& r is None ==> final(self).num_could_use_smaller_period() == n
            }),
            // A new minimum period is one power of two below the current one.
            old(self).min_period_power() matches Some(m) ==> (r matches Some(p) ==> p.power() + 1
                == m),
            // The first period is the greatest gap between consecutive times, the new sample's
            // included, rounded down to a power of two.
            old(self).min_period_power() is None ==> (r matches Some(p) ==> ({
                let all = old(self).sample_times().push(sample.0.nanoseconds as int);
                &&& forall|i: int|
                    0 <= i < all.len() - 1 ==> p.power() == max_period_power() || #[trigger] gap_at(
                        all,
                        i,
                    ) < pow2(p.power() + 1)
                &&& (p.power() == 0 || exists|i: int|
                    0 <= i < all.len() - 1 && pow2(p.power()) <= #[trigger] gap_at(all, i))
            })),
    {
        let ghost old_self = *self;
        let ghost time = sample.0.nanoseconds as int;
        proof {
            lemma_ingest_outcome(old_self, time);
        }
        let (sample_time, sample) = sample;

        // Check for whether we need to reduce the minimum re-sampling period
        let min_sampling_period = self.min_period();
        let counts = self.could_use_smaller_period(sample_time, min_sampling_period);
        if counts {
            self.num_new_samples_that_could_really_use_smaller_period =
                self.num_new_samples_that_could_really_use_smaller_period + 1;
        }
        assert(self.num_could_use_smaller_period() == old_self.count_after(time));
        assert(self.samples() == old_self.samples());
        let result = if self.num_new_samples_that_could_really_use_smaller_period
            >= NUM_SAMPLES_TO_REDUCE_PERIOD_FOR {
            let new_sampling_period = match min_sampling_period {
                // Reduce by one, hopefully that will be enough.
                Some(min) => min.next_smallest().unwrap(),
                // Pick an initial minimum resampling period from the maximum time between samples.
                None => self.initial_period(sample_time),
            };
            assert(old_self.new_period_power(time) == Some(new_sampling_period.power()));
            self.register_period(new_sampling_period);
            Some(new_sampling_period)
        } else {
            None
        };
        let ghost before_push = *self;
        self.push_sample(sample_time, sample);
        assert forall|k: u8| old_self.period_powers().contains(k) implies self.resampled_blocks(k)
            == old_self.resampled_blocks(k) by {
            assert(self.resampled_blocks(k) == before_push.resampled_blocks(k));
        }
        result
    }
}

/// Samples stay in time order, and a resampling period exists only once at least two samples
/// have been ingested, so a minimum period always comes with a previous sample.
pub proof fn lemma_period_needs_two_samples<S>(r: Resample<S>)
    requires
        r.wf(),
    ensures
        nondecreasing(r.sample_times()),
        r.period_powers().len() > 0 ==> r.samples().len() >= 2,
        r.min_period_power() is Some ==> r.samples().len() >= 2,
        r.num_could_use_smaller_period() < NUM_SAMPLES_TO_REDUCE_PERIOD_FOR,
{
}

/// Each new minimum resampling period is shorter than the current one.
pub proof fn lemma_new_period_is_shorter<S>(r: Resample<S>, time: int)
    requires
        r.wf(),
    ensures
        r.new_period_power(time) matches Some(p) ==> (r.min_period_power() matches Some(m) ==> p < m),
{
}

/// The time from the sample at `i` to the one after it.
pub open spec fn gap_at(times: Seq<int>, i: int) -> int {
    times[i + 1] - times[i]
}

/// 2^1 == 2.
proof fn lemma_pow2_one()
    ensures
        pow2(1) == 2,
{
    vstd::arithmetic::power2::lemma_pow2(0);
    vstd::arithmetic::power::lemma_pow0(2);
    lemma_pow2_unfold(1);
}

/// A gap `d` counts toward a smaller period than 2^m exactly when `d < 2^(m - 8)`.
proof fn lemma_counting_gap_threshold(d: nat, m: nat)
    requires
        m <= max_period_power(),
    ensures
        capped_power(period_power_for_diff(d) + COULD_REALLY_USE_SMALLER_PERIOD_POWER_OF_2 as nat)
            < m <==> (m > COULD_REALLY_USE_SMALLER_PERIOD_POWER_OF_2 && d < pow2(
            (m - COULD_REALLY_USE_SMALLER_PERIOD_POWER_OF_2) as nat,
        )),
{
    let f = floor_log2(d);
    if d >= 1 {
        lemma_floor_log2_bounds(d);
    } else {
        reveal(floor_log2);
        vstd::arithmetic::power2::lemma_pow2_pos((m - 8) as nat);
    }
    if m > 8 {
        let k = (m - 8) as nat;
        if f + 8 < m {
            if f + 1 < k {
                lemma_pow2_strictly_increases(f + 1, k);
            }
        } else {
            if k < f {
                lemma_pow2_strictly_increases(k, f);
            }
        }
    }
}

/// The rounded gap between two ordered times bounds the gap: below 2^(q+1) unless capped, and at
/// least 2^q unless `q` is 0.
proof fn lemma_gap_power_bounds(a: int, b: int)
    requires
        a <= b,
    ensures
        gap_power(a, b) <= max_period_power(),
        gap_power(a, b) == max_period_power() || b - a < pow2(gap_power(a, b) + 1),
        gap_power(a, b) == 0 || pow2(gap_power(a, b)) <= b - a,
{
    let g = (b - a) as nat;
    assert(abs_diff_spec(a, b) == g);
    if g >= 1 {
        lemma_period_rounds_down(g);
    } else {
        reveal(floor_log2);
        lemma_pow2_one();
    }
}

/// The greatest rounded gap between consecutive ordered times bounds every gap from above, and
/// is attained by one of them.
pub proof fn lemma_max_gap_power_bounds(times: Seq<int>)
    requires
        nondecreasing(times),
    ensures
        max_gap_power(times) <= max_period_power(),
        forall|i: int|
            0 <= i < times.len() - 1 ==> max_gap_power(times) == max_period_power() || #[trigger] gap_at(
                times,
                i,
            ) < pow2(max_gap_power(times) + 1),
        max_gap_power(times) == 0 || exists|i: int|
            0 <= i < times.len() - 1 && pow2(max_gap_power(times)) <= #[trigger] gap_at(times, i),
    decreases times.len(),
{
    reveal(max_gap_power);
    reveal(nondecreasing);
    if times.len() >= 2 {
        let n = times.len() as int;
        let rest_times = times.drop_last();
        assert(nondecreasing(rest_times));
        lemma_max_gap_power_bounds(rest_times);
        let p = max_gap_power(times);
        let rest = max_gap_power(rest_times);
        let q = gap_power(times[n - 2], times[n - 1]);
        lemma_gap_power_bounds(times[n - 2], times[n - 1]);
        assert(gap_at(times, n - 2) == times[n - 1] - times[n - 2]);
        assert forall|i: int| 0 <= i < times.len() - 1 implies p == max_period_power() || #[trigger] gap_at(
            times,
            i,
        ) < pow2(p + 1) by {
            if i < n - 2 {
                assert(gap_at(times, i) == gap_at(rest_times, i));
                if rest < p {
                    lemma_pow2_strictly_increases(rest + 1, p + 1);
                }
            } else {
                if q < p {
                    lemma_pow2_strictly_increases(q + 1, p + 1);
                }
            }
        }
        if p != 0 {
            if p == rest {
                let i = choose|i: int| 0 <= i < rest_times.len() - 1 && pow2(rest) <= #[trigger] gap_at(rest_times, i);
                assert(gap_at(times, i) == gap_at(rest_times, i));
            } else {
                assert(pow2(p) <= gap_at(times, n - 2));
            }
        }
    }
}

/// What ingesting a sample at `time` does, in terms of the gap to the previous sample:
/// with a minimum period 2^m, the sample counts exactly when its gap is below 2^(m - 8), and
/// counts are never dropped; once the count reaches its threshold a new period is picked, one
/// power of two below the minimum, or, for the first one, the greatest gap between consecutive
/// times rounded down to a power of two (bounding every gap, the new one included, and attained
/// by one of them).
pub proof fn lemma_ingest_outcome<S>(r: Resample<S>, time: int)
    requires
        r.wf(),
        r.samples().len() > 0 ==> r.sample_times().last() <= time,
    ensures
        ({
            let counted = match r.min_period_power() {
                None => true,
                Some(m) => m > COULD_REALLY_USE_SMALLER_PERIOD_POWER_OF_2 && time - r.sample_times().last()
                    < pow2((m - COULD_REALLY_USE_SMALLER_PERIOD_POWER_OF_2) as nat),
            };
            let n = r.num_could_use_smaller_period() + if counted {
                1nat
            } else {
                0nat
            };
            &&& r.count_after(time) == n
            &&& (r.new_period_power(time) is Some <==> n >= NUM_SAMPLES_TO_REDUCE_PERIOD_FOR)
        }),
        r.min_period_power() matches Some(m) ==> (r.new_period_power(time) matches Some(p) ==> p + 1
            == m),
        r.min_period_power() is None ==> (r.new_period_power(time) matches Some(p) ==> ({
            let all = r.sample_times().push(time);
            &&& p <= max_period_power()
            &&& forall|i: int|
                0 <= i < all.len() - 1 ==> p == max_period_power() || #[trigger] gap_at(all, i) < pow2(
                    p + 1,
                )
            &&& (p == 0 || exists|i: int|
                0 <= i < all.len() - 1 && pow2(p) <= #[trigger] gap_at(all, i))
        })),
{
    match r.min_period_power() {
        Some(m) => {
            // The least exponent is one of the periods, so at most 126.
            lemma_least_exists(r.period_powers());
            assert(m <= max_period_power());
            let last = r.sample_times().last();
            assert(abs_diff_spec(last, time) == time - last);
            lemma_counting_gap_threshold((time - last) as nat, m);
        },
        None => {
            let all = r.sample_times().push(time);
            reveal(nondecreasing);
            assert(nondecreasing(all));
            lemma_max_gap_power_bounds(all);
        },
    }
}

} // verus!
