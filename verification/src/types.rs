use vstd::prelude::*;
use std::collections::BTreeMap;

verus! {

use vstd::arithmetic::power2::{pow2, lemma_pow2_unfold, lemma_pow2_strictly_increases, lemma_pow2_adds, lemma2_to64_rest};

/// Number of times `n` can be halved before it drops below 2: `floor(log2(n))`, and 0 for 0.
#[verifier::opaque]
pub open spec fn floor_log2(n: nat) -> nat
    decreases n,
{
    if n < 2 {
        0
    } else {
        1 + floor_log2(n / 2)
    }
}

/// The greatest power of two (as an exponent) that a resampling period may have:
/// 2^126 is the greatest power of two that an `i128` can hold.
pub open spec fn max_period_power() -> nat {
    126
}

/// The exponent of the resampling period that rounds a time difference down to a power of two,
/// capped at [`max_period_power`].
pub open spec fn period_power_for_diff(diff: nat) -> nat {
    if floor_log2(diff) <= max_period_power() {
        floor_log2(diff)
    } else {
        max_period_power()
    }
}

/// `|a - b|`.
pub open spec fn abs_diff_spec(a: int, b: int) -> nat {
    if a >= b {
        (a - b) as nat
    } else {
        (b - a) as nat
    }
}

/// Single (easier for interoperability), signed (for completely arbitrary choice of reference 0)
/// int that's wide enough for all imaginable usecases.
///
/// Reference 0 is context-defined, times since Unix epoch, the start of a trace, etc.
#[derive(Clone, Copy, Debug, PartialEq, Eq, PartialOrd, Ord, Structural)]
pub struct Time {
    pub nanoseconds: i128,
}

impl Time {
    /// The latest representable time.
    pub fn max_value() -> (t: Time)
        ensures
            t.nanoseconds == i128::MAX,
    {
        Time { nanoseconds: i128::MAX }
    }

    /// The earliest representable time.
    pub fn min_value() -> (t: Time)
        ensures
            t.nanoseconds == i128::MIN,
    {
        Time { nanoseconds: i128::MIN }
    }

    /// The absolute distance between two times. It always fits: `|a - b| <= u128::MAX`.
    pub fn abs_diff(&self, other: Self) -> (d: AbsDiffTime)
        ensures
            d.nanoseconds == abs_diff_spec(self.nanoseconds as int, other.nanoseconds as int),
            self.nanoseconds <= other.nanoseconds ==> self.nanoseconds + d.nanoseconds
                == other.nanoseconds,
            other.nanoseconds <= self.nanoseconds ==> other.nanoseconds + d.nanoseconds
                == self.nanoseconds,
    {
        let a = self.nanoseconds;
        let b = other.nanoseconds;
        let nanoseconds: u128 = if a >= b {
            if b >= 0 || a < 0 {
                (a - b) as u128
            } else {
                // a >= 0 > b: |a - b| = a + (-(b + 1)) + 1, each part non-negative
                (a as u128) + ((-(b + 1)) as u128) + 1
            }
        } else {
            if a >= 0 || b < 0 {
                (b - a) as u128
            } else {
                (b as u128) + ((-(a + 1)) as u128) + 1
            }
        };
        AbsDiffTime { nanoseconds }
    }
}

/// A non-negative distance between two [`Time`]s, in nanoseconds.
#[derive(Clone, Copy, Debug, PartialEq, Eq, PartialOrd, Ord, Structural)]
pub struct AbsDiffTime {
    pub nanoseconds: u128,
}

impl AbsDiffTime {
    /// No time at all.
    pub fn zero() -> (d: AbsDiffTime)
        ensures
            d.nanoseconds == 0,
    {
        AbsDiffTime { nanoseconds: 0 }
    }
}

/// Raw samples are resampled to a fixed frequency of the form 2^n ns.
///
/// This period is the inverse of that frequency.
/// Invariant: `n <= 126`, since 2^126 is the greatest power of two representable by `i128`s.
#[derive(Clone, Copy, Debug, PartialEq, Eq, PartialOrd, Ord, Hash, Structural)]
pub struct ResamplePeriod {
    power_of_two: u8,
}

impl ResamplePeriod {
    #[verifier::type_invariant]
    spec fn power_in_range(self) -> bool {
        self.power_of_two <= 126
    }

    /// The exponent `n` of the period 2^n ns.
    pub closed spec fn power(self) -> nat {
        self.power_of_two as nat
    }

    /// The period of 2^n ns, if `n` is at most 126.
    pub fn from_power_of_two(power_of_two: u8) -> (r: Option<ResamplePeriod>)
        ensures
            power_of_two <= max_period_power() <==> r is Some,
            r matches Some(p) ==> p.power() == power_of_two,
    {
        if power_of_two <= 126 {
            Some(ResamplePeriod { power_of_two })
        } else {
            None
        }
    }

    /// The exponent `n` of the period 2^n ns.
    pub fn power_of_two(&self) -> (p: u8)
        ensures
            p == self.power(),
            p <= max_period_power(),
    {
        proof {
            use_type_invariant(self);
        }
        self.power_of_two
    }

    /// The shortest period, 1 ns.
    pub fn min_value() -> (r: ResamplePeriod)
        ensures
            r.power() == 0,
    {
        ResamplePeriod { power_of_two: 0 }
    }

    /// The longest period, 2^126 ns.
    pub fn max_value() -> (r: ResamplePeriod)
        ensures
            r.power() == max_period_power(),
    {
        ResamplePeriod { power_of_two: 126 }
    }

    /// The period 2^n ns with the greatest `n` such that 2^n <= `diff` (0 for a zero `diff`),
    /// capped at 2^126 ns.
    pub fn from_diff_rounding_down(diff: AbsDiffTime) -> (r: ResamplePeriod)
        ensures
            r.power() == period_power_for_diff(diff.nanoseconds as nat),
            diff.nanoseconds >= 1 ==> pow2(r.power()) <= diff.nanoseconds,
            r.power() < max_period_power() ==> diff.nanoseconds < pow2(r.power() + 1),
    {
        let n = diff.nanoseconds;
        let mut x: u128 = n;
        proof {
            reveal(floor_log2);
        }
        let mut k: u8 = 0;
        while x >= 2 && k < 126
            invariant
                k <= 126,
                floor_log2(n as nat) == k + floor_log2(x as nat),
            decreases x,
        {
            proof {
                reveal(floor_log2);
            }
            x = x / 2;
            k = k + 1;
        }
        proof {
            if n >= 1 {
                lemma_floor_log2_bounds(n as nat);
                lemma_period_rounds_down(n as nat);
            } else {
                reveal(floor_log2);
                lemma_pow2_unfold(1);
                vstd::arithmetic::power2::lemma_pow2(0);
                vstd::arithmetic::power::lemma_pow0(2);
            }
        }
        ResamplePeriod { power_of_two: k }
    }

    /// The next shorter period (half as long), if there is one.
    pub fn next_smallest(&self) -> (r: Option<ResamplePeriod>)
        ensures
            self.power() == 0 <==> r is None,
            r matches Some(p) ==> p.power() + 1 == self.power(),
    {
        proof {
            use_type_invariant(self);
        }
        match self.power_of_two.checked_sub(1) {
            Some(power_of_two) => Some(ResamplePeriod { power_of_two }),
            None => None,
        }
    }

    /// The period `n` powers of two longer, capped at 2^126 ns.
    pub fn n_powers_of_2_larger_or_max(&self, n: u8) -> (r: ResamplePeriod)
        ensures
            r.power() == if self.power() + n <= max_period_power() {
                self.power() + n
            } else {
                max_period_power() as int
            },
    {
        let sum = self.power_of_two.saturating_add(n);
        let power_of_two = if sum < 126 {
            sum
        } else {
            126
        };
        ResamplePeriod { power_of_two }
    }
}

/// Indexes into both raw data samples and resampled data in a [`Samples`] tree.
///
/// Time when raw samples were taken must monotonically increase with sample index.
///
/// For resampled data samples, the index times the resampling period equals the minimum time
/// covered by that sample.
#[derive(Clone, Copy, Debug, PartialEq, Eq, PartialOrd, Ord, Structural)]
pub struct SampleIndex {
    pub index: i128,
}

/// 2^126 fits in an `i128`, and so does every smaller power of two.
proof fn lemma_pow2_fits_i128(e: nat)
    requires
        e <= 126,
    ensures
        pow2(e) <= pow2(126),
        pow2(126) < i128::MAX,
{
    lemma2_to64_rest();
    lemma_pow2_adds(63, 63);
    if e < 126 {
        lemma_pow2_strictly_increases(e, 126);
    }
}

impl SampleIndex {
    /// The least sample index.
    pub fn min_value() -> (r: SampleIndex)
        ensures
            r.index == i128::MIN,
    {
        SampleIndex { index: i128::MIN }
    }

    /// The greatest sample index.
    pub fn max_value() -> (r: SampleIndex)
        ensures
            r.index == i128::MAX,
    {
        SampleIndex { index: i128::MAX }
    }

    /// The index of the resampled sample, at the given period, whose time range holds `time`:
    /// `floor(time / 2^n)`.
    pub fn resampled_index_for_time(period: ResamplePeriod, time: Time) -> (r: SampleIndex)
        ensures
            r.index == time.nanoseconds as int / (pow2(period.power()) as int),
            r.index * pow2(period.power()) <= time.nanoseconds,
            time.nanoseconds < (r.index + 1) * pow2(period.power()),
    {
        let p = period.power_of_two();
        let mut divisor: i128 = 1;
        let mut k: u8 = 0;
        proof {
            vstd::arithmetic::power2::lemma_pow2(0);
            vstd::arithmetic::power::lemma_pow0(2);
        }
        while k < p
            invariant
                k <= p <= 126,
                divisor == pow2(k as nat),
            decreases p - k,
        {
            proof {
                lemma_pow2_unfold((k + 1) as nat);
                lemma_pow2_fits_i128((k + 1) as nat);
            }
            divisor = divisor * 2;
            k = k + 1;
        }
        proof {
            vstd::arithmetic::power2::lemma_pow2_pos(p as nat);
            let t = time.nanoseconds as int;
            let d = divisor as int;
            assert(i128::MIN <= t / d <= i128::MAX) by (nonlinear_arith)
                requires
                    d >= 1,
                    i128::MIN <= t <= i128::MAX;
        }
        let index = match time.nanoseconds.checked_div_euclid(divisor) {
            Some(q) => q,
            None => 0,
        };
        proof {
            vstd::arithmetic::div_mod::lemma_fundamental_div_mod(time.nanoseconds as int, divisor as int);
            assert(index * divisor <= time.nanoseconds) by (nonlinear_arith)
                requires
                    index == time.nanoseconds as int / divisor as int,
                    divisor > 0;
            assert(time.nanoseconds < (index + 1) * divisor) by (nonlinear_arith)
                requires
                    index == time.nanoseconds as int / divisor as int,
                    divisor > 0;
        }
        SampleIndex { index }
    }
}

/// What a [`Samples`] tree holds for some range of sample indices.
pub enum Block<SB, E> {
    /// A packed block of the samples for some range of indices.
    Samples(SB),
    /// There are no samples for some range of indices.
    Empty(E),
    /// Samples for some range of indices are either permanently or temporarily unavailable.
    Unavailable,
}

/// Type for empty blocks in sample trees for "continuous" signals.
/// Provides the samples on either side of the empty block to render an interpolation between.
pub struct EmptyContinuousSignalBlock<S> {
    pub prev: (Time, S),
    pub next: (Time, S),
}

/// `BTreeMap::last_key_value`: the entry with the greatest key, `None` for an empty map.
#[verifier::external_body]
fn btree_last_key_value<V>(m: &BTreeMap<i128, V>) -> (r: Option<(&i128, &V)>)
    ensures
        r is None <==> m@.dom().is_empty(),
        r matches Some((k, v)) ==> {
            &&& m@.contains_key(*k)
            &&& m@[*k] == *v
            &&& forall|j: i128| m@.contains_key(j) ==> j <= *k
        },
{
    m.last_key_value()
}

/// The greatest key of a map: the minimum index of the last block of a [`Samples`] tree.
pub open spec fn last_block_start<B>(blocks: Map<i128, B>) -> i128 {
    choose|k: i128| blocks.contains_key(k) && forall|j: i128| blocks.contains_key(j) ==> j <= k
}

/// The index of the last sample that is not in an [`Block::Unavailable`] block, given the
/// blocks keyed by their minimum index; `None` when the whole index space is unavailable.
pub open spec fn last_available_index_of<SB, E>(blocks: Map<i128, Block<SB, E>>) -> Option<i128> {
    let k = last_block_start(blocks);
    match blocks[k] {
        Block::Unavailable => if k == i128::MIN {
            None
        } else {
            Some((k - 1) as i128)
        },
        _ => Some(i128::MAX),
    }
}

/// No two neighbouring blocks are both empty or both unavailable.
pub open spec fn coalesced<SB, E>(blocks: Map<i128, Block<SB, E>>) -> bool {
    forall|a: i128, b: i128|
        #![trigger blocks[a], blocks[b]]
        blocks.contains_key(a) && blocks.contains_key(b) && a < b && (forall|c: i128|
            a < c < b ==> !blocks.contains_key(c)) ==> !(blocks[a] is Unavailable
            && blocks[b] is Unavailable) && !(blocks[a] is Empty && blocks[b] is Empty)
}

/// For some signal, provides access to all the, either raw or resampled at some period, samples.
/// It does this in optionally sparse, but otherwise packed blocks.
///
/// The representation of a packed range of samples is generic.
/// They could be vectors, references to portions of a file, GPU buffers, etc.
///
/// Invariants:
/// - A (non-unique) [`Block`] exists for every [`SampleIndex`]: there is a block starting at
///   the least index.
/// - Empty and Unavailable blocks are coalesced with themselves respectively: two won't be
///   right next to each other.
pub struct Samples<SB, E> {
    /// Keys are the minimum (inclusive) index of each block. Each block either extends to the
    /// next key (non-inclusive) or to the greatest index if there is no next block.
    tree: BTreeMap<i128, Block<SB, E>>,
}

impl<SB, E> View for Samples<SB, E> {
    type V = Map<i128, Block<SB, E>>;

    closed spec fn view(&self) -> Map<i128, Block<SB, E>> {
        self.tree@
    }
}

impl<SB, E> Samples<SB, E> {
    #[verifier::type_invariant]
    spec fn covers_least_index(self) -> bool {
        &&& self.tree@.contains_key(i128::MIN)
        &&& coalesced(self.tree@)
    }

    /// A tree whose single block, covering every index, is unavailable.
    pub fn new() -> (r: Self)
        ensures
            r@ == map![i128::MIN => Block::<SB, E>::Unavailable],
            coalesced(r@),
    {
        broadcast use vstd::laws_cmp::group_laws_cmp;
        let mut tree = BTreeMap::new();
        tree.insert(i128::MIN, Block::Unavailable);
        assert(tree@ =~= map![i128::MIN => Block::<SB, E>::Unavailable]);
        Samples { tree }
    }

    /// Get the index of the last sample that is not unavailable.
    pub fn last_available_index(&self) -> (r: Option<SampleIndex>)
        ensures
            r matches Some(i) ==> last_available_index_of(self@) == Some(i.index),
            r is None ==> last_available_index_of(self@) is None,
            // Nothing is available exactly when one unavailable block covers every index.
            r is None <==> (self@.dom() == set![i128::MIN] && self@[i128::MIN] is Unavailable),
            // Otherwise the last block starts just after the last available index and is
            // unavailable, or the last block is available and so is the greatest index.
            r matches Some(i) ==> (i.index < i128::MAX ==> (self@.contains_key((i.index + 1) as i128)
                && self@[(i.index + 1) as i128] is Unavailable && forall|j: i128|
                self@.contains_key(j) ==> j <= i.index + 1)),
            r matches Some(i) ==> (i.index == i128::MAX ==> exists|k: i128|
                self@.contains_key(k) && !(self@[k] is Unavailable) && forall|j: i128|
                    self@.contains_key(j) ==> j <= k),
    {
        proof {
            use_type_invariant(self);
        }
        match btree_last_key_value(&self.tree) {
            Some((min, block)) => {
                proof {
                    let k = last_block_start(self@);
                    assert(self@.contains_key(*min) && forall|j: i128| self@.contains_key(j) ==> j <= *min);
                    assert(k == *min);
                    if *min == i128::MIN {
                        assert(self@.dom() =~= set![i128::MIN]);
                    } else {
                        assert(!set![i128::MIN].contains(*min));
                        assert(self@.dom() != set![i128::MIN]);
                    }
                }
                match block {
                    // The unavailable range spans the entire space, or its minimum index follows
                    // an available index.
                    Block::Unavailable => {
                        if *min == i128::MIN {
                            None
                        } else {
                            Some(SampleIndex { index: *min - 1 })
                        }
                    },
                    // There is no unavailable block at the end, the last index is available.
                    Block::Samples(_) | Block::Empty(_) => Some(SampleIndex { index: i128::MAX }),
                }
            },
            None => {
                proof {
                    assert(self.tree@.dom().contains(i128::MIN));
                }
                None
            },
        }
    }
}

/// A resampling period is determined by its exponent.
pub proof fn lemma_period_from_power(a: ResamplePeriod, b: ResamplePeriod)
    requires
        a.power() == b.power(),
    ensures
        a == b,
{
}

/// `2^floor_log2(n) <= 2^(floor_log2(n) + 1)` for every positive `n`.
pub proof fn lemma_floor_log2_bounds(n: nat)
    requires
        n >= 1,
    ensures
        pow2(floor_log2(n)) <= n,
        n < pow2(floor_log2(n) + 1),
    decreases n,
{
    reveal(floor_log2);
    lemma_pow2_unfold(floor_log2(n) + 1);
    if n < 2 {
        vstd::arithmetic::power2::lemma_pow2(0);
        vstd::arithmetic::power::lemma_pow0(2);
    } else {
        lemma_floor_log2_bounds(n / 2);
        lemma_pow2_unfold(floor_log2(n));
    }
}

/// `floor_log2` never decreases.
pub proof fn lemma_floor_log2_monotonic(a: nat, b: nat)
    requires
        a <= b,
    ensures
        floor_log2(a) <= floor_log2(b),
    decreases b,
{
    reveal(floor_log2);
    if a >= 2 {
        lemma_floor_log2_monotonic(a / 2, b / 2);
    }
}

/// The distance between two times, added to the earlier one, gives the later one.
pub proof fn lemma_abs_diff_is_distance(a: int, b: int)
    ensures
        a <= b ==> a + abs_diff_spec(a, b) == b,
        b <= a ==> b + abs_diff_spec(a, b) == a,
{
}

/// The distance from `a` to `b` is the distance from `b` to `a`.
pub proof fn lemma_abs_diff_symmetric(a: int, b: int)
    ensures
        abs_diff_spec(a, b) == abs_diff_spec(b, a),
{
}

/// The period picked for a positive time difference rounds it down: it is a power of two no
/// longer than the difference, and, below the cap, the next power of two is longer than it.
pub proof fn lemma_period_rounds_down(diff: nat)
    requires
        diff >= 1,
    ensures
        pow2(period_power_for_diff(diff)) <= diff,
        floor_log2(diff) <= max_period_power() ==> diff < pow2(period_power_for_diff(diff) + 1),
{
    lemma_floor_log2_bounds(diff);
    if floor_log2(diff) > max_period_power() {
        lemma_pow2_strictly_increases(max_period_power(), floor_log2(diff));
    }
}

/// A longer time difference never gets a shorter period.
pub proof fn lemma_period_monotonic(d1: nat, d2: nat)
    requires
        d1 <= d2,
    ensures
        period_power_for_diff(d1) <= period_power_for_diff(d2),
{
    lemma_floor_log2_monotonic(d1, d2);
}

/// Resampled indices never decrease as time increases.
pub proof fn lemma_resampled_index_monotonic(power: nat, t1: int, t2: int)
    requires
        t1 <= t2,
    ensures
        t1 / (pow2(power) as int) <= t2 / (pow2(power) as int),
{
    vstd::arithmetic::power2::lemma_pow2_pos(power);
    vstd::arithmetic::div_mod::lemma_div_is_ordered(t1, t2, pow2(power) as int);
}

/// In a tree whose only block, covering every index, is unavailable, no index is available.
pub proof fn lemma_all_unavailable_has_no_available_index<SB, E>()
    ensures
        last_available_index_of(map![i128::MIN => Block::<SB, E>::Unavailable]) is None,
{
    let m = map![i128::MIN => Block::<SB, E>::Unavailable];
    assert(m.contains_key(i128::MIN) && forall|j: i128| m.contains_key(j) ==> j <= i128::MIN);
}

} // verus!
