use vstd::prelude::*;
use std::collections::VecDeque;
use core::ops::Range;

verus! {

broadcast use vstd::std_specs::vecdeque::group_vec_dequeue_axioms;

/// `VecDeque::get_mut`: a mutable reference to the element at `index`, if it is in bounds.
/// What is written through the reference becomes that element; nothing else changes.
#[verifier::external_body]
fn vec_deque_get_mut<T>(v: &mut VecDeque<T>, index: usize) -> (r: Option<&mut T>)
    ensures
        index < old(v)@.len() <==> r is Some,
        r is None ==> final(v)@ == old(v)@,
        r matches Some(e) ==> *e == old(v)@[index as int] && final(v)@ == old(v)@.update(
            index as int,
            *final(e),
        ),
{
    v.get_mut(index)
}

/// A sequence of values stored at contiguous integer positions `first .. first + items.len()`.
pub struct PositionalSeq<T> {
    pub first: int,
    pub items: Seq<T>,
}

impl<T> PositionalSeq<T> {
    /// One past the last stored position.
    pub open spec fn end(self) -> int {
        self.first + self.items.len()
    }

    /// Whether a value is stored at `pos`.
    pub open spec fn contains(self, pos: int) -> bool {
        self.first <= pos < self.end()
    }

    /// The value stored at `pos`, if any.
    pub open spec fn get(self, pos: int) -> Option<T> {
        if self.contains(pos) {
            Some(self.items[pos - self.first])
        } else {
            None
        }
    }

    /// The least stored position, if any value is stored.
    pub open spec fn min_pos(self) -> Option<int> {
        if self.items.len() == 0 {
            None
        } else {
            Some(self.first)
        }
    }

    /// The last stored value, if any.
    pub open spec fn last(self) -> Option<T> {
        if self.items.len() == 0 {
            None
        } else {
            Some(self.items.last())
        }
    }

    /// Storing `value` at `pos`: replaces a stored value, extends the stored range by one at
    /// either end, or starts it when nothing is stored. `None` when `pos` would leave a gap.
    pub open spec fn set(self, pos: int, value: T) -> Option<PositionalSeq<T>> {
        if self.items.len() == 0 {
            Some(PositionalSeq { first: pos, items: seq![value] })
        } else if self.contains(pos) {
            Some(PositionalSeq { first: self.first, items: self.items.update(pos - self.first, value) })
        } else if pos == self.first - 1 {
            Some(PositionalSeq { first: pos, items: seq![value] + self.items })
        } else if pos == self.end() {
            Some(PositionalSeq { first: self.first, items: self.items.push(value) })
        } else {
            None
        }
    }
}

/// A double-ended queue whose elements are addressed by contiguous `i128` positions.
pub struct PositionalVecDeque<T> {
    offset_to_position: i128,
    vec_deque: VecDeque<T>,
}

impl<T> View for PositionalVecDeque<T> {
    type V = PositionalSeq<T>;

    closed spec fn view(&self) -> PositionalSeq<T> {
        PositionalSeq { first: self.offset_to_position as int, items: self.vec_deque@ }
    }
}

impl<T> PositionalVecDeque<T> {
    /// Every stored position is an `i128`.
    pub closed spec fn wf(&self) -> bool {
        self.offset_to_position + self.vec_deque@.len() <= i128::MAX + 1
    }

    /// An empty queue.
    pub fn new() -> (r: Self)
        ensures
            r.wf(),
            r@.first == 0,
            r@.items.len() == 0,
    {
        PositionalVecDeque { offset_to_position: 0, vec_deque: VecDeque::new() }
    }

    /// The least stored position, `None` when empty.
    pub fn min_pos(&self) -> (r: Option<i128>)
        ensures
            r matches Some(p) ==> self@.min_pos() == Some(p as int),
            r is None ==> self@.min_pos() is None,
    {
        if self.vec_deque.len() == 0 {
            None
        } else {
            Some(self.offset_to_position)
        }
    }

    /// The index into the queue of position `pos`, when it is stored.
    fn index_of(&self, pos: i128) -> (r: Option<usize>)
        requires
            self.wf(),
        ensures
            r is Some <==> self@.contains(pos as int),
            r matches Some(i) ==> i == pos - self@.first,
    {
        let len = self.vec_deque.len();
        assert(len == self.vec_deque@.len());
        match pos.checked_sub(self.offset_to_position) {
            Some(index) => {
                if 0 <= index && index < len as i128 {
                    Some(index as usize)
                } else {
                    None
                }
            },
            None => None,
        }
    }

    /// Sets the value at the given position.
    ///
    /// Returns an error if setting the given position would make the stored positions
    /// non-contiguous; then nothing changes.
    pub fn set_pos(&mut self, pos: i128, value: T) -> (r: Result<(), ()>)
        requires
            old(self).wf(),
        ensures
            final(self).wf(),
            old(self)@.set(pos as int, value) is Some <==> r is Ok,
            r is Ok ==> final(self)@ == old(self)@.set(pos as int, value)->0,
            r is Err ==> final(self)@ == old(self)@,
    {
        if self.vec_deque.len() == 0 {
            self.offset_to_position = pos;
            self.vec_deque.push_back(value);
            assert(self.vec_deque@ =~= seq![value]);
            return Ok(());
        }
        let len = self.vec_deque.len();
        match self.index_of(pos) {
            Some(index) => {
                match vec_deque_get_mut(&mut self.vec_deque, index) {
                    Some(element) => {
                        *element = value;
                    },
                    None => {},
                }
                return Ok(());
            },
            None => {},
        }
        if pos < i128::MAX && pos + 1 == self.offset_to_position {
            self.vec_deque.push_front(value);
            self.offset_to_position = pos;
            return Ok(());
        }
        match pos.checked_sub(self.offset_to_position) {
            Some(index) => {
                if index == len as i128 {
                    self.vec_deque.push_back(value);
                    return Ok(());
                }
            },
            None => {},
        }
        Err(())
    }

    /// The value stored at `pos`, if any.
    pub fn get_pos(&self, pos: i128) -> (r: Option<&T>)
        requires
            self.wf(),
        ensures
            r is Some <==> self@.contains(pos as int),
            r matches Some(v) ==> self@.get(pos as int) == Some(*v),
    {
        match self.index_of(pos) {
            Some(index) => Some(&self.vec_deque[index]),
            None => None,
        }
    }

    /// A mutable reference to the value stored at `pos`, if any. What is written through it
    /// becomes the value at `pos`.
    pub fn get_pos_mut(&mut self, pos: i128) -> (r: Option<&mut T>)
        requires
            old(self).wf(),
        ensures
            final(self).wf(),
            r is Some <==> old(self)@.contains(pos as int),
            r is None ==> final(self)@ == old(self)@,
            r matches Some(e) ==> old(self)@.get(pos as int) == Some(*e) && final(self)@
                == old(self)@.set(pos as int, *final(e))->0,
    {
        match self.index_of(pos) {
            Some(index) => vec_deque_get_mut(&mut self.vec_deque, index),
            None => None,
        }
    }

    /// The value at the greatest stored position, if any.
    pub fn last(&self) -> (r: Option<&T>)
        ensures
            r is Some <==> self@.items.len() > 0,
            r matches Some(v) ==> self@.last() == Some(*v),
    {
        let len = self.vec_deque.len();
        if len == 0 {
            None
        } else {
            Some(&self.vec_deque[len - 1])
        }
    }

    /// The stored positions, in increasing order.
    pub fn iter_inds(&self) -> (r: Range<i128>)
        requires
            self.wf(),
            self@.end() <= i128::MAX,
        ensures
            r.start == self@.first,
            r.end == self@.end(),
    {
        self.offset_to_position..(self.offset_to_position + (self.vec_deque.len() as i128))
    }
}

/// Storing a value and reading the same position gives the value back.
pub proof fn lemma_get_after_set<T>(m: PositionalSeq<T>, pos: int, value: T)
    requires
        m.set(pos, value) is Some,
    ensures
        m.set(pos, value)->0.get(pos) == Some(value),
{
}

/// Storing a value changes no other position: the same positions hold the same values, plus
/// `pos`.
pub proof fn lemma_set_keeps_others<T>(m: PositionalSeq<T>, pos: int, value: T, other: int)
    requires
        m.set(pos, value) is Some,
        other != pos,
    ensures
        m.set(pos, value)->0.get(other) == m.get(other),
        m.set(pos, value)->0.contains(other) == m.contains(other),
        m.set(pos, value)->0.contains(pos),
{
}

/// Storing a value fails exactly when its position would leave a gap between it and the stored
/// positions.
pub proof fn lemma_set_fails_iff_gap<T>(m: PositionalSeq<T>, pos: int, value: T)
    ensures
        m.set(pos, value) is None <==> (m.items.len() > 0 && (pos < m.first - 1 || pos > m.end())),
{
}

/// Storing at the position just past the stored ones, or just before them, always succeeds and
/// extends the stored range by that one position; so does storing into an empty sequence.
pub proof fn lemma_set_extends<T>(m: PositionalSeq<T>, pos: int, value: T)
    requires
        m.items.len() == 0 || pos == m.end() || pos == m.first - 1,
    ensures
        m.set(pos, value) is Some,
        m.set(pos, value)->0.items.len() == m.items.len() + 1,
        m.items.len() == 0 || pos == m.end() ==> m.set(pos, value)->0.end() == pos + 1,
        m.items.len() == 0 || pos == m.first - 1 ==> m.set(pos, value)->0.first == pos,
{
}

/// A time scale: decimation samples at scale `n` each cover 2^n seconds.
#[derive(Clone, Copy, PartialEq, Eq, Debug, Structural)]
pub struct TimeScale {
    one_s_exp: i32,
}

impl TimeScale {
    /// The exponent `n` of the 2^n s covered by each decimation sample.
    pub closed spec fn exponent(self) -> int {
        self.one_s_exp as int
    }

    /// The index of this scale: its exponent.
    pub fn scale_idx(&self) -> (r: i32)
        ensures
            r == self.exponent(),
    {
        self.one_s_exp
    }

    /// The scale with the given index.
    pub fn from_scale_idx(scale_idx: i32) -> (r: TimeScale)
        ensures
            r.exponent() == scale_idx,
    {
        TimeScale { one_s_exp: scale_idx }
    }
}

/// The scale indices to begin decimating at so that decimation reaches down to at least
/// `scale_idx`, given the least scale index decimated so far: just `scale_idx` when nothing is
/// decimated yet, `scale_idx .. current_min` when `scale_idx` is finer than everything decimated
/// so far, and none otherwise.
pub fn scales_to_begin_decimating(scale_idx: i32, current_min_scale_idx: Option<i128>) -> (r: Option<
    Range<i128>,
>)
    ensures
        current_min_scale_idx is None ==> (r matches Some(range) && range.start == scale_idx
            && range.end == scale_idx + 1),
        current_min_scale_idx matches Some(c) ==> (scale_idx < c <==> r is Some),
        current_min_scale_idx matches Some(c) ==> (r matches Some(range) ==> range.start
            == scale_idx && range.end == c),
{
    let scale_idx = scale_idx as i128;
    match current_min_scale_idx {
        None => Some(scale_idx..(scale_idx + 1)),
        Some(current_min_scale_idx) => {
            if scale_idx < current_min_scale_idx {
                Some(scale_idx..current_min_scale_idx)
            } else {
                None
            }
        },
    }
}

/// The time indices whose decimation samples are finalized when a sample with time index
/// `sample_time_idx` arrives while the incomplete decimation sample is at
/// `incomplete_time_idx`: every time index that precedes the new sample's, from the incomplete
/// one on, `incomplete_time_idx .. sample_time_idx`; none while the new sample falls in the
/// incomplete one.
pub fn time_indices_to_finalize(incomplete_time_idx: i128, sample_time_idx: i128) -> (r: Option<
    Range<i128>,
>)
    requires
        incomplete_time_idx <= sample_time_idx,
    ensures
        r is Some <==> sample_time_idx > incomplete_time_idx,
        r matches Some(range) ==> range.start == incomplete_time_idx && range.end
            == sample_time_idx,
{
    if sample_time_idx > incomplete_time_idx {
        Some(incomplete_time_idx..sample_time_idx)
    } else {
        None
    }
}

/// Whether the finalized decimation samples get values interpolated towards the new sample:
/// when the incomplete one holds no sample, or time indices are skipped between it and the new
/// sample's (the decimation sampling rate is higher than the samples are coming in).
pub fn interpolates_finalized(
    incomplete_time_idx: i128,
    incomplete_num_samples: i128,
    sample_time_idx: i128,
) -> (r: bool)
    requires
        incomplete_time_idx < sample_time_idx,
    ensures
        r == (incomplete_num_samples == 0 || sample_time_idx - incomplete_time_idx > 1),
{
    incomplete_num_samples == 0 || sample_time_idx > incomplete_time_idx + 1
}

/// Finalizing the indices [`time_indices_to_finalize`] gives, in increasing order, onto
/// finalized samples that are empty or end at the incomplete index always succeeds, and leaves
/// them ending at the new sample's index, where the next incomplete sample is: so the finalized
/// positions stay contiguous from sample to sample.
pub proof fn lemma_finalizing_keeps_contiguous<T>(m: PositionalSeq<T>, incomplete_time_idx: int, value: T)
    requires
        m.items.len() == 0 || m.end() == incomplete_time_idx,
    ensures
        m.set(incomplete_time_idx, value) is Some,
        m.set(incomplete_time_idx, value)->0.end() == incomplete_time_idx + 1,
{
}

/// The scale whose index is another's index is that scale.
pub proof fn lemma_time_scale_from_index(a: TimeScale, b: TimeScale)
    requires
        a.exponent() == b.exponent(),
    ensures
        a == b,
{
}

} // verus!
