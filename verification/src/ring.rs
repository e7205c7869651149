//! The ring of slots that events live in.

use vstd::arithmetic::power2;
use vstd::bits;
use vstd::prelude::*;

verus! {

/// `n` is a power of two.
pub open spec fn power_of_two(n: int) -> bool {
    exists|k: nat| n == #[trigger] power2::pow2(k)
}

/// A ring can have this many slots: a power of two, at least two, and within the range of
/// sequences.
pub open spec fn valid_capacity(capacity: int) -> bool {
    2 <= capacity <= i64::MAX && power_of_two(capacity)
}

/// `usize::is_power_of_two` tells whether a number is a power of two.
pub assume_specification[ usize::is_power_of_two ](n: usize) -> (r: bool)
    ensures
        r == power_of_two(n as int),
;

/// Whether a ring can have `capacity` slots.
pub fn is_valid_capacity(capacity: usize) -> (r: bool)
    ensures
        r == valid_capacity(capacity as int),
{
    capacity >= 2 && capacity.is_power_of_two() && capacity as u64 <= i64::MAX as u64
}

/// Masking with one less than a power of two leaves the remainder.
proof fn lemma_mask(seq: i64, capacity: i64, mask: i64)
    requires
        valid_capacity(capacity as int),
        mask == capacity - 1,
    ensures
        (seq & mask) as int == (seq as int) % (capacity as int),
{
    let k = choose|k: nat| capacity as int == #[trigger] power2::pow2(k);
    power2::lemma2_to64();
    power2::lemma2_to64_rest();
    if k >= 63 {
        if k > 63 {
            power2::lemma_pow2_strictly_increases(63, k);
        }
        assert(false);
    }
    let x = seq as u64;
    let c = capacity as u64;
    let m = mask as u64;
    bits::lemma_u64_low_bits_mask_is_mod(x, k);
    assert(x & m == x % c);
    assert((seq & mask) as u64 == (seq as u64) & (mask as u64)) by (bit_vector);
    assert(0 <= seq & mask) by (bit_vector)
        requires
            0 <= mask,
    ;
    assert((seq & mask) as u64 == (seq & mask) as int);
    if seq < 0 {
        assert(seq as u64 == seq + 0x1_0000_0000_0000_0000) by (bit_vector)
            requires
                seq < 0,
        ;
        power2::lemma_pow2_adds(k, (64 - k) as nat);
        let rest = power2::pow2((64 - k) as nat) as int;
        assert(x as int == capacity as int * rest + seq as int);
        vstd::arithmetic::div_mod::lemma_mod_multiples_vanish(rest, seq as int, capacity as int);
    }
}

/// The slots, each of which holds one event at a time.
pub struct RingBuffer<T> {
    slots: Vec<T>,
    mask: i64,
}

impl<T> View for RingBuffer<T> {
    type V = Seq<T>;

    closed spec fn view(&self) -> Seq<T> {
        self.slots@
    }
}

impl<T> RingBuffer<T> {
    /// The slots are a power of two in number, and the mask fits them.
    pub closed spec fn wf(&self) -> bool {
        valid_capacity(self.slots@.len() as int) && self.mask == self.slots@.len() - 1
    }

    pub proof fn lemma_wf(&self)
        requires
            self.wf(),
        ensures
            valid_capacity(self@.len() as int),
    {
    }

    /// The slot of the event with sequence `seq`.
    pub open spec fn slot(&self, seq: int) -> int {
        seq % (self@.len() as int)
    }

    pub fn capacity(&self) -> (r: usize)
        ensures
            r == self@.len(),
    {
        self.slots.len()
    }

    /// The slot of the event with sequence `seq`, by number.
    pub fn index(&self, seq: i64) -> (r: usize)
        requires
            self.wf(),
        ensures
            r == self.slot(seq as int),
            r < self@.len(),
    {
        let capacity: i64 = self.slots.len() as i64;
        proof {
            lemma_mask(seq, capacity, self.mask);
        }
        (seq & self.mask) as usize
    }

    /// The event in the slot of `seq`.
    pub fn event(&self, seq: i64) -> (r: &T)
        requires
            self.wf(),
        ensures
            *r == self@[self.slot(seq as int)],
    {
        let idx: usize = self.index(seq);
        &self.slots[idx]
    }

    /// The event in the slot of `seq`, to be changed in place.
    pub fn event_mut(&mut self, seq: i64) -> (r: &mut T)
        requires
            old(self).wf(),
        ensures
            *r == old(self)@[old(self).slot(seq as int)],
            final(self)@ == old(self)@.update(old(self).slot(seq as int), *final(r)),
            final(self).wf(),
    {
        let idx: usize = self.index(seq);
        &mut self.slots[idx]
    }

    /// Runs `f` on the event in the slot of `seq`.
    pub fn with_slot<R, F: FnOnce(&T) -> R>(&self, seq: i64, f: F) -> (r: R)
        requires
            self.wf(),
            f.requires((&self@[self.slot(seq as int)],)),
        ensures
            f.ensures((&self@[self.slot(seq as int)],), r),
    {
        f(self.event(seq))
    }

    /// Runs `f` on the event in the slot of `seq` and lets it change the event. The other
    /// slots stay as they are.
    pub fn with_slot_mut<R, F: FnOnce(&mut T) -> R>(&mut self, seq: i64, f: F) -> (r: R)
        requires
            old(self).wf(),
            forall|event: &mut T| f.requires((event,)),
        ensures
            final(self).wf(),
            exists|event: &mut T| #[trigger]
                f.ensures((event,), r) && *event == old(self)@[old(self).slot(seq as int)]
                    && final(self)@ == old(self)@.update(old(self).slot(seq as int), *final(event)),
    {
        f(self.event_mut(seq))
    }
}

/// Every sequence has a slot, and two sequences share one exactly if they lie a whole
/// number of rounds apart. So as many sequences in a row as there are slots use each slot
/// once.
pub proof fn law_slots_are_shared_by_rounds<T>(ring: RingBuffer<T>, s: int, t: int)
    requires
        ring.wf(),
    ensures
        0 <= ring.slot(s) < ring@.len(),
        ring.slot(s) == ring.slot(t) <==> (s - t) % (ring@.len() as int) == 0,
        s != t && -(ring@.len() as int) < s - t < ring@.len() ==> ring.slot(s) != ring.slot(t),
{
    let c = ring@.len() as int;
    vstd::arithmetic::div_mod::lemma_mod_bound(s, c);
    vstd::arithmetic::div_mod::lemma_mod_bound(t, c);
    vstd::arithmetic::div_mod::lemma_sub_mod_noop(s, t, c);
    let d = s % c - t % c;
    if d >= 0 {
        vstd::arithmetic::div_mod::lemma_small_mod(d as nat, c as nat);
    } else {
        vstd::arithmetic::div_mod::lemma_mod_add_multiples_vanish(d, c);
        vstd::arithmetic::div_mod::lemma_small_mod((d + c) as nat, c as nat);
    }
    if s > t && s - t < c {
        vstd::arithmetic::div_mod::lemma_small_mod((s - t) as nat, c as nat);
    } else if s < t && t - s < c {
        vstd::arithmetic::div_mod::lemma_mod_add_multiples_vanish(s - t, c);
        vstd::arithmetic::div_mod::lemma_small_mod((s - t + c) as nat, c as nat);
    }
}

impl<T: Default> RingBuffer<T> {
    /// A ring of `capacity` slots that hold default events.
    pub fn new(capacity: usize) -> (r: RingBuffer<T>)
        requires
            valid_capacity(capacity as int),
        ensures
            r.wf(),
            r@.len() == capacity,
            forall|k: int| 0 <= k < capacity ==> call_ensures(T::default, (), #[trigger] r@[k]),
    {
        let mut v: Vec<T> = Vec::with_capacity(capacity);
        while v.len() < capacity
            invariant
                v@.len() <= capacity,
                forall|k: int|
                    0 <= k < v@.len() ==> call_ensures(T::default, (), #[trigger] v@[k]),
            decreases capacity - v@.len(),
        {
            v.push(T::default());
        }
        RingBuffer { slots: v, mask: (capacity as i64) - 1 }
    }
}

/// Which numbers of slots a ring can have: 2, 4, 8 and so on, as far as sequences reach.
pub proof fn law_rings_have_powers_of_two(capacity: int)
    ensures
        valid_capacity(capacity) <==> 2 <= capacity <= i64::MAX && exists|k: nat|
            capacity == #[trigger] power2::pow2(k),
{
}

/// The sequences of the first round have the slots in order.
pub proof fn law_first_round_fills_the_slots_in_order<T>(ring: RingBuffer<T>, s: int)
    requires
        ring.wf(),
        0 <= s < ring@.len(),
    ensures
        ring.slot(s) == s,
        ring.slot(s + ring@.len()) == s,
{
    vstd::arithmetic::div_mod::lemma_small_mod(s as nat, ring@.len());
    vstd::arithmetic::div_mod::lemma_mod_add_multiples_vanish(s, ring@.len() as int);
}

} // verus!
