//! Positions in the stream of events.

use vstd::prelude::*;

verus! {

/// Where every sequence stands before the first event.
pub const INITIAL: i64 = -1;

/// The position up to which the producer has published, or a stage has consumed.
pub struct Sequence {
    value: i64,
}

impl View for Sequence {
    type V = int;

    closed spec fn view(&self) -> int {
        self.value as int
    }
}

impl Sequence {
    pub fn new(initial: i64) -> (r: Sequence)
        ensures
            r@ == initial,
    {
        Sequence { value: initial }
    }

    pub fn get(&self) -> (r: i64)
        ensures
            r == self@,
    {
        self.value
    }

    pub fn set(&mut self, v: i64)
        ensures
            final(self)@ == v,
    {
        self.value = v;
    }
}

impl Default for Sequence {
    fn default() -> (r: Sequence)
        ensures
            r@ == INITIAL,
    {
        Sequence::new(INITIAL)
    }
}

/// The least of `values`; the largest sequence of all where there are none.
pub open spec fn least(values: Seq<int>) -> int
    decreases values.len(),
{
    if values.len() == 0 {
        i64::MAX as int
    } else {
        let rest = least(values.drop_last());
        if values.last() < rest {
            values.last()
        } else {
            rest
        }
    }
}

/// The sequences held by a slice of machine integers.
pub open spec fn sequences(values: Seq<i64>) -> Seq<int> {
    Seq::new(values.len(), |k: int| values[k] as int)
}

/// The least value is at most every value, and is one of them unless it is the largest
/// sequence of all.
pub proof fn lemma_least(values: Seq<int>)
    ensures
        least(values) <= i64::MAX,
        forall|k: int| 0 <= k < values.len() ==> least(values) <= #[trigger] values[k],
        least(values) == i64::MAX || values.contains(least(values)),
    decreases values.len(),
{
    if values.len() > 0 {
        let head = values.drop_last();
        lemma_least(head);
        assert forall|k: int| 0 <= k < values.len() implies least(values)
            <= #[trigger] values[k] by {
            if k < head.len() {
                assert(head[k] == values[k]);
            }
        }
        if values.last() < least(head) {
            assert(values[values.len() - 1] == least(values));
        } else if head.contains(least(head)) {
            let k = choose|k: int| 0 <= k < head.len() && head[k] == least(head);
            assert(values[k] == least(values));
        }
    }
}

/// The least of `values`, or `i64::MAX` where there are none.
pub fn least_of(values: &[i64]) -> (r: i64)
    ensures
        r == least(sequences(values@)),
        forall|k: int| 0 <= k < values@.len() ==> r <= #[trigger] values@[k],
        values@.len() == 0 ==> r == i64::MAX,
        values@.len() > 0 ==> values@.contains(r),
{
    let mut m: i64 = i64::MAX;
    let mut k: usize = 0;
    assert(sequences(values@).take(0) =~= Seq::<int>::empty());
    while k < values.len()
        invariant
            k <= values@.len(),
            m == least(sequences(values@).take(k as int)),
        decreases values@.len() - k,
    {
        let v: i64 = values[k];
        let ghost longer = sequences(values@).take(k + 1);
        assert(longer.drop_last() =~= sequences(values@).take(k as int));
        assert(longer.last() == v);
        if v < m {
            m = v;
        }
        k = k + 1;
    }
    assert(sequences(values@).take(k as int) =~= sequences(values@));
    proof {
        let all = sequences(values@);
        lemma_least(all);
        assert forall|j: int| 0 <= j < values@.len() implies m <= #[trigger] values@[j] by {
            assert(m <= all[j]);
        }
        if all.len() > 0 {
            law_the_least_is_reached(all);
            let j = choose|j: int| 0 <= j < all.len() && #[trigger] all[j] == least(all);
            assert(values@[j] == m);
        }
    }
    m
}

/// A slice of machine integers holds the same sequences, one for one.
pub proof fn law_slices_keep_their_sequences(values: Seq<i64>)
    ensures
        sequences(values).len() == values.len(),
        forall|k: int| 0 <= k < values.len() ==> #[trigger] sequences(values)[k] == values[k],
{
}

/// Of some sequences the least is one of them, and none lies below it.
pub proof fn law_the_least_is_reached(values: Seq<int>)
    requires
        values.len() > 0,
        forall|k: int| 0 <= k < values.len() ==> #[trigger] values[k] <= i64::MAX,
    ensures
        exists|k: int| 0 <= k < values.len() && #[trigger] values[k] == least(values),
        forall|k: int| 0 <= k < values.len() ==> least(values) <= #[trigger] values[k],
{
    lemma_least(values);
    if values.contains(least(values)) {
        let k = choose|k: int| 0 <= k < values.len() && values[k] == least(values);
        assert(values[k] == least(values));
    } else {
        assert(least(values) <= values[0]);
        assert(values[0] == least(values));
    }
}

} // verus!
