//! The availability check that a stage makes before it reads the ring.

use crate::graph;
use crate::sequence;
use crate::wait::WaitResult;
use vstd::prelude::*;

verus! {

/// What a check for `target` finds, given whether the disruptor is alerted and where
/// the upstream cursors stand. `None` means that `target` is not available yet.
pub open spec fn check(alerted: bool, observed: Seq<int>, target: int) -> Option<WaitResult> {
    if alerted {
        Some(WaitResult::Alerted)
    } else if sequence::least(observed) >= target {
        Some(WaitResult::Available(sequence::least(observed) as i64))
    } else {
        None
    }
}

/// Holds a stage back until all that it depends on has passed a sequence.
pub struct SequenceBarrier {
    deps: Vec<usize>,
}

impl View for SequenceBarrier {
    type V = Seq<int>;

    closed spec fn view(&self) -> Seq<int> {
        graph::ints(self.deps@)
    }
}

impl SequenceBarrier {
    /// A barrier behind the given stages, or behind the producer where there are none.
    pub fn new(deps: Vec<usize>) -> (r: SequenceBarrier)
        ensures
            r@ == graph::ints(deps@),
    {
        SequenceBarrier { deps }
    }

    /// The stages whose cursors hold this barrier; empty where the producer's does.
    pub fn deps(&self) -> (r: &[usize])
        ensures
            graph::ints(r@) == self@,
    {
        self.deps.as_slice()
    }

    /// One pass of waiting for `target`: `alerted` and `observed` are what the alert
    /// flag and the watched cursors were seen to hold.
    pub fn wait_for(&self, target: i64, alerted: bool, observed: &[i64]) -> (r: Option<WaitResult>)
        requires
            alerted || observed@.len() > 0,
        ensures
            r == check(alerted, sequence::sequences(observed@), target as int),
    {
        if alerted {
            return Some(WaitResult::Alerted);
        }
        let available: i64 = sequence::least_of(observed);
        if available >= target {
            Some(WaitResult::Available(available))
        } else {
            None
        }
    }
}

/// A check finds the alert exactly if there is one. Without an alert it finds `target`
/// available exactly if every upstream cursor has reached it, and then all that every one
/// of them has reached.
pub proof fn law_checks_wait_for_every_cursor(alerted: bool, observed: Seq<int>, target: int)
    requires
        observed.len() > 0,
        forall|k: int|
            0 <= k < observed.len() ==> i64::MIN <= #[trigger] observed[k] <= i64::MAX,
    ensures
        check(alerted, observed, target) == Some(WaitResult::Alerted) <==> alerted,
        check(alerted, observed, target) is None <==> !alerted && exists|k: int|
            0 <= k < observed.len() && #[trigger] observed[k] < target,
        check(alerted, observed, target) matches Some(WaitResult::Available(available)) ==> {
            &&& target <= available
            &&& forall|k: int| 0 <= k < observed.len() ==> available <= #[trigger] observed[k]
            &&& observed.contains(available as int)
        },
{
    sequence::law_the_least_is_reached(observed);
    let k = choose|k: int|
        0 <= k < observed.len() && #[trigger] observed[k] == sequence::least(observed);
    assert(observed[k] == sequence::least(observed));
}

} // verus!
