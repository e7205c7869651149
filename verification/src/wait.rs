//! How a worker idles between unsuccessful availability checks.

use std::time::Duration;
use vstd::prelude::*;

verus! {

/// The span of the given number of microseconds.
pub uninterp spec fn micros(n: u64) -> Duration;

/// `Duration::from_micros` makes the span of `n` microseconds.
pub assume_specification[ Duration::from_micros ](n: u64) -> (r: Duration)
    ensures
        r == micros(n),
;

/// What a worker does before it checks again.
#[derive(Debug, Clone, Copy, PartialEq, Eq)]
pub enum IdleAction {
    /// Check again at once.
    Continue,
    /// Give the processor a hint that this is a spin loop.
    Spin,
    /// Let another thread run.
    Yield,
    /// Sleep for the given time.
    Sleep(Duration),
    /// Block until the next notification.
    Park,
}

/// The number of an attempt, which saturates.
pub open spec fn capped(attempt: nat) -> u32 {
    if attempt < u32::MAX {
        attempt as u32
    } else {
        u32::MAX
    }
}

/// What one availability check found.
#[derive(Debug, Clone, Copy, PartialEq, Eq)]
pub enum WaitResult {
    /// Everything up to this sequence is available.
    Available(i64),
    /// The disruptor has been alerted.
    Alerted,
}

/// Controls how a worker idles between unsuccessful availability checks.
///
/// Cursor reads, publication checks, and memory ordering remain internal to the
/// disruptor; implementations can affect latency and CPU usage, but not the
/// safety of ring-buffer access.
pub trait WaitStrategy: Send + Sync + 'static {
    /// Register the calling thread before it starts checking a condition that
    /// may require idling.
    ///
    /// Notification-based strategies use this hook to avoid missing a signal
    /// between the availability check and [`Self::idle`]. Polling strategies
    /// do not need to override it.
    fn register_current_thread(&self) {
    }

    /// What to do after a failed availability check. `attempt` starts at zero for
    /// each wait and saturates at `u32::MAX`.
    fn idle(&self, attempt: u32) -> IdleAction;

    /// Wake threads that may be idling after sequence or alert state changed.
    ///
    /// Polling strategies do not need to override this method.
    fn signal_all(&self) {
    }
}

/// The threads that idle by this strategy are woken.
pub open spec fn is_signalled<W: WaitStrategy>(wait: W) -> bool {
    call_ensures(<W as WaitStrategy>::signal_all, (&wait,), ())
}

/// The calling thread is registered with this strategy.
pub open spec fn is_registered<W: WaitStrategy>(wait: W) -> bool {
    call_ensures(<W as WaitStrategy>::register_current_thread, (&wait,), ())
}

/// This strategy is asked how to idle after so many vain attempts.
pub open spec fn is_asked<W: WaitStrategy>(wait: W, attempt: u32) -> bool {
    exists|action: IdleAction| #[trigger]
        call_ensures(<W as WaitStrategy>::idle, (&wait, attempt), action)
}

/// This strategy is asked how to idle `n` times in one wait: after 0, 1, 2 and so on vain
/// attempts, as far as they are counted.
pub open spec fn is_asked_times<W: WaitStrategy>(wait: W, n: nat) -> bool {
    forall|k: nat| k < n ==> #[trigger] is_asked(wait, capped(k))
}

/// Lowest latency, highest CPU usage. Pin the consumer thread.
pub struct BusySpin;

impl WaitStrategy for BusySpin {
    fn idle(&self, attempt: u32) -> (r: IdleAction)
        ensures
            r == IdleAction::Spin,
    {
        IdleAction::Spin
    }
}

/// Spin a fixed number of iterations, then yield. Lower CPU than busy-spin
/// at modest latency cost.
pub struct Yielding {
    spin_tries: u32,
}

impl Yielding {
    pub const DEFAULT_SPIN_TRIES: u32 = 100;

    /// How many attempts spin.
    pub closed spec fn spins(&self) -> u32 {
        self.spin_tries
    }

    pub fn new() -> (r: Yielding)
        ensures
            r.spins() == Yielding::DEFAULT_SPIN_TRIES,
            r.spins() == 100,
    {
        Yielding { spin_tries: Self::DEFAULT_SPIN_TRIES }
    }

    pub fn with_spin_tries(spin_tries: u32) -> (r: Yielding)
        ensures
            r.spins() == spin_tries,
    {
        Yielding { spin_tries }
    }
}

impl Default for Yielding {
    fn default() -> (r: Yielding)
        ensures
            r.spins() == Yielding::DEFAULT_SPIN_TRIES,
            r.spins() == 100,
    {
        Self::new()
    }
}

impl WaitStrategy for Yielding {
    fn idle(&self, attempt: u32) -> (r: IdleAction)
        ensures
            r == if attempt < self.spins() {
                IdleAction::Spin
            } else {
                IdleAction::Yield
            },
    {
        if attempt < self.spin_tries {
            IdleAction::Spin
        } else {
            IdleAction::Yield
        }
    }
}

/// Spin, then yield, then sleep. Lowest CPU at the highest latency cost.
pub struct Sleeping {
    spin_tries: u32,
    yield_tries: u32,
    sleep: Duration,
}

impl Sleeping {
    /// How many attempts spin.
    pub closed spec fn spins(&self) -> u32 {
        self.spin_tries
    }

    /// How many attempts yield after those that spin.
    pub closed spec fn yields(&self) -> u32 {
        self.yield_tries
    }

    /// How long each later attempt sleeps.
    pub closed spec fn span(&self) -> Duration {
        self.sleep
    }

    pub fn new() -> (r: Sleeping)
        ensures
            r.spins() == 100,
            r.yields() == 100,
            r.span() == micros(50),
    {
        Sleeping { spin_tries: 100, yield_tries: 100, sleep: Duration::from_micros(50) }
    }

    pub fn with(sleep: Duration) -> (r: Sleeping)
        ensures
            r.spins() == 100,
            r.yields() == 100,
            r.span() == sleep,
    {
        Sleeping { spin_tries: 100, yield_tries: 100, sleep }
    }
}

impl Default for Sleeping {
    fn default() -> (r: Sleeping)
        ensures
            r.spins() == 100,
            r.yields() == 100,
            r.span() == micros(50),
    {
        Self::new()
    }
}

impl WaitStrategy for Sleeping {
    fn idle(&self, attempt: u32) -> (r: IdleAction)
        ensures
            r == if attempt < self.spins() {
                IdleAction::Spin
            } else if attempt < self.spins() + self.yields() && attempt < u32::MAX {
                IdleAction::Yield
            } else {
                IdleAction::Sleep(self.span())
            },
    {
        if attempt < self.spin_tries {
            IdleAction::Spin
        } else if attempt < self.spin_tries.saturating_add(self.yield_tries) {
            IdleAction::Yield
        } else {
            IdleAction::Sleep(self.sleep)
        }
    }
}

/// Spin, then yield, then block until publication, dependency progress, or shutdown.
pub struct Parking {
    spin_tries: u32,
    yield_tries: u32,
}

impl Parking {
    /// How many attempts spin.
    pub closed spec fn spins(&self) -> u32 {
        self.spin_tries
    }

    /// How many attempts yield after those that spin.
    pub closed spec fn yields(&self) -> u32 {
        self.yield_tries
    }

    pub fn with_tries(spin_tries: u32, yield_tries: u32) -> (r: Parking)
        ensures
            r.spins() == spin_tries,
            r.yields() == yield_tries,
    {
        Parking { spin_tries, yield_tries }
    }
}

impl WaitStrategy for Parking {
    fn idle(&self, attempt: u32) -> (r: IdleAction)
        ensures
            r == if attempt < self.spins() {
                IdleAction::Spin
            } else if attempt < self.spins() + self.yields() && attempt < u32::MAX {
                IdleAction::Yield
            } else {
                IdleAction::Park
            },
    {
        if attempt < self.spin_tries {
            IdleAction::Spin
        } else if attempt < self.spin_tries.saturating_add(self.yield_tries) {
            IdleAction::Yield
        } else {
            IdleAction::Park
        }
    }
}

/// Block idle threads until publication, dependency progress, or shutdown.
///
/// Nothing is polled while a thread is parked, so idle CPU usage is very low. This type
/// keeps track of who is waiting. Whoever runs the threads calls [`Blocking::register`]
/// for each thread before it first checks, and after each progress notification wakes
/// all of [`Blocking::threads`]: the consumers and any producer that encountered
/// backpressure.
pub struct Blocking {
    threads: Vec<u64>,
}

impl View for Blocking {
    type V = Seq<u64>;

    closed spec fn view(&self) -> Seq<u64> {
        self.threads@
    }
}

impl Blocking {
    pub fn new() -> (r: Blocking)
        ensures
            r@ == Seq::<u64>::empty(),
    {
        Blocking { threads: Vec::new() }
    }

    /// Adds a thread to those that a signal wakes, unless it is among them. Tells
    /// whether it was added.
    pub fn register(&mut self, thread: u64) -> (r: bool)
        ensures
            r == !old(self)@.contains(thread),
            final(self)@ == if r {
                old(self)@.push(thread)
            } else {
                old(self)@
            },
            old(self)@.no_duplicates() ==> final(self)@.no_duplicates(),
    {
        let mut k: usize = 0;
        while k < self.threads.len()
            invariant
                *self == *old(self),
                k <= self.threads@.len(),
                forall|m: int| 0 <= m < k ==> #[trigger] self.threads@[m] != thread,
            decreases self.threads@.len() - k,
        {
            if self.threads[k] == thread {
                return false;
            }
            k = k + 1;
        }
        self.threads.push(thread);
        true
    }

    /// The threads that a signal wakes, in the order in which they registered.
    pub fn threads(&self) -> (r: &[u64])
        ensures
            r@ == self@,
    {
        self.threads.as_slice()
    }
}

impl Default for Blocking {
    fn default() -> (r: Blocking)
        ensures
            r@ == Seq::<u64>::empty(),
    {
        Self::new()
    }
}

impl WaitStrategy for Blocking {
    fn idle(&self, attempt: u32) -> (r: IdleAction)
        ensures
            r == IdleAction::Park,
    {
        IdleAction::Park
    }
}

/// Attempts count up one by one as far as a counter reaches, and stay there.
pub proof fn law_attempts_saturate(attempt: nat)
    ensures
        attempt <= u32::MAX ==> capped(attempt) == attempt,
        attempt >= u32::MAX ==> capped(attempt) == u32::MAX,
{
}

/// A strategy is told things by calls of its own methods.
pub proof fn law_strategies_are_told_by_calls<W: WaitStrategy>(wait: W, attempt: u32)
    ensures
        is_signalled(wait) <==> call_ensures(<W as WaitStrategy>::signal_all, (&wait,), ()),
        is_registered(wait) <==> call_ensures(
            <W as WaitStrategy>::register_current_thread,
            (&wait,),
            (),
        ),
        is_asked(wait, attempt) <==> exists|action: IdleAction| #[trigger]
            call_ensures(<W as WaitStrategy>::idle, (&wait, attempt), action),
{
}

/// In a wait of `n` attempts the strategy is asked about each of them, from zero on.
pub proof fn law_every_attempt_is_asked_about<W: WaitStrategy>(wait: W, n: nat, k: nat)
    requires
        is_asked_times(wait, n),
        k < n,
    ensures
        k <= u32::MAX ==> exists|action: IdleAction| #[trigger]
            call_ensures(<W as WaitStrategy>::idle, (&wait, k as u32), action),
        k > u32::MAX ==> exists|action: IdleAction| #[trigger]
            call_ensures(<W as WaitStrategy>::idle, (&wait, u32::MAX), action),
{
    assert(is_asked(wait, capped(k)));
}

/// How each strategy idles, whatever the attempt. A busy strategy always spins and a
/// blocking one always parks.
pub proof fn law_plain_strategies_idle_alike(
    busy: BusySpin,
    blocking: Blocking,
    attempt: u32,
    action: IdleAction,
)
    ensures
        call_ensures(<BusySpin as WaitStrategy>::idle, (&busy, attempt), action) ==> action
            == IdleAction::Spin,
        call_ensures(<Blocking as WaitStrategy>::idle, (&blocking, attempt), action) ==> action
            == IdleAction::Park,
{
}

/// The other strategies get more patient: for the number of attempts that they are given
/// they spin, then, except for the one that only spins and yields, they yield for as many
/// as they are given, and then they sleep for their time or park.
pub proof fn law_strategies_get_more_patient(
    yielding: Yielding,
    sleeping: Sleeping,
    parking: Parking,
    attempt: u32,
    action: IdleAction,
)
    requires
        attempt < u32::MAX,
    ensures
        call_ensures(<Yielding as WaitStrategy>::idle, (&yielding, attempt), action) ==> {
            &&& action == IdleAction::Spin <==> attempt < yielding.spins()
            &&& action == IdleAction::Yield <==> attempt >= yielding.spins()
        },
        call_ensures(<Sleeping as WaitStrategy>::idle, (&sleeping, attempt), action) ==> {
            &&& action == IdleAction::Spin <==> attempt < sleeping.spins()
            &&& action == IdleAction::Yield <==> sleeping.spins() <= attempt < sleeping.spins()
                + sleeping.yields()
            &&& action == IdleAction::Sleep(sleeping.span()) <==> attempt >= sleeping.spins()
                + sleeping.yields()
        },
        call_ensures(<Parking as WaitStrategy>::idle, (&parking, attempt), action) ==> {
            &&& action == IdleAction::Spin <==> attempt < parking.spins()
            &&& action == IdleAction::Yield <==> parking.spins() <= attempt < parking.spins()
                + parking.yields()
            &&& action == IdleAction::Park <==> attempt >= parking.spins() + parking.yields()
        },
{
}

} // verus!
