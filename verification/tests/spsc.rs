//! One producer and one consumer.

use std::sync::atomic::{AtomicUsize, Ordering};
use std::sync::{mpsc, Arc, Mutex};

use rdisruptor::state::StageStep;
use rdisruptor::{
    spsc, Blocking, BuildError, BusySpin, Consumer, Disruptor, DisruptorBuilder, IdleAction,
    Parking, PublishError, WaitStrategy,
};

fn built<T, W: WaitStrategy>(res: Result<Disruptor<T, W>, BuildError>) -> Disruptor<T, W> {
    match res {
        Ok(disruptor) => disruptor,
        Err(error) => panic!("{}", error.to_string()),
    }
}

struct Collector {
    out: Arc<Mutex<Vec<u64>>>,
    batches: Arc<AtomicUsize>,
    done_tx: mpsc::SyncSender<()>,
    expected: usize,
}

impl Consumer<u64> for Collector {
    fn name(&self) -> &str {
        "collector"
    }

    fn on_event(&mut self, ev: &u64, _seq: i64, end_of_batch: bool) {
        let mut g = self.out.lock().unwrap();
        g.push(*ev);
        if end_of_batch {
            self.batches.fetch_add(1, Ordering::Relaxed);
        }
        if g.len() == self.expected {
            self.done_tx.send(()).unwrap();
        }
    }
}

#[test]
fn round_trip_in_order() {
    let out = Arc::new(Mutex::new(Vec::<u64>::new()));
    let batches = Arc::new(AtomicUsize::new(0));
    let (tx, rx) = mpsc::sync_channel(1);
    let consumer = Collector {
        out: Arc::clone(&out),
        batches: Arc::clone(&batches),
        done_tx: tx,
        expected: 100,
    };

    let mut disruptor = built(spsc::<u64, _, _>(16, BusySpin, consumer));
    let mut producer = disruptor.producer();
    for i in 0..100u64 {
        producer.publish(&mut disruptor, |slot| *slot = i).unwrap();
    }
    disruptor.run_until_idle();
    rx.try_recv().unwrap();
    disruptor.shutdown_or_panic();

    let g = out.lock().unwrap();
    assert_eq!(g.len(), 100);
    for (i, v) in g.iter().enumerate() {
        assert_eq!(*v as usize, i, "out of order at {i}: {v}");
    }
}

struct BatchCollector {
    batch_ends: Arc<Mutex<Vec<i64>>>,
    ready_tx: mpsc::SyncSender<()>,
    done_tx: mpsc::SyncSender<()>,
    expected: i64,
}

impl Consumer<u64> for BatchCollector {
    fn name(&self) -> &str {
        "batch_collector"
    }

    fn on_start(&mut self) {
        self.ready_tx.send(()).unwrap();
    }

    fn on_event(&mut self, _ev: &u64, seq: i64, end_of_batch: bool) {
        if end_of_batch {
            self.batch_ends.lock().unwrap().push(seq);
        }
        if seq == self.expected - 1 {
            self.done_tx.send(()).unwrap();
        }
    }
}

#[test]
fn max_batch_size_caps_batches_and_closes_partial_batch() {
    let batch_ends = Arc::new(Mutex::new(Vec::new()));
    let (ready_tx, ready_rx) = mpsc::sync_channel(1);
    let (done_tx, done_rx) = mpsc::sync_channel(1);
    let consumer = BatchCollector {
        batch_ends: Arc::clone(&batch_ends),
        ready_tx,
        done_tx,
        expected: 8,
    };

    let mut disruptor = built(
        DisruptorBuilder::<u64>::new()
            .capacity(16)
            .max_batch_size(3)
            .consumer(consumer)
            .build(BusySpin),
    );
    assert_eq!(disruptor.step(0), StageStep::Started);
    ready_rx.try_recv().unwrap();

    let mut producer = disruptor.producer();
    for i in 0..8u64 {
        producer.publish(&mut disruptor, |slot| *slot = i).unwrap();
    }
    disruptor.run_until_idle();

    done_rx.try_recv().unwrap();
    disruptor.shutdown_or_panic();

    assert_eq!(*batch_ends.lock().unwrap(), vec![2, 5, 7]);
}

#[test]
fn wraparound_many_passes() {
    // capacity 4, send 4096 events => 1024 wraparounds
    let n: usize = 4096;
    let out = Arc::new(Mutex::new(Vec::<u64>::new()));
    let batches = Arc::new(AtomicUsize::new(0));
    let (tx, rx) = mpsc::sync_channel(1);
    let consumer = Collector {
        out: Arc::clone(&out),
        batches,
        done_tx: tx,
        expected: n,
    };

    let mut disruptor = built(spsc::<u64, _, _>(4, BusySpin, consumer));
    let mut producer = disruptor.producer();
    for i in 0..n as u64 {
        producer.publish(&mut disruptor, |slot| *slot = i).unwrap();
    }
    disruptor.run_until_idle();
    rx.try_recv().unwrap();
    disruptor.shutdown_or_panic();

    let g = out.lock().unwrap();
    assert_eq!(g.len(), n);
    for (i, v) in g.iter().enumerate() {
        assert_eq!(*v as usize, i);
    }
}

/// With a ring of 4, event `i` is published only when event `i - 4` has been consumed.
#[test]
fn a_full_ring_is_drained_before_the_next_event() {
    let out = Arc::new(Mutex::new(Vec::<u64>::new()));
    let (tx, _rx) = mpsc::sync_channel(1);
    let consumer = Collector {
        out: Arc::clone(&out),
        batches: Arc::new(AtomicUsize::new(0)),
        done_tx: tx,
        expected: 8,
    };
    let mut disruptor = built(spsc::<u64, _, _>(4, BusySpin, consumer));
    let mut producer = disruptor.producer();
    for i in 0..4u64 {
        producer.publish(&mut disruptor, |slot| *slot = i).unwrap();
    }
    // There was room, so no stage had to run.
    assert_eq!(out.lock().unwrap().len(), 0);
    assert_eq!(disruptor.cursor(0), -1);
    for i in 4..8u64 {
        producer.publish(&mut disruptor, |slot| *slot = i).unwrap();
        assert!(out.lock().unwrap().len() as u64 > i - 4);
        assert!(disruptor.published() - disruptor.cursor(0) <= 4);
    }
    disruptor.run_until_idle();
    assert_eq!(out.lock().unwrap().len(), 8);
}

struct Noop;

impl Consumer<u64> for Noop {
    fn name(&self) -> &str {
        "noop"
    }

    fn on_event(&mut self, _ev: &u64, _seq: i64, _eob: bool) {}
}

#[test]
fn spsc_invalid_capacity_errors() {
    assert!(matches!(
        spsc::<u64, _, _>(3, BusySpin, Noop),
        Err(BuildError::InvalidCapacity { capacity: 3 })
    ));
}

struct Nul;

impl Consumer<u64> for Nul {
    fn name(&self) -> &str {
        "a\0b"
    }

    fn on_event(&mut self, _ev: &u64, _seq: i64, _eob: bool) {}
}

#[test]
fn spsc_invalid_name_errors() {
    match spsc::<u64, _, _>(4, BusySpin, Nul) {
        Err(BuildError::InvalidConsumerName { consumer }) => assert_eq!(consumer, "a\0b"),
        _ => panic!("the name should be refused"),
    }
}

#[test]
fn shutdown_cleanly_with_no_events() {
    let mut disruptor = built(spsc::<u64, _, _>(8, BusySpin, Noop));
    let producer = disruptor.producer();
    drop(producer);
    disruptor.shutdown_or_panic();
    assert!(disruptor.has_ended(0));
    assert_eq!(disruptor.cursor(0), -1);
}

struct BatchRecorder {
    ready_tx: mpsc::SyncSender<()>,
    first_event_tx: mpsc::SyncSender<()>,
    seen: Arc<Mutex<Vec<i64>>>,
}

impl Consumer<u64> for BatchRecorder {
    fn name(&self) -> &str {
        "batch_recorder"
    }

    fn on_start(&mut self) {
        self.ready_tx.send(()).unwrap();
    }

    fn on_event(&mut self, _ev: &u64, sequence: i64, _end_of_batch: bool) {
        self.seen.lock().unwrap().push(sequence);
        if sequence == 0 {
            self.first_event_tx.send(()).unwrap();
        }
    }
}

#[test]
fn shutdown_stops_between_events_in_an_acquired_batch() {
    let seen = Arc::new(Mutex::new(Vec::new()));
    let (ready_tx, ready_rx) = mpsc::sync_channel(1);
    let (first_event_tx, first_event_rx) = mpsc::sync_channel(1);
    let consumer = BatchRecorder {
        ready_tx,
        first_event_tx,
        seen: Arc::clone(&seen),
    };

    let mut disruptor = built(spsc::<u64, _, _>(8, BusySpin, consumer));
    assert_eq!(disruptor.step(0), StageStep::Started);
    ready_rx.try_recv().unwrap();

    let mut producer = disruptor.producer();
    for value in 0..8 {
        producer
            .publish(&mut disruptor, |slot| *slot = value)
            .unwrap();
    }

    assert_eq!(disruptor.step(0), StageStep::Acquired(7));
    assert_eq!(
        disruptor.step(0),
        StageStep::Delivered {
            sequence: 0,
            end_of_batch: false
        }
    );
    first_event_rx.try_recv().unwrap();

    assert_eq!(disruptor.shutdown(), Ok(()));
    assert_eq!(
        producer.publish(&mut disruptor, |slot| *slot = 8),
        Err(PublishError::Shutdown)
    );

    assert_eq!(*seen.lock().unwrap(), vec![0]);
    // The cursor stands at the last event that was delivered.
    assert_eq!(disruptor.cursor(0), 0);
    assert_eq!(disruptor.step(0), StageStep::Ended);
}

#[test]
fn publish_after_shutdown_returns_shutdown() {
    let mut disruptor = built(spsc::<u64, _, _>(8, BusySpin, Noop));
    let mut producer = disruptor.producer();

    disruptor.shutdown_or_panic();

    assert_eq!(
        producer.publish(&mut disruptor, |slot| *slot = 42),
        Err(PublishError::Shutdown)
    );
    assert_eq!(disruptor.published(), -1);
}

struct EagerIdle;

impl WaitStrategy for EagerIdle {
    fn idle(&self, _attempt: u32) -> IdleAction {
        IdleAction::Continue
    }
}

struct PublicationProbe {
    started_tx: mpsc::SyncSender<()>,
    event_tx: mpsc::SyncSender<i64>,
}

impl Consumer<u64> for PublicationProbe {
    fn name(&self) -> &str {
        "publication_probe"
    }

    fn on_start(&mut self) {
        self.started_tx.send(()).unwrap();
    }

    fn on_event(&mut self, _ev: &u64, sequence: i64, _end_of_batch: bool) {
        self.event_tx.send(sequence).unwrap();
    }
}

#[test]
fn wait_strategy_cannot_expose_unpublished_events() {
    let (started_tx, started_rx) = mpsc::sync_channel(1);
    let (event_tx, event_rx) = mpsc::sync_channel(1);
    let consumer = PublicationProbe {
        started_tx,
        event_tx,
    };

    let mut disruptor = built(spsc::<u64, _, _>(8, EagerIdle, consumer));
    disruptor.run_until_idle();
    started_rx.try_recv().unwrap();
    for attempt in 1..20 {
        assert_eq!(disruptor.step(0), StageStep::Idle(attempt));
    }
    assert_eq!(event_rx.try_recv(), Err(mpsc::TryRecvError::Empty));

    let mut producer = disruptor.producer();
    producer.publish(&mut disruptor, |slot| *slot = 42).unwrap();
    disruptor.run_until_idle();
    assert_eq!(event_rx.try_recv().unwrap(), 0);
    disruptor.shutdown_or_panic();
}

// --- drop counting -----------------------------------------------------------

static CREATED: AtomicUsize = AtomicUsize::new(0);
static DROPPED: AtomicUsize = AtomicUsize::new(0);

#[derive(Debug)]
#[allow(dead_code)]
struct Counted(u64);

impl Counted {
    fn new(v: u64) -> Self {
        CREATED.fetch_add(1, Ordering::SeqCst);
        Counted(v)
    }
}

impl Default for Counted {
    fn default() -> Self {
        CREATED.fetch_add(1, Ordering::SeqCst);
        Counted(0)
    }
}

impl Drop for Counted {
    fn drop(&mut self) {
        DROPPED.fetch_add(1, Ordering::SeqCst);
    }
}

struct CountingSink {
    count: Arc<AtomicUsize>,
    expected: usize,
    done_tx: mpsc::SyncSender<()>,
}

impl Consumer<Counted> for CountingSink {
    fn name(&self) -> &str {
        "sink"
    }

    fn on_event(&mut self, _ev: &Counted, _seq: i64, _eob: bool) {
        let n = self.count.fetch_add(1, Ordering::Release) + 1;
        if n == self.expected {
            self.done_tx.send(()).unwrap();
        }
    }
}

#[test]
fn drops_are_balanced() {
    CREATED.store(0, Ordering::SeqCst);
    DROPPED.store(0, Ordering::SeqCst);

    let count = Arc::new(AtomicUsize::new(0));
    let (tx, rx) = mpsc::sync_channel(1);
    let sink = CountingSink {
        count: Arc::clone(&count),
        expected: 100,
        done_tx: tx,
    };

    {
        let mut disruptor = built(spsc::<Counted, _, _>(8, BusySpin, sink));
        let mut producer = disruptor.producer();
        for i in 0..100u64 {
            producer
                .publish(&mut disruptor, |slot| {
                    *slot = Counted::new(i);
                })
                .unwrap();
        }
        disruptor.run_until_idle();
        rx.try_recv().unwrap();
        disruptor.shutdown_or_panic();
        // ring + producer dropped here
    }

    let created = CREATED.load(Ordering::SeqCst);
    let dropped = DROPPED.load(Ordering::SeqCst);
    assert_eq!(
        created, dropped,
        "leaked Counted values: created={created} dropped={dropped}"
    );
}

struct Collect {
    out: Arc<Mutex<Vec<u64>>>,
}

impl Consumer<u64> for Collect {
    fn name(&self) -> &str {
        "collect"
    }

    fn on_event(&mut self, ev: &u64, _seq: i64, _eob: bool) {
        self.out.lock().unwrap().push(*ev);
    }
}

/// Publish `n` events through a capacity-2 ring and require every one to arrive in
/// order, with the consumer at each publication at a different point of its loop.
fn assert_spsc_delivers_in_order<W: WaitStrategy>(make_wait: fn() -> W, n: u64) {
    for schedule in 0..4096u64 {
        let out = Arc::new(Mutex::new(Vec::new()));
        let consumer = Collect {
            out: Arc::clone(&out),
        };

        let mut disruptor = built(spsc::<u64, _, _>(2, make_wait(), consumer));
        let mut producer = disruptor.producer();
        for i in 0..n {
            for _ in 0..(schedule >> (3 * i)) & 7 {
                disruptor.step(0);
            }
            producer.publish(&mut disruptor, |slot| *slot = i).unwrap();
        }
        disruptor.run_until_idle();
        disruptor.shutdown_or_panic();

        let seen = out.lock().unwrap();
        assert_eq!(*seen, (0..n).collect::<Vec<_>>());
    }
}

#[test]
fn spsc_busy_spin_delivers_in_order_through_wraparound() {
    assert_spsc_delivers_in_order(|| BusySpin, 4);
}

#[test]
fn spsc_parking_delivers_in_order_through_wraparound() {
    assert_spsc_delivers_in_order(|| Parking::with_tries(0, 0), 3);
}

#[test]
fn spsc_blocking_delivers_in_order_through_wraparound() {
    assert_spsc_delivers_in_order(Blocking::new, 3);
}

/// Shutdown may find a consumer mid-batch; afterwards the producer must be refused and
/// the consumer must have seen an in-order prefix of the events.
#[test]
fn shutdown_races_cleanly_and_refuses_later_publishes() {
    for steps in 0..8 {
        let out = Arc::new(Mutex::new(Vec::new()));
        let consumer = Collect {
            out: Arc::clone(&out),
        };

        let mut disruptor = built(spsc::<u64, _, _>(2, BusySpin, consumer));
        let mut producer = disruptor.producer();
        producer.publish(&mut disruptor, |slot| *slot = 0).unwrap();
        producer.publish(&mut disruptor, |slot| *slot = 1).unwrap();

        // The consumer may have seen 0, 1, or 2 events.
        for _ in 0..steps {
            disruptor.step(0);
        }
        disruptor.shutdown_or_panic();

        let seen = out.lock().unwrap();
        assert!(seen.len() <= 2);
        for (i, v) in seen.iter().enumerate() {
            assert_eq!(*v as usize, i);
        }
        assert_eq!(disruptor.cursor(0), seen.len() as i64 - 1);
        drop(seen);

        assert_eq!(
            producer.publish(&mut disruptor, |slot| *slot = 9),
            Err(PublishError::Shutdown)
        );
    }
}

struct CountingWait {
    registered: Arc<AtomicUsize>,
    idled: Arc<Mutex<Vec<u32>>>,
    signalled: Arc<AtomicUsize>,
}

impl WaitStrategy for CountingWait {
    fn register_current_thread(&self) {
        self.registered.fetch_add(1, Ordering::Relaxed);
    }

    fn idle(&self, attempt: u32) -> IdleAction {
        self.idled.lock().unwrap().push(attempt);
        IdleAction::Park
    }

    fn signal_all(&self) {
        self.signalled.fetch_add(1, Ordering::Relaxed);
    }
}

#[test]
fn waiters_are_registered_and_signalled() {
    let registered = Arc::new(AtomicUsize::new(0));
    let idled = Arc::new(Mutex::new(Vec::new()));
    let signalled = Arc::new(AtomicUsize::new(0));
    let wait = CountingWait {
        registered: Arc::clone(&registered),
        idled: Arc::clone(&idled),
        signalled: Arc::clone(&signalled),
    };
    let mut disruptor = built(spsc::<u64, _, _>(2, wait, Noop));
    let mut producer = disruptor.producer();
    producer.publish(&mut disruptor, |slot| *slot = 0).unwrap();
    producer.publish(&mut disruptor, |slot| *slot = 1).unwrap();
    assert_eq!(registered.load(Ordering::Relaxed), 0);
    assert!(idled.lock().unwrap().is_empty());
    assert_eq!(signalled.load(Ordering::Relaxed), 2);

    // The ring is full: the producer registers and idles until the stage has completed
    // its batch, which takes a start, a check, two deliveries and the completion.
    producer.publish(&mut disruptor, |slot| *slot = 2).unwrap();
    assert_eq!(registered.load(Ordering::Relaxed), 2);
    assert_eq!(*idled.lock().unwrap(), vec![0, 1, 2, 3, 4]);
    assert_eq!(signalled.load(Ordering::Relaxed), 4);

    // Each wait counts its attempts anew, that of a stage too.
    disruptor.run_until_idle();
    idled.lock().unwrap().clear();
    producer.publish(&mut disruptor, |slot| *slot = 3).unwrap();
    assert!(idled.lock().unwrap().is_empty());
    disruptor.run_until_idle();
    assert_eq!(*idled.lock().unwrap(), vec![0]);
    assert_eq!(disruptor.step(0), StageStep::Idle(1));
    assert_eq!(disruptor.step(0), StageStep::Idle(2));
    assert_eq!(*idled.lock().unwrap(), vec![0, 1, 2]);

    let before = signalled.load(Ordering::Relaxed);
    disruptor.shutdown_or_panic();
    assert!(signalled.load(Ordering::Relaxed) > before);
}
