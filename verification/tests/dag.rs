//! Graphs: every consumer sees every event in order, and a downstream consumer never
//! sees an event before its upstream dependencies do.

use std::collections::HashMap;
use std::sync::atomic::{AtomicI64, AtomicUsize, Ordering};
use std::sync::{mpsc, Arc, Mutex};

use rdisruptor::{
    Blocking, BuildError, BusySpin, Consumer, Disruptor, DisruptorBuilder, MutConsumer,
    PublishError, WaitStrategy, Yielding,
};

fn built<T, W: WaitStrategy>(res: Result<Disruptor<T, W>, BuildError>) -> Disruptor<T, W> {
    match res {
        Ok(disruptor) => disruptor,
        Err(error) => panic!("{}", error.to_string()),
    }
}

/// Records each sequence, and asserts that what the consumer depends on is ahead of it.
#[derive(Clone)]
struct Recording {
    name: String,
    upstream: Vec<Arc<AtomicI64>>,
    cursor: Arc<AtomicI64>,
    out: Arc<Mutex<Vec<(String, i64)>>>,
    expected: usize,
    seen: usize,
    done_tx: Option<mpsc::Sender<()>>,
}

impl Recording {
    fn new(
        name: &'static str,
        upstream: Vec<Arc<AtomicI64>>,
        cursor: Arc<AtomicI64>,
        out: Arc<Mutex<Vec<(String, i64)>>>,
        expected: usize,
        done_tx: Option<mpsc::Sender<()>>,
    ) -> Self {
        Self {
            name: name.into(),
            upstream,
            cursor,
            out,
            expected,
            seen: 0,
            done_tx,
        }
    }
}

impl Consumer<u64> for Recording {
    fn name(&self) -> &str {
        &self.name
    }

    fn on_event(&mut self, _ev: &u64, seq: i64, _eob: bool) {
        for up in &self.upstream {
            assert!(
                up.load(Ordering::Acquire) >= seq,
                "{}: upstream behind at seq {seq}",
                self.name
            );
        }
        self.out.lock().unwrap().push((self.name.clone(), seq));
        self.cursor.store(seq, Ordering::Release);
        self.seen += 1;
        if self.seen == self.expected {
            if let Some(tx) = self.done_tx.take() {
                let _ = tx.send(());
            }
        }
    }
}

#[test]
fn diamond_dag_respects_dependencies() {
    let n: usize = 10_000;
    let out = Arc::new(Mutex::new(Vec::<(String, i64)>::new()));

    let a_cursor = Arc::new(AtomicI64::new(-1));
    let b_cursor = Arc::new(AtomicI64::new(-1));
    let c_cursor = Arc::new(AtomicI64::new(-1));
    let d_cursor = Arc::new(AtomicI64::new(-1));

    let (tx_d, rx_d) = mpsc::channel();

    let a = Recording::new(
        "a",
        vec![],
        Arc::clone(&a_cursor),
        Arc::clone(&out),
        n,
        None,
    );
    let b = Recording::new(
        "b",
        vec![],
        Arc::clone(&b_cursor),
        Arc::clone(&out),
        n,
        None,
    );
    let c = Recording::new(
        "c",
        vec![Arc::clone(&a_cursor), Arc::clone(&b_cursor)],
        Arc::clone(&c_cursor),
        Arc::clone(&out),
        n,
        None,
    );
    let d = Recording::new(
        "d",
        vec![Arc::clone(&c_cursor)],
        Arc::clone(&d_cursor),
        Arc::clone(&out),
        n,
        Some(tx_d),
    );
    let expected_names = [
        a.name().to_string(),
        b.name().to_string(),
        c.name().to_string(),
        d.name().to_string(),
    ];

    let mut disruptor = built(
        DisruptorBuilder::<u64>::new()
            .capacity(64)
            .consumer(a.clone())
            .consumer(b.clone())
            .consumer_after(&[a.name(), b.name()], c.clone())
            .consumer_after(&[c.name()], d)
            .build(BusySpin),
    );

    let mut producer = disruptor.producer();
    for i in 0..n as u64 {
        producer.publish(&mut disruptor, |slot| *slot = i).unwrap();
    }
    disruptor.run_until_idle();
    rx_d.try_recv().expect("d did not finish");
    disruptor.shutdown_or_panic();

    let g = out.lock().unwrap();
    assert_eq!(
        g.len(),
        n * 4,
        "expected each of 4 consumers to see {n} events"
    );

    // Each consumer should see seqs 0..n in order.
    let mut per: HashMap<String, Vec<i64>> = HashMap::new();
    for (name, seq) in g.iter() {
        per.entry(name.clone()).or_default().push(*seq);
    }
    for name in expected_names {
        let seqs = per.get(&name).expect(&name);
        assert_eq!(seqs.len(), n);
        for (i, s) in seqs.iter().enumerate() {
            assert_eq!(*s as usize, i, "{name} seq mismatch at {i}");
        }
    }
}

#[derive(Clone)]
struct Counter {
    name: &'static str,
    c: Arc<AtomicUsize>,
    expected: usize,
    done: Option<mpsc::Sender<()>>,
}

impl Counter {
    fn new(
        name: &'static str,
        c: Arc<AtomicUsize>,
        expected: usize,
        done: Option<mpsc::Sender<()>>,
    ) -> Self {
        Self {
            name,
            c,
            expected,
            done,
        }
    }
}

impl Consumer<u64> for Counter {
    fn name(&self) -> &str {
        self.name
    }

    fn on_event(&mut self, _ev: &u64, _seq: i64, _eob: bool) {
        let n = self.c.fetch_add(1, Ordering::Release) + 1;
        if n == self.expected {
            if let Some(tx) = self.done.take() {
                let _ = tx.send(());
            }
        }
    }
}

/// Exercise the Yielding wait strategy on the DAG path so it doesn't bit-rot.
#[test]
fn yielding_strategy_works_on_dag() {
    let c1 = Arc::new(AtomicUsize::new(0));
    let c2 = Arc::new(AtomicUsize::new(0));
    let (tx, rx) = mpsc::channel();
    let first = Counter::new("first", Arc::clone(&c1), 1000, None);
    let second = Counter::new("second", Arc::clone(&c2), 1000, Some(tx));

    let mut disruptor = built(
        DisruptorBuilder::<u64>::new()
            .capacity(16)
            .consumer(first.clone())
            .consumer_after(&[first.name()], second)
            .build(Yielding::new()),
    );

    let mut producer = disruptor.producer();
    for i in 0..1000u64 {
        producer.publish(&mut disruptor, |slot| *slot = i).unwrap();
    }
    disruptor.run_until_idle();
    rx.try_recv().unwrap();
    disruptor.shutdown_or_panic();
    assert_eq!(c1.load(Ordering::Acquire), 1000);
    assert_eq!(c2.load(Ordering::Acquire), 1000);
}

/// Stands for a consumer whose handler fails on the first event.
struct FailingConsumer;

impl Consumer<u64> for FailingConsumer {
    fn name(&self) -> &str {
        "panicker"
    }

    fn on_event(&mut self, _ev: &u64, _sequence: i64, _end_of_batch: bool) {
        panic!("intentional consumer failure");
    }
}

struct ShutdownNotifier {
    tx: mpsc::SyncSender<()>,
}

impl Consumer<u64> for ShutdownNotifier {
    fn name(&self) -> &str {
        "peer"
    }

    fn on_event(&mut self, _ev: &u64, _sequence: i64, _end_of_batch: bool) {}

    fn on_shutdown(&mut self) {
        self.tx.send(()).unwrap();
    }
}

#[test]
fn consumer_panic_alerts_producer_and_is_reported_by_shutdown() {
    let (shutdown_tx, shutdown_rx) = mpsc::sync_channel(1);
    let mut disruptor = built(
        DisruptorBuilder::<u64>::new()
            .capacity(8)
            .consumer(FailingConsumer)
            .consumer(ShutdownNotifier { tx: shutdown_tx })
            .build(BusySpin),
    );

    let mut producer = disruptor.producer();
    producer.publish(&mut disruptor, |slot| *slot = 1).unwrap();

    // Whoever runs the stage catches the panic and reports it.
    disruptor.worker_panicked(0);
    disruptor.run_until_idle();

    // The peer's shutdown callback shows that the failure has set the shared alert and
    // released the rest of the consumer graph.
    shutdown_rx
        .try_recv()
        .expect("peer consumer did not stop after another consumer panicked");
    assert_eq!(
        producer.publish(&mut disruptor, |slot| *slot = 2),
        Err(PublishError::Shutdown)
    );

    let error = disruptor
        .shutdown()
        .expect_err("shutdown should report the panicked consumer");
    assert_eq!(error.panicked_consumers(), &[String::from("panicker")]);
    assert_eq!(error.to_string(), "consumer threads panicked: panicker");
}

#[test]
fn failures_are_reported_in_the_order_of_registration() {
    let counter = Arc::new(AtomicUsize::new(0));
    let mut disruptor = built(
        DisruptorBuilder::<u64>::new()
            .capacity(8)
            .consumer(Counter::new("a", Arc::clone(&counter), 0, None))
            .consumer(Counter::new("b", Arc::clone(&counter), 0, None))
            .consumer(Counter::new("c", Arc::clone(&counter), 0, None))
            .build(BusySpin),
    );
    disruptor.worker_panicked(2);
    disruptor.worker_panicked(0);
    let error = disruptor.shutdown().unwrap_err();
    assert_eq!(
        error.panicked_consumers(),
        &[String::from("a"), String::from("c")]
    );
    assert_eq!(error.to_string(), "consumer threads panicked: a, c");
}

struct Chained {
    name: &'static str,
    upstream: Vec<Arc<AtomicI64>>,
    cursor: Arc<AtomicI64>,
}

impl Consumer<u64> for Chained {
    fn name(&self) -> &str {
        self.name
    }

    fn on_event(&mut self, _ev: &u64, seq: i64, _eob: bool) {
        for up in &self.upstream {
            assert!(
                up.load(Ordering::Acquire) >= seq,
                "{}: upstream behind at seq {seq}",
                self.name
            );
        }
        self.cursor.store(seq, Ordering::Release);
    }
}

/// The barrier must never release an event to `b` before `a` has processed it: every
/// interleaving of a few steps of the two stages is tried.
#[test]
fn dependency_chain_never_overtakes_upstream() {
    for schedule in 0..4096u32 {
        let a_cursor = Arc::new(AtomicI64::new(-1));
        let b_cursor = Arc::new(AtomicI64::new(-1));

        let a = Chained {
            name: "a",
            upstream: vec![],
            cursor: Arc::clone(&a_cursor),
        };
        let b = Chained {
            name: "b",
            upstream: vec![Arc::clone(&a_cursor)],
            cursor: Arc::clone(&b_cursor),
        };

        let mut disruptor = built(
            DisruptorBuilder::<u64>::new()
                .capacity(2)
                .consumer(a)
                .consumer_after(&["a"], b)
                .build(Blocking::new()),
        );

        let mut producer = disruptor.producer();
        for i in 0..2u64 {
            producer.publish(&mut disruptor, |slot| *slot = i).unwrap();
        }

        for bit in 0..12 {
            disruptor.step(((schedule >> bit) & 1) as usize);
            assert!(b_cursor.load(Ordering::Acquire) <= a_cursor.load(Ordering::Acquire));
        }
        disruptor.run_until_idle();
        assert_eq!(b_cursor.load(Ordering::Acquire), 1);
        disruptor.shutdown_or_panic();
    }
}

struct Adder {
    name: &'static str,
    amount: u64,
}

impl MutConsumer<u64> for Adder {
    fn name(&self) -> &str {
        self.name
    }

    fn on_event(&mut self, event: &mut u64, _sequence: i64, _end_of_batch: bool) {
        *event = event.wrapping_mul(10).wrapping_add(self.amount);
    }
}

struct Sink {
    name: &'static str,
    out: Arc<Mutex<Vec<u64>>>,
}

impl Consumer<u64> for Sink {
    fn name(&self) -> &str {
        self.name
    }

    fn on_event(&mut self, event: &u64, _sequence: i64, _end_of_batch: bool) {
        self.out.lock().unwrap().push(*event);
    }
}

#[test]
fn readers_see_what_the_last_mutable_ancestor_left() {
    let first = Arc::new(Mutex::new(Vec::new()));
    let between = Arc::new(Mutex::new(Vec::new()));
    let last = Arc::new(Mutex::new(Vec::new()));
    let mut disruptor = built(
        DisruptorBuilder::<u64>::new()
            .capacity(4)
            .consumer(Sink {
                name: "first",
                out: Arc::clone(&first),
            })
            .consumer_after_mut(
                &["first"],
                Adder {
                    name: "one",
                    amount: 1,
                },
            )
            .consumer_after(
                &["one"],
                Sink {
                    name: "between",
                    out: Arc::clone(&between),
                },
            )
            .consumer_after_mut(
                &["between"],
                Adder {
                    name: "two",
                    amount: 2,
                },
            )
            .consumer_after(
                &["two"],
                Sink {
                    name: "last",
                    out: Arc::clone(&last),
                },
            )
            .build(BusySpin),
    );
    let mut producer = disruptor.producer();
    for i in 0..6u64 {
        assert_eq!(
            producer.publish(&mut disruptor, |slot| *slot = i),
            Ok(i as i64)
        );
    }
    disruptor.run_until_idle();
    assert_eq!(*first.lock().unwrap(), vec![0, 1, 2, 3, 4, 5]);
    assert_eq!(*between.lock().unwrap(), vec![1, 11, 21, 31, 41, 51]);
    assert_eq!(*last.lock().unwrap(), vec![12, 112, 212, 312, 412, 512]);
}

/// A consumer that is boxed already can be registered like any other.
#[test]
fn a_boxed_consumer_is_a_consumer() {
    let out = Arc::new(Mutex::new(Vec::new()));
    let boxed: Box<dyn Consumer<u64>> = Box::new(Sink {
        name: "inner",
        out: Arc::clone(&out),
    });
    assert_eq!(boxed.name(), "inner");
    let changing: Box<dyn MutConsumer<u64>> = Box::new(Adder {
        name: "adder",
        amount: 7,
    });
    let mut disruptor = built(
        DisruptorBuilder::<u64>::new()
            .capacity(4)
            .consumer_mut(changing)
            .consumer_after(&["adder"], boxed)
            .build(BusySpin),
    );
    let mut producer = disruptor.producer();
    producer.publish(&mut disruptor, |slot| *slot = 5).unwrap();
    disruptor.run_until_idle();
    assert_eq!(*out.lock().unwrap(), vec![57]);
    assert_eq!(
        disruptor.format_topology(),
        "Disruptor topology:\n  adder <- producer\n  inner <- adder\n"
    );
}
