//! What the builder accepts and refuses.

use rdisruptor::{BuildError, BusySpin, Consumer, DisruptorBuilder, MutConsumer};

#[derive(Clone, Copy)]
struct Noop {
    name: &'static str,
}

impl Noop {
    fn new(name: &'static str) -> Self {
        Self { name }
    }
}

impl Consumer<u64> for Noop {
    fn name(&self) -> &str {
        self.name
    }

    fn on_event(&mut self, _ev: &u64, _seq: i64, _eob: bool) {}
}

struct NoopMut {
    name: &'static str,
}

impl MutConsumer<u64> for NoopMut {
    fn name(&self) -> &str {
        self.name
    }

    fn on_event(&mut self, event: &mut u64, sequence: i64, _end_of_batch: bool) {
        *event = sequence as u64;
    }
}

fn assert_err<T>(res: Result<T, BuildError>, want: BuildError) {
    match res {
        Ok(_) => panic!("expected Err({want:?}), got Ok"),
        Err(e) => assert_eq!(e, want),
    }
}

#[test]
fn missing_capacity_errors() {
    let a = Noop::new("a");
    let res = DisruptorBuilder::<u64>::new().consumer(a).build(BusySpin);
    assert_err(res, BuildError::MissingCapacity);
}

#[test]
fn invalid_capacity_errors() {
    for capacity in [0, 1, 3] {
        let res = DisruptorBuilder::<u64>::new()
            .capacity(capacity)
            .consumer(Noop::new("a"))
            .build(BusySpin);
        assert_err(res, BuildError::InvalidCapacity { capacity });
    }
}

#[test]
fn capacity_that_does_not_fit_in_i64_errors() {
    let capacity = 1usize << 63;
    let res = DisruptorBuilder::<u64>::new()
        .capacity(capacity)
        .consumer(Noop::new("a"))
        .build(BusySpin);
    assert_err(res, BuildError::InvalidCapacity { capacity });
}

#[test]
fn minimum_capacity_builds() {
    let mut disruptor = DisruptorBuilder::<u64>::new()
        .capacity(2)
        .consumer(Noop::new("a"))
        .build(BusySpin)
        .unwrap_or_else(|error| panic!("{}", error.to_string()));
    disruptor.shutdown_or_panic();
    assert!(disruptor.has_ended(0));
}

#[test]
fn zero_max_batch_size_errors() {
    let a = Noop::new("a");
    let res = DisruptorBuilder::<u64>::new()
        .capacity(8)
        .max_batch_size(0)
        .consumer(a)
        .build(BusySpin);
    assert_err(res, BuildError::InvalidMaxBatchSize);
}

#[test]
fn empty_dag_errors() {
    let res = DisruptorBuilder::<u64>::new().capacity(8).build(BusySpin);
    assert_err(res, BuildError::EmptyDag);
}

#[test]
fn duplicate_name_errors() {
    let first = Noop::new("dup");
    let second = Noop::new("dup");
    let res = DisruptorBuilder::<u64>::new()
        .capacity(8)
        .consumer(first)
        .consumer(second)
        .build(BusySpin);
    assert_err(res, BuildError::DuplicateName(first.name().into()));
}

#[test]
fn consumer_name_with_nul_errors() {
    let res = DisruptorBuilder::<u64>::new()
        .capacity(8)
        .consumer(Noop::new("valid"))
        .consumer(Noop::new("bad\0name"))
        .build(BusySpin);
    assert_err(
        res,
        BuildError::InvalidConsumerName {
            consumer: "bad\0name".into(),
        },
    );
}

#[test]
fn unknown_dependency_errors() {
    let a = Noop::new("a");
    let b = Noop::new("b");
    let missing = Noop::new("nonexistent");
    let res = DisruptorBuilder::<u64>::new()
        .capacity(8)
        .consumer(a)
        .consumer_after(&[missing.name()], b)
        .build(BusySpin);
    assert_err(
        res,
        BuildError::UnknownDependency {
            consumer: b.name().into(),
            dep: missing.name().into(),
        },
    );
}

#[test]
fn cycle_errors() {
    // a -> b -> c -> a
    let a = Noop::new("a");
    let b = Noop::new("b");
    let c = Noop::new("c");
    let res = DisruptorBuilder::<u64>::new()
        .capacity(8)
        .consumer_after(&[c.name()], a)
        .consumer_after(&[a.name()], b)
        .consumer_after(&[b.name()], c)
        .build(BusySpin);
    assert_err(res, BuildError::Cycle);
}

#[test]
fn self_loop_is_a_cycle() {
    let a = Noop::new("a");
    let res = DisruptorBuilder::<u64>::new()
        .capacity(8)
        .consumer_after(&[a.name()], a)
        .build(BusySpin);
    assert_err(res, BuildError::Cycle);
}

#[test]
fn diamond_dag_builds_and_runs() {
    let a = Noop::new("a");
    let b = Noop::new("b");
    let c = Noop::new("c");
    let d = Noop::new("d");
    let mut disruptor = match DisruptorBuilder::<u64>::new()
        .capacity(16)
        .consumer(a)
        .consumer(b)
        .consumer(c)
        .consumer_after(&[a.name(), b.name(), c.name()], d)
        .build(BusySpin)
    {
        Ok(disruptor) => disruptor,
        Err(_) => panic!("diamond dag should validate"),
    };
    let _producer = disruptor.producer();
    disruptor.shutdown_or_panic();
    assert!(disruptor.is_alerted());
}

#[test]
fn mut_consumer_with_incomparable_sibling_is_rejected() {
    let err = DisruptorBuilder::<u64>::new()
        .capacity(16)
        .consumer_mut(NoopMut { name: "annotator" })
        .consumer(Noop::new("sibling"))
        .build(BusySpin)
        .err()
        .expect("incomparable sibling should be rejected");

    assert_eq!(
        err,
        BuildError::ConcurrentMutConsumer {
            consumer: "annotator".into(),
            concurrent: "sibling".into(),
        }
    );
}

struct AssertMutated;

impl Consumer<u64> for AssertMutated {
    fn name(&self) -> &str {
        "assert_mutated"
    }

    fn on_event(&mut self, event: &u64, sequence: i64, _end_of_batch: bool) {
        assert_eq!(*event, sequence as u64);
    }
}

#[test]
fn mut_consumer_in_a_chain_builds_and_mutates() {
    let mut disruptor = DisruptorBuilder::<u64>::new()
        .capacity(16)
        .consumer(Noop::new("upstream_reader"))
        .consumer_after_mut(&["upstream_reader"], NoopMut { name: "annotator" })
        .consumer_after(&["annotator"], AssertMutated)
        .build(BusySpin)
        .unwrap_or_else(|error| panic!("{}", error.to_string()));

    let mut producer = disruptor.producer();
    for _ in 0..64 {
        producer
            .publish(&mut disruptor, |slot| *slot = u64::MAX)
            .unwrap();
    }
    drop(producer);
    disruptor.run_until_idle();
    assert_eq!(disruptor.cursor(2), 63);
    disruptor.shutdown_or_panic();
}

#[test]
fn topology_is_printed_in_dependency_order() {
    let journal = Noop::new("journal");
    let db_writer = Noop::new("db_writer");
    let publisher = Noop::new("publisher");
    let pruner = Noop::new("pruner");

    let mut disruptor = DisruptorBuilder::<u64>::new()
        .capacity(16)
        .consumer(journal)
        .consumer_after(&[journal.name()], db_writer)
        .consumer_after(&[journal.name()], publisher)
        .consumer_after(&[db_writer.name(), publisher.name()], pruner)
        .build(BusySpin)
        .unwrap_or_else(|error| panic!("{}", error.to_string()));

    assert_eq!(
        disruptor.format_topology(),
        "Disruptor topology:\n  journal   <- producer\n  db_writer <- journal\n  publisher <- journal\n  pruner    <- db_writer, publisher\n"
    );

    disruptor.shutdown_or_panic();
}

#[test]
fn the_first_failing_check_decides() {
    // A missing capacity comes before a batch size of zero and an empty graph.
    let res = DisruptorBuilder::<u64>::new()
        .max_batch_size(0)
        .build(BusySpin);
    assert_err(res, BuildError::MissingCapacity);

    // A batch size of zero comes before an empty graph.
    let res = DisruptorBuilder::<u64>::new()
        .capacity(8)
        .max_batch_size(0)
        .build(BusySpin);
    assert_err(res, BuildError::InvalidMaxBatchSize);

    // A repeated name comes before an unknown dependency.
    let res = DisruptorBuilder::<u64>::new()
        .capacity(8)
        .consumer_after(&["missing"], Noop::new("a"))
        .consumer(Noop::new("a"))
        .build(BusySpin);
    assert_err(res, BuildError::DuplicateName("a".into()));

    // Of two bad names the one registered first is reported.
    let res = DisruptorBuilder::<u64>::new()
        .capacity(8)
        .consumer(Noop::new("a"))
        .consumer(Noop::new("a"))
        .consumer(Noop::new("b\0"))
        .build(BusySpin);
    assert_err(res, BuildError::DuplicateName("a".into()));

    // An unknown dependency comes before a cycle.
    let res = DisruptorBuilder::<u64>::new()
        .capacity(8)
        .consumer_after(&["a"], Noop::new("a"))
        .consumer_after(&["a", "missing"], Noop::new("b"))
        .build(BusySpin);
    assert_err(
        res,
        BuildError::UnknownDependency {
            consumer: "b".into(),
            dep: "missing".into(),
        },
    );

    // A cycle comes before a mutable consumer that is not ordered.
    let res = DisruptorBuilder::<u64>::new()
        .capacity(8)
        .consumer_mut(NoopMut { name: "m" })
        .consumer_after(&["c"], Noop::new("c"))
        .build(BusySpin);
    assert_err(res, BuildError::Cycle);
}

#[test]
fn a_mutable_consumer_may_stand_between_ordered_stages() {
    // left and right are not ordered, but both stand behind the mutable consumer.
    let res = DisruptorBuilder::<u64>::new()
        .capacity(8)
        .consumer_mut(NoopMut { name: "m" })
        .consumer_after(&["m"], Noop::new("left"))
        .consumer_after(&["m"], Noop::new("right"))
        .build(BusySpin);
    assert!(res.is_ok());

    // Here one of two siblings changes events.
    let res = DisruptorBuilder::<u64>::new()
        .capacity(8)
        .consumer(Noop::new("top"))
        .consumer_after(&["top"], Noop::new("left"))
        .consumer_after_mut(&["top"], NoopMut { name: "right" })
        .build(BusySpin);
    assert_err(
        res,
        BuildError::ConcurrentMutConsumer {
            consumer: "right".into(),
            concurrent: "left".into(),
        },
    );

    // Two mutable consumers one after the other.
    let res = DisruptorBuilder::<u64>::new()
        .capacity(8)
        .consumer_mut(NoopMut { name: "first" })
        .consumer_after_mut(&["first"], NoopMut { name: "second" })
        .build(BusySpin);
    assert!(res.is_ok());
}

#[test]
fn a_plan_numbers_the_stages_and_finds_the_leaves() {
    let plan = DisruptorBuilder::<u64>::new()
        .capacity(8)
        .max_batch_size(100)
        .consumer_after(&["b", "c"], Noop::new("a"))
        .consumer(Noop::new("b"))
        .consumer_after(&["b"], Noop::new("c"))
        .consumer_after(&["b"], Noop::new("d"))
        .plan()
        .unwrap_or_else(|error| panic!("{}", error.to_string()));
    assert_eq!(plan.capacity, 8);
    // Never more than the ring holds.
    assert_eq!(plan.max_batch_size, 8);
    assert_eq!(plan.order, vec![1, 2, 3, 0]);
    assert_eq!(plan.leaves, vec![0, 3]);
    assert_eq!(plan.stages[0].deps, vec![1, 2]);
    assert_eq!(plan.stages[2].deps, vec![1]);
    assert_eq!(plan.stages[1].thread_name(), "rdisruptor-b");
    assert_eq!(plan.topology[0].name, "b");
    assert_eq!(plan.topology[3].deps, vec!["b", "c"]);
}

#[test]
fn a_dependency_named_twice_counts_once() {
    let mut disruptor = DisruptorBuilder::<u64>::new()
        .capacity(8)
        .consumer(Noop::new("a"))
        .consumer_after(&["a", "a"], Noop::new("b"))
        .build(BusySpin)
        .unwrap_or_else(|error| panic!("{}", error.to_string()));
    assert_eq!(
        disruptor.format_topology(),
        "Disruptor topology:\n  a <- producer\n  b <- a, a\n"
    );
    let mut producer = disruptor.producer();
    producer.publish(&mut disruptor, |slot| *slot = 1).unwrap();
    disruptor.run_until_idle();
    assert_eq!(disruptor.cursor(1), 0);
}

#[test]
fn names_are_padded_by_characters() {
    let disruptor = DisruptorBuilder::<u64>::new()
        .capacity(8)
        .consumer(Noop::new("größe"))
        .consumer_after(&["größe"], Noop::new("b"))
        .build(BusySpin)
        .unwrap_or_else(|error| panic!("{}", error.to_string()));
    assert_eq!(
        disruptor.format_topology(),
        "Disruptor topology:\n  größe <- producer\n  b     <- größe\n"
    );
}
