//! Messages, listings and waiting.

use std::io::ErrorKind;
use std::time::Duration;

use rdisruptor::disruptor::{join_workers, WorkerExit};
use rdisruptor::text::{decimal_text, has_char, join, pad};
use rdisruptor::topology::{format_topology, TopologyNode};
use rdisruptor::{
    Blocking, BuildError, BusySpin, IdleAction, Parking, PublishError, ShutdownError, Sleeping,
    WaitStrategy, Yielding,
};

#[test]
fn publish_error_is_a_standard_error() {
    assert_eq!(PublishError::Shutdown.to_string(), "disruptor is shut down");
}

#[test]
fn build_errors_say_what_is_wrong() {
    assert_eq!(
        BuildError::MissingCapacity.to_string(),
        "capacity must be set before build()"
    );
    assert_eq!(
        BuildError::InvalidCapacity { capacity: 1030 }.to_string(),
        "capacity must be a power of two, at least 2, and fit in i64; got 1030"
    );
    assert_eq!(
        BuildError::InvalidMaxBatchSize.to_string(),
        "max batch size must be at least 1"
    );
    assert_eq!(
        BuildError::EmptyDag.to_string(),
        "no consumers were registered"
    );
    assert_eq!(
        BuildError::InvalidConsumerName {
            consumer: "bad\0name".into()
        }
        .to_string(),
        "invalid consumer name \"bad\\0name\": names may not contain NUL bytes"
    );
    assert_eq!(
        BuildError::DuplicateName("a".into()).to_string(),
        "duplicate consumer name: a"
    );
    assert_eq!(
        BuildError::UnknownDependency {
            consumer: "a".into(),
            dep: "b".into()
        }
        .to_string(),
        "consumer 'a' depends on unknown 'b'"
    );
    assert_eq!(
        BuildError::Cycle.to_string(),
        "consumer dependency graph contains a cycle"
    );
    assert_eq!(
        BuildError::ConcurrentMutConsumer {
            consumer: "a".into(),
            concurrent: "b".into()
        }
        .to_string(),
        "mutable consumer 'a' may run concurrently with 'b'; a mutable stage must be an ancestor or descendant of every other stage"
    );
    assert_eq!(
        BuildError::SpawnFailed {
            consumer: "a".into(),
            kind: ErrorKind::WouldBlock
        }
        .to_string(),
        format!(
            "failed to spawn consumer 'a' thread: {}",
            ErrorKind::WouldBlock
        )
    );
    assert_eq!(
        BuildError::SpawnFailed {
            consumer: "a".into(),
            kind: ErrorKind::NotFound
        }
        .to_string(),
        "failed to spawn consumer 'a' thread: entity not found"
    );
}

#[test]
fn shutdown_errors_list_the_consumers() {
    let error = ShutdownError::new(vec!["a".into(), "b".into()]);
    assert_eq!(error.panicked_consumers(), &["a", "b"]);
    assert_eq!(error.to_string(), "consumer threads panicked: a, b");
}

#[test]
fn only_workers_that_panicked_are_reported() {
    let exits = vec![
        WorkerExit {
            name: "a".into(),
            panicked: true,
        },
        WorkerExit {
            name: "b".into(),
            panicked: false,
        },
        WorkerExit {
            name: "c".into(),
            panicked: true,
        },
    ];
    assert_eq!(join_workers(exits), vec!["a", "c"]);
    assert!(join_workers(vec![]).is_empty());
}

#[test]
fn numbers_and_lists_are_written_out() {
    assert_eq!(decimal_text(0), "0");
    assert_eq!(decimal_text(9), "9");
    assert_eq!(decimal_text(10), "10");
    assert_eq!(decimal_text(usize::MAX), format!("{}", usize::MAX));
    assert_eq!(join(&[], ", "), "");
    assert_eq!(join(&["x".into()], ", "), "x");
    assert_eq!(
        join(&["x".into(), "y".into(), "z".into()], ", "),
        "x, y, z"
    );
    assert_eq!(pad("ab", 4), "ab  ");
    assert_eq!(pad("abcde", 4), "abcde");
    assert!(has_char("a\0", '\0'));
    assert!(!has_char("ab", '\0'));
}

#[test]
fn an_empty_topology_is_only_a_heading() {
    assert_eq!(format_topology(&[]), "Disruptor topology:\n");
    let nodes = vec![
        TopologyNode {
            name: "a".into(),
            deps: vec![],
        },
        TopologyNode {
            name: "long".into(),
            deps: vec!["a".into()],
        },
    ];
    assert_eq!(
        format_topology(&nodes),
        "Disruptor topology:\n  a    <- producer\n  long <- a\n"
    );
}

#[test]
fn strategies_escalate_with_the_attempts() {
    assert_eq!(BusySpin.idle(0), IdleAction::Spin);
    assert_eq!(BusySpin.idle(u32::MAX), IdleAction::Spin);

    assert_eq!(Yielding::DEFAULT_SPIN_TRIES, 100);
    for yielding in [Yielding::new(), Yielding::default()] {
        assert_eq!(yielding.idle(99), IdleAction::Spin);
        assert_eq!(yielding.idle(100), IdleAction::Yield);
    }
    let eager = Yielding::with_spin_tries(0);
    assert_eq!(eager.idle(0), IdleAction::Yield);

    for sleeping in [Sleeping::new(), Sleeping::default()] {
        assert_eq!(sleeping.idle(99), IdleAction::Spin);
        assert_eq!(sleeping.idle(100), IdleAction::Yield);
        assert_eq!(sleeping.idle(199), IdleAction::Yield);
        assert_eq!(
            sleeping.idle(200),
            IdleAction::Sleep(Duration::from_nanos(50_000))
        );
    }
    let slow = Sleeping::with(Duration::from_millis(3));
    assert_eq!(
        slow.idle(u32::MAX),
        IdleAction::Sleep(Duration::from_millis(3))
    );

    let parking = Parking::with_tries(1, u32::MAX);
    assert_eq!(parking.idle(0), IdleAction::Spin);
    assert_eq!(parking.idle(1), IdleAction::Yield);
    assert_eq!(parking.idle(u32::MAX), IdleAction::Park);
    assert_eq!(Parking::with_tries(0, 0).idle(0), IdleAction::Park);
    assert_eq!(Blocking::default().idle(0), IdleAction::Park);
}

#[test]
fn a_thread_registers_once() {
    let mut blocking = Blocking::new();
    assert!(blocking.threads().is_empty());
    assert!(blocking.register(7));
    assert!(blocking.register(9));
    assert!(!blocking.register(7));
    assert_eq!(blocking.threads(), &[7, 9]);
}
