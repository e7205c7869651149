//! The machines of the producer and of a stage, step by step, and the ring.

use rdisruptor::barrier::SequenceBarrier;
use rdisruptor::graph::Graph;
use rdisruptor::processor::{Delivery, EventProcessor, Poll};
use rdisruptor::producer::{Claim, SingleProducer, Stall};
use rdisruptor::ring::{is_valid_capacity, RingBuffer};
use rdisruptor::sequence::{least_of, Sequence, INITIAL};
use rdisruptor::wait::WaitResult;

#[test]
fn sequences_start_before_the_first_event() {
    let mut sequence = Sequence::default();
    assert_eq!(sequence.get(), -1);
    assert_eq!(INITIAL, -1);
    sequence.set(7);
    assert_eq!(sequence.get(), 7);
    assert_eq!(Sequence::new(3).get(), 3);
}

#[test]
fn the_least_of_no_cursors_is_no_limit() {
    assert_eq!(least_of(&[]), i64::MAX);
    assert_eq!(least_of(&[4, -1, 9]), -1);
    assert_eq!(SingleProducer::min_gate(&[4, 2, 9]), 2);
}

#[test]
fn a_barrier_waits_for_the_slowest() {
    let barrier = SequenceBarrier::new(vec![0, 2]);
    assert_eq!(barrier.deps(), &[0, 2]);
    assert_eq!(barrier.wait_for(5, false, &[7, 4]), None);
    assert_eq!(
        barrier.wait_for(4, false, &[7, 4]),
        Some(WaitResult::Available(4))
    );
    // The alert comes first, whatever is available, even if there is nothing to wait for.
    assert_eq!(
        SequenceBarrier::new(vec![]).wait_for(0, true, &[]),
        Some(WaitResult::Alerted)
    );
    assert_eq!(
        barrier.wait_for(4, true, &[7, 4]),
        Some(WaitResult::Alerted)
    );
}

#[test]
fn a_stage_delivers_batches_and_moves_its_cursor() {
    let barrier = SequenceBarrier::new(vec![]);
    let mut stage = EventProcessor::new(2);
    assert!(stage.is_starting());
    stage.start();
    assert!(stage.is_waiting());
    assert_eq!(stage.poll(&barrier, false, &[-1]), Poll::Idle(0));
    assert_eq!(stage.poll(&barrier, false, &[-1]), Poll::Idle(1));
    // Three events are there, and a batch holds two.
    assert_eq!(stage.poll(&barrier, false, &[2]), Poll::Ready(1));
    assert!(stage.is_delivering());
    assert_eq!(
        stage.deliver(false),
        Delivery::Event {
            sequence: 0,
            end_of_batch: false
        }
    );
    assert_eq!(
        stage.deliver(false),
        Delivery::Event {
            sequence: 1,
            end_of_batch: true
        }
    );
    assert_eq!(stage.deliver(false), Delivery::Done(1));
    assert_eq!(stage.poll(&barrier, false, &[2]), Poll::Ready(2));
    assert_eq!(
        stage.deliver(false),
        Delivery::Event {
            sequence: 2,
            end_of_batch: true
        }
    );
    // A batch that is complete is closed even if the alert is up.
    assert_eq!(stage.deliver(true), Delivery::Done(2));
    assert_eq!(stage.poll(&barrier, true, &[9]), Poll::Stop);
    assert!(stage.is_stopped());
}

#[test]
fn an_alert_interrupts_a_batch() {
    let barrier = SequenceBarrier::new(vec![1]);
    let mut stage = EventProcessor::new(8);
    stage.start();
    assert_eq!(stage.poll(&barrier, false, &[5]), Poll::Ready(5));
    assert_eq!(
        stage.deliver(false),
        Delivery::Event {
            sequence: 0,
            end_of_batch: false
        }
    );
    assert_eq!(stage.deliver(true), Delivery::Interrupted(0));
    assert!(stage.is_stopped());
}

#[test]
fn the_largest_batch_does_not_overflow() {
    let barrier = SequenceBarrier::new(vec![]);
    let mut stage = EventProcessor::new(i64::MAX);
    stage.start();
    assert_eq!(stage.poll(&barrier, false, &[3]), Poll::Ready(3));
    for _ in 0..4 {
        stage.deliver(false);
    }
    assert_eq!(stage.deliver(false), Delivery::Done(3));
    // From here the end of a full batch lies beyond the last sequence.
    assert_eq!(stage.poll(&barrier, false, &[6]), Poll::Ready(6));
}

#[test]
fn a_producer_is_gated_by_the_slowest_stage() {
    let mut producer = SingleProducer::new(2, vec![0, 1]);
    assert_eq!(producer.gating(), &[0, 1]);
    assert_eq!(producer.begin(false), Claim::Claimed(0));
    assert_eq!(producer.commit(), 0);
    assert_eq!(producer.begin(false), Claim::Claimed(1));
    assert_eq!(producer.commit(), 1);
    assert_eq!(producer.next_seq(), 2);

    // The slot of event 2 still holds event 0.
    assert_eq!(producer.begin(false), Claim::Gated);
    assert_eq!(producer.check_gate(&[0, -1]), Claim::Gated);
    assert_eq!(producer.stall(false), Stall::Idle(0));
    assert_eq!(producer.check_gate(&[0, -1]), Claim::Gated);
    assert_eq!(producer.stall(false), Stall::Idle(1));
    assert_eq!(producer.check_gate(&[1, 0]), Claim::Claimed(2));
    assert_eq!(producer.commit(), 2);

    // A slot that was given back is claimed again.
    assert_eq!(producer.begin(false), Claim::Gated);
    assert_eq!(producer.check_gate(&[1, 1]), Claim::Claimed(3));
    producer.abandon();
    assert_eq!(producer.begin(false), Claim::Claimed(3));
    assert_eq!(producer.commit(), 3);

    // An alert while it waits ends the publication.
    assert_eq!(producer.begin(false), Claim::Gated);
    assert_eq!(producer.check_gate(&[1, 1]), Claim::Gated);
    assert_eq!(producer.stall(true), Stall::Shutdown);
    assert_eq!(producer.next_seq(), 4);
    assert_eq!(producer.begin(true), Claim::Shutdown);
}

#[test]
fn capacities_are_powers_of_two() {
    for good in [2usize, 4, 1024, 1 << 62] {
        assert!(is_valid_capacity(good));
    }
    for bad in [0usize, 1, 3, 6, 1 << 63, usize::MAX] {
        assert!(!is_valid_capacity(bad));
    }
}

#[test]
fn slots_are_used_in_turn() {
    let mut ring = RingBuffer::<u64>::new(4);
    assert_eq!(ring.capacity(), 4);
    for seq in 0..4 {
        assert_eq!(*ring.event(seq), 0);
        *ring.event_mut(seq) = seq as u64 + 10;
    }
    assert_eq!(ring.with_slot(5, |event| *event), 11);
    let before = ring.with_slot_mut(7, |event| {
        let before = *event;
        *event = 99;
        before
    });
    assert_eq!(before, 13);
    assert_eq!(*ring.event(3), 99);
    assert_eq!(*ring.event(2), 12);
    assert_eq!(*ring.event(i64::MAX), 99);
    for seq in -9i64..9 {
        assert_eq!(ring.index(seq), seq.rem_euclid(4) as usize);
        assert_eq!(ring.index(seq), ring.index(seq + 4));
    }
}

#[test]
fn a_graph_is_put_in_first_come_order() {
    // 3 and 1 are free; 0 waits for 3, 2 for both.
    let graph = Graph::new(vec![vec![3], vec![], vec![1, 3], vec![]]);
    let order = graph.topological_order().unwrap();
    assert_eq!(order, vec![1, 3, 0, 2]);
    assert_eq!(graph.leaves(), vec![0, 2]);
    assert_eq!(graph.first_unordered(&order, 3), Some(1));
    assert_eq!(graph.dependencies(2), vec![1, 3]);
}

#[test]
fn a_cycle_has_no_order() {
    let graph = Graph::new(vec![vec![], vec![2], vec![1]]);
    assert_eq!(graph.topological_order(), None);
}

#[test]
fn a_chain_is_ordered() {
    let graph = Graph::new(vec![vec![2], vec![0], vec![]]);
    let order = graph.topological_order().unwrap();
    assert_eq!(order, vec![2, 0, 1]);
    for i in 0..3 {
        assert_eq!(graph.first_unordered(&order, i), None);
    }
}
