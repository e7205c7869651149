//! The machines of a producer and of four stages, interleaved at random, with cursors
//! that are read late.

use rdisruptor::barrier::SequenceBarrier;
use rdisruptor::processor::{Delivery, EventProcessor, Poll};
use rdisruptor::producer::{Claim, SingleProducer, Stall};

/// A small generator of numbers.
struct Numbers(u64);

impl Numbers {
    fn next(&mut self, below: u64) -> u64 {
        self.0 = self
            .0
            .wrapping_mul(6364136223846793005)
            .wrapping_add(1442695040888963407);
        (self.0 >> 33) % below
    }
}

/// A cursor that remembers where it stood, so that it can be read late.
struct Cursor {
    values: Vec<i64>,
}

impl Cursor {
    fn new() -> Self {
        Self { values: vec![-1] }
    }

    fn set(&mut self, value: i64) {
        assert!(value >= self.now(), "cursors only rise");
        self.values.push(value);
    }

    fn now(&self) -> i64 {
        self.values[self.values.len() - 1]
    }

    fn late(&self, numbers: &mut Numbers) -> i64 {
        let back = numbers.next(3) as usize;
        self.values[self.values.len().saturating_sub(1 + back)]
    }
}

struct Stage {
    machine: EventProcessor,
    barrier: SequenceBarrier,
    /// The event that the stage works on.
    holds: Option<i64>,
    delivered: i64,
    batch: i64,
}

struct World {
    capacity: i64,
    max_batch_size: i64,
    alerted: bool,
    producer: SingleProducer,
    claimed: Option<i64>,
    gated: bool,
    published: Cursor,
    cursors: Vec<Cursor>,
    stages: Vec<Stage>,
    deps: Vec<Vec<usize>>,
}

impl World {
    /// Stage 0 is in front of 1 and 2, and 3 is behind both.
    fn new(capacity: i64, max_batch_size: i64) -> Self {
        let deps = vec![vec![], vec![0], vec![0], vec![1, 2]];
        Self {
            capacity,
            max_batch_size,
            alerted: false,
            producer: SingleProducer::new(capacity, vec![3]),
            claimed: None,
            gated: false,
            published: Cursor::new(),
            cursors: (0..4).map(|_| Cursor::new()).collect(),
            stages: deps
                .iter()
                .map(|row| Stage {
                    machine: EventProcessor::new(max_batch_size),
                    barrier: SequenceBarrier::new(row.clone()),
                    holds: None,
                    delivered: -1,
                    batch: 0,
                })
                .collect(),
            deps,
        }
    }

    fn slot(&self, seq: i64) -> i64 {
        seq % self.capacity
    }

    fn move_producer(&mut self, numbers: &mut Numbers) {
        if self.claimed.is_some() {
            let seq = self.producer.commit();
            assert_eq!(Some(seq), self.claimed);
            self.published.set(seq);
            self.claimed = None;
            return;
        }
        let claim = if self.gated {
            let observed = [self.cursors[3].late(numbers)];
            self.producer.check_gate(&observed)
        } else {
            self.producer.begin(self.alerted)
        };
        match claim {
            Claim::Claimed(seq) => {
                self.gated = false;
                self.claimed = Some(seq);
            }
            Claim::Gated if self.gated => {
                if self.producer.stall(self.alerted) == Stall::Shutdown {
                    self.gated = false;
                }
            }
            Claim::Gated => self.gated = true,
            Claim::Shutdown => assert!(self.alerted),
        }
    }

    fn move_stage(&mut self, i: usize, numbers: &mut Numbers) {
        let observed: Vec<i64> = if self.deps[i].is_empty() {
            vec![self.published.late(numbers)]
        } else {
            self.deps[i]
                .iter()
                .map(|&d| self.cursors[d].late(numbers))
                .collect()
        };
        let stage = &mut self.stages[i];
        if stage.machine.is_starting() {
            stage.machine.start();
        } else if stage.machine.is_waiting() {
            if let Poll::Ready(end) = stage.machine.poll(&stage.barrier, self.alerted, &observed) {
                stage.batch = end - stage.delivered;
                assert!(1 <= stage.batch);
                assert!(stage.batch <= self.max_batch_size);
                assert!(stage.batch <= self.capacity);
            }
        } else if stage.machine.is_delivering() {
            match stage.machine.deliver(self.alerted) {
                Delivery::Event {
                    sequence,
                    end_of_batch,
                } => {
                    assert!(!self.alerted);
                    assert_eq!(sequence, stage.delivered + 1, "events come in order");
                    stage.batch -= 1;
                    assert_eq!(end_of_batch, stage.batch == 0);
                    stage.delivered = sequence;
                    stage.holds = Some(sequence);
                }
                Delivery::Done(cursor) | Delivery::Interrupted(cursor) => {
                    assert_eq!(cursor, stage.delivered);
                    stage.holds = None;
                    self.cursors[i].set(cursor);
                }
            }
        }
    }

    fn check(&self) {
        for (i, stage) in self.stages.iter().enumerate() {
            assert!(self.published.now() - self.cursors[i].now() <= self.capacity);
            if let Some(seq) = stage.holds {
                assert!(seq <= self.published.now());
                for &d in &self.deps[i] {
                    assert!(seq <= self.cursors[d].now(), "no stage is overtaken");
                }
                if let Some(claimed) = self.claimed {
                    assert!(self.slot(claimed) != self.slot(seq), "the producer is alone");
                }
            }
        }
        // 0 is ordered against every stage, and so is 3.
        for (i, j) in [(0, 1), (0, 2), (0, 3), (1, 3), (2, 3)] {
            if let (Some(a), Some(b)) = (self.stages[i].holds, self.stages[j].holds) {
                assert!(self.slot(a) != self.slot(b), "ordered stages stay apart");
            }
        }
    }
}

#[test]
fn any_schedule_keeps_the_slots_apart() {
    for seed in 0..200 {
        let mut numbers = Numbers(seed);
        let capacity = 2 << numbers.next(3);
        let max_batch_size = 1 + numbers.next(4) as i64;
        let mut world = World::new(capacity, max_batch_size);
        for _ in 0..2000 {
            match numbers.next(5) {
                4 => world.move_producer(&mut numbers),
                i => world.move_stage(i as usize, &mut numbers),
            }
            world.check();
        }
        assert!(world.published.now() > 0);
        assert!(world.stages[3].delivered > 0);
    }
}

#[test]
fn every_stage_ends_within_three_steps_of_the_alert() {
    for seed in 0..200 {
        let mut numbers = Numbers(seed);
        let mut world = World::new(4, 3);
        for _ in 0..numbers.next(400) {
            match numbers.next(5) {
                4 => world.move_producer(&mut numbers),
                i => world.move_stage(i as usize, &mut numbers),
            }
        }
        world.alerted = true;
        for i in 0..4 {
            for _ in 0..3 {
                world.move_stage(i, &mut numbers);
            }
            assert!(world.stages[i].machine.is_stopped());
            assert_eq!(world.cursors[i].now(), world.stages[i].delivered);
        }
        // What is claimed may still be published, and nothing after it.
        for _ in 0..6 {
            world.move_producer(&mut numbers);
        }
        let published = world.published.now();
        for _ in 0..6 {
            world.move_producer(&mut numbers);
        }
        assert_eq!(world.published.now(), published);
    }
}

#[test]
fn stages_that_are_left_alone_catch_up() {
    for seed in 0..50 {
        let mut numbers = Numbers(seed);
        let mut world = World::new(8, 5);
        for _ in 0..numbers.next(500) {
            match numbers.next(5) {
                4 => world.move_producer(&mut numbers),
                i => world.move_stage(i as usize, &mut numbers),
            }
        }
        for _ in 0..400 {
            for i in 0..4 {
                world.move_stage(i, &mut numbers);
            }
        }
        for i in 0..4 {
            assert_eq!(world.cursors[i].now(), world.published.now());
        }
    }
}
