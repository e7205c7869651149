//! A disruptor: one producer hands events through a ring of slots to a graph of
//! consumers.
//!
//! - [`Consumer`], [`MutConsumer`] and [`WaitStrategy`] are the extension points.
//! - [`DisruptorBuilder`] describes the graph: `consumer(...)` and
//!   `consumer_after(deps, ...)`.
//! - [`Disruptor`] owns the ring and the stages; can list its topology; hands out a
//!   [`SingleProducer`].
//! - [`spsc`] is a thin convenience for the single-consumer case.
//!
//! [`protocol`] states how the producer and the stages share the ring, whoever runs them,
//! and proves what that guarantees. [`state`] adds the events themselves: what was
//! published, and what each stage was handed.

use vstd::prelude::*;

pub mod barrier;
pub mod builder;
pub mod consumer;
pub mod disruptor;
pub mod error;
pub mod graph;
pub mod processor;
pub mod producer;
pub mod protocol;
pub mod ring;
pub mod sequence;
pub mod state;
pub mod text;
pub mod topology;
pub mod wait;

pub use builder::DisruptorBuilder;
pub use consumer::Consumer;
pub use consumer::MutConsumer;
pub use disruptor::Disruptor;
pub use error::BuildError;
pub use error::PublishError;
pub use error::ShutdownError;
pub use producer::SingleProducer;
pub use wait::Blocking;
pub use wait::BusySpin;
pub use wait::IdleAction;
pub use wait::Parking;
pub use wait::Sleeping;
pub use wait::WaitStrategy;
pub use wait::Yielding;

verus! {

/// Convenience for the single-producer / single-consumer case. Equivalent to
/// `DisruptorBuilder::new().capacity(cap).consumer(consumer).build(wait)`.
///
/// # Errors
///
/// Returns [`BuildError::InvalidCapacity`] when `capacity` is less than two,
/// is not a power of two, or cannot fit in an `i64` sequence range, and
/// [`BuildError::InvalidConsumerName`] when the name of the consumer contains a NUL
/// character.
pub fn spsc<T, C, W>(capacity: usize, wait: W, consumer: C) -> (r: Result<
    Disruptor<T, W>,
    BuildError,
>) where T: Default, C: Consumer<T> + 'static, W: WaitStrategy
    ensures
        exists|name: &str| #[trigger]
            call_ensures(<C as Consumer<T>>::name, (&consumer,), name) && {
                let d = builder::Description {
                    capacity: Some(capacity),
                    ..builder::Description::empty()
                }.with(name@, Seq::empty(), false);
                match r {
                    Ok(disruptor) => ring::valid_capacity(capacity as int) && !name@.contains(
                        '\0',
                    ) && builder::is_built(disruptor, d, disruptor@.registered, wait)
                        && disruptor@.registered.len() == 1 && disruptor@.registered[0]
                        == consumer::Stage::<T>::Read(Box::new(consumer)),
                    Err(BuildError::InvalidCapacity {
                        capacity: refused,
                    }) => !ring::valid_capacity(capacity as int) && refused == capacity,
                    Err(BuildError::InvalidConsumerName {
                        consumer: refused,
                    }) => ring::valid_capacity(capacity as int) && name@.contains('\0')
                        && refused@ == name@,
                    Err(_) => false,
                }
            },
{
    let sized: DisruptorBuilder<T> = DisruptorBuilder::new().capacity(capacity);
    let described: DisruptorBuilder<T> = sized.consumer(consumer);
    proof {
        builder::law_single_consumer(described@);
    }
    described.build(wait)
}

} // verus!
