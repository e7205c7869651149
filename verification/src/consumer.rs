//! The handlers that stages run.

use vstd::prelude::*;

verus! {

/// A consumer that reads events.
pub trait Consumer<T>: Send {
    /// The name by which other consumers refer to this one.
    fn name(&self) -> &str;

    fn on_event(&mut self, event: &T, sequence: i64, end_of_batch: bool);

    fn on_start(&mut self) {
    }

    fn on_shutdown(&mut self) {
    }
}

/// A consumer that mutates events in place.
///
/// A mutable stage writes its results directly into the ring slot: no interior
/// mutability, no per-event allocation. Downstream stages observe the mutation because
/// they wait for this stage's cursor.
///
/// Exclusivity is checked at build time: registering a mutable consumer fails with
/// [`BuildError::ConcurrentMutConsumer`](crate::BuildError) unless every other stage in
/// the graph is an ancestor or a descendant of it. Ancestors have finished with a slot
/// before this stage claims it; descendants cannot touch it until this stage's cursor
/// advances past it. A stage with an incomparable sibling could run concurrently on the
/// same slot, so such graphs are rejected.
pub trait MutConsumer<T>: Send {
    /// The name by which other consumers refer to this one.
    fn name(&self) -> &str;

    fn on_event(&mut self, event: &mut T, sequence: i64, end_of_batch: bool);

    fn on_start(&mut self) {
    }

    fn on_shutdown(&mut self) {
    }
}

/// The consumer, asked for its name, gives this one.
#[verifier::inline]
pub open spec fn names<T, C: Consumer<T> + ?Sized>(consumer: &C, name: &str) -> bool {
    call_ensures(<C as Consumer<T>>::name, (consumer,), name)
}

/// The consumer is told to start.
#[verifier::inline]
pub open spec fn starts<T, C: Consumer<T> + ?Sized>(consumer: &mut C) -> bool {
    call_ensures(<C as Consumer<T>>::on_start, (consumer,), ())
}

/// The consumer is handed this event.
#[verifier::inline]
pub open spec fn takes<T, C: Consumer<T> + ?Sized>(
    consumer: &mut C,
    event: &T,
    sequence: i64,
    end_of_batch: bool,
) -> bool {
    call_ensures(<C as Consumer<T>>::on_event, (consumer, event, sequence, end_of_batch), ())
}

/// The consumer is told to shut down.
#[verifier::inline]
pub open spec fn stops<T, C: Consumer<T> + ?Sized>(consumer: &mut C) -> bool {
    call_ensures(<C as Consumer<T>>::on_shutdown, (consumer,), ())
}

/// Asks a consumer of any type for its name.
fn name_of<T, C: Consumer<T> + ?Sized>(consumer: &C) -> (r: &str)
    ensures
        names::<T, C>(consumer, r),
{
    consumer.name()
}

/// Tells a consumer of any type to start.
fn start<T, C: Consumer<T> + ?Sized>(consumer: &mut C)
    ensures
        exists|c: &mut C| #[trigger]
            starts::<T, C>(c) && &*c == &*old(consumer) && &*final(c) == &*final(consumer),
{
    consumer.on_start()
}

/// Hands an event to a consumer of any type.
fn take<T, C: Consumer<T> + ?Sized>(
    consumer: &mut C,
    event: &T,
    sequence: i64,
    end_of_batch: bool,
)
    ensures
        exists|c: &mut C| #[trigger]
            takes::<T, C>(c, event, sequence, end_of_batch) && &*c == &*old(consumer)
                && &*final(c) == &*final(consumer),
{
    consumer.on_event(event, sequence, end_of_batch)
}

/// Tells a consumer of any type to shut down.
fn stop<T, C: Consumer<T> + ?Sized>(consumer: &mut C)
    ensures
        exists|c: &mut C| #[trigger]
            stops::<T, C>(c) && &*c == &*old(consumer) && &*final(c) == &*final(consumer),
{
    consumer.on_shutdown()
}

/// A boxed consumer hands on what it is told.
impl<T> Consumer<T> for Box<dyn Consumer<T>> {
    fn name(&self) -> (r: &str)
        ensures
            names::<T, _>(&**self, r),
    {
        name_of::<T, _>(&**self)
    }

    fn on_event(&mut self, event: &T, sequence: i64, end_of_batch: bool)
        ensures
            exists|c: &mut (dyn Consumer<T> + 'static)| #[trigger]
                takes::<T, _>(c, event, sequence, end_of_batch) && &*c == &**old(self)
                    && &*final(c) == &**final(self),
    {
        take::<T, _>(&mut **self, event, sequence, end_of_batch)
    }

    fn on_start(&mut self)
        ensures
            exists|c: &mut (dyn Consumer<T> + 'static)| #[trigger]
                starts::<T, _>(c) && &*c == &**old(self) && &*final(c) == &**final(self),
    {
        start::<T, _>(&mut **self)
    }

    fn on_shutdown(&mut self)
        ensures
            exists|c: &mut (dyn Consumer<T> + 'static)| #[trigger]
                stops::<T, _>(c) && &*c == &**old(self) && &*final(c) == &**final(self),
    {
        stop::<T, _>(&mut **self)
    }
}

/// The mutable consumer, asked for its name, gives this one.
#[verifier::inline]
pub open spec fn mut_names<T, C: MutConsumer<T> + ?Sized>(consumer: &C, name: &str) -> bool {
    call_ensures(<C as MutConsumer<T>>::name, (consumer,), name)
}

/// The mutable consumer is told to start.
#[verifier::inline]
pub open spec fn mut_starts<T, C: MutConsumer<T> + ?Sized>(consumer: &mut C) -> bool {
    call_ensures(<C as MutConsumer<T>>::on_start, (consumer,), ())
}

/// The mutable consumer is handed this event.
#[verifier::inline]
pub open spec fn mut_takes<T, C: MutConsumer<T> + ?Sized>(
    consumer: &mut C,
    event: &mut T,
    sequence: i64,
    end_of_batch: bool,
) -> bool {
    call_ensures(<C as MutConsumer<T>>::on_event, (consumer, event, sequence, end_of_batch), ())
}

/// The mutable consumer is told to shut down.
#[verifier::inline]
pub open spec fn mut_stops<T, C: MutConsumer<T> + ?Sized>(consumer: &mut C) -> bool {
    call_ensures(<C as MutConsumer<T>>::on_shutdown, (consumer,), ())
}

/// Asks a mutable consumer of any type for its name.
fn mut_name_of<T, C: MutConsumer<T> + ?Sized>(consumer: &C) -> (r: &str)
    ensures
        mut_names::<T, C>(consumer, r),
{
    consumer.name()
}

/// Tells a mutable consumer of any type to start.
fn mut_start<T, C: MutConsumer<T> + ?Sized>(consumer: &mut C)
    ensures
        exists|c: &mut C| #[trigger]
            mut_starts::<T, C>(c) && &*c == &*old(consumer) && &*final(c) == &*final(consumer),
{
    consumer.on_start()
}

/// Hands an event to a mutable consumer of any type.
fn mut_take<T, C: MutConsumer<T> + ?Sized>(
    consumer: &mut C,
    event: &mut T,
    sequence: i64,
    end_of_batch: bool,
)
    ensures
        exists|c: &mut C, e: &mut T| #[trigger]
            mut_takes::<T, C>(c, e, sequence, end_of_batch) && &*c == &*old(consumer)
                && &*final(c) == &*final(consumer) && *e == *old(event) && *final(e)
                == *final(event),
{
    consumer.on_event(event, sequence, end_of_batch)
}

/// Tells a mutable consumer of any type to shut down.
fn mut_stop<T, C: MutConsumer<T> + ?Sized>(consumer: &mut C)
    ensures
        exists|c: &mut C| #[trigger]
            mut_stops::<T, C>(c) && &*c == &*old(consumer) && &*final(c) == &*final(consumer),
{
    consumer.on_shutdown()
}

/// A boxed consumer hands on what it is told.
impl<T> MutConsumer<T> for Box<dyn MutConsumer<T>> {
    fn name(&self) -> (r: &str)
        ensures
            mut_names::<T, _>(&**self, r),
    {
        mut_name_of::<T, _>(&**self)
    }

    fn on_event(&mut self, event: &mut T, sequence: i64, end_of_batch: bool)
        ensures
            exists|c: &mut (dyn MutConsumer<T> + 'static), e: &mut T| #[trigger]
                mut_takes::<T, _>(c, e, sequence, end_of_batch) && &*c == &**old(self)
                    && &*final(c) == &**final(self) && *e == *old(event) && *final(e)
                    == *final(event),
    {
        mut_take::<T, _>(&mut **self, event, sequence, end_of_batch)
    }

    fn on_start(&mut self)
        ensures
            exists|c: &mut (dyn MutConsumer<T> + 'static)| #[trigger]
                mut_starts::<T, _>(c) && &*c == &**old(self) && &*final(c) == &**final(self),
    {
        mut_start::<T, _>(&mut **self)
    }

    fn on_shutdown(&mut self)
        ensures
            exists|c: &mut (dyn MutConsumer<T> + 'static)| #[trigger]
                mut_stops::<T, _>(c) && &*c == &**old(self) && &*final(c) == &**final(self),
    {
        mut_stop::<T, _>(&mut **self)
    }
}

/// A registered stage: reads events, or mutates them in place.
#[verifier::reject_recursive_types(T)]
pub enum Stage<T> {
    Read(Box<dyn Consumer<T> + 'static>),
    Mut(Box<dyn MutConsumer<T> + 'static>),
}

impl<T> Stage<T> {
    pub fn is_mut(&self) -> (r: bool)
        ensures
            r == (*self is Mut),
    {
        matches!(self, Stage::Mut(_))
    }

    /// Tells the consumer to start. The result is a record of the consumer as it is then.
    pub fn on_start(&mut self) -> (r: Ghost<Stage<T>>)
        ensures
            r@ == *final(self),
            match (*old(self), *final(self)) {
                (Stage::Read(before), Stage::Read(after)) => exists|c: &mut Box<dyn Consumer<T>>|
                    #[trigger]
                    call_ensures(<Box<dyn Consumer<T>> as Consumer<T>>::on_start, (c,), ()) && *c
                        == before && *final(c) == after,
                (Stage::Mut(before), Stage::Mut(after)) => exists|
                    c: &mut Box<dyn MutConsumer<T>>,
                | #[trigger]
                    call_ensures(<Box<dyn MutConsumer<T>> as MutConsumer<T>>::on_start, (c,), ())
                        && *c == before && *final(c) == after,
                _ => false,
            },
    {
        match self {
            Stage::Read(c) => c.on_start(),
            Stage::Mut(c) => c.on_start(),
        }
        Ghost(*self)
    }

    /// Hands an event to the consumer. Only a mutable one can change it. The result is a
    /// record of the consumer and of the event as they are then.
    pub fn on_event(&mut self, event: &mut T, sequence: i64, end_of_batch: bool) -> (r: Ghost<
        (Stage<T>, T),
    >)
        ensures
            r@ == (*final(self), *final(event)),
            *old(self) is Read ==> *final(event) == *old(event),
            match (*old(self), *final(self)) {
                (Stage::Read(before), Stage::Read(after)) => exists|c: &mut Box<dyn Consumer<T>>|
                    #[trigger]
                    call_ensures(
                        <Box<dyn Consumer<T>> as Consumer<T>>::on_event,
                        (c, &*old(event), sequence, end_of_batch),
                        (),
                    ) && *c == before && *final(c) == after,
                (Stage::Mut(before), Stage::Mut(after)) => exists|
                    c: &mut Box<dyn MutConsumer<T>>,
                    e: &mut T,
                | #[trigger]
                    call_ensures(
                        <Box<dyn MutConsumer<T>> as MutConsumer<T>>::on_event,
                        (c, e, sequence, end_of_batch),
                        (),
                    ) && *c == before && *final(c) == after && *e == *old(event) && *final(e)
                        == *final(event),
                _ => false,
            },
    {
        match self {
            Stage::Read(c) => c.on_event(event, sequence, end_of_batch),
            Stage::Mut(c) => c.on_event(event, sequence, end_of_batch),
        }
        Ghost((*self, *event))
    }

    /// Tells the consumer to shut down. The result is a record of the consumer as it is
    /// then.
    pub fn on_shutdown(&mut self) -> (r: Ghost<Stage<T>>)
        ensures
            r@ == *final(self),
            match (*old(self), *final(self)) {
                (Stage::Read(before), Stage::Read(after)) => exists|c: &mut Box<dyn Consumer<T>>|
                    #[trigger]
                    call_ensures(<Box<dyn Consumer<T>> as Consumer<T>>::on_shutdown, (c,), ()) && *c
                        == before && *final(c) == after,
                (Stage::Mut(before), Stage::Mut(after)) => exists|
                    c: &mut Box<dyn MutConsumer<T>>,
                | #[trigger]
                    call_ensures(<Box<dyn MutConsumer<T>> as MutConsumer<T>>::on_shutdown, (c,), ())
                        && *c == before && *final(c) == after,
                _ => false,
            },
    {
        match self {
            Stage::Read(c) => c.on_shutdown(),
            Stage::Mut(c) => c.on_shutdown(),
        }
        Ghost(*self)
    }
}

/// A consumer that was told to start has become another.
pub open spec fn is_start<T>(before: Stage<T>, after: Stage<T>) -> bool {
    exists|s: &mut Stage<T>| #[trigger]
        call_ensures(Stage::<T>::on_start, (s,), Ghost(after)) && *s == before
}

/// A consumer that was handed the event `found` has become another and has left the event
/// as `left`.
pub open spec fn is_delivery<T>(
    before: Stage<T>,
    found: T,
    sequence: i64,
    end_of_batch: bool,
    after: Stage<T>,
    left: T,
) -> bool {
    exists|s: &mut Stage<T>, e: &mut T| #[trigger]
        call_ensures(Stage::<T>::on_event, (s, e, sequence, end_of_batch), Ghost((after, left)))
            && *s == before && *e == found
}

/// A consumer that was told to shut down has become another.
pub open spec fn is_shutdown<T>(before: Stage<T>, after: Stage<T>) -> bool {
    exists|s: &mut Stage<T>| #[trigger]
        call_ensures(Stage::<T>::on_shutdown, (s,), Ghost(after)) && *s == before
}

/// To start a stage is to tell its consumer to start.
pub proof fn law_starts_are_calls<T>(before: Stage<T>, after: Stage<T>)
    requires
        is_start(before, after),
    ensures
        match (before, after) {
            (Stage::Read(b), Stage::Read(a)) => exists|c: &mut (dyn Consumer<T> + 'static)|
                #[trigger]
                starts::<T, _>(c) && &*c == &*b && &*final(c) == &*a,
            (Stage::Mut(b), Stage::Mut(a)) => exists|c: &mut (dyn MutConsumer<T> + 'static)|
                #[trigger]
                mut_starts::<T, _>(c) && &*c == &*b && &*final(c) == &*a,
            _ => false,
        },
{
}

/// To hand an event to a stage is to call its consumer with it. A consumer that only
/// reads leaves the event as it found it.
pub proof fn law_deliveries_are_calls<T>(
    before: Stage<T>,
    found: T,
    sequence: i64,
    end_of_batch: bool,
    after: Stage<T>,
    left: T,
)
    requires
        is_delivery(before, found, sequence, end_of_batch, after, left),
    ensures
        match (before, after) {
            (Stage::Read(b), Stage::Read(a)) => left == found && exists|
                c: &mut (dyn Consumer<T> + 'static),
            | #[trigger]
                takes::<T, _>(c, &found, sequence, end_of_batch) && &*c == &*b && &*final(c)
                    == &*a,
            (Stage::Mut(b), Stage::Mut(a)) => exists|
                c: &mut (dyn MutConsumer<T> + 'static),
                e: &mut T,
            | #[trigger]
                mut_takes::<T, _>(c, e, sequence, end_of_batch) && &*c == &*b && &*final(c)
                    == &*a && *e == found && *final(e) == left,
            _ => false,
        },
{
}

/// To shut a stage down is to tell its consumer to shut down.
pub proof fn law_shutdowns_are_calls<T>(before: Stage<T>, after: Stage<T>)
    requires
        is_shutdown(before, after),
    ensures
        match (before, after) {
            (Stage::Read(b), Stage::Read(a)) => exists|c: &mut (dyn Consumer<T> + 'static)|
                #[trigger]
                stops::<T, _>(c) && &*c == &*b && &*final(c) == &*a,
            (Stage::Mut(b), Stage::Mut(a)) => exists|c: &mut (dyn MutConsumer<T> + 'static)|
                #[trigger]
                mut_stops::<T, _>(c) && &*c == &*b && &*final(c) == &*a,
            _ => false,
        },
{
}

/// Whatever a consumer is told, it is told by a call of its own method, with these very
/// arguments.
pub proof fn law_consumers_are_told_by_calls<T, C: Consumer<T> + ?Sized>(
    consumer: &C,
    called: &mut C,
    name: &str,
    event: &T,
    sequence: i64,
    end_of_batch: bool,
)
    ensures
        names::<T, C>(consumer, name) <==> call_ensures(
            <C as Consumer<T>>::name,
            (consumer,),
            name,
        ),
        starts::<T, C>(called) <==> call_ensures(<C as Consumer<T>>::on_start, (called,), ()),
        takes::<T, C>(called, event, sequence, end_of_batch) <==> call_ensures(
            <C as Consumer<T>>::on_event,
            (called, event, sequence, end_of_batch),
            (),
        ),
        stops::<T, C>(called) <==> call_ensures(<C as Consumer<T>>::on_shutdown, (called,), ()),
{
}

/// Whatever a mutable consumer is told, it is told by a call of its own method, with these
/// very arguments.
pub proof fn law_mutable_consumers_are_told_by_calls<T, C: MutConsumer<T> + ?Sized>(
    consumer: &C,
    called: &mut C,
    name: &str,
    event: &mut T,
    sequence: i64,
    end_of_batch: bool,
)
    ensures
        mut_names::<T, C>(consumer, name) <==> call_ensures(
            <C as MutConsumer<T>>::name,
            (consumer,),
            name,
        ),
        mut_starts::<T, C>(called) <==> call_ensures(
            <C as MutConsumer<T>>::on_start,
            (called,),
            (),
        ),
        mut_takes::<T, C>(called, event, sequence, end_of_batch) <==> call_ensures(
            <C as MutConsumer<T>>::on_event,
            (called, event, sequence, end_of_batch),
            (),
        ),
        mut_stops::<T, C>(called) <==> call_ensures(
            <C as MutConsumer<T>>::on_shutdown,
            (called,),
            (),
        ),
{
}

} // verus!
