//! The bounded single-producer, single-consumer event queue.
//!
//! The queue itself is `ringbuf`'s heap ring buffer. Its two ends live on
//! different threads, so neither end can say what the buffer holds at a given
//! moment. What each end does know is its own history: everything it has put
//! in, or everything it has taken out. The contracts below speak of those
//! histories.

use crate::events::ScheduledEvent;
use vstd::prelude::*;

verus! {

/// The sending end of the event queue: `ringbuf::HeapProd<ScheduledEvent>`.
/// The verifier sees nothing inside it.
#[verifier::external_body]
pub struct EventProducer {
    inner: ringbuf::HeapProd<ScheduledEvent>,
}

/// The receiving end of the event queue: `ringbuf::HeapCons<ScheduledEvent>`.
/// The verifier sees nothing inside it.
#[verifier::external_body]
pub struct EventConsumer {
    inner: ringbuf::HeapCons<ScheduledEvent>,
}

/// Every event that has gone into the queue through this end, oldest first.
pub uninterp spec fn sent(producer: EventProducer) -> Seq<ScheduledEvent>;

/// Every event that this end has offered to the queue and got back because
/// the queue was full, oldest first.
pub uninterp spec fn refused(producer: EventProducer) -> Seq<ScheduledEvent>;

/// Every event that has come out of the queue through this end, oldest first.
pub uninterp spec fn received(consumer: EventConsumer) -> Seq<ScheduledEvent>;

/// How many times this end has asked the queue for an event and found it
/// empty.
pub uninterp spec fn found_empty(consumer: EventConsumer) -> nat;

/// `ringbuf::HeapRb::new` followed by `ringbuf::traits::Split::split`.
///
/// Assumed: a fresh queue has carried nothing yet. `HeapRb::new` panics on a
/// capacity of zero, which the precondition leaves out.
#[verifier::external_body]
fn split_queue(capacity: usize) -> (ends: (EventProducer, EventConsumer))
    requires
        capacity > 0,
    ensures
        sent(ends.0) == Seq::<ScheduledEvent>::empty(),
        received(ends.1) == Seq::<ScheduledEvent>::empty(),
{
    let (producer, consumer) = ringbuf::traits::Split::split(
        ringbuf::HeapRb::<ScheduledEvent>::new(capacity),
    );
    (EventProducer { inner: producer }, EventConsumer { inner: consumer })
}

/// `ringbuf::traits::Producer::try_push`.
///
/// Assumed: on `Ok` the event has been appended to what this end has sent,
/// and nothing was refused; on `Err` the queue was full, the event comes
/// back unchanged and has been appended to what this end was refused, and
/// nothing was sent. Which of the two happens depends on how far the other
/// end has read.
#[verifier::external_body]
pub(crate) fn try_send(producer: &mut EventProducer, event: ScheduledEvent) -> (r: Result<
    (),
    ScheduledEvent,
>)
    ensures
        match r {
            Ok(_) => sent(*final(producer)) == sent(*old(producer)).push(event) && refused(
                *final(producer),
            ) == refused(*old(producer)),
            Err(back) => back == event && sent(*final(producer)) == sent(*old(producer))
                && refused(*final(producer)) == refused(*old(producer)).push(event),
        },
{
    ringbuf::traits::Producer::try_push(&mut producer.inner, event)
}

/// `ringbuf::traits::Consumer::try_pop`.
///
/// Assumed: an event that comes out is appended to what this end has
/// received, and the queue was not found empty; when nothing comes out the
/// queue was found empty once more, and nothing was received. Nothing is
/// assumed about the event itself, nor about when the queue is empty.
#[verifier::external_body]
pub(crate) fn try_receive(consumer: &mut EventConsumer) -> (r: Option<ScheduledEvent>)
    ensures
        match r {
            Some(event) => received(*final(consumer)) == received(*old(consumer)).push(event)
                && found_empty(*final(consumer)) == found_empty(*old(consumer)),
            None => received(*final(consumer)) == received(*old(consumer)) && found_empty(
                *final(consumer),
            ) == found_empty(*old(consumer)) + 1,
        },
{
    ringbuf::traits::Consumer::try_pop(&mut consumer.inner)
}

/// The smallest queue the engine runs with.
pub const MIN_QUEUE_CAPACITY: usize = 4096;

/// Creates an event queue that holds up to `capacity` events and returns its
/// two ends. A capacity of zero is refused.
pub fn event_queue(capacity: usize) -> (r: Option<(EventProducer, EventConsumer)>)
    ensures
        r is Some <==> capacity > 0,
        match r {
            Some(ends) => sent(ends.0) == Seq::<ScheduledEvent>::empty() && received(ends.1)
                == Seq::<ScheduledEvent>::empty(),
            None => true,
        },
{
    if capacity == 0 {
        None
    } else {
        Some(split_queue(capacity))
    }
}

} // verus!
