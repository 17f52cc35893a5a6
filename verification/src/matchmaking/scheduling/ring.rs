//! The lock-free single-producer single-consumer ring buffers that back each
//! request bucket.
//!
//! A ring buffer is split into a producer half, owned by the scheduler, and a
//! consumer half, leased to ground allocators that may run on other threads.
//! Both halves see the same buffer, so what one half observes depends on what
//! the other has done concurrently: the items below state only what holds of
//! every such interleaving.

use vstd::prelude::*;

use ringbuf::traits::{Consumer, Producer, Split};
use ringbuf::{HeapCons, HeapProd, HeapRb};

use crate::generator::generator::MatchmakingRequest;

verus! {

/// A heap-allocated ring buffer of requests, before it is split.
#[verifier::external_body]
pub struct RingBuffer {
    ring: HeapRb<MatchmakingRequest>,
}

/// The producer half of a request ring buffer.
#[verifier::external_body]
pub struct RingProducer {
    producer: HeapProd<MatchmakingRequest>,
}

/// The consumer half of a request ring buffer.
#[verifier::external_body]
pub struct RingConsumer {
    consumer: HeapCons<MatchmakingRequest>,
}

impl RingBuffer {
    /// `HeapRb::new`: allocates a ring buffer with room for `capacity`
    /// requests. The call panics on a zero capacity, which `requires` rules
    /// out. Nothing is promised of the result beyond its type.
    #[verifier::external_body]
    pub fn new(capacity: usize) -> RingBuffer
        requires
            capacity > 0,
    {
        RingBuffer { ring: HeapRb::new(capacity) }
    }

    /// `Split::split`: hands out the producer and consumer halves. Nothing is
    /// promised of them beyond their types.
    #[verifier::external_body]
    pub fn split(self) -> (RingProducer, RingConsumer) {
        let (producer, consumer) = self.ring.split();
        (RingProducer { producer }, RingConsumer { consumer })
    }
}

impl RingProducer {
    /// `Producer::try_push`: appends `request` unless the buffer is full, in
    /// which case the request is handed back unchanged. Whether the buffer is
    /// full depends on the consumer half, so success is not promised.
    #[verifier::external_body]
    pub fn try_push(&mut self, request: MatchmakingRequest) -> (r: Result<(), MatchmakingRequest>)
        ensures
            r matches Err(returned) ==> returned == request,
    {
        self.producer.try_push(request)
    }
}

impl RingConsumer {
    /// `Consumer::try_pop`: removes the oldest request, if any. What the buffer
    /// holds depends on the producer half, so nothing is promised of the
    /// result.
    #[verifier::external_body]
    pub fn try_pop(&mut self) -> Option<MatchmakingRequest> {
        self.consumer.try_pop()
    }

    /// `Consumer::try_peek`: the oldest request, if any, left in place. What
    /// the buffer holds depends on the producer half, so nothing is promised
    /// of the result.
    #[verifier::external_body]
    pub fn try_peek(&self) -> Option<&MatchmakingRequest> {
        self.consumer.try_peek()
    }
}

} // verus!
